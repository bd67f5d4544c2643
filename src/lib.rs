//! Agent registration with one user per agent, and discovery of registered
//! users through a well-known anchor record that every registration links from.
use vstd::prelude::*;

pub mod definitions;
pub mod dht;
pub mod record;
pub mod user;
pub mod validation;

verus! {

/// Initialisation hook of the registration module: nothing to set up.
pub fn genesis() -> (r: Result<(), ()>)
    ensures
        r is Ok,
{
    Ok(())
}

} // verus!
