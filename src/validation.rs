//! The decision whether a proposed registration record is acceptable, taken
//! by each validating replica from the evidence it holds.
use vstd::prelude::*;
use crate::record::{Entry, EntryView, User, UserView, entries_view};

verus! {

/// Longest accepted user name, in characters.
pub const USER_NAME_MAX_LENGTH: usize = 50;

/// Why a proposed registration was refused.
#[derive(Clone, Copy, Debug, PartialEq, Eq, Structural)]
pub enum ValidationRejected {
    /// The name has no characters.
    NameEmpty,
    /// The name has more than `USER_NAME_MAX_LENGTH` characters.
    NameTooLong,
    /// The agent already has a registration in its history.
    DuplicateAgent,
    /// The record names an agent other than the one that authored it.
    AuthorshipMismatch,
    /// Registrations cannot be modified or deleted once made.
    ModifyOrDelete,
}

impl ValidationRejected {
    /// The reason in words.
    pub fn reason(&self) -> (r: String)
        ensures
            r@ == match self {
                ValidationRejected::NameEmpty => "User name string cannot be empty"@,
                ValidationRejected::NameTooLong => "User name string too long"@,
                ValidationRejected::DuplicateAgent => "Agent can only register once"@,
                ValidationRejected::AuthorshipMismatch => "Cannot register a user from another agent"@,
                ValidationRejected::ModifyOrDelete => "Cannot modify or delete user"@,
            },
    {
        match self {
            ValidationRejected::NameEmpty => String::from_str("User name string cannot be empty"),
            ValidationRejected::NameTooLong => String::from_str("User name string too long"),
            ValidationRejected::DuplicateAgent => String::from_str("Agent can only register once"),
            ValidationRejected::AuthorshipMismatch => String::from_str(
                "Cannot register a user from another agent",
            ),
            ValidationRejected::ModifyOrDelete => String::from_str("Cannot modify or delete user"),
        }
    }
}

/// How much of the authoring agent's history the validator holds.
#[derive(Clone, Copy, Debug, PartialEq, Eq, Structural)]
pub enum EntryLifecycle {
    /// The agent's full history is at hand.
    Chain,
    /// Only part of the history, or the record alone, is at hand.
    Dht,
}

/// The evidence handed to the validator with a proposed record.
pub struct ValidationData {
    pub lifecycle: EntryLifecycle,
    /// The authoring agent's history, oldest first. It may end with the
    /// proposed record itself while that record is in flight.
    pub source_chain_entries: Vec<Entry>,
    /// The agents whose signatures produced the proposal.
    pub sources: Vec<String>,
}

/// The operation proposed on a registration record.
pub enum EntryValidationData {
    Create { entry: User, validation_data: ValidationData },
    Modify { new_entry: User, old_entry: User },
    Delete { old_entry: User },
}

/// The outcome of the name check.
pub open spec fn name_check(name: Seq<char>) -> Result<(), ValidationRejected> {
    if name.len() > USER_NAME_MAX_LENGTH {
        Err(ValidationRejected::NameTooLong)
    } else if name.len() == 0 {
        Err(ValidationRejected::NameEmpty)
    } else {
        Ok(())
    }
}

/// A name is valid when it has 1 to `USER_NAME_MAX_LENGTH` characters.
pub open spec fn valid_name(name: Seq<char>) -> bool {
    1 <= name.len() <= USER_NAME_MAX_LENGTH
}

/// Is `e` a registration of `agent`?
pub open spec fn is_user_of(e: EntryView, agent: Seq<char>) -> bool {
    match e {
        EntryView::User(u) => u.agent == agent,
        EntryView::Anchor(_) => false,
    }
}

/// Does the history hold a registration of `agent`?
pub open spec fn has_user_for(chain: Seq<EntryView>, agent: Seq<char>) -> bool {
    exists|i: int| 0 <= i < chain.len() && is_user_of(#[trigger] chain[i], agent)
}

/// The history without the proposed record, where it stands last in flight.
pub open spec fn prior_history(chain: Seq<EntryView>, proposed: UserView) -> Seq<EntryView> {
    if chain.len() > 0 && chain.last() == EntryView::User(proposed) {
        chain.drop_last()
    } else {
        chain
    }
}

/// The outcome of the uniqueness check: a hard rule only with the full history.
pub open spec fn uniqueness_check(
    chain: Seq<EntryView>,
    agent: Seq<char>,
    lifecycle: EntryLifecycle,
) -> Result<(), ValidationRejected> {
    if lifecycle == EntryLifecycle::Chain && has_user_for(chain, agent) {
        Err(ValidationRejected::DuplicateAgent)
    } else {
        Ok(())
    }
}

/// The decision on creating registration `u`, in order: name, authorship,
/// uniqueness against the history without the proposed record.
pub open spec fn create_check(
    u: UserView,
    lifecycle: EntryLifecycle,
    chain: Seq<EntryView>,
    sources: Seq<Seq<char>>,
) -> Result<(), ValidationRejected> {
    if name_check(u.name) is Err {
        name_check(u.name)
    } else if !sources.contains(u.agent) {
        Err(ValidationRejected::AuthorshipMismatch)
    } else {
        uniqueness_check(prior_history(chain, u), u.agent, lifecycle)
    }
}

/// Checks that a user name has 1 to `USER_NAME_MAX_LENGTH` characters.
pub fn validate_user_name(name: &String) -> (r: Result<(), ValidationRejected>)
    ensures
        r == name_check(name@),
        r is Ok <==> valid_name(name@),
{
    let n: usize = name.as_str().unicode_len();
    if n > USER_NAME_MAX_LENGTH {
        Err(ValidationRejected::NameTooLong)
    } else if n == 0 {
        Err(ValidationRejected::NameEmpty)
    } else {
        Ok(())
    }
}

/// Does `chain` hold a registration of `agent`?
pub fn chain_has_user_for(chain: &Vec<Entry>, agent: &String) -> (r: bool)
    ensures
        r == has_user_for(entries_view(chain@), agent@),
{
    let ghost cv = entries_view(chain@);
    let n = chain.len();
    for i in 0..n
        invariant
            n == chain@.len(),
            cv == entries_view(chain@),
            forall|j: int|
                0 <= j < i ==> !is_user_of(#[trigger] cv[j], agent@),
    {
        match &chain[i] {
            Entry::User(u) => {
                if u.agent == *agent {
                    assert(is_user_of(cv[i as int], agent@));
                    return true;
                }
            },
            Entry::Anchor(_) => {},
        }
    }
    false
}

/// Checks that `agent_address` has not registered yet. Enforced only when the
/// full history is at hand; with a partial view the registration is let
/// through, and validators that hold the full history catch a duplicate.
pub fn validate_user_not_registered(
    local_chain: Vec<Entry>,
    agent_address: &String,
    lifecycle: EntryLifecycle,
) -> (r: Result<(), ValidationRejected>)
    ensures
        r == uniqueness_check(entries_view(local_chain@), agent_address@, lifecycle),
{
    match lifecycle {
        EntryLifecycle::Chain => {
            if chain_has_user_for(&local_chain, agent_address) {
                return Err(ValidationRejected::DuplicateAgent);
            }
        },
        EntryLifecycle::Dht => {},
    }
    Ok(())
}

/// The views of a sequence of strings.
pub open spec fn strings_view(s: Seq<String>) -> Seq<Seq<char>> {
    s.map_values(|x: String| x@)
}

/// The decision on a proposed operation: only a creation can be accepted.
pub open spec fn user_validation(data: EntryValidationData) -> Result<(), ValidationRejected> {
    match data {
        EntryValidationData::Create { entry, validation_data } => create_check(
            entry@,
            validation_data.lifecycle,
            entries_view(validation_data.source_chain_entries@),
            strings_view(validation_data.sources@),
        ),
        _ => Err(ValidationRejected::ModifyOrDelete),
    }
}

/// Is `agent` among `sources`?
fn sources_contain(sources: &Vec<String>, agent: &String) -> (r: bool)
    ensures
        r == strings_view(sources@).contains(agent@),
{
    let ghost sv = strings_view(sources@);
    let n = sources.len();
    for i in 0..n
        invariant
            n == sources@.len(),
            sv == strings_view(sources@),
            forall|j: int| 0 <= j < i ==> #[trigger] sv[j] != agent@,
    {
        if sources[i] == *agent {
            assert(sv[i as int] == agent@);
            return true;
        }
    }
    false
}

/// Is `e` the record `u`?
fn is_same_user(e: &Entry, u: &User) -> (r: bool)
    ensures
        r == (e@ == EntryView::User(u@)),
{
    match e {
        Entry::User(w) => w.agent == u.agent && w.name == u.name,
        Entry::Anchor(_) => false,
    }
}

/// Decides whether a proposed operation on a registration record is
/// accepted. A creation is checked for a well-formed name, then for being
/// signed by the agent it names, then against the agent's earlier
/// registrations; a modification or deletion is always refused.
pub fn validate_user_entry(data: EntryValidationData) -> (r: Result<(), ValidationRejected>)
    ensures
        r == user_validation(data),
        !(data is Create) ==> r == Err::<(), ValidationRejected>(
            ValidationRejected::ModifyOrDelete,
        ),
        data matches EntryValidationData::Create { entry, validation_data } ==> {
            &&& !valid_name(entry.name@) ==> r == name_check(entry.name@) && r is Err
            &&& valid_name(entry.name@) && !strings_view(validation_data.sources@).contains(
                entry.agent@,
            ) ==> r == Err::<(), ValidationRejected>(ValidationRejected::AuthorshipMismatch)
            &&& r is Ok ==> valid_name(entry.name@) && strings_view(
                validation_data.sources@,
            ).contains(entry.agent@)
        },
{
    match data {
        EntryValidationData::Create { entry, validation_data } => {
            let named = validate_user_name(&entry.name);
            if named.is_err() {
                return named;
            }
            if !sources_contain(&validation_data.sources, &entry.agent) {
                return Err(ValidationRejected::AuthorshipMismatch);
            }
            let lifecycle = validation_data.lifecycle;
            let mut chain = validation_data.source_chain_entries;
            let ghost whole = entries_view(chain@);
            let n = chain.len();
            if n > 0 && is_same_user(&chain[n - 1], &entry) {
                chain.pop();
                assert(entries_view(chain@) =~= whole.drop_last());
            }
            validate_user_not_registered(chain, &entry.agent, lifecycle)
        },
        _ => Err(ValidationRejected::ModifyOrDelete),
    }
}

} // verus!
