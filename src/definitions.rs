//! Descriptions of the two record types: their names, what evidence their
//! validation needs, and which links may start at them.
use vstd::prelude::*;
use crate::record::{anchor_tag, user_tag};
use crate::user::registration_link_type;
use crate::validation::{EntryValidationData, ValidationRejected, user_validation, validate_user_entry};

verus! {

/// The evidence that validating a record needs.
#[derive(Clone, Copy, Debug, PartialEq, Eq, Structural)]
pub enum ValidationPackage {
    /// The authoring agent's full history.
    ChainFull,
    /// The record alone.
    Entry,
}

/// The rules that proposed records of a type are validated by.
#[derive(Clone, Copy, Debug, PartialEq, Eq, Structural)]
pub enum Validation {
    /// The registration rules of `validate_user_entry`.
    UserRules,
    /// Every record is accepted.
    AcceptAll,
}

/// A link type that may start at records of a type.
pub struct LinkDef {
    pub target_type: String,
    pub link_type: String,
    pub validation_package: ValidationPackage,
}

/// A record type.
pub struct EntryDef {
    pub name: String,
    pub description: String,
    pub public: bool,
    pub validation_package: ValidationPackage,
    pub validation: Validation,
    pub links: Vec<LinkDef>,
}

impl EntryDef {
    /// Runs this type's validation on a proposed operation on a
    /// registration record.
    pub fn validate(&self, data: EntryValidationData) -> (r: Result<(), ValidationRejected>)
        ensures
            self.validation == Validation::UserRules ==> r == user_validation(data),
            self.validation == Validation::AcceptAll ==> r is Ok,
    {
        match self.validation {
            Validation::UserRules => validate_user_entry(data),
            Validation::AcceptAll => Ok(()),
        }
    }
}

/// The registration record type: public, validated by `validate_user_entry`
/// against the author's full history, with links to transactions.
pub fn user_def() -> (r: EntryDef)
    ensures
        r.name@ == user_tag(),
        r.public,
        r.validation_package == ValidationPackage::ChainFull,
        r.validation == Validation::UserRules,
        r.links@.len() == 1,
        r.links@[0].target_type@ == "transaction"@,
        r.links@[0].link_type@ == "from_user"@,
        r.links@[0].validation_package == ValidationPackage::Entry,
{
    proof {
        reveal_strlit("user");
    }
    let name = String::from_str("user");
    assert(name@ =~= user_tag());
    let mut links: Vec<LinkDef> = Vec::new();
    links.push(
        LinkDef {
            target_type: String::from_str("transaction"),
            link_type: String::from_str("from_user"),
            validation_package: ValidationPackage::Entry,
        },
    );
    EntryDef {
        name,
        description: String::from_str("Represents an agent registered on the network"),
        public: true,
        validation_package: ValidationPackage::ChainFull,
        validation: Validation::UserRules,
        links,
    }
}

/// The anchor record type: public, accepted as it is, with the registration
/// links to user records.
pub fn anchor_def() -> (r: EntryDef)
    ensures
        r.name@ == anchor_tag(),
        r.public,
        r.validation_package == ValidationPackage::Entry,
        r.validation == Validation::AcceptAll,
        r.links@.len() == 1,
        r.links@[0].target_type@ == user_tag(),
        r.links@[0].link_type@ == registration_link_type(),
        r.links@[0].validation_package == ValidationPackage::Entry,
{
    proof {
        reveal_strlit("user");
        reveal_strlit("user_anchor");
        reveal_strlit("user_registration");
    }
    let name = String::from_str("user_anchor");
    assert(name@ =~= anchor_tag());
    let target_type = String::from_str("user");
    assert(target_type@ =~= user_tag());
    let link_type = String::from_str("user_registration");
    assert(link_type@ =~= registration_link_type());
    let mut links: Vec<LinkDef> = Vec::new();
    links.push(LinkDef { target_type, link_type, validation_package: ValidationPackage::Entry });
    EntryDef {
        name,
        description: String::from_str("Central known location to link from"),
        public: true,
        validation_package: ValidationPackage::Entry,
        validation: Validation::AcceptAll,
        links,
    }
}

} // verus!
