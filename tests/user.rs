use mutual_credit_clearing::definitions::{anchor_def, user_def, Validation, ValidationPackage};
use mutual_credit_clearing::dht::Dht;
use mutual_credit_clearing::genesis;
use mutual_credit_clearing::record::{address_of, anchor_address, user_address, Entry, User};
use mutual_credit_clearing::user::{
    ensure_anchor_committed, get_my_user, handle_create_user, handle_get_users, list_users,
    LookupError,
};
use mutual_credit_clearing::validation::{
    validate_user_entry, validate_user_name, validate_user_not_registered, EntryLifecycle,
    EntryValidationData, ValidationData, ValidationRejected, USER_NAME_MAX_LENGTH,
};

fn user(agent: &str, name: &str) -> User {
    User { agent: agent.to_string(), name: name.to_string() }
}

fn create(entry: User, lifecycle: EntryLifecycle, chain: Vec<Entry>, sources: Vec<&str>) -> EntryValidationData {
    EntryValidationData::Create {
        entry,
        validation_data: ValidationData {
            lifecycle,
            source_chain_entries: chain,
            sources: sources.into_iter().map(|s| s.to_string()).collect(),
        },
    }
}

#[test]
fn validate_user_name_empty() {
    assert!(validate_user_name(&"".to_string()).is_err());
}

#[test]
fn validate_user_name_too_long() {
    assert!(validate_user_name(&"a".repeat(USER_NAME_MAX_LENGTH + 1)).is_err());
}

#[test]
fn validate_user_not_registered_yes() {
    let addr = "test_addr".to_string();
    let entry = Entry::User(User { agent: addr.clone(), name: "Nick".to_string() });
    let mut registered_users = Vec::new();
    registered_users.push(entry);
    assert!(validate_user_not_registered(registered_users, &addr, EntryLifecycle::Chain).is_err())
}

#[test]
fn validate_user_not_registered_no() {
    let addr1 = "test_addr1".to_string();
    let addr2 = "test_addr2".to_string();
    let entry = Entry::User(User { agent: addr1, name: "Nick".to_string() });
    let mut registered_users = Vec::new();
    registered_users.push(entry);
    assert!(validate_user_not_registered(registered_users, &addr2, EntryLifecycle::Chain).is_ok())
}

#[test]
fn name_length_boundaries() {
    assert_eq!(validate_user_name(&"a".repeat(50)), Ok(()));
    assert_eq!(validate_user_name(&"a".repeat(51)), Err(ValidationRejected::NameTooLong));
    assert_eq!(validate_user_name(&"".to_string()), Err(ValidationRejected::NameEmpty));
    assert_eq!(validate_user_name(&"a".to_string()), Ok(()));
}

#[test]
fn name_length_counts_characters() {
    // 50 two-byte characters: 100 bytes, 50 characters.
    assert_eq!(validate_user_name(&"é".repeat(50)), Ok(()));
    assert_eq!(validate_user_name(&"é".repeat(51)), Err(ValidationRejected::NameTooLong));
}

#[test]
fn partial_view_lets_duplicate_through() {
    let addr = "test_addr".to_string();
    let chain = vec![Entry::User(user("test_addr", "Nick"))];
    assert_eq!(validate_user_not_registered(chain, &addr, EntryLifecycle::Dht), Ok(()));
}

#[test]
fn chain_with_only_anchor_has_no_registration() {
    let addr = "test_addr".to_string();
    let chain = vec![Entry::Anchor("users".to_string())];
    assert_eq!(validate_user_not_registered(chain, &addr, EntryLifecycle::Chain), Ok(()));
}

#[test]
fn validator_accepts_first_registration() {
    let data = create(user("x", "Bob"), EntryLifecycle::Chain, vec![], vec!["x"]);
    assert_eq!(validate_user_entry(data), Ok(()));
}

#[test]
fn validator_rejects_foreign_author() {
    let data = create(user("x", "Bob"), EntryLifecycle::Chain, vec![], vec!["y"]);
    assert_eq!(validate_user_entry(data), Err(ValidationRejected::AuthorshipMismatch));
}

#[test]
fn validator_checks_name_before_authorship() {
    let data = create(user("x", ""), EntryLifecycle::Chain, vec![], vec!["y"]);
    assert_eq!(validate_user_entry(data), Err(ValidationRejected::NameEmpty));
    let data = create(user("x", &"b".repeat(51)), EntryLifecycle::Chain, vec![], vec!["x"]);
    assert_eq!(validate_user_entry(data), Err(ValidationRejected::NameTooLong));
}

#[test]
fn validator_rejects_duplicate_with_full_history() {
    let chain = vec![Entry::User(user("x", "Bob")), Entry::Anchor("users".to_string())];
    let data = create(user("x", "Robert"), EntryLifecycle::Chain, chain, vec!["x"]);
    assert_eq!(validate_user_entry(data), Err(ValidationRejected::DuplicateAgent));
}

#[test]
fn validator_ignores_record_in_flight() {
    let chain = vec![Entry::Anchor("users".to_string()), Entry::User(user("x", "Bob"))];
    let data = create(user("x", "Bob"), EntryLifecycle::Chain, chain, vec!["x"]);
    assert_eq!(validate_user_entry(data), Ok(()));
}

#[test]
fn validator_rejects_earlier_copy_behind_record_in_flight() {
    let chain = vec![Entry::User(user("x", "Bob")), Entry::User(user("x", "Bob"))];
    let data = create(user("x", "Bob"), EntryLifecycle::Chain, chain, vec!["x"]);
    assert_eq!(validate_user_entry(data), Err(ValidationRejected::DuplicateAgent));
}

#[test]
fn validator_accepts_duplicate_with_partial_view() {
    let chain = vec![Entry::User(user("x", "Bob"))];
    let data = create(user("x", "Robert"), EntryLifecycle::Dht, chain, vec!["x"]);
    assert_eq!(validate_user_entry(data), Ok(()));
}

#[test]
fn validator_rejects_modify_and_delete() {
    let data = EntryValidationData::Modify { new_entry: user("x", "Bob"), old_entry: user("x", "Al") };
    assert_eq!(validate_user_entry(data), Err(ValidationRejected::ModifyOrDelete));
    let data = EntryValidationData::Delete { old_entry: user("x", "Al") };
    assert_eq!(validate_user_entry(data), Err(ValidationRejected::ModifyOrDelete));
}

#[test]
fn rejection_reasons_are_words() {
    assert_eq!(ValidationRejected::DuplicateAgent.reason(), "Agent can only register once");
    assert_eq!(ValidationRejected::NameTooLong.reason(), "User name string too long");
}

#[test]
fn addresses_are_derived_from_content() {
    assert_eq!(user_address(&user("addr1", "Alice")), "user|addr1|Alice");
    assert_eq!(user_address(&user("a|b", "c\\d")), "user|a\\|b|c\\\\d");
    assert_ne!(user_address(&user("a|b", "c")), user_address(&user("a", "b|c")));
    assert_eq!(anchor_address(), "user_anchor|users");
    assert_eq!(address_of(&Entry::Anchor("users".to_string())), anchor_address());
    assert_eq!(address_of(&Entry::User(user("addr1", "Alice"))), "user|addr1|Alice");
}

#[test]
fn register_list_and_reject_duplicate() {
    let mut dht = Dht::new();
    let a = handle_create_user(&mut dht, &"addr1".to_string(), "Alice".to_string());
    let address_a = a.clone().unwrap();
    assert_eq!(address_a, user_address(&user("addr1", "Alice")));
    let users = handle_get_users(&dht);
    assert_eq!(users.len(), 1);
    assert_eq!(users[0].address, address_a);
    assert_eq!(users[0].entry, user("addr1", "Alice"));

    let again = handle_create_user(&mut dht, &"addr1".to_string(), "Alicia".to_string());
    assert_eq!(again, Err(ValidationRejected::DuplicateAgent));

    let b = handle_create_user(&mut dht, &"addr2".to_string(), "Bob".to_string());
    let address_b = b.unwrap();
    let users = handle_get_users(&dht);
    assert_eq!(users.len(), 2);
    let mut addresses: Vec<String> = users.iter().map(|g| g.address.clone()).collect();
    addresses.sort();
    let mut expected = vec![address_a, address_b];
    expected.sort();
    assert_eq!(addresses, expected);
}

#[test]
fn same_name_again_is_a_duplicate() {
    let mut dht = Dht::new();
    assert!(handle_create_user(&mut dht, &"x".to_string(), "Bob".to_string()).is_ok());
    assert_eq!(
        handle_create_user(&mut dht, &"x".to_string(), "Bob".to_string()),
        Err(ValidationRejected::DuplicateAgent)
    );
    assert_eq!(handle_get_users(&dht).len(), 1);
}

#[test]
fn bad_names_are_rejected_and_leave_no_trace() {
    let mut dht = Dht::new();
    assert_eq!(
        handle_create_user(&mut dht, &"x".to_string(), "".to_string()),
        Err(ValidationRejected::NameEmpty)
    );
    assert_eq!(
        handle_create_user(&mut dht, &"x".to_string(), "n".repeat(51)),
        Err(ValidationRejected::NameTooLong)
    );
    assert!(handle_get_users(&dht).is_empty());
    assert!(dht.local_chain(&"x".to_string()).is_empty());
    assert!(handle_create_user(&mut dht, &"x".to_string(), "n".repeat(50)).is_ok());
    // A bad name is refused for its name even after a registration.
    assert_eq!(
        handle_create_user(&mut dht, &"x".to_string(), "".to_string()),
        Err(ValidationRejected::NameEmpty)
    );
}

#[test]
fn anchor_commit_is_idempotent() {
    let mut dht = Dht::new();
    let first = ensure_anchor_committed(&mut dht);
    let second = ensure_anchor_committed(&mut dht);
    assert_eq!(first, second);
    assert_eq!(first, anchor_address());
    assert_eq!(dht.get_entry(&first), Some(Entry::Anchor("users".to_string())));
    assert!(handle_get_users(&dht).is_empty());
}

#[test]
fn listing_skips_nothing_and_lists_content_addresses() {
    let mut dht = Dht::new();
    handle_create_user(&mut dht, &"x".to_string(), "Bob".to_string()).unwrap();
    handle_create_user(&mut dht, &"y".to_string(), "Al".to_string()).unwrap();
    let listing = list_users(&dht);
    assert_eq!(listing.users.len(), 2);
    assert!(listing.skipped.is_empty());
    for g in &listing.users {
        assert_eq!(g.address, user_address(&g.entry));
    }
}

#[test]
fn registration_goes_on_the_agents_chain() {
    let mut dht = Dht::new();
    handle_create_user(&mut dht, &"x".to_string(), "Bob".to_string()).unwrap();
    assert_eq!(dht.local_chain(&"x".to_string()), vec![Entry::User(user("x", "Bob"))]);
    assert!(dht.local_chain(&"y".to_string()).is_empty());
}

#[test]
fn one_registration_link_per_user() {
    let mut dht = Dht::new();
    let a = handle_create_user(&mut dht, &"x".to_string(), "Bob".to_string()).unwrap();
    assert!(handle_create_user(&mut dht, &"x".to_string(), "Bob".to_string()).is_err());
    let anchor = anchor_address();
    let t = "user_registration".to_string();
    assert_eq!(dht.get_links(&anchor, &t), vec![a]);
    assert!(dht.get_links(&anchor, &"other".to_string()).is_empty());
}

#[test]
fn listing_grows_with_registrations() {
    let mut dht = Dht::new();
    let a = handle_create_user(&mut dht, &"x".to_string(), "Bob".to_string()).unwrap();
    ensure_anchor_committed(&mut dht);
    let b = handle_create_user(&mut dht, &"y".to_string(), "Al".to_string()).unwrap();
    let addresses: Vec<String> = handle_get_users(&dht).into_iter().map(|g| g.address).collect();
    assert_eq!(addresses, vec![a.clone(), b.clone()]);
    assert_eq!(get_my_user(&dht, &"x".to_string()), Ok(a));
    assert_eq!(get_my_user(&dht, &"y".to_string()), Ok(b));
}

#[test]
fn my_user_is_found_by_agent() {
    let mut dht = Dht::new();
    assert_eq!(get_my_user(&dht, &"x".to_string()), Err(LookupError::HashNotFound));
    let a = handle_create_user(&mut dht, &"x".to_string(), "Bob".to_string()).unwrap();
    handle_create_user(&mut dht, &"y".to_string(), "Al".to_string()).unwrap();
    assert_eq!(get_my_user(&dht, &"x".to_string()), Ok(a));
    assert_eq!(get_my_user(&dht, &"z".to_string()), Err(LookupError::HashNotFound));
}

#[test]
fn genesis_succeeds() {
    assert!(genesis().is_ok());
}

#[test]
fn entry_definitions() {
    let u = user_def();
    assert_eq!(u.name, "user");
    assert_eq!(u.validation_package, ValidationPackage::ChainFull);
    assert_eq!(u.links[0].target_type, "transaction");
    assert_eq!(u.links[0].link_type, "from_user");
    let a = anchor_def();
    assert_eq!(a.name, "user_anchor");
    assert_eq!(a.validation_package, ValidationPackage::Entry);
    assert_eq!(a.links[0].target_type, "user");
    assert_eq!(a.links[0].link_type, "user_registration");
}

#[test]
fn entry_definitions_validate() {
    let u = user_def();
    assert_eq!(u.validation, Validation::UserRules);
    let ok = create(user("x", "Bob"), EntryLifecycle::Chain, vec![], vec!["x"]);
    assert_eq!(u.validate(ok), Ok(()));
    let foreign = create(user("x", "Bob"), EntryLifecycle::Chain, vec![], vec!["y"]);
    assert_eq!(u.validate(foreign), Err(ValidationRejected::AuthorshipMismatch));
    let chain = vec![Entry::User(user("x", "Bob"))];
    let bad = create(user("x", ""), EntryLifecycle::Chain, chain, vec!["x"]);
    assert_eq!(u.validate(bad), Err(ValidationRejected::NameEmpty));
    let a = anchor_def();
    assert_eq!(a.validation, Validation::AcceptAll);
    let any = EntryValidationData::Delete { old_entry: user("x", "Al") };
    assert_eq!(a.validate(any), Ok(()));
}
