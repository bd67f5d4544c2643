//! Registering the calling agent as a user, and listing the registered users
//! through the links that start at the well-known anchor.
//!
//! One user per agent is enforced by the validator on the agent's own
//! history; nothing checks that distinct agents are distinct persons.
use vstd::prelude::*;
use crate::dht::{AuthoredView, Dht, DhtView, LinkView, chain_of, link_targets, with_link};
use crate::record::{
    entry_address, Entry, EntryView, User, UserView, anchor_address, anchor_address_spec,
    lemma_address_injective, user_address_of, users_anchor, users_anchor_entry,
};
use crate::validation::{
    EntryLifecycle, EntryValidationData, ValidationData, ValidationRejected,
    has_user_for, name_check, prior_history, strings_view, valid_name, validate_user_entry,
};

verus! {

/// A record together with the address it is stored under.
#[derive(Clone, Debug, PartialEq, Eq)]
pub struct GetResponse<T> {
    pub entry: T,
    pub address: String,
}

/// Type of the links from the anchor to the registrations.
pub open spec fn registration_link_type() -> Seq<char> {
    seq!['u', 's', 'e', 'r', '_', 'r', 'e', 'g', 'i', 's', 't', 'r', 'a', 't', 'i', 'o', 'n']
}

/// The link that makes the registration at `target` discoverable.
pub open spec fn registration_link(target: Seq<char>) -> LinkView {
    LinkView {
        base: anchor_address_spec(),
        target,
        link_type: registration_link_type(),
        tag: Seq::empty(),
    }
}

/// The store once the anchor is in it.
pub open spec fn anchor_committed(d: DhtView) -> DhtView {
    DhtView { entries: d.entries.insert(anchor_address_spec(), users_anchor()), ..d }
}

/// What registering `agent` under `name` returns: the address of the new
/// registration, or why it is refused.
pub open spec fn register_outcome(d: DhtView, agent: Seq<char>, name: Seq<char>) -> Result<
    Seq<char>,
    ValidationRejected,
> {
    match name_check(name) {
        Err(e) => Err(e),
        Ok(_) => if has_user_for(chain_of(d.history, agent), agent) {
            Err(ValidationRejected::DuplicateAgent)
        } else {
            Ok(user_address_of(UserView { agent, name }))
        },
    }
}

/// The store after an accepted registration: the record in the agent's
/// chain and in the store, the anchor stored, and the link from the anchor.
pub open spec fn registered(d: DhtView, agent: Seq<char>, name: Seq<char>) -> DhtView {
    let u = UserView { agent, name };
    let ua = user_address_of(u);
    let authored = DhtView {
        entries: d.entries.insert(ua, EntryView::User(u)),
        links: d.links,
        history: d.history.push(AuthoredView { author: agent, entry: EntryView::User(u) }),
    };
    let anchored = anchor_committed(authored);
    DhtView { links: with_link(anchored.links, registration_link(ua)), ..anchored }
}

/// Every record sits under its own content address.
pub open spec fn content_addressed(entries: Map<Seq<char>, EntryView>) -> bool {
    forall|a: Seq<char>| #[trigger] entries.contains_key(a) ==> entry_address(entries[a]) == a
}

/// An authored record that passed validation: a registration of its own
/// author with a well-formed name.
pub open spec fn validated_registration(a: AuthoredView) -> bool {
    &&& a.entry is User
    &&& a.entry->User_0.agent == a.author
    &&& valid_name(a.entry->User_0.name)
}

/// The registrations in the store are those that passed validation, at
/// most one per agent, and the anchor links to registrations only.
pub open spec fn consistent(d: DhtView) -> bool {
    &&& forall|k: int| 0 <= k < d.history.len() ==> validated_registration(#[trigger] d.history[k])
    &&& forall|k1: int, k2: int|
        0 <= k1 < d.history.len() && 0 <= k2 < d.history.len() && k1 != k2
            ==> #[trigger] d.history[k1].author != #[trigger] d.history[k2].author
    &&& forall|a: Seq<char>|
        #[trigger] d.entries.contains_key(a) && d.entries[a] is User ==> d.history.contains(
            AuthoredView { author: d.entries[a]->User_0.agent, entry: d.entries[a] },
        )
    &&& forall|i: int|
        0 <= i < d.links.len() ==> {
            &&& #[trigger] d.links[i] == registration_link(d.links[i].target)
            &&& d.entries.contains_key(d.links[i].target)
            &&& d.entries[d.links[i].target] is User
        }
}

/// The store as a directory: content addressed, without duplicate links,
/// and consistent.
pub open spec fn directory_wf(d: DhtView) -> bool {
    &&& content_addressed(d.entries)
    &&& d.links.no_duplicates()
    &&& consistent(d)
}

/// The store once registration `u` is authored by its agent.
pub open spec fn authored(d: DhtView, u: UserView) -> DhtView {
    DhtView {
        entries: d.entries.insert(user_address_of(u), EntryView::User(u)),
        links: d.links,
        history: d.history.push(AuthoredView { author: u.agent, entry: EntryView::User(u) }),
    }
}

/// An authored record of `agent` is on its chain.
proof fn lemma_chain_of_member(h: Seq<AuthoredView>, agent: Seq<char>, k: int)
    requires
        0 <= k < h.len(),
        h[k].author == agent,
    ensures
        chain_of(h, agent).contains(h[k].entry),
    decreases h.len(),
{
    let prev = chain_of(h.drop_last(), agent);
    if k == h.len() - 1 {
        assert(prev.push(h[k].entry)[prev.len() as int] == h[k].entry);
    } else {
        assert(h.drop_last()[k] == h[k]);
        lemma_chain_of_member(h.drop_last(), agent, k);
        let j = choose|j: int| 0 <= j < prev.len() && prev[j] == h[k].entry;
        if h.last().author == agent {
            assert(prev.push(h.last().entry)[j] == h[k].entry);
        }
    }
}

/// A first registration that passed validation keeps the directory
/// consistent.
proof fn lemma_authored_wf(d: DhtView, u: UserView)
    requires
        directory_wf(d),
        valid_name(u.name),
        !has_user_for(chain_of(d.history, u.agent), u.agent),
    ensures
        directory_wf(authored(d, u)),
{
    let ua = user_address_of(u);
    let e = EntryView::User(u);
    let n = authored(d, u);
    let av = AuthoredView { author: u.agent, entry: e };
    assert(n.history[d.history.len() as int] == av);
    assert forall|k: int| 0 <= k < d.history.len() implies #[trigger] d.history[k].author != u.agent by {
        if d.history[k].author == u.agent {
            lemma_chain_of_member(d.history, u.agent, k);
            let c = chain_of(d.history, u.agent);
            let j = choose|j: int| 0 <= j < c.len() && c[j] == d.history[k].entry;
            assert(validated_registration(d.history[k]));
            assert(crate::validation::is_user_of(c[j], u.agent));
        }
    }
    assert forall|k: int| 0 <= k < n.history.len() implies validated_registration(#[trigger] n.history[k]) by {
        if k < d.history.len() {
            assert(n.history[k] == d.history[k]);
        }
    }
    assert forall|k1: int, k2: int|
        0 <= k1 < n.history.len() && 0 <= k2 < n.history.len() && k1 != k2
        implies #[trigger] n.history[k1].author != #[trigger] n.history[k2].author by {
        if k1 < d.history.len() {
            assert(n.history[k1] == d.history[k1]);
        }
        if k2 < d.history.len() {
            assert(n.history[k2] == d.history[k2]);
        }
    }
    assert forall|a: Seq<char>| #[trigger] n.entries.contains_key(a) && n.entries[a] is User implies n.history.contains(
        AuthoredView { author: n.entries[a]->User_0.agent, entry: n.entries[a] },
    ) by {
        if a != ua {
            let x = AuthoredView { author: d.entries[a]->User_0.agent, entry: d.entries[a] };
            let k = choose|k: int| 0 <= k < d.history.len() && d.history[k] == x;
            assert(n.history[k] == x);
        }
    }
    assert(content_addressed(n.entries));
}

/// Storing the anchor keeps the directory consistent: by content
/// addressing it can displace no registration.
proof fn lemma_anchor_wf(d: DhtView)
    requires
        directory_wf(d),
    ensures
        directory_wf(anchor_committed(d)),
        forall|a: Seq<char>| #[trigger] d.entries.contains_key(a) ==> anchor_committed(d).entries[a] == d.entries[a],
{
    let n = anchor_committed(d);
    let aa = anchor_address_spec();
    assert forall|a: Seq<char>| #[trigger] d.entries.contains_key(a) implies n.entries[a] == d.entries[a] by {
        if a == aa {
            lemma_address_injective(d.entries[a], users_anchor());
        }
    }
    assert forall|a: Seq<char>| #[trigger] n.entries.contains_key(a) && n.entries[a] is User implies n.history.contains(
        AuthoredView { author: n.entries[a]->User_0.agent, entry: n.entries[a] },
    ) by {
        assert(d.entries.contains_key(a));
    }
    assert forall|i: int| 0 <= i < n.links.len() implies {
        &&& #[trigger] n.links[i] == registration_link(n.links[i].target)
        &&& n.entries.contains_key(n.links[i].target)
        &&& n.entries[n.links[i].target] is User
    } by {
        assert(d.entries.contains_key(d.links[i].target));
    }
    assert(content_addressed(n.entries));
}

/// Linking a stored registration from the anchor keeps the directory
/// consistent.
proof fn lemma_linked_wf(d: DhtView, ua: Seq<char>)
    requires
        directory_wf(d),
        d.entries.contains_key(ua),
        d.entries[ua] is User,
    ensures
        directory_wf(DhtView { links: with_link(d.links, registration_link(ua)), ..d }),
{
    crate::dht::lemma_link_made_once(d.links, registration_link(ua));
    let n = DhtView { links: with_link(d.links, registration_link(ua)), ..d };
    if !d.links.contains(registration_link(ua)) {
        assert forall|i: int| 0 <= i < n.links.len() implies {
            &&& #[trigger] n.links[i] == registration_link(n.links[i].target)
            &&& n.entries.contains_key(n.links[i].target)
            &&& n.entries[n.links[i].target] is User
        } by {
            if i < d.links.len() {
                assert(n.links[i] == d.links[i]);
            }
        }
    }
}

/// A registration that passed validation leaves the directory consistent.
pub proof fn lemma_registered_wf(d: DhtView, agent: Seq<char>, name: Seq<char>)
    requires
        directory_wf(d),
        register_outcome(d, agent, name) is Ok,
    ensures
        directory_wf(registered(d, agent, name)),
{
    let u = UserView { agent, name };
    lemma_authored_wf(d, u);
    let a = authored(d, u);
    lemma_anchor_wf(a);
    lemma_user_address_is_not_anchor(u);
    lemma_linked_wf(anchor_committed(a), user_address_of(u));
}

/// The registrations found at `targets`, in order, with their addresses.
pub open spec fn load_users(targets: Seq<Seq<char>>, entries: Map<Seq<char>, EntryView>) -> Seq<
    (Seq<char>, UserView),
>
    decreases targets.len(),
{
    if targets.len() == 0 {
        Seq::empty()
    } else {
        let prev = load_users(targets.drop_last(), entries);
        let t = targets.last();
        if entries.contains_key(t) && entries[t] is User {
            prev.push((t, entries[t]->User_0))
        } else {
            prev
        }
    }
}

/// The addresses among `targets` that hold no registration, in order.
pub open spec fn unloadable(targets: Seq<Seq<char>>, entries: Map<Seq<char>, EntryView>) -> Seq<
    Seq<char>,
>
    decreases targets.len(),
{
    if targets.len() == 0 {
        Seq::empty()
    } else {
        let prev = unloadable(targets.drop_last(), entries);
        let t = targets.last();
        if entries.contains_key(t) && entries[t] is User {
            prev
        } else {
            prev.push(t)
        }
    }
}

/// The targets of the registration links from the anchor.
pub open spec fn registration_targets(d: DhtView) -> Seq<Seq<char>> {
    link_targets(d.links, anchor_address_spec(), registration_link_type())
}

/// The registered users that the store shows, with their addresses.
pub open spec fn listed(d: DhtView) -> Seq<(Seq<char>, UserView)> {
    load_users(registration_targets(d), d.entries)
}

/// The views of a listing.
pub open spec fn responses_view(s: Seq<GetResponse<User>>) -> Seq<(Seq<char>, UserView)> {
    s.map_values(|g: GetResponse<User>| (g.address@, g.entry@))
}

/// A snapshot of the directory: the users found, and the linked addresses
/// that were skipped because they hold no registration.
pub struct Listing {
    pub users: Vec<GetResponse<User>>,
    pub skipped: Vec<String>,
}

/// The type name of the registration links.
fn registration_link_type_name() -> (r: String)
    ensures
        r@ == registration_link_type(),
{
    proof {
        reveal_strlit("user_registration");
    }
    let r = String::from_str("user_registration");
    assert(r@ =~= registration_link_type());
    r
}

/// Stores the anchor and returns its address. The anchor's content is fixed,
/// so every call, in any order and by any agent, yields the same address and
/// leaves one anchor record.
pub fn ensure_anchor_committed(dht: &mut Dht) -> (r: String)
    requires
        old(dht).wf(),
    ensures
        final(dht).wf(),
        r@ == anchor_address_spec(),
        final(dht)@ == anchor_committed(old(dht)@),
{
    proof {
        lemma_anchor_wf(dht@);
    }
    dht.commit_entry(users_anchor_entry())
}

/// Registers `agent` under `name`: the registration record is validated
/// against the agent's full history and authored on its chain, then linked
/// from the anchor. A refused registration leaves the store as it was.
pub fn handle_create_user(dht: &mut Dht, agent: &String, name: String) -> (r: Result<
    String,
    ValidationRejected,
>)
    requires
        old(dht).wf(),
    ensures
        final(dht).wf(),
        r is Ok <==> valid_name(name@) && !has_user_for(chain_of(old(dht)@.history, agent@), agent@),
        !valid_name(name@) ==> r == Err::<String, ValidationRejected>(
            name_check(name@)->Err_0,
        ),
        match r {
            Ok(a) => register_outcome(old(dht)@, agent@, name@) == Ok::<
                Seq<char>,
                ValidationRejected,
            >(a@) && final(dht)@ == registered(old(dht)@, agent@, name@),
            Err(e) => register_outcome(old(dht)@, agent@, name@) == Err::<
                Seq<char>,
                ValidationRejected,
            >(e) && final(dht)@ == old(dht)@,
        },
        r matches Ok(a) ==> {
            &&& final(dht)@.links.contains(registration_link(a@))
            &&& first_user_of(listed(final(dht)@), agent@) == Some(a@)
        },
{
    let user = User { agent: agent.clone(), name };
    let ghost u = user@;
    let ghost prior = chain_of(dht@.history, agent@);
    // The validator sees the agent's full history with the proposed record
    // in flight at its end, as a replica does while the record is committed.
    let mut chain = dht.local_chain(agent);
    chain.push(Entry::User(user.duplicate()));
    let mut sources: Vec<String> = Vec::new();
    sources.push(agent.clone());
    proof {
        assert(crate::record::entries_view(chain@) =~= prior.push(EntryView::User(u)));
        assert(prior_history(prior.push(EntryView::User(u)), u) =~= prior);
        assert(strings_view(sources@)[0] == agent@);
    }
    let data = EntryValidationData::Create {
        entry: user.duplicate(),
        validation_data: ValidationData {
            lifecycle: EntryLifecycle::Chain,
            source_chain_entries: chain,
            sources,
        },
    };
    match validate_user_entry(data) {
        Err(e) => {
            return Err(e);
        },
        Ok(()) => {},
    }
    let ghost before = dht@;
    let user_address = dht.author_entry(agent, Entry::User(user));
    proof {
        lemma_authored_wf(before, u);
        assert(dht@ == authored(before, u));
    }
    let anchor = ensure_anchor_committed(dht);
    proof {
        lemma_user_address_is_not_anchor(u);
        lemma_linked_wf(dht@, user_address@);
    }
    let no_tag = String::new();
    dht.link_entries(&anchor, &user_address, &registration_link_type_name(), &no_tag);
    proof {
        lemma_registered_user_found(before, agent@, u.name);
        crate::dht::lemma_link_made_once(anchor_committed(authored(before, u)).links, registration_link(user_address@));
    }
    Ok(user_address)
}

/// Lists the registered users: follows the registration links from the
/// anchor and loads each target. A target that holds no registration would
/// be skipped and reported, not an error; in a consistent store there is
/// none.
pub fn list_users(dht: &Dht) -> (r: Listing)
    requires
        dht.wf(),
    ensures
        responses_view(r.users@) == listed(dht@),
        strings_view(r.skipped@) == unloadable(registration_targets(dht@), dht@.entries),
        r.skipped@.len() == 0,
{
    proof {
        lemma_listing_consistent(dht@);
    }
    let anchor = anchor_address();
    let targets = dht.get_links(&anchor, &registration_link_type_name());
    let ghost tv = strings_view(targets@);
    let ghost entries = dht@.entries;
    let mut users: Vec<GetResponse<User>> = Vec::new();
    let mut skipped: Vec<String> = Vec::new();
    let n = targets.len();
    for i in 0..n
        invariant
            n == targets@.len(),
            tv == strings_view(targets@),
            entries == dht@.entries,
            dht.wf(),
            responses_view(users@) == load_users(tv.subrange(0, i as int), entries),
            strings_view(skipped@) == unloadable(tv.subrange(0, i as int), entries),
    {
        let ghost users_before = users@;
        let ghost skipped_before = skipped@;
        let t = &targets[i];
        assert(tv.subrange(0, i + 1).drop_last() =~= tv.subrange(0, i as int));
        assert(tv.subrange(0, i + 1).last() == t@);
        match dht.get_entry(t) {
            Some(Entry::User(u)) => {
                users.push(GetResponse { entry: u, address: t.clone() });
                assert(responses_view(users@) =~= responses_view(users_before).push(
                    (t@, entries[t@]->User_0),
                ));
                assert(strings_view(skipped@) =~= strings_view(skipped_before));
            },
            _ => {
                skipped.push(t.clone());
                assert(strings_view(skipped@) =~= strings_view(skipped_before).push(t@));
                assert(responses_view(users@) =~= responses_view(users_before));
            },
        }
    }
    assert(tv.subrange(0, n as int) =~= tv);
    Listing { users, skipped }
}

/// The registered users with their addresses, in the order their links
/// were made; callers that need another order sort the result. Each is at
/// its content address with a well-formed name, one per agent; no linked
/// target is skipped (see `list_users`).
pub fn handle_get_users(dht: &Dht) -> (r: Vec<GetResponse<User>>)
    requires
        dht.wf(),
    ensures
        responses_view(r@) == listed(dht@),
        forall|i: int|
            0 <= i < r@.len() ==> (#[trigger] r@[i]).address@ == user_address_of(r@[i].entry@)
                && valid_name(r@[i].entry.name@),
        forall|i: int, j: int|
            0 <= i < r@.len() && 0 <= j < r@.len() && i != j ==> (#[trigger] r@[i]).entry.agent@
                != (#[trigger] r@[j]).entry.agent@,
{
    let listing = list_users(dht);
    let r = listing.users;
    proof {
        lemma_listing_consistent(dht@);
        let s = listed(dht@);
        assert forall|i: int| 0 <= i < r@.len() implies (#[trigger] r@[i]).address@ == user_address_of(r@[i].entry@)
            && valid_name(r@[i].entry.name@) by {
            assert(s[i] == (r@[i].address@, r@[i].entry@));
        }
        assert forall|i: int, j: int| 0 <= i < r@.len() && 0 <= j < r@.len() && i != j implies (#[trigger] r@[i]).entry.agent@
            != (#[trigger] r@[j]).entry.agent@ by {
            assert(s[i] == (r@[i].address@, r@[i].entry@));
            assert(s[j] == (r@[j].address@, r@[j].entry@));
        }
    }
    r
}

/// The first listed registration of `agent`, if any.
pub open spec fn first_user_of(s: Seq<(Seq<char>, UserView)>, agent: Seq<char>) -> Option<
    Seq<char>,
>
    decreases s.len(),
{
    if s.len() == 0 {
        None
    } else if s[0].1.agent == agent {
        Some(s[0].0)
    } else {
        first_user_of(s.drop_first(), agent)
    }
}

/// Failure to find a record.
#[derive(Clone, Copy, Debug, PartialEq, Eq, Structural)]
pub enum LookupError {
    HashNotFound,
}

/// The address of `agent`'s registration, as the directory lists it.
pub fn get_my_user(dht: &Dht, agent: &String) -> (r: Result<String, LookupError>)
    requires
        dht.wf(),
    ensures
        match first_user_of(listed(dht@), agent@) {
            Some(a) => r matches Ok(x) && x@ == a,
            None => r == Err::<String, LookupError>(LookupError::HashNotFound),
        },
        r matches Ok(x) ==> exists|u: UserView|
            u.agent == agent@ && x@ == user_address_of(u) && #[trigger] listed(dht@).contains((x@, u)),
{
    let users = handle_get_users(dht);
    let ghost s = responses_view(users@);
    let n = users.len();
    assert(s.subrange(0, n as int) =~= s);
    for i in 0..n
        invariant
            n == users@.len(),
            s == responses_view(users@),
            s == listed(dht@),
            dht.wf(),
            first_user_of(s, agent@) == first_user_of(s.subrange(i as int, n as int), agent@),
    {
        assert(s.subrange(i as int, n as int).drop_first() =~= s.subrange(i + 1, n as int));
        assert(s.subrange(i as int, n as int)[0] == s[i as int]);
        if users[i].entry.agent == *agent {
            let a = users[i].address.clone();
            assert(s[i as int] == (users@[i as int].address@, users@[i as int].entry@));
            assert(first_user_of(s.subrange(i as int, n as int), agent@) == Some(a@));
            proof {
                lemma_listing_consistent(dht@);
                assert(listed(dht@)[i as int].0 == user_address_of(listed(dht@)[i as int].1));
                assert(listed(dht@).contains((a@, s[i as int].1)));
            }
            return Ok(a);
        }
    }
    Err(LookupError::HashNotFound)
}

/// No registration is stored under the anchor's address.
proof fn lemma_user_address_is_not_anchor(u: UserView)
    ensures
        user_address_of(u) != anchor_address_spec(),
{
    if user_address_of(u) == anchor_address_spec() {
        lemma_address_injective(EntryView::User(u), users_anchor());
    }
}

/// A link in the store makes its target one of the link targets of its base
/// and type.
proof fn lemma_link_targets_contains(links: Seq<LinkView>, l: LinkView)
    requires
        links.contains(l),
    ensures
        link_targets(links, l.base, l.link_type).contains(l.target),
    decreases links.len(),
{
    let prev = links.drop_last();
    let t = link_targets(prev, l.base, l.link_type);
    if links.last() == l {
        assert(link_targets(links, l.base, l.link_type) == t.push(l.target));
        assert(t.push(l.target)[t.len() as int] == l.target);
    } else {
        let k = choose|k: int| 0 <= k < links.len() && links[k] == l;
        assert(prev[k] == l);
        lemma_link_targets_contains(prev, l);
        let j = choose|j: int| 0 <= j < t.len() && t[j] == l.target;
        let last = links.last();
        if last.base == l.base && last.link_type == l.link_type {
            assert(t.push(last.target)[j] == l.target);
        }
    }
}

/// A target that holds a registration is loaded with it.
proof fn lemma_load_users_contains(
    targets: Seq<Seq<char>>,
    entries: Map<Seq<char>, EntryView>,
    t: Seq<char>,
)
    requires
        targets.contains(t),
        entries.contains_key(t),
        entries[t] is User,
    ensures
        load_users(targets, entries).contains((t, entries[t]->User_0)),
    decreases targets.len(),
{
    let prev = targets.drop_last();
    let loaded = load_users(prev, entries);
    let item = (t, entries[t]->User_0);
    if targets.last() == t {
        assert(loaded.push(item)[loaded.len() as int] == item);
    } else {
        let k = choose|k: int| 0 <= k < targets.len() && targets[k] == t;
        assert(prev[k] == t);
        lemma_load_users_contains(prev, entries, t);
        let j = choose|j: int| 0 <= j < loaded.len() && loaded[j] == item;
        let last = targets.last();
        if entries.contains_key(last) && entries[last] is User {
            assert(loaded.push((last, entries[last]->User_0))[j] == item);
        }
    }
}

/// An agent that has not registered yet, registering under a name of 1 to
/// 50 characters, is accepted, and the directory then lists the new
/// registration at its address.
pub proof fn lemma_first_registration_listed(d: DhtView, agent: Seq<char>, name: Seq<char>)
    requires
        valid_name(name),
        !has_user_for(chain_of(d.history, agent), agent),
    ensures
        register_outcome(d, agent, name) == Ok::<Seq<char>, ValidationRejected>(
            user_address_of(UserView { agent, name }),
        ),
        listed(registered(d, agent, name)).contains(
            (user_address_of(UserView { agent, name }), UserView { agent, name }),
        ),
{
    let u = UserView { agent, name };
    let ua = user_address_of(u);
    let after = registered(d, agent, name);
    lemma_user_address_is_not_anchor(u);
    assert(after.entries.contains_key(ua));
    assert(after.entries[ua] == EntryView::User(u));
    let l = registration_link(ua);
    let before_links = d.links;
    if !before_links.contains(l) {
        assert(before_links.push(l)[before_links.len() as int] == l);
    }
    assert(after.links.contains(l));
    lemma_link_targets_contains(after.links, l);
    lemma_load_users_contains(registration_targets(after), after.entries, ua);
}

/// Once an agent's registration is accepted, its further registration
/// under any well-formed name is refused as a duplicate.
pub proof fn lemma_second_registration_rejected(
    d: DhtView,
    agent: Seq<char>,
    first: Seq<char>,
    second: Seq<char>,
)
    requires
        register_outcome(d, agent, first) is Ok,
        valid_name(second),
    ensures
        register_outcome(registered(d, agent, first), agent, second) == Err::<
            Seq<char>,
            ValidationRejected,
        >(ValidationRejected::DuplicateAgent),
{
    let u = UserView { agent, name: first };
    let h = d.history.push(AuthoredView { author: agent, entry: EntryView::User(u) });
    assert(h.drop_last() =~= d.history);
    let c = chain_of(h, agent);
    assert(c == chain_of(d.history, agent).push(EntryView::User(u)));
    assert(crate::validation::is_user_of(c[c.len() - 1], agent));
    assert(registered(d, agent, first).history == h);
}

/// Committing the anchor a second time changes nothing: the store holds one
/// anchor record, under the same address.
pub proof fn lemma_anchor_commit_idempotent(d: DhtView)
    ensures
        anchor_committed(anchor_committed(d)) == anchor_committed(d),
        anchor_committed(d).entries.contains_key(anchor_address_spec()),
        anchor_committed(d).entries[anchor_address_spec()] == users_anchor(),
{
    assert(anchor_committed(anchor_committed(d)).entries =~= anchor_committed(d).entries);
}

/// A link target comes from a link of that base and type.
proof fn lemma_link_targets_member(links: Seq<LinkView>, base: Seq<char>, ty: Seq<char>, t: Seq<char>)
    requires
        link_targets(links, base, ty).contains(t),
    ensures
        exists|i: int|
            0 <= i < links.len() && (#[trigger] links[i]).base == base && links[i].link_type == ty
                && links[i].target == t,
    decreases links.len(),
{
    let prev = link_targets(links.drop_last(), base, ty);
    let l = links.last();
    let j = choose|j: int| 0 <= j < link_targets(links, base, ty).len() && link_targets(links, base, ty)[j] == t;
    if l.base == base && l.link_type == ty && j == prev.len() {
        assert(links[links.len() - 1] == l);
    } else {
        assert(prev[j] == t);
        lemma_link_targets_member(links.drop_last(), base, ty, t);
        let i = choose|i: int|
            0 <= i < links.drop_last().len() && (#[trigger] links.drop_last()[i]).base == base
                && links.drop_last()[i].link_type == ty && links.drop_last()[i].target == t;
        assert(links[i] == links.drop_last()[i]);
    }
}

/// The registration links have distinct targets.
proof fn lemma_registration_targets_distinct(links: Seq<LinkView>)
    requires
        links.no_duplicates(),
        forall|i: int| 0 <= i < links.len() ==> #[trigger] links[i] == registration_link(links[i].target),
    ensures
        link_targets(links, anchor_address_spec(), registration_link_type()).no_duplicates(),
    decreases links.len(),
{
    if links.len() > 0 {
        let init = links.drop_last();
        assert forall|i: int| 0 <= i < init.len() implies #[trigger] init[i] == registration_link(init[i].target) by {
            assert(init[i] == links[i]);
        }
        assert forall|i: int, j: int| 0 <= i < init.len() && 0 <= j < init.len() && i != j implies init[i] != init[j] by {
            assert(init[i] == links[i] && init[j] == links[j]);
        }
        lemma_registration_targets_distinct(init);
        let prev = link_targets(init, anchor_address_spec(), registration_link_type());
        let l = links.last();
        if prev.contains(l.target) {
            lemma_link_targets_member(init, anchor_address_spec(), registration_link_type(), l.target);
            let i = choose|i: int|
                0 <= i < init.len() && (#[trigger] init[i]).base == anchor_address_spec()
                    && init[i].link_type == registration_link_type() && init[i].target == l.target;
            assert(init[i] == links[i]);
            assert(links[i] == registration_link(l.target));
            assert(links[links.len() - 1] == registration_link(l.target));
        }
        let all = link_targets(links, anchor_address_spec(), registration_link_type());
        assert forall|i: int, j: int| 0 <= i < all.len() && 0 <= j < all.len() && i != j implies all[i] != all[j] by {
            if i < prev.len() && j < prev.len() {
                assert(all[i] == prev[i] && all[j] == prev[j]);
            } else if i < prev.len() {
                assert(all[i] == prev[i]);
            } else if j < prev.len() {
                assert(all[j] == prev[j]);
            }
        }
    }
}

/// A loaded registration comes from a target that holds it.
proof fn lemma_load_users_member(
    targets: Seq<Seq<char>>,
    entries: Map<Seq<char>, EntryView>,
    p: (Seq<char>, UserView),
)
    requires
        load_users(targets, entries).contains(p),
    ensures
        targets.contains(p.0),
        entries.contains_key(p.0),
        entries[p.0] == EntryView::User(p.1),
    decreases targets.len(),
{
    let prev = load_users(targets.drop_last(), entries);
    let t = targets.last();
    let all = load_users(targets, entries);
    let j = choose|j: int| 0 <= j < all.len() && all[j] == p;
    if entries.contains_key(t) && entries[t] is User && j == prev.len() {
        assert(targets[targets.len() - 1] == t);
    } else {
        assert(prev[j] == p);
        lemma_load_users_member(targets.drop_last(), entries, p);
        let k = choose|k: int| 0 <= k < targets.drop_last().len() && targets.drop_last()[k] == p.0;
        assert(targets[k] == p.0);
    }
}

/// Distinct targets load as registrations at distinct addresses.
proof fn lemma_load_users_distinct(targets: Seq<Seq<char>>, entries: Map<Seq<char>, EntryView>)
    requires
        targets.no_duplicates(),
    ensures
        forall|i: int, j: int|
            0 <= i < load_users(targets, entries).len() && 0 <= j < load_users(targets, entries).len()
                && i != j ==> (#[trigger] load_users(targets, entries)[i]).0 != (
            #[trigger] load_users(targets, entries)[j]).0,
    decreases targets.len(),
{
    if targets.len() > 0 {
        let init = targets.drop_last();
        assert forall|i: int, j: int| 0 <= i < init.len() && 0 <= j < init.len() && i != j implies init[i] != init[j] by {
            assert(init[i] == targets[i] && init[j] == targets[j]);
        }
        lemma_load_users_distinct(init, entries);
        let prev = load_users(init, entries);
        let all = load_users(targets, entries);
        let t = targets.last();
        assert forall|i: int, j: int| 0 <= i < all.len() && 0 <= j < all.len() && i != j implies (#[trigger] all[i]).0 != (#[trigger] all[j]).0 by {
            if i < prev.len() && j < prev.len() {
                assert(all[i] == prev[i] && all[j] == prev[j]);
            } else {
                let k = if i < prev.len() { i } else { j };
                assert(all[k] == prev[k]);
                assert(prev.contains(prev[k]));
                lemma_load_users_member(init, entries, prev[k]);
                let m = choose|m: int| 0 <= m < init.len() && init[m] == prev[k].0;
                assert(targets[m] == init[m]);
                assert(targets[targets.len() - 1] == t);
            }
        }
    }
}

/// Targets that all hold registrations leave nothing to skip.
proof fn lemma_nothing_unloadable(targets: Seq<Seq<char>>, entries: Map<Seq<char>, EntryView>)
    requires
        forall|i: int|
            0 <= i < targets.len() ==> entries.contains_key(#[trigger] targets[i]) && entries[targets[i]] is User,
    ensures
        unloadable(targets, entries).len() == 0,
    decreases targets.len(),
{
    if targets.len() > 0 {
        let init = targets.drop_last();
        assert forall|i: int| 0 <= i < init.len() implies entries.contains_key(#[trigger] init[i]) && entries[init[i]] is User by {
            assert(init[i] == targets[i]);
        }
        lemma_nothing_unloadable(init, entries);
        assert(targets[targets.len() - 1] == targets.last());
    }
}

/// What the directory lists in a consistent store: each registration at
/// its content address with a name of 1 to 50 characters, at most one per
/// agent, and no linked target skipped.
pub proof fn lemma_listing_consistent(d: DhtView)
    requires
        directory_wf(d),
    ensures
        forall|i: int|
            0 <= i < listed(d).len() ==> (#[trigger] listed(d)[i]).0 == user_address_of(listed(d)[i].1)
                && valid_name(listed(d)[i].1.name),
        forall|i: int, j: int|
            0 <= i < listed(d).len() && 0 <= j < listed(d).len() && i != j ==> (
            #[trigger] listed(d)[i]).1.agent != (#[trigger] listed(d)[j]).1.agent,
        unloadable(registration_targets(d), d.entries).len() == 0,
{
    let ts = registration_targets(d);
    let s = listed(d);
    lemma_registration_targets_distinct(d.links);
    lemma_load_users_distinct(ts, d.entries);
    assert forall|i: int| 0 <= i < ts.len() implies d.entries.contains_key(#[trigger] ts[i]) && d.entries[ts[i]] is User by {
        assert(ts.contains(ts[i]));
        lemma_link_targets_member(d.links, anchor_address_spec(), registration_link_type(), ts[i]);
        let k = choose|k: int|
            0 <= k < d.links.len() && (#[trigger] d.links[k]).base == anchor_address_spec()
                && d.links[k].link_type == registration_link_type() && d.links[k].target == ts[i];
        assert(d.entries.contains_key(d.links[k].target));
    }
    lemma_nothing_unloadable(ts, d.entries);
    assert forall|i: int| 0 <= i < s.len() implies (#[trigger] s[i]).0 == user_address_of(s[i].1)
        && valid_name(s[i].1.name) by {
        assert(s.contains(s[i]));
        lemma_load_users_member(ts, d.entries, s[i]);
        let a = s[i].0;
        assert(d.entries.contains_key(a));
        let x = AuthoredView { author: s[i].1.agent, entry: d.entries[a] };
        let k = choose|k: int| 0 <= k < d.history.len() && d.history[k] == x;
        assert(validated_registration(d.history[k]));
    }
    assert forall|i: int, j: int| 0 <= i < s.len() && 0 <= j < s.len() && i != j implies (#[trigger] s[i]).1.agent != (#[trigger] s[j]).1.agent by {
        if s[i].1.agent == s[j].1.agent {
            assert(s.contains(s[i]));
            assert(s.contains(s[j]));
            lemma_load_users_member(ts, d.entries, s[i]);
            lemma_load_users_member(ts, d.entries, s[j]);
            assert(d.entries.contains_key(s[i].0));
            assert(d.entries.contains_key(s[j].0));
            let xi = AuthoredView { author: s[i].1.agent, entry: d.entries[s[i].0] };
            let xj = AuthoredView { author: s[j].1.agent, entry: d.entries[s[j].0] };
            let ki = choose|k: int| 0 <= k < d.history.len() && d.history[k] == xi;
            let kj = choose|k: int| 0 <= k < d.history.len() && d.history[k] == xj;
            assert(d.history[ki].author == d.history[kj].author);
            assert(ki == kj);
            assert(s[i].0 == entry_address(d.entries[s[i].0]));
            assert(s[j].0 == entry_address(d.entries[s[j].0]));
        }
    }
}

/// Where the one listed registration of `agent` is at `a`, that is what
/// `first_user_of` finds.
proof fn lemma_first_user_of_unique(s: Seq<(Seq<char>, UserView)>, agent: Seq<char>, i: int)
    requires
        0 <= i < s.len(),
        s[i].1.agent == agent,
        forall|j: int| 0 <= j < s.len() && (#[trigger] s[j]).1.agent == agent ==> j == i,
    ensures
        first_user_of(s, agent) == Some(s[i].0),
    decreases s.len(),
{
    if i > 0 {
        let t = s.drop_first();
        assert(t[i - 1] == s[i]);
        assert forall|j: int| 0 <= j < t.len() && (#[trigger] t[j]).1.agent == agent implies j == i - 1 by {
            assert(t[j] == s[j + 1]);
        }
        lemma_first_user_of_unique(t, agent, i - 1);
    }
}

/// After a registration is accepted, looking up its agent finds it.
pub proof fn lemma_registered_user_found(d: DhtView, agent: Seq<char>, name: Seq<char>)
    requires
        directory_wf(d),
        register_outcome(d, agent, name) is Ok,
    ensures
        first_user_of(listed(registered(d, agent, name)), agent) == Some(
            user_address_of(UserView { agent, name }),
        ),
{
    let u = UserView { agent, name };
    let after = registered(d, agent, name);
    lemma_first_registration_listed(d, agent, name);
    lemma_registered_wf(d, agent, name);
    lemma_listing_consistent(after);
    let s = listed(after);
    let i = choose|i: int| 0 <= i < s.len() && s[i] == (user_address_of(u), u);
    assert forall|j: int| 0 <= j < s.len() && (#[trigger] s[j]).1.agent == agent implies j == i by {
        if j != i {
            assert(s[i].1.agent != s[j].1.agent);
        }
    }
    lemma_first_user_of_unique(s, agent, i);
}

/// Accepted registrations are never withdrawn: whatever the directory lists
/// stays listed after a further registration.
pub proof fn lemma_listing_grows(d: DhtView, agent: Seq<char>, name: Seq<char>, p: (Seq<char>, UserView))
    requires
        directory_wf(d),
        register_outcome(d, agent, name) is Ok,
        listed(d).contains(p),
    ensures
        listed(registered(d, agent, name)).contains(p),
{
    let u = UserView { agent, name };
    let ua = user_address_of(u);
    let a = authored(d, u);
    let after = registered(d, agent, name);
    lemma_load_users_member(registration_targets(d), d.entries, p);
    lemma_link_targets_member(d.links, anchor_address_spec(), registration_link_type(), p.0);
    let k = choose|k: int|
        0 <= k < d.links.len() && (#[trigger] d.links[k]).base == anchor_address_spec()
            && d.links[k].link_type == registration_link_type() && d.links[k].target == p.0;
    let l = d.links[k];
    if p.0 == ua {
        lemma_address_injective(d.entries[p.0], EntryView::User(u));
    }
    assert(a.entries[p.0] == EntryView::User(p.1));
    lemma_authored_wf(d, u);
    lemma_anchor_wf(a);
    assert(after.entries[p.0] == EntryView::User(p.1));
    let n = with_link(d.links, registration_link(ua));
    if !d.links.contains(registration_link(ua)) {
        assert(n[k] == l);
    }
    assert(after.links.contains(l));
    lemma_link_targets_contains(after.links, l);
    lemma_load_users_contains(registration_targets(after), after.entries, p.0);
}

/// Storing the anchor again leaves the listing as it was.
pub proof fn lemma_anchor_keeps_listing(d: DhtView)
    requires
        directory_wf(d),
    ensures
        listed(anchor_committed(d)) == listed(d),
{
    lemma_anchor_wf(d);
    lemma_listing_consistent(d);
    lemma_load_users_same(registration_targets(d), d.entries, anchor_committed(d).entries);
}

/// Loading targets that hold registrations gives the same result in a
/// store that agrees on every key of the first.
proof fn lemma_load_users_same(
    targets: Seq<Seq<char>>,
    m1: Map<Seq<char>, EntryView>,
    m2: Map<Seq<char>, EntryView>,
)
    requires
        unloadable(targets, m1).len() == 0,
        forall|a: Seq<char>| #[trigger] m1.contains_key(a) ==> m2.contains_key(a) && m2[a] == m1[a],
    ensures
        load_users(targets, m2) == load_users(targets, m1),
    decreases targets.len(),
{
    if targets.len() > 0 {
        let t = targets.last();
        let init = targets.drop_last();
        if !(m1.contains_key(t) && m1[t] is User) {
            assert(unloadable(targets, m1) == unloadable(init, m1).push(t));
        }
        assert(unloadable(targets, m1) == unloadable(init, m1));
        lemma_load_users_same(init, m1, m2);
    }
}

} // verus!
