//! A content-addressed store of records with typed links between them, and
//! the history of records that each agent has authored.
use vstd::prelude::*;
use crate::record::{Entry, EntryView, address_of, entry_address, entries_view};
use crate::validation::strings_view;
use crate::user::directory_wf;

verus! {

/// A record held under its address.
struct StoredEntry {
    address: String,
    entry: Entry,
}

/// A directed, typed edge from one address to another.
pub struct Link {
    pub base: String,
    pub target: String,
    pub link_type: String,
    pub tag: String,
}

/// Mathematical value of a `Link`.
pub ghost struct LinkView {
    pub base: Seq<char>,
    pub target: Seq<char>,
    pub link_type: Seq<char>,
    pub tag: Seq<char>,
}

impl View for Link {
    type V = LinkView;

    open spec fn view(&self) -> LinkView {
        LinkView {
            base: self.base@,
            target: self.target@,
            link_type: self.link_type@,
            tag: self.tag@,
        }
    }
}

/// A record together with the agent that authored it.
struct Authored {
    author: String,
    entry: Entry,
}

/// Mathematical value of an authored record.
pub ghost struct AuthoredView {
    pub author: Seq<char>,
    pub entry: EntryView,
}

/// Mathematical value of the store: the records by address, the links in
/// the order they were made, and every authored record in authoring order.
pub ghost struct DhtView {
    pub entries: Map<Seq<char>, EntryView>,
    pub links: Seq<LinkView>,
    pub history: Seq<AuthoredView>,
}

/// The records that `agent` authored, oldest first: its local chain.
pub open spec fn chain_of(history: Seq<AuthoredView>, agent: Seq<char>) -> Seq<EntryView>
    decreases history.len(),
{
    if history.len() == 0 {
        Seq::empty()
    } else {
        let prev = chain_of(history.drop_last(), agent);
        if history.last().author == agent {
            prev.push(history.last().entry)
        } else {
            prev
        }
    }
}

/// The links after adding `l`: an identical link is made once only.
pub open spec fn with_link(links: Seq<LinkView>, l: LinkView) -> Seq<LinkView> {
    if links.contains(l) {
        links
    } else {
        links.push(l)
    }
}

/// A link is made once only: adding a link to links without duplicates
/// leaves them without duplicates, and holding the link.
pub proof fn lemma_link_made_once(links: Seq<LinkView>, l: LinkView)
    requires
        links.no_duplicates(),
    ensures
        with_link(links, l).no_duplicates(),
        with_link(links, l).contains(l),
{
    if !links.contains(l) {
        let after = links.push(l);
        assert(after[links.len() as int] == l);
        assert forall|i: int, j: int| 0 <= i < after.len() && 0 <= j < after.len() && i != j implies after[i] != after[j] by {
            if i < links.len() && j < links.len() {
                assert(after[i] == links[i] && after[j] == links[j]);
            } else if i < links.len() {
                assert(after[i] == links[i]);
            } else {
                assert(after[j] == links[j]);
            }
        }
    }
}

/// The targets of the links of type `link_type` that start at `base`, in
/// the order the links were made.
pub open spec fn link_targets(
    links: Seq<LinkView>,
    base: Seq<char>,
    link_type: Seq<char>,
) -> Seq<Seq<char>>
    decreases links.len(),
{
    if links.len() == 0 {
        Seq::empty()
    } else {
        let prev = link_targets(links.drop_last(), base, link_type);
        let l = links.last();
        if l.base == base && l.link_type == link_type {
            prev.push(l.target)
        } else {
            prev
        }
    }
}

/// The store.
pub struct Dht {
    records: Vec<StoredEntry>,
    links: Vec<Link>,
    history: Vec<Authored>,
    contents: Ghost<Map<Seq<char>, EntryView>>,
}

impl View for Dht {
    type V = DhtView;

    closed spec fn view(&self) -> DhtView {
        DhtView {
            entries: self.contents@,
            links: self.links@.map_values(|l: Link| l@),
            history: self.history@.map_values(|a: Authored| AuthoredView { author: a.author@, entry: a.entry@ }),
        }
    }
}

impl Dht {
    /// The store is well formed, and it is a consistent directory: records
    /// sit under their content addresses, no link is duplicated, and every
    /// registration in it passed validation (see `directory_wf`).
    pub open spec fn wf(&self) -> bool {
        &&& self.store_wf()
        &&& directory_wf(self@)
    }

    /// The records vector holds each address once and agrees with the map
    /// of contents.
    pub closed spec fn store_wf(&self) -> bool {
        &&& forall|i: int|
            0 <= i < self.records@.len() ==> {
                &&& self.contents@.contains_key(#[trigger] self.records@[i].address@)
                &&& self.contents@[self.records@[i].address@] == self.records@[i].entry@
            }
        &&& forall|a: Seq<char>|
            #[trigger] self.contents@.contains_key(a) ==> exists|i: int|
                0 <= i < self.records@.len() && #[trigger] self.records@[i].address@ == a
        &&& forall|i: int, j: int|
            0 <= i < self.records@.len() && 0 <= j < self.records@.len() && i != j
                ==> #[trigger] self.records@[i].address@ != #[trigger] self.records@[j].address@
    }

    /// An empty store.
    pub fn new() -> (r: Dht)
        ensures
            r.wf(),
            r@.entries == Map::<Seq<char>, EntryView>::empty(),
            r@.links == Seq::<LinkView>::empty(),
            r@.history == Seq::<AuthoredView>::empty(),
    {
        let r = Dht {
            records: Vec::new(),
            links: Vec::new(),
            history: Vec::new(),
            contents: Ghost(Map::empty()),
        };
        assert(r@.links =~= Seq::<LinkView>::empty());
        assert(r@.history =~= Seq::<AuthoredView>::empty());
        r
    }

    /// Position of the record stored under `address`.
    fn find_record(&self, address: &String) -> (r: Option<usize>)
        requires
            self.store_wf(),
        ensures
            match r {
                Some(i) => i < self.records@.len() && self.records@[i as int].address@ == address@,
                None => !self@.entries.contains_key(address@),
            },
    {
        let n = self.records.len();
        for i in 0..n
            invariant
                n == self.records@.len(),
                forall|j: int| 0 <= j < i ==> #[trigger] self.records@[j].address@ != address@,
        {
            if self.records[i].address == *address {
                return Some(i);
            }
        }
        proof {
            if self@.entries.contains_key(address@) {
                let k = choose|k: int|
                    0 <= k < self.records@.len() && #[trigger] self.records@[k].address@ == address@;
                assert(self.records@[k].address@ == address@);
            }
        }
        None
    }

    /// The record stored under `address`, if any.
    pub fn get_entry(&self, address: &String) -> (r: Option<Entry>)
        requires
            self.store_wf(),
        ensures
            match r {
                Some(e) => self@.entries.contains_key(address@) && e@ == self@.entries[address@],
                None => !self@.entries.contains_key(address@),
            },
    {
        match self.find_record(address) {
            Some(i) => Some(self.records[i].entry.duplicate()),
            None => None,
        }
    }

    /// Stores `e` under its content address and returns that address.
    /// Committing the same record again changes nothing. Crate-private:
    /// registrations reach the store only through `handle_create_user`,
    /// which validates them first.
    pub(crate) fn commit_entry(&mut self, e: Entry) -> (r: String)
        requires
            old(self).store_wf(),
        ensures
            final(self).store_wf(),
            r@ == entry_address(e@),
            final(self)@ == (DhtView { entries: old(self)@.entries.insert(r@, e@), ..old(self)@ }),
    {
        let address = address_of(&e);
        let ghost ev = e@;
        let ghost new_contents = self.contents@.insert(address@, ev);
        match self.find_record(&address) {
            Some(i) => {
                self.records.set(i, StoredEntry { address: address.clone(), entry: e });
                self.contents = Ghost(new_contents);
                assert forall|a: Seq<char>| #[trigger] self.contents@.contains_key(a) implies exists|k: int|
                    0 <= k < self.records@.len() && #[trigger] self.records@[k].address@ == a by {
                    if a == address@ {
                        assert(self.records@[i as int].address@ == a);
                    } else {
                        let k = choose|k: int|
                            0 <= k < old(self).records@.len() && #[trigger] old(self).records@[k].address@ == a;
                        assert(self.records@[k].address@ == a);
                    }
                }
            },
            None => {
                self.records.push(StoredEntry { address: address.clone(), entry: e });
                self.contents = Ghost(new_contents);
                let ghost last = self.records@.len() - 1;
                assert forall|a: Seq<char>| #[trigger] self.contents@.contains_key(a) implies exists|k: int|
                    0 <= k < self.records@.len() && #[trigger] self.records@[k].address@ == a by {
                    if a == address@ {
                        assert(self.records@[last].address@ == a);
                    } else {
                        let k = choose|k: int|
                            0 <= k < old(self).records@.len() && #[trigger] old(self).records@[k].address@ == a;
                        assert(self.records@[k].address@ == a);
                    }
                }
            },
        }
        assert(self@.links == old(self)@.links);
        assert(self@.history == old(self)@.history);
        address
    }

    /// Records `e` as the newest record of `agent`'s chain and stores it.
    /// Crate-private, like `commit_entry`.
    pub(crate) fn author_entry(&mut self, agent: &String, e: Entry) -> (r: String)
        requires
            old(self).store_wf(),
        ensures
            final(self).store_wf(),
            r@ == entry_address(e@),
            final(self)@ == (DhtView {
                entries: old(self)@.entries.insert(r@, e@),
                links: old(self)@.links,
                history: old(self)@.history.push(AuthoredView { author: agent@, entry: e@ }),
            }),
    {
        self.history.push(Authored { author: agent.clone(), entry: e.duplicate() });
        let ghost mid = self@;
        assert(mid.history =~= old(self)@.history.push(AuthoredView { author: agent@, entry: e@ }));
        assert(mid.links == old(self)@.links);
        self.commit_entry(e)
    }

    /// The records that `agent` authored, oldest first.
    pub fn local_chain(&self, agent: &String) -> (r: Vec<Entry>)
        ensures
            entries_view(r@) == chain_of(self@.history, agent@),
    {
        let ghost h = self@.history;
        let mut out: Vec<Entry> = Vec::new();
        let n = self.history.len();
        for i in 0..n
            invariant
                n == self.history@.len(),
                h == self@.history,
                entries_view(out@) == chain_of(h.subrange(0, i as int), agent@),
        {
            let a = &self.history[i];
            let ghost prev = out@;
            if a.author == *agent {
                out.push(a.entry.duplicate());
                assert(entries_view(out@) =~= entries_view(prev).push(h[i as int].entry));
            }
            assert(h.subrange(0, i + 1).drop_last() =~= h.subrange(0, i as int));
        }
        assert(h.subrange(0, n as int) =~= h);
        out
    }

    /// Does the store hold a link identical to `l`?
    fn has_link(&self, l: &Link) -> (r: bool)
        ensures
            r == self@.links.contains(l@),
    {
        let ghost lv = self@.links;
        let n = self.links.len();
        for i in 0..n
            invariant
                n == self.links@.len(),
                lv == self@.links,
                forall|j: int| 0 <= j < i ==> #[trigger] lv[j] != l@,
        {
            let m = &self.links[i];
            if m.base == l.base && m.target == l.target && m.link_type == l.link_type && m.tag
                == l.tag {
                assert(lv[i as int] == l@);
                return true;
            }
        }
        false
    }

    /// Links `base` to `target` with a type and a tag. The caller has
    /// already stored the target; an identical link is made once only.
    /// Crate-private, like `commit_entry`.
    pub(crate) fn link_entries(&mut self, base: &String, target: &String, link_type: &String, tag: &String)
        requires
            old(self).store_wf(),
            old(self)@.entries.contains_key(target@),
        ensures
            final(self).store_wf(),
            final(self)@ == (DhtView {
                links: with_link(
                    old(self)@.links,
                    LinkView { base: base@, target: target@, link_type: link_type@, tag: tag@ },
                ),
                ..old(self)@
            }),
    {
        let l = Link {
            base: base.clone(),
            target: target.clone(),
            link_type: link_type.clone(),
            tag: tag.clone(),
        };
        if !self.has_link(&l) {
            self.links.push(l);
            assert(self@.links =~= old(self)@.links.push(l@));
        }
    }

    /// The targets of the links of type `link_type` from `base`, in the
    /// order the links were made.
    pub fn get_links(&self, base: &String, link_type: &String) -> (r: Vec<String>)
        ensures
            strings_view(r@) == link_targets(self@.links, base@, link_type@),
    {
        let ghost lv = self@.links;
        let mut out: Vec<String> = Vec::new();
        let n = self.links.len();
        for i in 0..n
            invariant
                n == self.links@.len(),
                lv == self@.links,
                strings_view(out@) == link_targets(lv.subrange(0, i as int), base@, link_type@),
        {
            let m = &self.links[i];
            let ghost prev = out@;
            if m.base == *base && m.link_type == *link_type {
                out.push(m.target.clone());
                assert(strings_view(out@) =~= strings_view(prev).push(lv[i as int].target));
            }
            assert(lv.subrange(0, i + 1).drop_last() =~= lv.subrange(0, i as int));
        }
        assert(lv.subrange(0, n as int) =~= lv);
        out
    }
}

} // verus!
