//! The two record shapes of the store and their content addresses.
use vstd::prelude::*;

verus! {

/// A registered agent: its identifier and a human-readable name.
#[derive(Clone, Debug, PartialEq, Eq)]
pub struct User {
    pub agent: String,
    pub name: String,
}

/// Mathematical value of a `User`.
pub ghost struct UserView {
    pub agent: Seq<char>,
    pub name: Seq<char>,
}

impl View for User {
    type V = UserView;

    open spec fn view(&self) -> UserView {
        UserView { agent: self.agent@, name: self.name@ }
    }
}

impl User {
    /// A field-by-field copy.
    pub fn duplicate(&self) -> (r: User)
        ensures
            r@ == self@,
    {
        User { agent: self.agent.clone(), name: self.name.clone() }
    }
}

/// A record of the store: a registration, or the anchor that registrations
/// are linked from.
#[derive(Clone, Debug, PartialEq, Eq)]
pub enum Entry {
    User(User),
    Anchor(String),
}

/// Mathematical value of an `Entry`.
pub ghost enum EntryView {
    User(UserView),
    Anchor(Seq<char>),
}

impl View for Entry {
    type V = EntryView;

    open spec fn view(&self) -> EntryView {
        match self {
            Entry::User(u) => EntryView::User(u@),
            Entry::Anchor(p) => EntryView::Anchor(p@),
        }
    }
}

impl Entry {
    /// A copy of the record.
    pub fn duplicate(&self) -> (r: Entry)
        ensures
            r@ == self@,
    {
        match self {
            Entry::User(u) => Entry::User(u.duplicate()),
            Entry::Anchor(p) => Entry::Anchor(p.clone()),
        }
    }
}

/// The views of a sequence of records.
pub open spec fn entries_view(s: Seq<Entry>) -> Seq<EntryView> {
    s.map_values(|e: Entry| e@)
}

/// Characters that are preceded by a backslash inside an address field.
pub open spec fn is_special(c: char) -> bool {
    c == '\\' || c == '|'
}

pub open spec fn escape_char(c: char) -> Seq<char> {
    if is_special(c) {
        seq!['\\', c]
    } else {
        seq![c]
    }
}

/// A field as it is written into an address: `\` and `|` get a leading `\`,
/// so that an unescaped `|` always ends a field.
pub open spec fn escape(s: Seq<char>) -> Seq<char>
    decreases s.len(),
{
    if s.len() == 0 {
        Seq::empty()
    } else {
        escape(s.drop_last()) + escape_char(s.last())
    }
}

/// Type tag of registration records.
pub open spec fn user_tag() -> Seq<char> {
    seq!['u', 's', 'e', 'r']
}

/// Type tag of the anchor record.
pub open spec fn anchor_tag() -> Seq<char> {
    seq!['u', 's', 'e', 'r', '_', 'a', 'n', 'c', 'h', 'o', 'r']
}

/// Fixed payload of the anchor record.
pub open spec fn anchor_payload() -> Seq<char> {
    seq!['u', 's', 'e', 'r', 's']
}

/// The one anchor record that registrations are linked from.
pub open spec fn users_anchor() -> EntryView {
    EntryView::Anchor(anchor_payload())
}

/// Content address of a registration: `user|<agent>|<name>`, fields escaped.
pub open spec fn user_address_of(u: UserView) -> Seq<char> {
    user_tag() + seq!['|'] + escape(u.agent) + seq!['|'] + escape(u.name)
}

/// Content address of an anchor: `user_anchor|<payload>`, payload escaped.
pub open spec fn anchor_address_of(payload: Seq<char>) -> Seq<char> {
    anchor_tag() + seq!['|'] + escape(payload)
}

/// Content address of any record: a function of its type and fields alone.
pub open spec fn entry_address(e: EntryView) -> Seq<char> {
    match e {
        EntryView::User(u) => user_address_of(u),
        EntryView::Anchor(p) => anchor_address_of(p),
    }
}

/// The well-known address of the anchor, computable by anyone.
pub open spec fn anchor_address_spec() -> Seq<char> {
    entry_address(users_anchor())
}

/// Escaping read from the front: the first character's escape comes first.
proof fn lemma_escape_first(s: Seq<char>)
    requires
        s.len() > 0,
    ensures
        escape(s) == escape_char(s[0]) + escape(s.drop_first()),
    decreases s.len(),
{
    if s.len() == 1 {
        assert(s.drop_last() =~= Seq::<char>::empty());
        assert(s.drop_first() =~= Seq::<char>::empty());
        assert(escape(s.drop_last()) == Seq::<char>::empty());
        assert(escape(s.drop_first()) == Seq::<char>::empty());
        assert(s.last() == s[0]);
        assert(escape(s) =~= escape_char(s[0]));
    } else {
        let init = s.drop_last();
        let tail = s.drop_first();
        lemma_escape_first(init);
        assert(init.drop_first() =~= tail.drop_last());
        assert(init[0] == s[0]);
        assert(tail.last() == s.last());
        assert(escape(tail) == escape(tail.drop_last()) + escape_char(tail.last()));
        assert(escape(s) =~= escape_char(s[0]) + escape(tail));
    }
}

/// The first character of an escaped field is never an unescaped `|`.
proof fn lemma_escape_head(s: Seq<char>)
    requires
        s.len() > 0,
    ensures
        escape(s).len() > 0,
        escape(s)[0] != '|',
        escape(s)[0] == '\\' ==> is_special(s[0]),
        !is_special(s[0]) ==> escape(s)[0] == s[0],
        is_special(s[0]) ==> escape(s).len() > 1 && escape(s)[1] == s[0],
{
    lemma_escape_first(s);
}

/// An escaped field followed by `|` can be split in one way only.
proof fn lemma_escape_separated(a: Seq<char>, b: Seq<char>, ra: Seq<char>, rb: Seq<char>)
    requires
        escape(a) + seq!['|'] + ra == escape(b) + seq!['|'] + rb,
    ensures
        a == b,
        ra == rb,
    decreases a.len(),
{
    let l = escape(a) + seq!['|'] + ra;
    let r = escape(b) + seq!['|'] + rb;
    if a.len() == 0 {
        if b.len() > 0 {
            lemma_escape_head(b);
            assert(l[0] == '|');
            assert(r[0] == escape(b)[0]);
        }
        assert(l.subrange(1, l.len() as int) =~= ra);
        assert(r.subrange(1, r.len() as int) =~= rb);
        assert(a =~= b);
    } else if b.len() == 0 {
        lemma_escape_head(a);
        assert(r[0] == '|');
        assert(l[0] == escape(a)[0]);
    } else {
        lemma_escape_head(a);
        lemma_escape_head(b);
        lemma_escape_first(a);
        lemma_escape_first(b);
        assert(l[0] == escape(a)[0]);
        assert(r[0] == escape(b)[0]);
        if is_special(a[0]) {
            assert(l[1] == escape(a)[1]);
            assert(r[1] == escape(b)[1]);
        }
        assert(a[0] == b[0]);
        let k = escape_char(a[0]).len() as int;
        assert(l.subrange(k, l.len() as int) =~= escape(a.drop_first()) + seq!['|'] + ra);
        assert(r.subrange(k, r.len() as int) =~= escape(b.drop_first()) + seq!['|'] + rb);
        lemma_escape_separated(a.drop_first(), b.drop_first(), ra, rb);
        assert(a =~= seq![a[0]] + a.drop_first());
        assert(b =~= seq![b[0]] + b.drop_first());
    }
}

/// Content addressing: two records share an address only when they are the
/// same record, so distinct `(agent, name)` pairs never collide and the
/// anchor never collides with a registration.
pub proof fn lemma_address_injective(e1: EntryView, e2: EntryView)
    requires
        entry_address(e1) == entry_address(e2),
    ensures
        e1 == e2,
{
    let x = entry_address(e1);
    match (e1, e2) {
        (EntryView::User(u1), EntryView::User(u2)) => {
            assert(x.subrange(5, x.len() as int) =~= escape(u1.agent) + seq!['|'] + escape(u1.name));
            assert(x.subrange(5, x.len() as int) =~= escape(u2.agent) + seq!['|'] + escape(u2.name));
            lemma_escape_separated(u1.agent, u2.agent, escape(u1.name), escape(u2.name));
            assert(escape(u1.name) + seq!['|'] + Seq::<char>::empty() =~= escape(u2.name) + seq!['|'] + Seq::<char>::empty());
            lemma_escape_separated(u1.name, u2.name, Seq::<char>::empty(), Seq::<char>::empty());
        },
        (EntryView::Anchor(p1), EntryView::Anchor(p2)) => {
            assert(x.subrange(12, x.len() as int) =~= escape(p1));
            assert(x.subrange(12, x.len() as int) =~= escape(p2));
            assert(escape(p1) + seq!['|'] + Seq::<char>::empty() =~= escape(p2) + seq!['|'] + Seq::<char>::empty());
            lemma_escape_separated(p1, p2, Seq::<char>::empty(), Seq::<char>::empty());
        },
        (EntryView::User(_), EntryView::Anchor(_)) => {
            assert(entry_address(e1)[4] == '|');
            assert(entry_address(e2)[4] == '_');
        },
        (EntryView::Anchor(_), EntryView::User(_)) => {
            assert(entry_address(e1)[4] == '_');
            assert(entry_address(e2)[4] == '|');
        },
    }
}

/// Appends the escaped form of `s` to `out`.
fn append_escaped(out: &mut String, s: &String)
    ensures
        final(out)@ == old(out)@ + escape(s@),
{
    let ghost start = out@;
    let n: usize = s.as_str().unicode_len();
    for i in 0..n
        invariant
            n == s@.len(),
            out@ == start + escape(s@.subrange(0, i as int)),
    {
        let c = s.as_str().get_char(i);
        let piece = s.as_str().substring_char(i, i + 1);
        if c == '\\' || c == '|' {
            out.append("\\");
        }
        out.append(piece);
        proof {
            let t = s@.subrange(0, i + 1);
            assert(t.drop_last() =~= s@.subrange(0, i as int));
            assert(piece@ =~= seq![c]);
            assert(t.last() == c);
            reveal_strlit("\\");
            assert("\\"@ =~= seq!['\\']);
            assert(escape(t) == escape(s@.subrange(0, i as int)) + escape_char(c));
            assert(out@ =~= start + escape(t));
        }
    }
    assert(s@.subrange(0, n as int) =~= s@);
}

/// Address of a registration record.
pub fn user_address(u: &User) -> (r: String)
    ensures
        r@ == user_address_of(u@),
{
    proof {
        reveal_strlit("user|");
        reveal_strlit("|");
    }
    let mut out = String::from_str("user|");
    append_escaped(&mut out, &u.agent);
    out.append("|");
    append_escaped(&mut out, &u.name);
    assert(out@ =~= user_address_of(u@));
    out
}

/// Address of an anchor record with the given payload.
pub fn anchor_entry_address(payload: &String) -> (r: String)
    ensures
        r@ == anchor_address_of(payload@),
{
    proof {
        reveal_strlit("user_anchor|");
    }
    let mut out = String::from_str("user_anchor|");
    append_escaped(&mut out, payload);
    assert(out@ =~= anchor_address_of(payload@));
    out
}

/// Address of any record.
pub fn address_of(e: &Entry) -> (r: String)
    ensures
        r@ == entry_address(e@),
{
    match e {
        Entry::User(u) => user_address(u),
        Entry::Anchor(p) => anchor_entry_address(p),
    }
}

/// The anchor record itself.
pub fn users_anchor_entry() -> (r: Entry)
    ensures
        r@ == users_anchor(),
{
    proof {
        reveal_strlit("users");
    }
    let p = String::from_str("users");
    assert(p@ =~= anchor_payload());
    Entry::Anchor(p)
}

/// The well-known address of the anchor.
pub fn anchor_address() -> (r: String)
    ensures
        r@ == anchor_address_spec(),
{
    address_of(&users_anchor_entry())
}

} // verus!
