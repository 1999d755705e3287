//! Message types exchanged with the central server, and the ordered
//! key-value lists that carry patch and scenery entries. On the wire,
//! entities are named by their string ids, never by indices.

use vstd::prelude::*;

verus! {

// ------------------------------------------------------------------
// Key-value lists
// ------------------------------------------------------------------

/// String equality, specified over the character sequences.
pub fn str_eq(a: &String, b: &String) -> (r: bool)
    ensures
        r == (a@ == b@),
{
    *a == *b
}

/// No two entries share a key.
pub open spec fn kv_unique<V>(s: Seq<(String, V)>) -> bool {
    forall|i: int, j: int| 0 <= i < j < s.len() ==> s[i].0@ != s[j].0@
}

/// Some entry has key `k`.
pub open spec fn kv_has_key<V>(s: Seq<(String, V)>, k: Seq<char>) -> bool {
    exists|i: int| 0 <= i < s.len() && s[i].0@ == k
}

/// The finite map a key-value list denotes, over the values' views; later
/// entries win.
pub open spec fn kv_map<V: View>(s: Seq<(String, V)>) -> Map<Seq<char>, V::V>
    decreases s.len(),
{
    if s.len() == 0 {
        Map::empty()
    } else {
        kv_map(s.drop_last()).insert(s.last().0@, s.last().1@)
    }
}

/// The denoted map contains exactly the listed keys.
pub proof fn lemma_kv_map_dom<V: View>(s: Seq<(String, V)>)
    ensures
        forall|k: Seq<char>| #[trigger] kv_map(s).contains_key(k) <==> kv_has_key(s, k),
    decreases s.len(),
{
    if s.len() > 0 {
        let t = s.drop_last();
        lemma_kv_map_dom(t);
        assert forall|k: Seq<char>| #[trigger] kv_map(s).contains_key(k) <==> kv_has_key(s, k) by {
            if kv_map(s).contains_key(k) {
                if k == s.last().0@ {
                    assert(s[s.len() - 1].0@ == k);
                } else {
                    assert(kv_map(t).contains_key(k));
                    assert(kv_has_key(t, k));
                    let i = choose|i: int| 0 <= i < t.len() && t[i].0@ == k;
                    assert(s[i] == t[i]);
                }
            }
            if kv_has_key(s, k) {
                let i = choose|i: int| 0 <= i < s.len() && s[i].0@ == k;
                if i < s.len() - 1 {
                    assert(t[i] == s[i]);
                    assert(kv_has_key(t, k));
                    assert(kv_map(t).contains_key(k));
                } else {
                    assert(k == s.last().0@);
                }
            }
        }
    }
}

/// In a unique-keyed list, the denoted map gives each entry's value.
pub proof fn lemma_kv_map_index<V: View>(s: Seq<(String, V)>, i: int)
    requires
        kv_unique(s),
        0 <= i < s.len(),
    ensures
        kv_map(s).contains_key(s[i].0@),
        kv_map(s)[s[i].0@] == s[i].1@,
    decreases s.len(),
{
    lemma_kv_map_dom(s);
    if i < s.len() - 1 {
        assert(s.drop_last()[i] == s[i]);
        lemma_kv_map_index(s.drop_last(), i);
        assert(s[i].0@ != s.last().0@);
    }
}

/// Overwriting one entry's value denotes a map `insert` on its key.
pub proof fn lemma_kv_map_update<V: View>(s: Seq<(String, V)>, i: int, e: (String, V))
    requires
        kv_unique(s),
        0 <= i < s.len(),
        e.0@ == s[i].0@,
    ensures
        kv_map(s.update(i, e)) == kv_map(s).insert(e.0@, e.1@),
    decreases s.len(),
{
    let t = s.update(i, e);
    if i == s.len() - 1 {
        assert(t.drop_last() =~= s.drop_last());
        assert(kv_map(t) =~= kv_map(s).insert(e.0@, e.1@));
    } else {
        assert(t.drop_last() =~= s.drop_last().update(i, e));
        assert(t.last() == s.last());
        lemma_kv_map_update(s.drop_last(), i, e);
        assert(s[i].0@ != s.last().0@);
        assert(kv_map(t) =~= kv_map(s).insert(e.0@, e.1@));
    }
}

/// Inserts `(key, value)`, replacing the entry with an equal key if one
/// exists, so that the list keeps denoting a map.
pub fn kv_insert<V: View>(list: &mut Vec<(String, V)>, key: String, value: V)
    requires
        kv_unique(old(list)@),
    ensures
        kv_unique(final(list)@),
        kv_map(final(list)@) == kv_map(old(list)@).insert(key@, value@),
        final(list)@.len() >= old(list)@.len(),
        forall|k: Seq<char>| kv_has_key(final(list)@, k) <==> kv_has_key(old(list)@, k) || k == key@,
{
    let ghost s0 = list@;
    let ghost kp = key@;
    let mut i: usize = 0;
    while i < list.len()
        invariant
            0 <= i <= list@.len(),
            list@ == s0,
            s0 == old(list)@,
            key@ == kp,
            kv_unique(s0),
            forall|j: int| 0 <= j < i ==> s0[j].0@ != kp,
        decreases list@.len() - i,
    {
        if str_eq(&list[i].0, &key) {
            list[i] = (key, value);
            proof {
                let e = list@[i as int];
                assert(list@ =~= s0.update(i as int, e));
                assert(e.0@ == kp && e.1 == value);
                assert(e.1@ == value@);
                assert(e.0@ == s0[i as int].0@);
                lemma_kv_map_update(s0, i as int, e);
                lemma_kv_map_dom(s0);
                lemma_kv_map_dom(list@);
                assert forall|k: Seq<char>|
                    kv_has_key(list@, k) <==> kv_has_key(s0, k) || k == kp by {
                    assert(kv_map(list@) == kv_map(s0).insert(kp, value@));
                    assert(kv_map(list@).contains_key(k) <==> kv_map(s0).contains_key(k) || k
                        == kp);
                }
                assert(kv_unique(list@));
            }
            return ;
        }
        i = i + 1;
    }
    list.push((key, value));
    proof {
        assert(list@.drop_last() =~= s0);
        lemma_kv_map_dom(s0);
        lemma_kv_map_dom(list@);
        assert forall|k: Seq<char>| kv_has_key(list@, k) <==> kv_has_key(s0, k) || k == key@ by {
            assert(kv_map(list@).contains_key(k) <==> kv_map(s0).contains_key(k) || k == key@);
        }
    }
}

// ------------------------------------------------------------------
// Wire messages
// ------------------------------------------------------------------

/// A block state as carried on the wire: route endpoints are node id
/// strings, not indices.
#[derive(Clone, Debug, PartialEq)]
pub enum BlockState {
    Clear,
    Relax,
    Route(String, String),
}

/// The mathematical value of a wire block state: the same three cases over
/// character sequences.
pub enum BlockStateView {
    Clear,
    Relax,
    Route(Seq<char>, Seq<char>),
}

impl View for BlockState {
    type V = BlockStateView;

    open spec fn view(&self) -> BlockStateView {
        match self {
            BlockState::Clear => BlockStateView::Clear,
            BlockState::Relax => BlockStateView::Relax,
            BlockState::Route(a, b) => BlockStateView::Route(a@, b@),
        }
    }
}

/// A set of state changes for one aerodrome: an optional profile switch plus
/// per-id node and block values. Sent in both directions.
#[derive(Clone, Debug, PartialEq)]
pub struct Patch {
    pub profile: Option<String>,
    pub nodes: Vec<(String, bool)>,
    pub blocks: Vec<(String, BlockState)>,
}

impl Patch {
    /// Both entry lists denote maps.
    pub open spec fn wf(self) -> bool {
        kv_unique(self.nodes@) && kv_unique(self.blocks@)
    }

    /// Nothing to send: no profile switch and no entries.
    pub open spec fn is_empty_spec(self) -> bool {
        self.profile is None && self.nodes@.len() == 0 && self.blocks@.len() == 0
    }

    pub fn new() -> (r: Patch)
        ensures
            r.wf(),
            r.is_empty_spec(),
    {
        Patch { profile: None, nodes: Vec::new(), blocks: Vec::new() }
    }

    pub fn is_empty(&self) -> (r: bool)
        ensures
            r == self.is_empty_spec(),
    {
        self.profile.is_none() && self.nodes.len() == 0 && self.blocks.len() == 0
    }
}

/// Whether this station is tracking an aerodrome passively or controlling
/// it.
#[derive(Clone, Copy, Debug, PartialEq, Eq, Structural)]
pub enum ActivityState {
    Inactive,
    Observing,
    Controlling,
}

/// A message from this client to the server.
#[derive(Clone, Debug, PartialEq)]
pub enum Upstream {
    Init,
    Track { icao: String, track: bool },
    Control { icao: String, control: bool },
    Patch { icao: String, patch: Patch },
    Scenery { icao: String, scenery: Vec<(String, bool)> },
}

/// A message from the server to this client.
#[derive(Clone, Debug, PartialEq)]
pub enum Downstream {
    Config { data: Vec<u8> },
    Control { icao: String, control: bool },
    Patch { icao: String, patch: Patch },
    Aircraft { icao: String, aircraft: Vec<String> },
    Error { icao: String, message: Option<String>, disconnect: bool },
}

} // verus!
