//! The per-aerodrome state engine and the multi-aerodrome client façade.
//!
//! The engine owns the dual-state cells for every node and block, the derived
//! index tables, the outbound patch/scenery buffer and the reset timers. All
//! its operations are synchronous; time enters only as an explicit
//! millisecond clock value supplied by the caller.

use vstd::prelude::*;

use crate::config;
use crate::config::{
    bs_eq, bs_eq_spec, contains_route, routes_contain, BlockCondition, BlockState, EdgeCondition,
    EdgeState, ElementCondition, NodeCondition, NodeState, ResetCondition,
};
use crate::dual::State;
use crate::protocol;
use crate::protocol::{
    kv_has_key, kv_insert, kv_map, kv_unique, lemma_kv_map_dom, lemma_kv_map_index, str_eq,
    ActivityState, Patch,
};

verus! {

broadcast use vstd::seq_lib::lemma_seq_contains_after_push;

/// Reset timers for one kind of entity: `(entity index, deadline in
/// milliseconds)`, drained from the front while deadlines have passed.
pub type Timers = Vec<(usize, u64)>;

/// The timer list without any entry for entity `n`, order kept.
pub open spec fn timers_without(s: Seq<(usize, u64)>, n: int) -> Seq<(usize, u64)>
    decreases s.len(),
{
    if s.len() == 0 {
        s
    } else {
        let rest = timers_without(s.drop_last(), n);
        if s.last().0 != n {
            rest.push(s.last())
        } else {
            rest
        }
    }
}

/// The timer entries for entity `n` alone, order kept.
pub open spec fn timers_for(s: Seq<(usize, u64)>, n: int) -> Seq<(usize, u64)>
    decreases s.len(),
{
    if s.len() == 0 {
        s
    } else {
        let rest = timers_for(s.drop_last(), n);
        if s.last().0 == n {
            rest.push(s.last())
        } else {
            rest
        }
    }
}

/// Every entry of the filtered list is an entry of the original.
proof fn lemma_timers_without_entries(s: Seq<(usize, u64)>, n: int)
    ensures
        forall|i: int|
            0 <= i < timers_without(s, n).len() ==> exists|j: int|
                0 <= j < s.len() && #[trigger] timers_without(s, n)[i] == s[j],
    decreases s.len(),
{
    if s.len() > 0 {
        lemma_timers_without_entries(s.drop_last(), n);
        assert forall|i: int| 0 <= i < timers_without(s, n).len() implies exists|j: int|
            0 <= j < s.len() && #[trigger] timers_without(s, n)[i] == s[j] by {
            let t = timers_without(s.drop_last(), n);
            if i < t.len() {
                let j = choose|j: int|
                    0 <= j < s.drop_last().len() && #[trigger] t[i] == s.drop_last()[j];
                assert(timers_without(s, n)[i] == s[j]);
            } else {
                assert(timers_without(s, n)[i] == s[s.len() - 1]);
            }
        }
    }
}

/// Removing entity `n`'s entries leaves no entry for `n` and every other
/// entity's entries untouched.
proof fn lemma_timers_for_without(s: Seq<(usize, u64)>, n: int, m: int)
    ensures
        timers_for(timers_without(s, n), m) == if m == n {
            Seq::<(usize, u64)>::empty()
        } else {
            timers_for(s, m)
        },
    decreases s.len(),
{
    if s.len() == 0 {
        assert(timers_for(timers_without(s, n), m) =~= if m == n {
            Seq::<(usize, u64)>::empty()
        } else {
            timers_for(s, m)
        });
    } else {
        lemma_timers_for_without(s.drop_last(), n, m);
        let rest = timers_without(s.drop_last(), n);
        if s.last().0 != n {
            assert(timers_without(s, n) == rest.push(s.last()));
            assert(rest.push(s.last()).drop_last() =~= rest);
            assert(rest.push(s.last()).last() == s.last());
        }
    }
}

/// Removing entries never lengthens a timer list.
proof fn lemma_timers_without_len(s: Seq<(usize, u64)>, n: int)
    ensures
        timers_without(s, n).len() <= s.len(),
    decreases s.len(),
{
    if s.len() > 0 {
        lemma_timers_without_len(s.drop_last(), n);
    }
}

/// Appending an entry for `e.0` extends exactly that entity's entries.
proof fn lemma_timers_for_push(s: Seq<(usize, u64)>, e: (usize, u64), m: int)
    ensures
        timers_for(s.push(e), m) == if e.0 == m {
            timers_for(s, m).push(e)
        } else {
            timers_for(s, m)
        },
{
    assert(s.push(e).drop_last() =~= s);
    assert(s.push(e).last() == e);
}

/// Removes every timer entry for entity `n`.
fn remove_timers(timers: &mut Timers, n: usize)
    ensures
        final(timers)@ == timers_without(old(timers)@, n as int),
{
    let ghost s0 = timers@;
    let mut out: Vec<(usize, u64)> = Vec::new();
    let mut i: usize = 0;
    while i < timers.len()
        invariant
            0 <= i <= timers@.len(),
            timers@ == s0,
            out@ == timers_without(s0.take(i as int), n as int),
        decreases timers@.len() - i,
    {
        let e = timers[i];
        proof {
            assert(s0.take(i as int + 1).drop_last() =~= s0.take(i as int));
            assert(s0.take(i as int + 1).last() == s0[i as int]);
        }
        if e.0 != n {
            out.push(e);
        }
        i = i + 1;
    }
    proof {
        assert(s0.take(s0.len() as int) =~= s0);
    }
    *timers = out;
}

/// The deadline `now_ms + secs` seconds, saturating at the far end of time.
pub open spec fn deadline_spec(now_ms: u64, secs: u32) -> u64 {
    if now_ms + secs as int * 1000 <= u64::MAX as int {
        (now_ms + secs as int * 1000) as u64
    } else {
        u64::MAX
    }
}

fn deadline(now_ms: u64, secs: u32) -> (r: u64)
    ensures
        r == deadline_spec(now_ms, secs),
{
    let d: u64 = (secs as u64) * 1000;
    now_ms.saturating_add(d)
}

/// One tracked aerodrome's full dynamic state.
pub struct Aerodrome {
    pub config: config::Aerodrome,
    pub state: ActivityState,
    pub profile: usize,
    /// Per node and side, the co-located `(peer node, peer side)` pairs not
    /// forbidden by the shared block's route list.
    pub conns0: Vec<Vec<(usize, bool)>>,
    pub conns1: Vec<Vec<(usize, bool)>>,
    /// The (at most two) blocks each node borders, by side.
    pub node_blocks: Vec<(usize, usize)>,
    /// Child nodes of each parent node.
    pub children: Vec<Vec<usize>>,
    pub nodes: Vec<State<bool>>,
    pub blocks: Vec<State<BlockState>>,
    pub aircraft: Vec<String>,
    pub pending_patch: Patch,
    /// Node indices touched since the last flush, in insertion order.
    pub pending_nodes: Vec<usize>,
    pub previous_edges: Vec<bool>,
    /// Element indices that follow each node / edge.
    pub node_dependencies: Vec<Vec<usize>>,
    pub edge_dependencies: Vec<Vec<usize>>,
    pub node_timers: Timers,
    pub block_timers: Timers,
}

impl Aerodrome {
    // --------------------------------------------------------------
    // Spec helpers
    // --------------------------------------------------------------

    pub open spec fn n_nodes(self) -> int {
        self.config.nodes@.len() as int
    }

    pub open spec fn n_blocks(self) -> int {
        self.config.blocks@.len() as int
    }

    pub open spec fn n_edges(self) -> int {
        self.config.edges@.len() as int
    }

    pub open spec fn n_elements(self) -> int {
        self.config.elements@.len() as int
    }

    /// The active profile's condition for node `n`.
    pub open spec fn node_cond(self, n: int) -> NodeCondition {
        self.config.profiles@[self.profile as int].nodes@[n]
    }

    /// The active profile's condition for edge `e`.
    pub open spec fn edge_cond(self, e: int) -> EdgeCondition {
        self.config.profiles@[self.profile as int].edges@[e]
    }

    /// The active profile's condition for block `b`.
    pub open spec fn block_cond(self, b: int) -> BlockCondition {
        self.config.profiles@[self.profile as int].blocks@[b]
    }

    /// Effective (pending-preferring) value of node `n`'s dual-state cell.
    pub open spec fn node_eff(self, n: int) -> bool {
        self.nodes@[n].effective()
    }

    /// Effective (pending-preferring) state of block `b`.
    pub open spec fn blk_eff(self, b: int) -> BlockState {
        self.blocks@[b].effective()
    }

    /// Node `n` is transparent: its condition is exactly `Fixed(Off)`.
    pub open spec fn transparent(self, n: int) -> bool {
        self.node_cond(n) == (NodeCondition::Fixed { state: NodeState::Off })
    }

    /// A block state only names existing nodes as route endpoints.
    pub open spec fn bs_wf(self, s: BlockState) -> bool {
        match s {
            BlockState::Route((a, b)) => a.0 < self.n_nodes() && b.0 < self.n_nodes(),
            _ => true,
        }
    }

    /// Block `b`'s state leaves router node `n` lit: the block is clear, or
    /// routes between two other nodes.
    pub open spec fn block_clears(self, b: int, n: int) -> bool {
        match self.blk_eff(b) {
            BlockState::Clear => true,
            BlockState::Relax => false,
            BlockState::Route((a, bb)) => a.0 != n && bb.0 != n,
        }
    }

    /// The effective boolean state of node `n`: constant for fixed nodes, the
    /// dual-state value for direct nodes, and for router nodes true exactly
    /// when one of the two bordered blocks clears it.
    pub open spec fn node_state_spec(self, n: int) -> bool {
        match self.node_cond(n) {
            NodeCondition::Fixed { state } => state is On,
            NodeCondition::Direct { .. } => self.node_eff(n),
            NodeCondition::Router { .. } => self.block_clears(self.node_blocks@[n].0 as int, n)
                || self.block_clears(self.node_blocks@[n].1 as int, n),
        }
    }

    /// Derived tables and state vectors are parallel to the configuration and
    /// every stored index is in range.
    pub open spec fn inv(self) -> bool {
        &&& self.config.wf()
        &&& self.profile < self.config.profiles@.len()
        &&& self.nodes@.len() == self.n_nodes()
        &&& self.blocks@.len() == self.n_blocks()
        &&& self.node_blocks@.len() == self.n_nodes()
        &&& self.conns0@.len() == self.n_nodes()
        &&& self.conns1@.len() == self.n_nodes()
        &&& self.children@.len() == self.n_nodes()
        &&& self.previous_edges@.len() == self.n_edges()
        &&& self.node_dependencies@.len() == self.n_nodes()
        &&& self.edge_dependencies@.len() == self.n_edges()
        &&& self.n_blocks() > 0 ==> forall|n: int|
            0 <= n < self.n_nodes() ==> (#[trigger] self.node_blocks@[n]).0 < self.n_blocks()
                && self.node_blocks@[n].1 < self.n_blocks()
        &&& forall|n: int, k: int|
            0 <= n < self.n_nodes() && 0 <= k < self.conns0@[n]@.len()
                ==> (#[trigger] self.conns0@[n]@[k]).0 < self.n_nodes()
        &&& forall|n: int, k: int|
            0 <= n < self.n_nodes() && 0 <= k < self.conns1@[n]@.len()
                ==> (#[trigger] self.conns1@[n]@[k]).0 < self.n_nodes()
        &&& forall|n: int, k: int|
            0 <= n < self.n_nodes() && 0 <= k < self.children@[n]@.len()
                ==> #[trigger] self.children@[n]@[k] < self.n_nodes()
        &&& forall|i: int|
            0 <= i < self.pending_nodes@.len() ==> #[trigger] self.pending_nodes@[i]
                < self.n_nodes()
        &&& forall|n: int, k: int|
            0 <= n < self.n_nodes() && 0 <= k < self.node_dependencies@[n]@.len()
                ==> #[trigger] self.node_dependencies@[n]@[k] < self.n_elements()
        &&& forall|e: int, k: int|
            0 <= e < self.n_edges() && 0 <= k < self.edge_dependencies@[e]@.len()
                ==> #[trigger] self.edge_dependencies@[e]@[k] < self.n_elements()
        &&& forall|i: int|
            0 <= i < self.node_timers@.len() ==> (#[trigger] self.node_timers@[i]).0
                < self.n_nodes()
        &&& forall|i: int|
            0 <= i < self.block_timers@.len() ==> (#[trigger] self.block_timers@[i]).0
                < self.n_blocks()
        &&& forall|b: int|
            0 <= b < self.n_blocks() ==> self.bs_wf((#[trigger] self.blocks@[b]).current)
                && match self.blocks@[b].pending {
                Some(s) => self.bs_wf(s),
                None => true,
            }
        &&& self.pending_patch.wf()
        &&& children_ok(self.config, self.children@)
        &&& deps_ok(self.config, self.node_dependencies@, self.edge_dependencies@)
    }

    // --------------------------------------------------------------
    // Read-only accessors
    // --------------------------------------------------------------

    pub fn state(&self) -> (r: ActivityState)
        ensures
            r == self.state,
    {
        self.state
    }

    pub fn profile(&self) -> (r: usize)
        ensures
            r == self.profile,
    {
        self.profile
    }

    pub fn config(&self) -> (r: &config::Aerodrome)
        ensures
            *r == self.config,
    {
        &self.config
    }

    /// Whether `callsign` is one of the aircraft the server reported at this
    /// aerodrome.
    pub fn is_pilot_enabled(&self, callsign: &String) -> (r: bool)
        ensures
            r == (exists|i: int|
                0 <= i < self.aircraft@.len() && self.aircraft@[i]@ == callsign@),
    {
        let mut i: usize = 0;
        while i < self.aircraft.len()
            invariant
                0 <= i <= self.aircraft@.len(),
                forall|j: int| 0 <= j < i ==> self.aircraft@[j]@ != callsign@,
            decreases self.aircraft@.len() - i,
        {
            if str_eq(&self.aircraft[i], callsign) {
                return true;
            }
            i = i + 1;
        }
        false
    }

    fn block_clears_node(&self, b: usize, node: usize) -> (r: bool)
        requires
            self.inv(),
            b < self.n_blocks(),
        ensures
            r == self.block_clears(b as int, node as int),
    {
        match self.blocks[b].state() {
            BlockState::Clear => true,
            BlockState::Relax => false,
            BlockState::Route((a, bb)) => a.0 != node && bb.0 != node,
        }
    }

    /// The effective boolean state of node `node`; see `node_state_spec`.
    pub fn node_state(&self, node: usize) -> (r: bool)
        requires
            self.inv(),
            node < self.n_nodes(),
        ensures
            r == self.node_state_spec(node as int),
    {
        match self.config.profiles[self.profile].nodes[node] {
            NodeCondition::Fixed { state } => state == NodeState::On,
            NodeCondition::Direct { .. } => *self.nodes[node].state(),
            NodeCondition::Router { .. } => {
                let nb = self.node_blocks[node];
                self.block_clears_node(nb.0, node) || self.block_clears_node(nb.1, node)
            },
        }
    }
}

// ------------------------------------------------------------------
// Candidate routes and the edge evaluator
// ------------------------------------------------------------------

/// The first components of a pair sequence.
pub open spec fn seq_firsts(s: Seq<(usize, usize)>) -> Seq<usize> {
    s.map_values(|p: (usize, usize)| p.0)
}

/// The second components of a pair sequence.
pub open spec fn seq_seconds(s: Seq<(usize, usize)>) -> Seq<usize> {
    s.map_values(|p: (usize, usize)| p.1)
}

/// The `from` endpoints of a route list.
pub open spec fn route_froms(rs: Seq<config::BlockRoute>) -> Seq<usize> {
    rs.map_values(|r: config::BlockRoute| r.from.0)
}

/// The `to` endpoints of a route list.
pub open spec fn route_tos(rs: Seq<config::BlockRoute>) -> Seq<usize> {
    rs.map_values(|r: config::BlockRoute| r.to.0)
}

/// Every member of `xs` occurs in `ys`.
pub open spec fn subset_of(xs: Seq<usize>, ys: Seq<usize>) -> bool {
    forall|i: int| 0 <= i < xs.len() ==> ys.contains(xs[i])
}

/// The pairs `(a, b)` for `b` drawn from `bs` in order, omitting forbidden
/// routes.
pub open spec fn pairs_from(a: usize, bs: Seq<usize>, nr: Seq<config::BlockRoute>) -> Seq<
    (usize, usize),
>
    decreases bs.len(),
{
    if bs.len() == 0 {
        Seq::empty()
    } else {
        (if !routes_contain(nr, a as int, bs[0] as int) {
            seq![(a, bs[0])]
        } else {
            Seq::empty()
        }) + pairs_from(a, bs.drop_first(), nr)
    }
}

/// The pairs of `az × bs`, `a`-major, omitting forbidden routes.
pub open spec fn pairs_all(az: Seq<usize>, bs: Seq<usize>, nr: Seq<config::BlockRoute>) -> Seq<
    (usize, usize),
>
    decreases az.len(),
{
    if az.len() == 0 {
        Seq::empty()
    } else {
        pairs_from(az[0], bs, nr) + pairs_all(az.drop_first(), bs, nr)
    }
}

proof fn lemma_pairs_from_push(a: usize, bs: Seq<usize>, y: usize, nr: Seq<config::BlockRoute>)
    ensures
        pairs_from(a, bs.push(y), nr) == pairs_from(a, bs, nr) + (if !routes_contain(
            nr,
            a as int,
            y as int,
        ) {
            seq![(a, y)]
        } else {
            Seq::<(usize, usize)>::empty()
        }),
    decreases bs.len(),
{
    let tail = if !routes_contain(nr, a as int, y as int) {
        seq![(a, y)]
    } else {
        Seq::<(usize, usize)>::empty()
    };
    if bs.len() == 0 {
        let p = bs.push(y);
        assert(p.len() == 1);
        assert(p[0] == y);
        assert(p.drop_first() =~= Seq::<usize>::empty());
        assert(pairs_from(a, p.drop_first(), nr) == Seq::<(usize, usize)>::empty());
        assert(pairs_from(a, p, nr) == tail + pairs_from(a, p.drop_first(), nr));
        assert(pairs_from(a, bs, nr) == Seq::<(usize, usize)>::empty());
        assert(pairs_from(a, p, nr) =~= pairs_from(a, bs, nr) + tail);
    } else {
        let head = if !routes_contain(nr, a as int, bs[0] as int) {
            seq![(a, bs[0])]
        } else {
            Seq::<(usize, usize)>::empty()
        };
        assert(bs.push(y).drop_first() =~= bs.drop_first().push(y));
        assert(bs.push(y)[0] == bs[0]);
        lemma_pairs_from_push(a, bs.drop_first(), y, nr);
        assert(pairs_from(a, bs.push(y), nr) == head + pairs_from(a, bs.drop_first().push(y), nr));
        assert(pairs_from(a, bs.drop_first().push(y), nr) == pairs_from(a, bs.drop_first(), nr)
            + tail);
        assert(pairs_from(a, bs, nr) == head + pairs_from(a, bs.drop_first(), nr));
        assert(head + (pairs_from(a, bs.drop_first(), nr) + tail) =~= (head + pairs_from(
            a,
            bs.drop_first(),
            nr,
        )) + tail);
    }
}

proof fn lemma_pairs_all_push(az: Seq<usize>, x: usize, bs: Seq<usize>, nr: Seq<config::BlockRoute>)
    ensures
        pairs_all(az.push(x), bs, nr) == pairs_all(az, bs, nr) + pairs_from(x, bs, nr),
    decreases az.len(),
{
    if az.len() == 0 {
        let p = az.push(x);
        assert(p.len() == 1);
        assert(p[0] == x);
        assert(p.drop_first() =~= Seq::<usize>::empty());
        assert(pairs_all(p.drop_first(), bs, nr) == Seq::<(usize, usize)>::empty());
        assert(pairs_all(p, bs, nr) == pairs_from(x, bs, nr) + pairs_all(p.drop_first(), bs, nr));
        assert(pairs_all(az, bs, nr) == Seq::<(usize, usize)>::empty());
        assert(pairs_all(p, bs, nr) =~= pairs_all(az, bs, nr) + pairs_from(x, bs, nr));
    } else {
        let head = pairs_from(az[0], bs, nr);
        assert(az.push(x).drop_first() =~= az.drop_first().push(x));
        assert(az.push(x)[0] == az[0]);
        lemma_pairs_all_push(az.drop_first(), x, bs, nr);
        assert(pairs_all(az.push(x), bs, nr) == head + pairs_all(az.drop_first().push(x), bs, nr));
        assert(pairs_all(az.drop_first().push(x), bs, nr) == pairs_all(az.drop_first(), bs, nr)
            + pairs_from(x, bs, nr));
        assert(pairs_all(az, bs, nr) == head + pairs_all(az.drop_first(), bs, nr));
        assert(head + (pairs_all(az.drop_first(), bs, nr) + pairs_from(x, bs, nr)) =~= (head
            + pairs_all(az.drop_first(), bs, nr)) + pairs_from(x, bs, nr));
    }
}

impl Aerodrome {
    /// The routing granularities available at parent node `p`: its children,
    /// or the parent itself when it has none.
    pub open spec fn children_or_self(self, p: int) -> Seq<usize> {
        if self.children@[p]@.len() > 0 {
            self.children@[p]@
        } else {
            seq![p as usize]
        }
    }

    /// All child-level routes block `b` could currently carry: the cross
    /// product of the granularities of its two routed endpoints, minus the
    /// forbidden routes. Empty unless the block is actively routing.
    pub open spec fn route_candidates_spec(self, block: int) -> Seq<(usize, usize)> {
        match self.blk_eff(block) {
            BlockState::Route((ap, bp)) => pairs_all(
                self.children_or_self(ap.0 as int),
                self.children_or_self(bp.0 as int),
                self.config.blocks@[block].non_routes@,
            ),
            _ => Seq::empty(),
        }
    }

    fn route_candidates(&self, block: usize) -> (r: Vec<(usize, usize)>)
        requires
            self.inv(),
            block < self.n_blocks(),
        ensures
            r@ == self.route_candidates_spec(block as int),
    {
        let (ap, bp) = match *self.blocks[block].state() {
            BlockState::Route((a, b)) => (a.0, b.0),
            _ => {
                return Vec::new();
            },
        };
        let ao = vec![ap];
        let bo = vec![bp];
        let ac = if self.children[ap].len() > 0 {
            &self.children[ap]
        } else {
            &ao
        };
        let bc = if self.children[bp].len() > 0 {
            &self.children[bp]
        } else {
            &bo
        };
        let ghost acs = self.children_or_self(ap as int);
        let ghost bcs = self.children_or_self(bp as int);
        assert(ac@ =~= acs);
        assert(bc@ =~= bcs);
        let nr = &self.config.blocks[block].non_routes;
        let mut routes: Vec<(usize, usize)> = Vec::new();
        let mut i: usize = 0;
        while i < ac.len()
            invariant
                0 <= i <= ac@.len(),
                ac@ == acs,
                bc@ == bcs,
                nr@ == self.config.blocks@[block as int].non_routes@,
                routes@ == pairs_all(acs.take(i as int), bcs, nr@),
            decreases ac@.len() - i,
        {
            let a = ac[i];
            let mut j: usize = 0;
            while j < bc.len()
                invariant
                    0 <= j <= bc@.len(),
                    0 <= i < ac@.len(),
                    ac@ == acs,
                    bc@ == bcs,
                    a == acs[i as int],
                    nr@ == self.config.blocks@[block as int].non_routes@,
                    routes@ == pairs_all(acs.take(i as int), bcs, nr@) + pairs_from(
                        a,
                        bcs.take(j as int),
                        nr@,
                    ),
                decreases bc@.len() - j,
            {
                let b = bc[j];
                proof {
                    lemma_pairs_from_push(a, bcs.take(j as int), b, nr@);
                    assert(bcs.take(j as int).push(b) =~= bcs.take(j as int + 1));
                }
                if !contains_route(nr, a, b) {
                    routes.push((a, b));
                }
                j = j + 1;
            }
            proof {
                lemma_pairs_all_push(acs.take(i as int), a, bcs, nr@);
                assert(acs.take(i as int).push(a) =~= acs.take(i as int + 1));
                assert(bcs.take(bcs.len() as int) =~= bcs);
            }
            i = i + 1;
        }
        proof {
            assert(acs.take(acs.len() as int) =~= acs);
        }
        routes
    }
}

/// Decides `subset_of` executably.
fn subset(xs: &Vec<usize>, ys: &Vec<usize>) -> (r: bool)
    ensures
        r == subset_of(xs@, ys@),
{
    let mut i: usize = 0;
    while i < xs.len()
        invariant
            0 <= i <= xs@.len(),
            forall|j: int| 0 <= j < i ==> ys@.contains(xs@[j]),
        decreases xs@.len() - i,
    {
        let x = xs[i];
        let mut found = false;
        let mut j: usize = 0;
        while j < ys.len()
            invariant
                0 <= j <= ys@.len(),
                found <==> exists|k: int| 0 <= k < j && ys@[k] == x,
            decreases ys@.len() - j,
        {
            if ys[j] == x {
                found = true;
            }
            j = j + 1;
        }
        if !found {
            assert(!ys@.contains(xs@[i as int]));
            return false;
        }
        i = i + 1;
    }
    true
}

impl Aerodrome {
    /// Every node's effective state, as the edge evaluator reads it.
    pub open spec fn node_states_seq(self) -> Seq<bool> {
        Seq::new(self.n_nodes() as nat, |n: int| self.node_state_spec(n))
    }

    fn node_states_vec(&self) -> (r: Vec<bool>)
        requires
            self.inv(),
        ensures
            r@ == self.node_states_seq(),
    {
        let mut out: Vec<bool> = Vec::new();
        let n = self.config.nodes.len();
        let mut i: usize = 0;
        while i < n
            invariant
                self.inv(),
                n == self.n_nodes(),
                0 <= i <= n,
                out@.len() == i,
                forall|j: int| 0 <= j < i ==> out@[j] == self.node_state_spec(j),
            decreases n - i,
        {
            out.push(self.node_state(i));
            i = i + 1;
        }
        proof {
            assert(out@ =~= self.node_states_seq());
        }
        out
    }

    /// The candidate endpoints at `parent`, after applying the restriction
    /// the adjacent block's state imposes: none when the adjacent block is
    /// clear, everything ruled out when it relaxes, and the adjacent block's
    /// own candidate endpoints at `parent` when it routes through `parent`.
    pub open spec fn restricted_side(self, block: int, parent: int, side_vals: Seq<usize>) -> Seq<
        usize,
    > {
        let nb = self.node_blocks@[parent];
        let adjacent = if nb.0 != block {
            nb.0 as int
        } else {
            nb.1 as int
        };
        match self.blk_eff(adjacent) {
            BlockState::Clear => side_vals,
            BlockState::Relax => Seq::empty(),
            BlockState::Route((a, b)) => {
                if a.0 == parent {
                    seq_firsts(self.route_candidates_spec(adjacent))
                } else if b.0 == parent {
                    seq_seconds(self.route_candidates_spec(adjacent))
                } else {
                    side_vals
                }
            },
        }
    }

    fn restrict_side(&self, block: usize, parent: usize, side_vals: Vec<usize>) -> (r: Vec<usize>)
        requires
            self.inv(),
            self.n_blocks() > 0,
            parent < self.n_nodes(),
        ensures
            r@ == self.restricted_side(block as int, parent as int, side_vals@),
    {
        let nb = self.node_blocks[parent];
        let adjacent = if nb.0 != block {
            nb.0
        } else {
            nb.1
        };
        match *self.blocks[adjacent].state() {
            BlockState::Clear => side_vals,
            BlockState::Relax => Vec::new(),
            BlockState::Route((a, b)) => {
                if a.0 == parent {
                    let pts = self.route_candidates(adjacent);
                    let mut out: Vec<usize> = Vec::new();
                    let mut i: usize = 0;
                    while i < pts.len()
                        invariant
                            0 <= i <= pts@.len(),
                            out@.len() == i,
                            forall|j: int| 0 <= j < i ==> out@[j] == pts@[j].0,
                        decreases pts@.len() - i,
                    {
                        out.push(pts[i].0);
                        i = i + 1;
                    }
                    proof {
                        assert(out@ =~= seq_firsts(pts@));
                    }
                    out
                } else if b.0 == parent {
                    let pts = self.route_candidates(adjacent);
                    let mut out: Vec<usize> = Vec::new();
                    let mut i: usize = 0;
                    while i < pts.len()
                        invariant
                            0 <= i <= pts@.len(),
                            out@.len() == i,
                            forall|j: int| 0 <= j < i ==> out@[j] == pts@[j].1,
                        decreases pts@.len() - i,
                    {
                        out.push(pts[i].1);
                        i = i + 1;
                    }
                    proof {
                        assert(out@ =~= seq_seconds(pts@));
                    }
                    out
                } else {
                    side_vals
                }
            },
        }
    }

    /// The boolean state of edge `e` under the active profile: a constant for
    /// fixed edges; the node expression's value for direct edges; and for
    /// router edges the partial heuristic over the named block's state,
    /// its candidate routes and the adjacent blocks' restrictions.
    pub open spec fn edge_state_spec(self, e: int) -> bool {
        match self.edge_cond(e) {
            EdgeCondition::Fixed { state } => state is On,
            EdgeCondition::Direct { nodes } => config::expr_holds(nodes, self.node_states_seq()),
            EdgeCondition::Router { block, routes } => match self.blk_eff(block.0 as int) {
                BlockState::Clear => false,
                BlockState::Relax => true,
                BlockState::Route((ap, bp)) => {
                    let cands = self.route_candidates_spec(block.0 as int);
                    if cands.len() == 0 {
                        false
                    } else if cands.len() == 1 {
                        routes_contain(routes@, cands[0].0 as int, cands[0].1 as int)
                    } else {
                        let ca = self.restricted_side(
                            block.0 as int,
                            ap.0 as int,
                            seq_firsts(cands),
                        );
                        let cb = self.restricted_side(
                            block.0 as int,
                            bp.0 as int,
                            seq_seconds(cands),
                        );
                        subset_of(ca, route_froms(routes@)) && subset_of(cb, route_tos(routes@))
                    }
                },
            },
        }
    }

    /// The boolean state of edge `edge`; see `edge_state_spec`.
    pub fn edge_state(&self, edge: usize) -> (r: bool)
        requires
            self.inv(),
            edge < self.n_edges(),
        ensures
            r == self.edge_state_spec(edge as int),
    {
        match &self.config.profiles[self.profile].edges[edge] {
            EdgeCondition::Fixed { state } => *state == EdgeState::On,
            EdgeCondition::Direct { nodes } => {
                let states = self.node_states_vec();
                nodes.evaluate(&states) == EdgeState::On
            },
            EdgeCondition::Router { block, routes } => {
                let b = block.0;
                match *self.blocks[b].state() {
                    BlockState::Clear => false,
                    BlockState::Relax => true,
                    BlockState::Route((ap, bp)) => {
                        let cands = self.route_candidates(b);
                        if cands.len() == 0 {
                            false
                        } else if cands.len() == 1 {
                            contains_route(routes, cands[0].0, cands[0].1)
                        } else {
                            let mut ca: Vec<usize> = Vec::new();
                            let mut cb: Vec<usize> = Vec::new();
                            let mut i: usize = 0;
                            while i < cands.len()
                                invariant
                                    0 <= i <= cands@.len(),
                                    ca@.len() == i,
                                    cb@.len() == i,
                                    forall|j: int| 0 <= j < i ==> ca@[j] == cands@[j].0,
                                    forall|j: int| 0 <= j < i ==> cb@[j] == cands@[j].1,
                                decreases cands@.len() - i,
                            {
                                ca.push(cands[i].0);
                                cb.push(cands[i].1);
                                i = i + 1;
                            }
                            proof {
                                assert(ca@ =~= seq_firsts(cands@));
                                assert(cb@ =~= seq_seconds(cands@));
                            }
                            let ca = self.restrict_side(b, ap.0, ca);
                            let cb = self.restrict_side(b, bp.0, cb);
                            let mut mf: Vec<usize> = Vec::new();
                            let mut mt: Vec<usize> = Vec::new();
                            let mut i: usize = 0;
                            while i < routes.len()
                                invariant
                                    0 <= i <= routes@.len(),
                                    mf@.len() == i,
                                    mt@.len() == i,
                                    forall|j: int| 0 <= j < i ==> mf@[j] == routes@[j].from.0,
                                    forall|j: int| 0 <= j < i ==> mt@[j] == routes@[j].to.0,
                                decreases routes@.len() - i,
                            {
                                mf.push(routes[i].from.0);
                                mt.push(routes[i].to.0);
                                i = i + 1;
                            }
                            proof {
                                assert(mf@ =~= route_froms(routes@));
                                assert(mt@ =~= route_tos(routes@));
                            }
                            subset(&ca, &mf) && subset(&cb, &mt)
                        }
                    },
                }
            },
        }
    }

    /// Every edge's current boolean state under the active profile.
    pub fn calculate_edges(&self) -> (r: Vec<bool>)
        requires
            self.inv(),
        ensures
            r@.len() == self.n_edges(),
            forall|e: int| 0 <= e < self.n_edges() ==> r@[e] == self.edge_state_spec(e),
    {
        let mut out: Vec<bool> = Vec::new();
        let n = self.config.edges.len();
        let mut i: usize = 0;
        while i < n
            invariant
                self.inv(),
                n == self.n_edges(),
                0 <= i <= n,
                out@.len() == i,
                forall|j: int| 0 <= j < i ==> out@[j] == self.edge_state_spec(j),
            decreases n - i,
        {
            out.push(self.edge_state(i));
            i = i + 1;
        }
        out
    }
}

// ------------------------------------------------------------------
// Operator writes: nodes, blocks, the block cascade
// ------------------------------------------------------------------

/// The immutable parts of the engine: configuration and derived tables.
pub open spec fn same_static(pre: Aerodrome, post: Aerodrome) -> bool {
    &&& post.config == pre.config
    &&& post.conns0 == pre.conns0
    &&& post.conns1 == pre.conns1
    &&& post.node_blocks == pre.node_blocks
    &&& post.children == pre.children
    &&& post.node_dependencies == pre.node_dependencies
    &&& post.edge_dependencies == pre.edge_dependencies
}

/// Node `node`'s timer list after an operator write of `state`: any old timer
/// for the node is dropped, and a reset timer is armed when a resettable
/// direct node is switched off.
pub open spec fn node_timers_after(pre: Aerodrome, node: int, state: bool, now_ms: u64) -> Seq<
    (usize, u64),
> {
    let cleared = timers_without(pre.node_timers@, node);
    match pre.node_cond(node) {
        NodeCondition::Direct { reset: ResetCondition::TimeSecs(k) } => if !state {
            cleared.push((node as usize, deadline_spec(now_ms, k)))
        } else {
            cleared
        },
        _ => cleared,
    }
}

/// What an operator write of `state` to node `node` does: the node's cell
/// predicts the value, the pending patch records it under the node's id, the
/// node is marked touched, and its timers are rewritten.
pub open spec fn set_node_post(
    pre: Aerodrome,
    post: Aerodrome,
    node: int,
    state: bool,
    now_ms: u64,
) -> bool {
    &&& same_static(pre, post)
    &&& post.state == pre.state
    &&& post.profile == pre.profile
    &&& post.aircraft == pre.aircraft
    &&& post.blocks == pre.blocks
    &&& post.block_timers == pre.block_timers
    &&& post.previous_edges == pre.previous_edges
    &&& post.nodes@ == pre.nodes@.update(node, pre.nodes@[node].predict_spec(state))
    &&& post.pending_patch.profile == pre.pending_patch.profile
    &&& post.pending_patch.blocks == pre.pending_patch.blocks
    &&& kv_map(post.pending_patch.nodes@) == kv_map(pre.pending_patch.nodes@).insert(
        pre.config.nodes@[node].id@,
        state,
    )
    &&& post.pending_nodes@ == pre.pending_nodes@.push(node as usize)
    &&& post.node_timers@ == node_timers_after(pre, node, state, now_ms)
    &&& state ==> post.node_timers@.len() <= pre.node_timers@.len()
}

/// The wire form of a block state: route endpoints become node ids.
pub open spec fn wire_of_spec(c: config::Aerodrome, s: BlockState) -> protocol::BlockStateView {
    match s {
        BlockState::Clear => protocol::BlockStateView::Clear,
        BlockState::Relax => protocol::BlockStateView::Relax,
        BlockState::Route((a, b)) => protocol::BlockStateView::Route(
            c.nodes@[a.0 as int].id@,
            c.nodes@[b.0 as int].id@,
        ),
    }
}

/// Block `b`'s timer list after a write of `state`: old timers dropped, and a
/// reset timer armed when a resettable block leaves `Clear`.
pub open spec fn block_timers_after(pre: Aerodrome, b: int, state: BlockState, now_ms: u64) -> Seq<
    (usize, u64),
> {
    let cleared = timers_without(pre.block_timers@, b);
    if !(state is Clear) {
        match pre.block_cond(b).reset {
            ResetCondition::TimeSecs(k) => cleared.push((b as usize, deadline_spec(now_ms, k))),
            ResetCondition::Never => cleared,
        }
    } else {
        cleared
    }
}

/// What one (cascade-free) block write does.
pub open spec fn set_block_state_post(
    pre: Aerodrome,
    post: Aerodrome,
    b: int,
    state: BlockState,
    now_ms: u64,
) -> bool {
    &&& same_static(pre, post)
    &&& post.state == pre.state
    &&& post.profile == pre.profile
    &&& post.aircraft == pre.aircraft
    &&& post.nodes == pre.nodes
    &&& post.node_timers == pre.node_timers
    &&& post.pending_nodes == pre.pending_nodes
    &&& post.previous_edges == pre.previous_edges
    &&& post.blocks@ == pre.blocks@.update(b, pre.blocks@[b].predict_spec(state))
    &&& post.pending_patch.profile == pre.pending_patch.profile
    &&& post.pending_patch.nodes == pre.pending_patch.nodes
    &&& kv_map(post.pending_patch.blocks@) == kv_map(pre.pending_patch.blocks@).insert(
        pre.config.blocks@[b].id@,
        wire_of_spec(pre.config, state),
    )
    &&& post.block_timers@ == block_timers_after(pre, b, state, now_ms)
    &&& state is Clear ==> post.block_timers@.len() <= pre.block_timers@.len()
}

impl Aerodrome {
    /// Converts an internal block state to its wire form.
    fn bs_conf_to_ipc(&self, state: &BlockState) -> (r: protocol::BlockState)
        requires
            self.inv(),
            self.bs_wf(*state),
        ensures
            r@ == wire_of_spec(self.config, *state),
    {
        match state {
            BlockState::Clear => protocol::BlockState::Clear,
            BlockState::Relax => protocol::BlockState::Relax,
            BlockState::Route((a, b)) => protocol::BlockState::Route(
                self.config.nodes[a.0].id.clone(),
                self.config.nodes[b.0].id.clone(),
            ),
        }
    }

    fn set_node_state(&mut self, node: usize, state: bool, now_ms: u64)
        requires
            old(self).inv(),
            node < old(self).n_nodes(),
        ensures
            final(self).inv(),
            set_node_post(*old(self), *final(self), node as int, state, now_ms),
    {
        self.nodes[node].pending = Some(state);
        let id = self.config.nodes[node].id.clone();
        kv_insert(&mut self.pending_patch.nodes, id, state);
        self.pending_nodes.push(node);
        remove_timers(&mut self.node_timers, node);
        proof {
            lemma_timers_without_entries(old(self).node_timers@, node as int);
            lemma_timers_without_len(old(self).node_timers@, node as int);
        }
        if !state {
            if let NodeCondition::Direct { reset: ResetCondition::TimeSecs(secs) } =
                self.config.profiles[self.profile].nodes[node] {
                let dl = deadline(now_ms, secs);
                self.node_timers.push((node, dl));
            }
        }
    }

    /// Operator command: set a direct node's state. Only direct nodes react;
    /// out-of-range indices and other conditions are no-ops. Switching a
    /// resettable node off arms its auto-reset timer; switching it on drops
    /// any timer.
    pub fn set_node(&mut self, node: usize, state: bool, now_ms: u64)
        requires
            old(self).inv(),
        ensures
            final(self).inv(),
            node < old(self).n_nodes() && old(self).node_cond(node as int) is Direct
                ==> set_node_post(*old(self), *final(self), node as int, state, now_ms),
            !(node < old(self).n_nodes() && old(self).node_cond(node as int) is Direct)
                ==> *final(self) == *old(self),
    {
        if node >= self.nodes.len() {
            return ;
        }
        if let NodeCondition::Direct { .. } = self.config.profiles[self.profile].nodes[node] {
            self.set_node_state(node, state, now_ms);
        }
    }

    fn set_block_state(&mut self, block: usize, state: BlockState, now_ms: u64)
        requires
            old(self).inv(),
            block < old(self).n_blocks(),
            old(self).bs_wf(state),
        ensures
            final(self).inv(),
            set_block_state_post(*old(self), *final(self), block as int, state, now_ms),
    {
        let wire = self.bs_conf_to_ipc(&state);
        self.blocks[block].pending = Some(state);
        let id = self.config.blocks[block].id.clone();
        kv_insert(&mut self.pending_patch.blocks, id, wire);
        remove_timers(&mut self.block_timers, block);
        proof {
            lemma_timers_without_entries(old(self).block_timers@, block as int);
            lemma_timers_without_len(old(self).block_timers@, block as int);
        }
        if !(matches!(state, BlockState::Clear)) {
            if let BlockCondition { reset: ResetCondition::TimeSecs(secs) } =
                self.config.profiles[self.profile].blocks[block] {
                let dl = deadline(now_ms, secs);
                self.block_timers.push((block, dl));
            }
        }
    }

    /// Blocks `b1` and `b2` are cascade-adjacent: some parent node of `b1` is
    /// transparent under the active profile and borders `b2`.
    pub open spec fn cascade_adj(self, b1: int, b2: int) -> bool {
        exists|j: int|
            0 <= j < self.config.blocks@[b1].nodes@.len() && {
                let n = (#[trigger] self.config.blocks@[b1].nodes@[j]).0 as int;
                self.transparent(n) && (self.node_blocks@[n].0 == b2 || self.node_blocks@[n].1
                    == b2)
            }
    }

    /// `p` is a cascade path from `b0` to `b`.
    pub open spec fn cascade_path_ok(self, p: Seq<int>, b0: int, b: int) -> bool {
        &&& p.len() > 0
        &&& p[0] == b0
        &&& p[p.len() - 1] == b
        &&& forall|i: int| 0 <= i < p.len() ==> 0 <= #[trigger] p[i] < self.n_blocks()
        &&& forall|i: int| 0 <= i < p.len() - 1 ==> self.cascade_adj(p[i], #[trigger] p[i + 1])
    }

    /// Block `b` is reached from `b0` through transparent nodes.
    pub open spec fn cascade_reach(self, b0: int, b: int) -> bool {
        exists|p: Seq<int>| self.cascade_path_ok(p, b0, b)
    }
}

/// The block-state timer entries a cascade write leaves for block `j`.
pub open spec fn armed_timers(pre: Aerodrome, j: int, state: BlockState, now_ms: u64) -> Seq<
    (usize, u64),
> {
    if !(state is Clear) {
        match pre.block_cond(j).reset {
            ResetCondition::TimeSecs(k) => seq![(j as usize, deadline_spec(now_ms, k))],
            ResetCondition::Never => Seq::empty(),
        }
    } else {
        Seq::empty()
    }
}

/// What a cascading block write does: every block reached from `b0` through
/// transparent nodes is predicted to `state`, recorded in the pending patch
/// under its id, and has its reset timers rewritten; everything else stands.
pub open spec fn set_block_post(
    pre: Aerodrome,
    post: Aerodrome,
    b0: int,
    state: BlockState,
    now_ms: u64,
) -> bool {
    &&& same_static(pre, post)
    &&& post.state == pre.state
    &&& post.profile == pre.profile
    &&& post.aircraft == pre.aircraft
    &&& post.nodes == pre.nodes
    &&& post.node_timers == pre.node_timers
    &&& post.pending_nodes == pre.pending_nodes
    &&& post.previous_edges == pre.previous_edges
    &&& post.pending_patch.profile == pre.pending_patch.profile
    &&& post.pending_patch.nodes == pre.pending_patch.nodes
    &&& post.blocks@.len() == pre.blocks@.len()
    &&& forall|j: int|
        0 <= j < pre.n_blocks() ==> #[trigger] post.blocks@[j] == if pre.cascade_reach(b0, j) {
            pre.blocks@[j].predict_spec(state)
        } else {
            pre.blocks@[j]
        }
    &&& forall|j: int|
        0 <= j < pre.n_blocks() && pre.cascade_reach(b0, j) ==> kv_map(
            post.pending_patch.blocks@,
        ).contains_key(#[trigger] pre.config.blocks@[j].id@) && kv_map(post.pending_patch.blocks@)[
            pre.config.blocks@[j].id@
        ] == wire_of_spec(pre.config, state)
    &&& forall|j: int|
        0 <= j < pre.n_blocks() && !pre.cascade_reach(b0, j) ==> (kv_map(
            post.pending_patch.blocks@,
        ).contains_key(#[trigger] pre.config.blocks@[j].id@) <==> kv_map(
            pre.pending_patch.blocks@,
        ).contains_key(pre.config.blocks@[j].id@)) && (kv_map(
            pre.pending_patch.blocks@,
        ).contains_key(pre.config.blocks@[j].id@) ==> kv_map(post.pending_patch.blocks@)[
            pre.config.blocks@[j].id@
        ] == kv_map(pre.pending_patch.blocks@)[pre.config.blocks@[j].id@])
    &&& forall|k: Seq<char>|
        (forall|j: int| 0 <= j < pre.n_blocks() ==> k != #[trigger] pre.config.blocks@[j].id@)
            ==> (#[trigger] kv_map(post.pending_patch.blocks@).contains_key(k) <==> kv_map(
            pre.pending_patch.blocks@,
        ).contains_key(k)) && (kv_map(pre.pending_patch.blocks@).contains_key(k) ==> kv_map(
            post.pending_patch.blocks@,
        )[k] == kv_map(pre.pending_patch.blocks@)[k])
    &&& forall|j: int|
        0 <= j < pre.n_blocks() ==> #[trigger] timers_for(post.block_timers@, j) == if
            pre.cascade_reach(b0, j) {
            armed_timers(pre, j, state, now_ms)
        } else {
            timers_for(pre.block_timers@, j)
        }
    &&& state is Clear ==> post.block_timers@.len() <= pre.block_timers@.len()
}

/// How many entries of `s` are false.
pub open spec fn count_false(s: Seq<bool>) -> int
    decreases s.len(),
{
    if s.len() == 0 {
        0
    } else {
        count_false(s.drop_last()) + if s.last() {
            0int
        } else {
            1int
        }
    }
}

proof fn lemma_count_false_update(s: Seq<bool>, i: int)
    requires
        0 <= i < s.len(),
        !s[i],
    ensures
        count_false(s.update(i, true)) == count_false(s) - 1,
    decreases s.len(),
{
    let t = s.update(i, true);
    if i == s.len() - 1 {
        assert(t.drop_last() =~= s.drop_last());
    } else {
        assert(t.drop_last() =~= s.drop_last().update(i, true));
        assert(t.last() == s.last());
        lemma_count_false_update(s.drop_last(), i);
    }
}

proof fn lemma_count_false_nonneg(s: Seq<bool>)
    ensures
        count_false(s) >= 0,
    decreases s.len(),
{
    if s.len() > 0 {
        lemma_count_false_nonneg(s.drop_last());
    }
}

/// A one-block path witnesses reachability of the origin itself.
proof fn lemma_reach_self(a: Aerodrome, b0: int)
    requires
        0 <= b0 < a.n_blocks(),
    ensures
        a.cascade_reach(b0, b0),
{
    let p = seq![b0];
    assert(a.cascade_path_ok(p, b0, b0));
}

/// Reachability extends along one cascade step.
proof fn lemma_reach_step(a: Aerodrome, b0: int, j: int, j2: int)
    requires
        a.cascade_reach(b0, j),
        a.cascade_adj(j, j2),
        0 <= j2 < a.n_blocks(),
    ensures
        a.cascade_reach(b0, j2),
{
    let p = choose|p: Seq<int>| a.cascade_path_ok(p, b0, j);
    let q = p.push(j2);
    assert(q[q.len() - 1] == j2);
    assert(q[0] == p[0]);
    assert forall|i: int| 0 <= i < q.len() - 1 implies a.cascade_adj(q[i], #[trigger] q[i + 1]) by {
        if i < p.len() - 1 {
            assert(q[i] == p[i] && q[i + 1] == p[i + 1]);
        } else {
            assert(q[i] == p[p.len() - 1] && q[i + 1] == j2);
        }
    }
    assert(a.cascade_path_ok(q, b0, j2));
}

/// Every block on a cascade path from a visited origin into a
/// step-closed visited set is visited.
proof fn lemma_path_in_closed(a: Aerodrome, p: Seq<int>, b0: int, b: int, vis: Seq<bool>)
    requires
        a.cascade_path_ok(p, b0, b),
        vis.len() == a.n_blocks(),
        vis[b0],
        forall|j: int, j2: int|
            0 <= j < a.n_blocks() && vis[j] && 0 <= j2 < a.n_blocks() && #[trigger] a.cascade_adj(
                j,
                j2,
            ) ==> vis[j2],
    ensures
        vis[b],
    decreases p.len(),
{
    if p.len() == 1 {
        assert(b == b0);
    } else {
        let q = p.drop_last();
        assert(q[q.len() - 1] == p[p.len() - 2]);
        assert forall|i: int| 0 <= i < q.len() - 1 implies a.cascade_adj(q[i], #[trigger] q[i + 1]) by {
            assert(q[i] == p[i] && q[i + 1] == p[i + 1]);
        }
        assert(a.cascade_path_ok(q, b0, p[p.len() - 2]));
        lemma_path_in_closed(a, q, b0, p[p.len() - 2], vis);
        let i = p.len() - 2;
        assert(a.cascade_adj(p[i], p[i + 1]));
        assert(p[i + 1] == b);
    }
}

/// A step-closed visited set containing the origin contains everything
/// reachable from it.
proof fn lemma_reach_closed(a: Aerodrome, b0: int, vis: Seq<bool>)
    requires
        vis.len() == a.n_blocks(),
        0 <= b0 < a.n_blocks(),
        vis[b0],
        forall|j: int, j2: int|
            0 <= j < a.n_blocks() && vis[j] && 0 <= j2 < a.n_blocks() && #[trigger] a.cascade_adj(
                j,
                j2,
            ) ==> vis[j2],
    ensures
        forall|b: int| 0 <= b < a.n_blocks() && a.cascade_reach(b0, b) ==> vis[b],
{
    assert forall|b: int| 0 <= b < a.n_blocks() && a.cascade_reach(b0, b) implies vis[b] by {
        let p = choose|p: Seq<int>| a.cascade_path_ok(p, b0, b);
        lemma_path_in_closed(a, p, b0, b, vis);
    }
}

/// Cascade adjacency and reachability depend only on the configuration, the
/// active profile and the node-block table.
pub proof fn lemma_cascade_congruence(x: Aerodrome, y: Aerodrome)
    requires
        x.config == y.config,
        x.profile == y.profile,
        x.node_blocks == y.node_blocks,
    ensures
        forall|b1: int, b2: int| #[trigger] x.cascade_adj(b1, b2) == y.cascade_adj(b1, b2),
        forall|b0: int, b: int| #[trigger] x.cascade_reach(b0, b) == y.cascade_reach(b0, b),
{
    assert forall|b1: int, b2: int| #[trigger] x.cascade_adj(b1, b2) == y.cascade_adj(b1, b2) by {
        if x.cascade_adj(b1, b2) {
            let j = choose|j: int|
                0 <= j < x.config.blocks@[b1].nodes@.len() && {
                    let n = (#[trigger] x.config.blocks@[b1].nodes@[j]).0 as int;
                    x.transparent(n) && (x.node_blocks@[n].0 == b2 || x.node_blocks@[n].1 == b2)
                };
            let n = x.config.blocks@[b1].nodes@[j].0 as int;
            assert(y.transparent(n) && (y.node_blocks@[n].0 == b2 || y.node_blocks@[n].1 == b2));
        }
        if y.cascade_adj(b1, b2) {
            let j = choose|j: int|
                0 <= j < y.config.blocks@[b1].nodes@.len() && {
                    let n = (#[trigger] y.config.blocks@[b1].nodes@[j]).0 as int;
                    y.transparent(n) && (y.node_blocks@[n].0 == b2 || y.node_blocks@[n].1 == b2)
                };
            let n = y.config.blocks@[b1].nodes@[j].0 as int;
            assert(x.transparent(n) && (x.node_blocks@[n].0 == b2 || x.node_blocks@[n].1 == b2));
        }
    }
    assert forall|b0: int, b: int| #[trigger] x.cascade_reach(b0, b) == y.cascade_reach(b0, b) by {
        if x.cascade_reach(b0, b) {
            let p = choose|p: Seq<int>| x.cascade_path_ok(p, b0, b);
            assert(y.cascade_path_ok(p, b0, b));
        }
        if y.cascade_reach(b0, b) {
            let p = choose|p: Seq<int>| y.cascade_path_ok(p, b0, b);
            assert(x.cascade_path_ok(p, b0, b));
        }
    }
}

impl Aerodrome {
    /// Operator command: set a block's state, cascading through transparent
    /// nodes. Every block reached from `block` across parent nodes whose
    /// active condition is exactly `Fixed(Off)` receives the same predicted
    /// state; an out-of-range index is a no-op.
    pub fn set_block(&mut self, block: usize, state: BlockState, now_ms: u64)
        requires
            old(self).inv(),
            old(self).bs_wf(state),
        ensures
            final(self).inv(),
            block < old(self).n_blocks() ==> set_block_post(
                *old(self),
                *final(self),
                block as int,
                state,
                now_ms,
            ),
            block >= old(self).n_blocks() ==> *final(self) == *old(self),
    {
        if block >= self.blocks.len() {
            return ;
        }
        let ghost pre = *self;
        let nb = self.blocks.len();
        let mut visited: Vec<bool> = vec![false; nb];
        let mut stack: Vec<usize> = Vec::new();
        stack.push(block);
        visited[block] = true;
        proof {
            lemma_reach_self(pre, block as int);
            lemma_count_false_nonneg(visited@);
            assert(stack@[0] == block);
            assert(stack@.contains(block));
            assert forall|j: int|
                0 <= j < pre.n_blocks() && #[trigger] visited@[j] implies j == block as int
                    && stack@.contains(j as usize) by {
                assert(visited@[block as int]);
            }
        }
        while stack.len() > 0
            invariant
                self.inv(),
                pre.inv(),
                0 <= block < pre.n_blocks(),
                pre.bs_wf(state),
                same_static(pre, *self),
                self.state == pre.state,
                self.profile == pre.profile,
                self.aircraft == pre.aircraft,
                self.nodes == pre.nodes,
                self.node_timers == pre.node_timers,
                self.pending_nodes == pre.pending_nodes,
                self.previous_edges == pre.previous_edges,
                self.pending_patch.profile == pre.pending_patch.profile,
                self.pending_patch.nodes == pre.pending_patch.nodes,
                nb == pre.n_blocks(),
                visited@.len() == pre.n_blocks(),
                self.blocks@.len() == pre.n_blocks(),
                visited@[block as int],
                count_false(visited@) >= 0,
                state is Clear ==> self.block_timers@.len() <= pre.block_timers@.len(),
                forall|j: int| 0 <= j < pre.n_blocks() && #[trigger] visited@[j]
                    ==> pre.cascade_reach(block as int, j),
                forall|k: int| 0 <= k < stack@.len() ==> #[trigger] stack@[k] < pre.n_blocks()
                    && visited@[stack@[k] as int],
                forall|k1: int, k2: int|
                    0 <= k1 < k2 < stack@.len() ==> stack@[k1] != stack@[k2],
                forall|j: int|
                    0 <= j < pre.n_blocks() ==> #[trigger] self.blocks@[j] == if (visited@[j]
                        && !stack@.contains(j as usize)) {
                        pre.blocks@[j].predict_spec(state)
                    } else {
                        pre.blocks@[j]
                    },
                forall|j: int|
                    0 <= j < pre.n_blocks() && visited@[j] && !stack@.contains(j as usize)
                        ==> kv_map(self.pending_patch.blocks@).contains_key(
                        #[trigger] pre.config.blocks@[j].id@,
                    ) && kv_map(self.pending_patch.blocks@)[pre.config.blocks@[j].id@]
                        == wire_of_spec(pre.config, state),
                forall|j: int|
                    0 <= j < pre.n_blocks() && !(visited@[j] && !stack@.contains(j as usize)) ==> (
                    kv_map(self.pending_patch.blocks@).contains_key(
                        #[trigger] pre.config.blocks@[j].id@,
                    ) <==> kv_map(pre.pending_patch.blocks@).contains_key(
                        pre.config.blocks@[j].id@,
                    )) && (kv_map(pre.pending_patch.blocks@).contains_key(
                        pre.config.blocks@[j].id@,
                    ) ==> kv_map(self.pending_patch.blocks@)[pre.config.blocks@[j].id@] == kv_map(
                        pre.pending_patch.blocks@,
                    )[pre.config.blocks@[j].id@]),
                forall|k: Seq<char>|
                    (forall|j: int|
                        0 <= j < pre.n_blocks() ==> k != #[trigger] pre.config.blocks@[j].id@)
                        ==> (#[trigger] kv_map(self.pending_patch.blocks@).contains_key(k) <==> kv_map(
                        pre.pending_patch.blocks@,
                    ).contains_key(k)) && (kv_map(pre.pending_patch.blocks@).contains_key(k)
                        ==> kv_map(self.pending_patch.blocks@)[k] == kv_map(
                        pre.pending_patch.blocks@,
                    )[k]),
                forall|j: int|
                    0 <= j < pre.n_blocks() ==> #[trigger] timers_for(self.block_timers@, j) == if (
                    visited@[j] && !stack@.contains(j as usize)) {
                        armed_timers(pre, j, state, now_ms)
                    } else {
                        timers_for(pre.block_timers@, j)
                    },
                forall|j: int, j2: int|
                    0 <= j < pre.n_blocks() && visited@[j] && !stack@.contains(j as usize) && 0
                        <= j2 < pre.n_blocks() && #[trigger] pre.cascade_adj(j, j2)
                        ==> visited@[j2],
            decreases stack@.len() + count_false(visited@),
        {
            let ghost stack_with = stack@;
            let b = stack.pop().unwrap();
            let ghost stack_now = stack@;
            let ghost mid0 = *self;
            proof {
                assert(stack_with == stack_now.push(b));
                // `b` occurs nowhere else in the stack, so it is processed now.
                assert forall|k: int| 0 <= k < stack_now.len() implies stack_now[k] != b by {
                    assert(stack_with[k] == stack_now[k]);
                    assert(stack_with[stack_with.len() - 1] == b);
                }
                assert(!stack_now.contains(b));
                assert forall|j: int|
                    0 <= j < pre.n_blocks() && j != b && (visited@[j] && !stack_now.contains(
                        j as usize,
                    )) implies (visited@[j] && !stack_with.contains(j as usize)) by {
                    if stack_with.contains(j as usize) {
                        let k = choose|k: int|
                            0 <= k < stack_with.len() && stack_with[k] == j as usize;
                        if k < stack_now.len() {
                            assert(stack_now[k] == j as usize);
                        } else {
                            assert(stack_with[k] == b);
                            assert(j == b as int);
                        }
                    }
                }
            }
            self.set_block_state(b, state, now_ms);
            proof {
                let prevt = mid0.block_timers@;
                assert forall|j: int| 0 <= j < pre.n_blocks() implies #[trigger] timers_for(
                    self.block_timers@,
                    j,
                ) == if (visited@[j] && !stack_now.contains(j as usize)) {
                    armed_timers(pre, j, state, now_ms)
                } else {
                    timers_for(pre.block_timers@, j)
                } by {
                    lemma_timers_for_without(prevt, b as int, j);
                    if !(state is Clear) {
                        match pre.block_cond(b as int).reset {
                            ResetCondition::TimeSecs(k) => {
                                lemma_timers_for_push(
                                    timers_without(prevt, b as int),
                                    (b, deadline_spec(now_ms, k)),
                                    j,
                                );
                            },
                            ResetCondition::Never => {},
                        }
                    }
                }
                // Unique block ids keep other entries of the patch map intact.
                assert forall|j: int|
                    0 <= j < pre.n_blocks() && j != b implies pre.config.blocks@[j].id@
                    != pre.config.blocks@[b as int].id@ by {
                    if j < b {
                        assert(pre.config.blocks@[j].id@ != pre.config.blocks@[b as int].id@);
                    }
                }
            }
            // Enqueue the blocks adjacent through transparent parent nodes.
            let bn = self.config.blocks[b].nodes.len();
            let ghost m0 = stack@.len() + count_false(visited@);
            let mut j: usize = 0;
            while j < bn
                invariant
                    self.inv(),
                    pre.inv(),
                    0 <= block < pre.n_blocks(),
                    pre.bs_wf(state),
                    same_static(pre, *self),
                    self.state == pre.state,
                    self.profile == pre.profile,
                    self.aircraft == pre.aircraft,
                    self.nodes == pre.nodes,
                    self.node_timers == pre.node_timers,
                    self.pending_nodes == pre.pending_nodes,
                    self.previous_edges == pre.previous_edges,
                    self.pending_patch.profile == pre.pending_patch.profile,
                    self.pending_patch.nodes == pre.pending_patch.nodes,
                    nb == pre.n_blocks(),
                    visited@.len() == pre.n_blocks(),
                    self.blocks@.len() == pre.n_blocks(),
                    visited@[block as int],
                    0 <= b < pre.n_blocks(),
                    visited@[b as int],
                    !stack@.contains(b),
                    bn == pre.config.blocks@[b as int].nodes@.len(),
                    0 <= j <= bn,
                    stack@.len() + count_false(visited@) == m0,
                    count_false(visited@) >= 0,
                    state is Clear ==> self.block_timers@.len() <= pre.block_timers@.len(),
                    forall|jj: int|
                        0 <= jj < j ==> {
                            let n = (#[trigger] pre.config.blocks@[b as int].nodes@[jj]).0 as int;
                            pre.transparent(n) ==> visited@[pre.node_blocks@[n].0 as int]
                                && visited@[pre.node_blocks@[n].1 as int]
                        },
                    forall|jx: int| 0 <= jx < pre.n_blocks() && #[trigger] visited@[jx]
                        ==> pre.cascade_reach(block as int, jx),
                    forall|k: int| 0 <= k < stack@.len() ==> #[trigger] stack@[k] < pre.n_blocks()
                        && visited@[stack@[k] as int],
                    forall|k1: int, k2: int|
                        0 <= k1 < k2 < stack@.len() ==> stack@[k1] != stack@[k2],
                    forall|jx: int|
                        0 <= jx < pre.n_blocks() ==> #[trigger] self.blocks@[jx] == if ((visited@[jx]
                            && !stack@.contains(jx as usize)) || jx == b) {
                            pre.blocks@[jx].predict_spec(state)
                        } else {
                            pre.blocks@[jx]
                        },
                    forall|jx: int|
                        0 <= jx < pre.n_blocks() && ((visited@[jx] && !stack@.contains(jx as usize))
                            || jx == b) ==> kv_map(self.pending_patch.blocks@).contains_key(
                            #[trigger] pre.config.blocks@[jx].id@,
                        ) && kv_map(self.pending_patch.blocks@)[pre.config.blocks@[jx].id@]
                            == wire_of_spec(pre.config, state),
                    forall|jx: int|
                        0 <= jx < pre.n_blocks() && !((visited@[jx] && !stack@.contains(jx as usize))
                            || jx == b) ==> (kv_map(self.pending_patch.blocks@).contains_key(
                            #[trigger] pre.config.blocks@[jx].id@,
                        ) <==> kv_map(pre.pending_patch.blocks@).contains_key(
                            pre.config.blocks@[jx].id@,
                        )) && (kv_map(pre.pending_patch.blocks@).contains_key(
                            pre.config.blocks@[jx].id@,
                        ) ==> kv_map(self.pending_patch.blocks@)[pre.config.blocks@[jx].id@]
                            == kv_map(pre.pending_patch.blocks@)[pre.config.blocks@[jx].id@]),
                    forall|k: Seq<char>|
                        (forall|jx: int|
                            0 <= jx < pre.n_blocks() ==> k != #[trigger] pre.config.blocks@[jx].id@)
                            ==> (#[trigger] kv_map(self.pending_patch.blocks@).contains_key(k)
                            <==> kv_map(pre.pending_patch.blocks@).contains_key(k)) && (kv_map(
                            pre.pending_patch.blocks@,
                        ).contains_key(k) ==> kv_map(self.pending_patch.blocks@)[k] == kv_map(
                            pre.pending_patch.blocks@,
                        )[k]),
                    forall|jx: int|
                        0 <= jx < pre.n_blocks() ==> #[trigger] timers_for(self.block_timers@, jx)
                            == if ((visited@[jx] && !stack@.contains(jx as usize)) || jx == b) {
                            armed_timers(pre, jx, state, now_ms)
                        } else {
                            timers_for(pre.block_timers@, jx)
                        },
                    forall|jx: int, j2: int|
                        0 <= jx < pre.n_blocks() && visited@[jx] && !stack@.contains(jx as usize)
                            && jx != b && 0 <= j2 < pre.n_blocks() && #[trigger] pre.cascade_adj(
                            jx,
                            j2,
                        ) ==> visited@[j2],
                decreases bn - j,
            {
                let nref = self.config.blocks[b].nodes[j];
                let n = nref.0;
                assert(pre.config.wf());
                assert(pre.config.is_parent_node(pre.config.blocks@[b as int].nodes@[j as int].0 as int));
                if self.config.profiles[self.profile].nodes[n] == (NodeCondition::Fixed {
                    state: NodeState::Off,
                }) {
                    let nbp = self.node_blocks[n];
                    proof {
                        assert(pre.cascade_adj(b as int, nbp.0 as int));
                        assert(pre.cascade_adj(b as int, nbp.1 as int));
                        assert(pre.cascade_reach(block as int, b as int));
                        lemma_reach_step(pre, block as int, b as int, nbp.0 as int);
                        lemma_reach_step(pre, block as int, b as int, nbp.1 as int);
                    }
                    if !visited[nbp.0] {
                        proof {
                            lemma_count_false_update(visited@, nbp.0 as int);
                        }
                        visited[nbp.0] = true;
                        stack.push(nbp.0);
                    }
                    if !visited[nbp.1] {
                        proof {
                            lemma_count_false_update(visited@, nbp.1 as int);
                        }
                        visited[nbp.1] = true;
                        stack.push(nbp.1);
                    }
                    proof {
                        lemma_count_false_nonneg(visited@);
                    }
                }
                j = j + 1;
            }
            proof {
                // All of the popped block's cascade successors are visited now.
                assert forall|j2: int|
                    0 <= j2 < pre.n_blocks() && #[trigger] pre.cascade_adj(b as int, j2)
                        implies visited@[j2] by {
                    let jj = choose|jj: int|
                        0 <= jj < pre.config.blocks@[b as int].nodes@.len() && {
                            let n = (#[trigger] pre.config.blocks@[b as int].nodes@[jj]).0 as int;
                            pre.transparent(n) && (pre.node_blocks@[n].0 == j2
                                || pre.node_blocks@[n].1 == j2)
                        };
                    let n = pre.config.blocks@[b as int].nodes@[jj].0 as int;
                    assert(pre.transparent(n) ==> visited@[pre.node_blocks@[n].0 as int]
                        && visited@[pre.node_blocks@[n].1 as int]);
                }
            }
        }
        proof {
            lemma_reach_closed(pre, block as int, visited@);
            assert forall|j: int| 0 <= j < pre.n_blocks() implies (visited@[j]
                == pre.cascade_reach(block as int, j)) by {}
        }
    }
}

/// Edge states depend only on the configuration, the active profile, the
/// dual-state cells and the derived tables — not on the outbound buffers.
pub proof fn lemma_edge_state_congruence(x: Aerodrome, y: Aerodrome)
    requires
        x.config == y.config,
        x.profile == y.profile,
        x.nodes == y.nodes,
        x.blocks == y.blocks,
        x.children == y.children,
        x.node_blocks == y.node_blocks,
    ensures
        forall|e: int| #[trigger] x.edge_state_spec(e) == y.edge_state_spec(e),
{
    assert forall|n: int| #[trigger] x.node_state_spec(n) == y.node_state_spec(n) by {
        assert(x.node_cond(n) == y.node_cond(n));
        assert(forall|b: int| #[trigger] x.blk_eff(b) == y.blk_eff(b));
    }
    assert(x.node_states_seq() =~= y.node_states_seq());
    assert forall|b: int| #[trigger] x.route_candidates_spec(b) == y.route_candidates_spec(b) by {
        assert(forall|p: int| #[trigger] x.children_or_self(p) == y.children_or_self(p));
        assert(x.blk_eff(b) == y.blk_eff(b));
    }
    assert forall|e: int| #[trigger] x.edge_state_spec(e) == y.edge_state_spec(e) by {
        assert(x.edge_cond(e) == y.edge_cond(e));
        assert(forall|b: int| #[trigger] x.blk_eff(b) == y.blk_eff(b));
        assert(forall|b: int, p: int, sv: Seq<usize>| #[trigger] x.restricted_side(b, p, sv)
            == y.restricted_side(b, p, sv));
    }
}

/// A node's default state under a profile condition: fixed nodes as
/// configured, direct nodes on exactly when they are resettable, all others
/// on.
pub open spec fn default_node_state(cond: NodeCondition) -> bool {
    match cond {
        NodeCondition::Fixed { state } => state is On,
        NodeCondition::Direct { reset } => !(reset is Never),
        _ => true,
    }
}

/// What resetting to the profile defaults does. With `patch` set, the
/// pending patch's node and block maps are replaced by a complete default
/// snapshot and every node is marked touched (a full refresh); otherwise the
/// buffers stand and the previous-edge vector is recomputed from the fresh
/// state.
pub open spec fn set_default_state_post(pre: Aerodrome, post: Aerodrome, patch: bool) -> bool {
    &&& set_default_core(pre, post, patch)
    &&& post.pending_patch.profile == pre.pending_patch.profile
}

/// `set_default_state_post` except for the pending profile field, which a
/// profile switch writes separately.
pub open spec fn set_default_core(pre: Aerodrome, post: Aerodrome, patch: bool) -> bool {
    &&& same_static(pre, post)
    &&& post.state == pre.state
    &&& post.profile == pre.profile
    &&& post.aircraft == pre.aircraft
    &&& post.nodes@.len() == pre.n_nodes()
    &&& forall|n: int|
        0 <= n < pre.n_nodes() ==> #[trigger] post.nodes@[n] == (State {
            current: default_node_state(pre.node_cond(n)),
            pending: Option::<bool>::None,
        })
    &&& post.blocks@.len() == pre.n_blocks()
    &&& forall|b: int|
        0 <= b < pre.n_blocks() ==> #[trigger] post.blocks@[b] == (State {
            current: BlockState::Clear,
            pending: Option::<BlockState>::None,
        })
    &&& post.node_timers@.len() == 0
    &&& post.block_timers@.len() == 0
    &&& if patch {
        &&& post.previous_edges == pre.previous_edges
        &&& forall|n: int|
            0 <= n < pre.n_nodes() ==> kv_map(post.pending_patch.nodes@).contains_key(
                #[trigger] pre.config.nodes@[n].id@,
            ) && kv_map(post.pending_patch.nodes@)[pre.config.nodes@[n].id@]
                == default_node_state(pre.node_cond(n))
        &&& forall|k: Seq<char>|
            #[trigger] kv_map(post.pending_patch.nodes@).contains_key(k) ==> exists|n: int|
                0 <= n < pre.n_nodes() && k == pre.config.nodes@[n].id@
        &&& forall|b: int|
            0 <= b < pre.n_blocks() ==> kv_map(post.pending_patch.blocks@).contains_key(
                #[trigger] pre.config.blocks@[b].id@,
            ) && kv_map(post.pending_patch.blocks@)[pre.config.blocks@[b].id@]
                == protocol::BlockStateView::Clear
        &&& forall|k: Seq<char>|
            #[trigger] kv_map(post.pending_patch.blocks@).contains_key(k) ==> exists|b: int|
                0 <= b < pre.n_blocks() && k == pre.config.blocks@[b].id@
        &&& post.pending_nodes@.len() == pre.n_nodes()
        &&& forall|i: int| 0 <= i < pre.n_nodes() ==> #[trigger] post.pending_nodes@[i] == i
    } else {
        &&& post.pending_patch.nodes == pre.pending_patch.nodes
        &&& post.pending_patch.blocks == pre.pending_patch.blocks
        &&& post.pending_nodes == pre.pending_nodes
        &&& post.previous_edges@.len() == pre.n_edges()
        &&& forall|e: int|
            0 <= e < pre.n_edges() ==> #[trigger] post.previous_edges@[e] == post.edge_state_spec(
                e,
            )
    }
}

impl Aerodrome {
    /// Resets every node and block to the active profile's defaults, clears
    /// all timers and, with `patch` set, replaces the outbound buffers with a
    /// full default snapshot.
    fn set_default_state(&mut self, patch: bool)
        requires
            old(self).inv(),
        ensures
            final(self).inv(),
            set_default_state_post(*old(self), *final(self), patch),
    {
        let n_nodes = self.config.nodes.len();
        let n_blocks = self.config.blocks.len();
        let mut nodes: Vec<State<bool>> = Vec::new();
        let mut i: usize = 0;
        while i < n_nodes
            invariant
                self.inv(),
                *self == *old(self),
                n_nodes == self.n_nodes(),
                0 <= i <= n_nodes,
                nodes@.len() == i,
                forall|n: int|
                    0 <= n < i ==> #[trigger] nodes@[n] == (State {
                        current: default_node_state(self.node_cond(n)),
                        pending: Option::<bool>::None,
                    }),
            decreases n_nodes - i,
        {
            let current = match self.config.profiles[self.profile].nodes[i] {
                NodeCondition::Fixed { state } => state == NodeState::On,
                NodeCondition::Direct { reset } => reset != ResetCondition::Never,
                _ => true,
            };
            nodes.push(State { current, pending: None });
            i = i + 1;
        }
        self.nodes = nodes;
        let mut blocks: Vec<State<BlockState>> = Vec::new();
        let mut i: usize = 0;
        while i < n_blocks
            invariant
                0 <= i <= n_blocks,
                blocks@.len() == i,
                forall|b: int|
                    0 <= b < i ==> #[trigger] blocks@[b] == (State {
                        current: BlockState::Clear,
                        pending: Option::<BlockState>::None,
                    }),
            decreases n_blocks - i,
        {
            blocks.push(State { current: BlockState::Clear, pending: None });
            i = i + 1;
        }
        self.blocks = blocks;
        self.node_timers = Vec::new();
        self.block_timers = Vec::new();
        if patch {
            let mut node_entries: Vec<(String, bool)> = Vec::new();
            let mut i: usize = 0;
            while i < n_nodes
                invariant
                    self.inv(),
                    n_nodes == self.n_nodes(),
                    0 <= i <= n_nodes,
                    forall|n: int|
                        0 <= n < self.n_nodes() ==> #[trigger] self.nodes@[n] == (State {
                            current: default_node_state(self.node_cond(n)),
                            pending: Option::<bool>::None,
                        }),
                    node_entries@.len() == i,
                    forall|n: int|
                        0 <= n < i ==> (#[trigger] node_entries@[n]).0@ == self.config.nodes@[n].id@
                            && node_entries@[n].1 == default_node_state(self.node_cond(n)),
                decreases n_nodes - i,
            {
                let v = *self.nodes[i].state();
                node_entries.push((self.config.nodes[i].id.clone(), v));
                i = i + 1;
            }
            proof {
                assert(kv_unique(node_entries@));
                lemma_kv_map_dom(node_entries@);
                assert forall|n: int| 0 <= n < self.n_nodes() implies kv_map(
                    node_entries@,
                ).contains_key(#[trigger] self.config.nodes@[n].id@) && kv_map(node_entries@)[
                    self.config.nodes@[n].id@
                ] == default_node_state(self.node_cond(n)) by {
                    lemma_kv_map_index(node_entries@, n);
                }
            }
            self.pending_patch.nodes = node_entries;
            let mut touched: Vec<usize> = Vec::new();
            let mut i: usize = 0;
            while i < n_nodes
                invariant
                    0 <= i <= n_nodes,
                    touched@.len() == i,
                    forall|k: int| 0 <= k < i ==> #[trigger] touched@[k] == k,
                decreases n_nodes - i,
            {
                touched.push(i);
                i = i + 1;
            }
            self.pending_nodes = touched;
            let mut block_entries: Vec<(String, protocol::BlockState)> = Vec::new();
            let mut i: usize = 0;
            while i < n_blocks
                invariant
                    self.inv(),
                    n_blocks == self.n_blocks(),
                    0 <= i <= n_blocks,
                    forall|b: int|
                        0 <= b < self.n_blocks() ==> #[trigger] self.blocks@[b] == (State {
                            current: BlockState::Clear,
                            pending: Option::<BlockState>::None,
                        }),
                    block_entries@.len() == i,
                    forall|b: int|
                        0 <= b < i ==> (#[trigger] block_entries@[b]).0@ == self.config.blocks@[
                            b
                        ].id@ && block_entries@[b].1@ == protocol::BlockStateView::Clear,
                decreases n_blocks - i,
            {
                let w = self.bs_conf_to_ipc(self.blocks[i].state());
                block_entries.push((self.config.blocks[i].id.clone(), w));
                i = i + 1;
            }
            proof {
                assert(kv_unique(block_entries@));
                lemma_kv_map_dom(block_entries@);
                assert forall|b: int| 0 <= b < self.n_blocks() implies kv_map(
                    block_entries@,
                ).contains_key(#[trigger] self.config.blocks@[b].id@) && kv_map(block_entries@)[
                    self.config.blocks@[b].id@
                ] == protocol::BlockStateView::Clear by {
                    lemma_kv_map_index(block_entries@, b);
                }
            }
            self.pending_patch.blocks = block_entries;
            proof {
                assert(same_static(*old(self), *self));
                assert(self.nodes@.len() == old(self).n_nodes());
                assert(self.node_timers@.len() == 0);
                assert(self.pending_patch.profile == old(self).pending_patch.profile);
                assert(forall|n: int|
                    0 <= n < old(self).n_nodes() ==> kv_map(
                        self.pending_patch.nodes@,
                    ).contains_key(#[trigger] old(self).config.nodes@[n].id@));
                assert(forall|k: Seq<char>|
                    #[trigger] kv_map(self.pending_patch.nodes@).contains_key(k)
                        ==> exists|n: int|
                        0 <= n < old(self).n_nodes() && k == old(self).config.nodes@[n].id@);
                assert(self.pending_nodes@.len() == old(self).n_nodes());
                assert(forall|i2: int|
                    0 <= i2 < old(self).n_nodes() ==> #[trigger] self.pending_nodes@[i2] == i2);
                assert(set_default_state_post(*old(self), *self, patch));
            }
        } else {
            let pe = self.calculate_edges();
            let ghost mid = *self;
            let ghost pev = pe@;
            self.previous_edges = pe;
            proof {
                lemma_edge_state_congruence(mid, *self);
                assert forall|e: int|
                    0 <= e < self.n_edges() implies self.previous_edges@[e]
                    == #[trigger] self.edge_state_spec(e) by {
                    assert(self.previous_edges@[e] == pev[e]);
                    assert(pev[e] == mid.edge_state_spec(e));
                    assert(mid.edge_state_spec(e) == self.edge_state_spec(e));
                }
                assert(set_default_state_post(*old(self), *self, patch));
            }
        }
    }

    /// Operator command: switch to profile `i` (when it exists), record the
    /// switch in the pending patch and reset every node and block to the new
    /// profile's defaults; the next flush becomes a full scenery refresh.
    pub fn set_profile(&mut self, i: usize)
        requires
            old(self).inv(),
        ensures
            final(self).inv(),
            i >= old(self).config.profiles@.len() ==> *final(self) == *old(self),
            i < old(self).config.profiles@.len() ==> {
                &&& final(self).profile == i
                &&& match final(self).pending_patch.profile {
                    Some(s) => s@ == old(self).config.profiles@[i as int].id@,
                    None => false,
                }
                &&& set_default_core(old(self).with_profile(i as int), *final(self), true)
            },
    {
        if i >= self.config.profiles.len() {
            return ;
        }
        self.profile = i;
        self.pending_patch.profile = Some(self.config.profiles[i].id.clone());
        let ghost mid = *self;
        self.set_default_state(true);
        proof {
            assert(set_default_core(mid, *self, true));
            let w = old(self).with_profile(i as int);
            assert(w.config == mid.config && w.profile == mid.profile && w.state == mid.state
                && w.aircraft == mid.aircraft && w.previous_edges == mid.previous_edges
                && w.conns0 == mid.conns0 && w.conns1 == mid.conns1 && w.node_blocks
                == mid.node_blocks && w.children == mid.children && w.node_dependencies
                == mid.node_dependencies && w.edge_dependencies == mid.edge_dependencies);
        }
    }

    /// This engine with another active profile; the defaults and conditions
    /// in `set_profile`'s contract are read under the new profile.
    pub open spec fn with_profile(self, i: int) -> Aerodrome {
        Aerodrome { profile: i as usize, ..self }
    }
}

/// The child table lists, for every parent node, exactly its children in
/// increasing order.
pub open spec fn children_ok(c: config::Aerodrome, t: Seq<Vec<usize>>) -> bool {
    &&& t.len() == c.nodes@.len()
    &&& forall|p: int, k: int|
        0 <= p < t.len() && 0 <= k < t[p]@.len() ==> (#[trigger] t[p]@[k]) < c.nodes@.len()
            && (match c.nodes@[t[p]@[k] as int].parent {
            Some(q) => q.0 == p,
            None => false,
        })
    &&& forall|p: int, k1: int, k2: int|
        0 <= p < t.len() && 0 <= k1 < k2 < t[p]@.len() ==> t[p]@[k1] < t[p]@[k2]
    &&& forall|i: int|
        0 <= i < c.nodes@.len() ==> (match #[trigger] c.nodes@[i].parent {
            Some(q) => t[q.0 as int]@.contains(i as usize),
            None => true,
        })
}

/// The dependency tables list, for every node and edge, exactly the elements
/// whose condition points at it, in increasing order.
pub open spec fn deps_ok(c: config::Aerodrome, nd: Seq<Vec<usize>>, ed: Seq<Vec<usize>>) -> bool {
    &&& nd.len() == c.nodes@.len()
    &&& ed.len() == c.edges@.len()
    &&& forall|n: int, k: int|
        0 <= n < nd.len() && 0 <= k < nd[n]@.len() ==> (#[trigger] nd[n]@[k]) < c.elements@.len()
            && (match c.elements@[nd[n]@[k] as int].condition {
            ElementCondition::Node(r) => r.0 == n,
            _ => false,
        })
    &&& forall|e: int, k: int|
        0 <= e < ed.len() && 0 <= k < ed[e]@.len() ==> (#[trigger] ed[e]@[k]) < c.elements@.len()
            && (match c.elements@[ed[e]@[k] as int].condition {
            ElementCondition::Edge(r) => r.0 == e,
            _ => false,
        })
    &&& forall|n: int, k1: int, k2: int|
        0 <= n < nd.len() && 0 <= k1 < k2 < nd[n]@.len() ==> nd[n]@[k1] < nd[n]@[k2]
    &&& forall|e: int, k1: int, k2: int|
        0 <= e < ed.len() && 0 <= k1 < k2 < ed[e]@.len() ==> ed[e]@[k1] < ed[e]@[k2]
    &&& forall|i: int|
        0 <= i < c.elements@.len() ==> (match #[trigger] c.elements@[i].condition {
            ElementCondition::Node(r) => nd[r.0 as int]@.contains(i as usize),
            ElementCondition::Edge(r) => ed[r.0 as int]@.contains(i as usize),
            ElementCondition::Fixed(_) => true,
        })
}

/// The blocks bordering node `n`, in scan order, one entry per occurrence in
/// a block's parent list (a node listed twice in one block contributes that
/// block twice).
pub open spec fn occ_blocks(blocks: Seq<config::Block>, n: int) -> Seq<usize>
    decreases blocks.len(),
{
    if blocks.len() == 0 {
        Seq::empty()
    } else {
        occ_blocks(blocks.drop_last(), n) + Seq::new(
            config::count_node_refs(blocks.last().nodes@, n) as nat,
            |k: int| (blocks.len() - 1) as usize,
        )
    }
}

/// The first and second bordering blocks of a node, as the builder records
/// them: none gives `(0, 0)`, a single one stands on both sides, further
/// occurrences are ignored.
pub open spec fn node_blocks_of(o: Seq<usize>) -> (usize, usize) {
    if o.len() == 0 {
        (0usize, 0usize)
    } else if o.len() == 1 {
        (o[0], o[0])
    } else {
        (o[0], o[1])
    }
}

/// Occurrences seen before the last scanned position, `i` blocks plus the
/// first `j` entries of block `i`.
pub open spec fn occ_partial(c: config::Aerodrome, i: int, j: int, n: int) -> Seq<usize> {
    occ_blocks(c.blocks@.take(i), n) + Seq::new(
        config::count_node_refs(c.blocks@[i].nodes@.take(j), n) as nat,
        |k: int| i as usize,
    )
}

/// A count capped at two, the number of block sides a node has.
pub open spec fn min2(x: int) -> int {
    if x < 2 {
        x
    } else {
        2
    }
}

/// Whether node `m` borders some block before block `b`: the side flag the
/// builder records for peers when it scans block `b`.
pub open spec fn seen_before(c: config::Aerodrome, b: int, m: int) -> bool {
    occ_blocks(c.blocks@.take(b), m).len() > 0
}

/// The adjacency row node `n` gains from block `b`, over the block's first
/// `j` listed parent nodes: every peer other than `n` itself whose pair the
/// block does not forbid, with the peer's recorded side.
pub open spec fn conn_row(c: config::Aerodrome, b: int, n: int, j: int) -> Seq<(usize, bool)>
    decreases j,
{
    if j <= 0 {
        Seq::empty()
    } else {
        let prev = conn_row(c, b, n, j - 1);
        let peer = c.blocks@[b].nodes@[j - 1].0;
        if peer as int != n && !routes_contain(c.blocks@[b].non_routes@, n, peer as int) {
            prev.push((peer, seen_before(c, b, peer as int)))
        } else {
            prev
        }
    }
}

/// The whole adjacency row from block `b`.
pub open spec fn conn_row_full(c: config::Aerodrome, b: int, n: int) -> Seq<(usize, bool)> {
    conn_row(c, b, n, c.blocks@[b].nodes@.len() as int)
}

/// Side `k` of node `n`'s adjacency, given its occurrence list: the full row
/// of the block giving that side, or nothing when the node has no such side.
pub open spec fn conns_side(c: config::Aerodrome, o: Seq<usize>, n: int, k: int) -> Seq<
    (usize, bool),
> {
    if o.len() > k {
        conn_row_full(c, o[k] as int, n)
    } else {
        Seq::empty()
    }
}

/// The node-block side table holds, for every node, its first two bordering
/// blocks.
pub open spec fn node_blocks_ok(c: config::Aerodrome, nb: Seq<(usize, usize)>) -> bool {
    &&& nb.len() == c.nodes@.len()
    &&& forall|n: int|
        0 <= n < c.nodes@.len() ==> #[trigger] nb[n] == node_blocks_of(occ_blocks(c.blocks@, n))
}

/// The two adjacency tables hold, for every node and side, exactly the
/// filtered peers of the block giving that side.
pub open spec fn conns_ok(
    c: config::Aerodrome,
    c0: Seq<Vec<(usize, bool)>>,
    c1: Seq<Vec<(usize, bool)>>,
) -> bool {
    &&& c0.len() == c.nodes@.len()
    &&& c1.len() == c.nodes@.len()
    &&& forall|n: int|
        0 <= n < c.nodes@.len() ==> (#[trigger] c0[n])@ == conns_side(
            c,
            occ_blocks(c.blocks@, n),
            n,
            0,
        )
    &&& forall|n: int|
        0 <= n < c.nodes@.len() ==> (#[trigger] c1[n])@ == conns_side(
            c,
            occ_blocks(c.blocks@, n),
            n,
            1,
        )
}

proof fn lemma_occ_partial_zero(c: config::Aerodrome, i: int, n: int)
    requires
        0 <= i < c.blocks@.len(),
    ensures
        occ_partial(c, i, 0, n) == occ_blocks(c.blocks@.take(i), n),
{
    assert(c.blocks@[i].nodes@.take(0) =~= Seq::<config::Ref<config::Node>>::empty());
    assert(config::count_node_refs(c.blocks@[i].nodes@.take(0), n) == 0);
    assert(occ_partial(c, i, 0, n) =~= occ_blocks(c.blocks@.take(i), n));
}

proof fn lemma_occ_partial_step(c: config::Aerodrome, i: int, j: int, n: int)
    requires
        0 <= i < c.blocks@.len(),
        0 <= j < c.blocks@[i].nodes@.len(),
    ensures
        occ_partial(c, i, j + 1, n) == (if c.blocks@[i].nodes@[j].0 == n {
            occ_partial(c, i, j, n).push(i as usize)
        } else {
            occ_partial(c, i, j, n)
        }),
{
    let s = c.blocks@[i].nodes@;
    assert(s.take(j + 1).drop_last() =~= s.take(j));
    assert(s.take(j + 1).last() == s[j]);
    config::lemma_count_refs_nonneg(s.take(j), n);
    if s[j].0 == n {
        assert(occ_partial(c, i, j + 1, n) =~= occ_partial(c, i, j, n).push(i as usize));
    } else {
        assert(occ_partial(c, i, j + 1, n) =~= occ_partial(c, i, j, n));
    }
}

proof fn lemma_occ_partial_full(c: config::Aerodrome, i: int, n: int)
    requires
        0 <= i < c.blocks@.len(),
    ensures
        occ_partial(c, i, c.blocks@[i].nodes@.len() as int, n) == occ_blocks(
            c.blocks@.take(i + 1),
            n,
        ),
{
    let s = c.blocks@[i].nodes@;
    assert(s.take(s.len() as int) =~= s);
    let t = c.blocks@.take(i + 1);
    assert(t.drop_last() =~= c.blocks@.take(i));
    assert(t.last() == c.blocks@[i]);
    assert(occ_partial(c, i, s.len() as int, n) =~= occ_blocks(t, n));
}

/// A freshly constructed engine for `config`: first profile active, every
/// cell at its default, index tables derived, buffers empty, no timers.
pub open spec fn fresh_engine(config: config::Aerodrome, r: Aerodrome) -> bool {
    &&& r.inv()
    &&& r.config == config
    &&& r.state == ActivityState::Inactive
    &&& r.profile == 0
    &&& r.aircraft@.len() == 0
    &&& r.pending_patch.is_empty_spec()
    &&& r.pending_nodes@.len() == 0
    &&& r.node_timers@.len() == 0
    &&& r.block_timers@.len() == 0
    &&& forall|n: int|
        0 <= n < r.n_nodes() ==> #[trigger] r.nodes@[n] == (State {
            current: default_node_state(r.node_cond(n)),
            pending: Option::<bool>::None,
        })
    &&& forall|b: int|
        0 <= b < r.n_blocks() ==> #[trigger] r.blocks@[b] == (State {
            current: BlockState::Clear,
            pending: Option::<BlockState>::None,
        })
    &&& children_ok(config, r.children@)
    &&& deps_ok(config, r.node_dependencies@, r.edge_dependencies@)
    &&& node_blocks_ok(config, r.node_blocks@)
    &&& conns_ok(config, r.conns0@, r.conns1@)
    &&& r.previous_edges@.len() == r.n_edges()
    &&& forall|e: int|
        0 <= e < r.n_edges() ==> #[trigger] r.previous_edges@[e] == r.edge_state_spec(e)
}

impl Aerodrome {
    /// Builds the engine for one aerodrome: derives the index tables from the
    /// configuration, sets every node and block to the first profile's
    /// defaults, and starts with empty buffers and no timers.
    pub fn new(config: config::Aerodrome) -> (r: Aerodrome)
        requires
            config.wf(),
        ensures
            fresh_engine(config, r),
    {
        let n_nodes = config.nodes.len();
        let n_edges = config.edges.len();
        let n_blocks = config.blocks.len();

        // Child table.
        let mut children: Vec<Vec<usize>> = Vec::new();
        let mut i: usize = 0;
        while i < n_nodes
            invariant
                0 <= i <= n_nodes,
                children@.len() == i,
                forall|p: int| 0 <= p < i ==> (#[trigger] children@[p])@.len() == 0,
            decreases n_nodes - i,
        {
            children.push(Vec::new());
            i = i + 1;
        }
        let mut i: usize = 0;
        while i < n_nodes
            invariant
                config.wf(),
                n_nodes == config.nodes@.len(),
                0 <= i <= n_nodes,
                children@.len() == n_nodes,
                forall|p: int, k: int|
                    0 <= p < children@.len() && 0 <= k < children@[p]@.len() ==> (
                    #[trigger] children@[p]@[k]) < i && (match config.nodes@[children@[p]@[
                        k
                    ] as int].parent {
                        Some(q) => q.0 == p,
                        None => false,
                    }),
                forall|p: int, k1: int, k2: int|
                    0 <= p < children@.len() && 0 <= k1 < k2 < children@[p]@.len()
                        ==> children@[p]@[k1] < children@[p]@[k2],
                forall|i2: int|
                    0 <= i2 < i ==> (match #[trigger] config.nodes@[i2].parent {
                        Some(q) => children@[q.0 as int]@.contains(i2 as usize),
                        None => true,
                    }),
            decreases n_nodes - i,
        {
            if let Some(p) = config.nodes[i].parent {
                children[p.0].push(i);
            }
            i = i + 1;
        }

        // Node-block sides and per-side adjacency.
        let mut node_blocks: Vec<(usize, usize)> = Vec::new();
        let mut borders: Vec<usize> = Vec::new();
        let mut conns0: Vec<Vec<(usize, bool)>> = Vec::new();
        let mut conns1: Vec<Vec<(usize, bool)>> = Vec::new();
        let mut i: usize = 0;
        while i < n_nodes
            invariant
                0 <= i <= n_nodes,
                node_blocks@.len() == i,
                borders@.len() == i,
                conns0@.len() == i,
                conns1@.len() == i,
                forall|n: int| 0 <= n < i ==> (#[trigger] node_blocks@[n]) == (0usize, 0usize),
                forall|n: int| 0 <= n < i ==> (#[trigger] borders@[n]) == 0,
                forall|n: int| 0 <= n < i ==> (#[trigger] conns0@[n])@.len() == 0,
                forall|n: int| 0 <= n < i ==> (#[trigger] conns1@[n])@.len() == 0,
            decreases n_nodes - i,
        {
            node_blocks.push((0, 0));
            borders.push(0);
            conns0.push(Vec::new());
            conns1.push(Vec::new());
            i = i + 1;
        }
        proof {
            assert(config.blocks@.take(0) =~= Seq::<config::Block>::empty());
            assert forall|n: int| 0 <= n < n_nodes implies occ_blocks(
                config.blocks@.take(0),
                n,
            ).len() == 0 by {}
        }
        let mut i: usize = 0;
        while i < n_blocks
            invariant
                config.wf(),
                n_nodes == config.nodes@.len(),
                n_blocks == config.blocks@.len(),
                0 <= i <= n_blocks,
                node_blocks@.len() == n_nodes,
                borders@.len() == n_nodes,
                conns0@.len() == n_nodes,
                conns1@.len() == n_nodes,
                forall|n: int|
                    0 <= n < n_nodes ==> (#[trigger] node_blocks@[n]).0 <= i && node_blocks@[n].1
                        <= i && (n_blocks > 0 ==> node_blocks@[n].0 < n_blocks && node_blocks@[n].1
                        < n_blocks),
                forall|n: int, k: int|
                    0 <= n < n_nodes && 0 <= k < conns0@[n]@.len() ==> (#[trigger] conns0@[n]@[
                        k
                    ]).0 < n_nodes,
                forall|n: int, k: int|
                    0 <= n < n_nodes && 0 <= k < conns1@[n]@.len() ==> (#[trigger] conns1@[n]@[
                        k
                    ]).0 < n_nodes,
                forall|n: int|
                    0 <= n < n_nodes ==> (#[trigger] borders@[n]) as int == min2(
                        occ_blocks(config.blocks@.take(i as int), n).len() as int,
                    ),
                forall|n: int|
                    0 <= n < n_nodes ==> (#[trigger] node_blocks@[n]) == node_blocks_of(
                        occ_blocks(config.blocks@.take(i as int), n),
                    ),
                forall|n: int|
                    0 <= n < n_nodes ==> (#[trigger] conns0@[n])@ == conns_side(
                        config,
                        occ_blocks(config.blocks@.take(i as int), n),
                        n,
                        0,
                    ),
                forall|n: int|
                    0 <= n < n_nodes ==> (#[trigger] conns1@[n])@ == conns_side(
                        config,
                        occ_blocks(config.blocks@.take(i as int), n),
                        n,
                        1,
                    ),
            decreases n_blocks - i,
        {
            let bn = config.blocks[i].nodes.len();
            // Side flags as of the start of this block.
            let mut flags: Vec<(usize, bool)> = Vec::new();
            let mut j: usize = 0;
            while j < bn
                invariant
                    config.wf(),
                    n_nodes == config.nodes@.len(),
                    n_blocks == config.blocks@.len(),
                    0 <= i < n_blocks,
                    bn == config.blocks@[i as int].nodes@.len(),
                    borders@.len() == n_nodes,
                    forall|n: int|
                        0 <= n < n_nodes ==> (#[trigger] borders@[n]) as int == min2(
                            occ_blocks(config.blocks@.take(i as int), n).len() as int,
                        ),
                    0 <= j <= bn,
                    flags@.len() == j,
                    forall|k: int| 0 <= k < j ==> (#[trigger] flags@[k]).0 < n_nodes,
                    forall|k: int|
                        0 <= k < j ==> (#[trigger] flags@[k]) == (
                            config.blocks@[i as int].nodes@[k].0,
                            seen_before(
                                config,
                                i as int,
                                config.blocks@[i as int].nodes@[k].0 as int,
                            ),
                        ),
                decreases bn - j,
            {
                let nref = config.blocks[i].nodes[j];
                assert(config.is_parent_node(config.blocks@[i as int].nodes@[j as int].0 as int));
                flags.push((nref.0, borders[nref.0] > 0));
                j = j + 1;
            }
            proof {
                assert forall|n: int| 0 <= n < n_nodes implies occ_partial(
                    config,
                    i as int,
                    0,
                    n,
                ) == occ_blocks(config.blocks@.take(i as int), n) by {
                    lemma_occ_partial_zero(config, i as int, n);
                }
            }
            let mut j: usize = 0;
            while j < bn
                invariant
                    config.wf(),
                    n_nodes == config.nodes@.len(),
                    n_blocks == config.blocks@.len(),
                    0 <= i < n_blocks,
                    bn == config.blocks@[i as int].nodes@.len(),
                    0 <= j <= bn,
                    node_blocks@.len() == n_nodes,
                    borders@.len() == n_nodes,
                    conns0@.len() == n_nodes,
                    conns1@.len() == n_nodes,
                    flags@.len() == bn,
                    forall|k: int| 0 <= k < bn ==> (#[trigger] flags@[k]).0 < n_nodes,
                    forall|k: int|
                        0 <= k < bn ==> (#[trigger] flags@[k]) == (
                            config.blocks@[i as int].nodes@[k].0,
                            seen_before(
                                config,
                                i as int,
                                config.blocks@[i as int].nodes@[k].0 as int,
                            ),
                        ),
                    forall|n: int|
                        0 <= n < n_nodes ==> (#[trigger] node_blocks@[n]).0 <= i
                            && node_blocks@[n].1 <= i && (n_blocks > 0 ==> node_blocks@[n].0
                            < n_blocks && node_blocks@[n].1 < n_blocks),
                    forall|n: int, k: int|
                        0 <= n < n_nodes && 0 <= k < conns0@[n]@.len() ==> (#[trigger] conns0@[n]@[
                            k
                        ]).0 < n_nodes,
                    forall|n: int, k: int|
                        0 <= n < n_nodes && 0 <= k < conns1@[n]@.len() ==> (#[trigger] conns1@[n]@[
                            k
                        ]).0 < n_nodes,
                    forall|n: int|
                        0 <= n < n_nodes ==> (#[trigger] borders@[n]) as int == min2(
                            occ_partial(config, i as int, j as int, n).len() as int,
                        ),
                    forall|n: int|
                        0 <= n < n_nodes ==> (#[trigger] node_blocks@[n]) == node_blocks_of(
                            occ_partial(config, i as int, j as int, n),
                        ),
                    forall|n: int|
                        0 <= n < n_nodes ==> (#[trigger] conns0@[n])@ == conns_side(
                            config,
                            occ_partial(config, i as int, j as int, n),
                            n,
                            0,
                        ),
                    forall|n: int|
                        0 <= n < n_nodes ==> (#[trigger] conns1@[n])@ == conns_side(
                            config,
                            occ_partial(config, i as int, j as int, n),
                            n,
                            1,
                        ),
                decreases bn - j,
            {
                let nref = config.blocks[i].nodes[j];
                assert(config.is_parent_node(config.blocks@[i as int].nodes@[j as int].0 as int));
                let nd = nref.0;
                let bd = borders[nd];
                let ghost occ_nd = occ_partial(config, i as int, j as int, nd as int);
                if bd < 2 {
                    let mut k: usize = 0;
                    while k < bn
                        invariant
                            config.wf(),
                            n_nodes == config.nodes@.len(),
                            n_blocks == config.blocks@.len(),
                            0 <= i < n_blocks,
                            bn == config.blocks@[i as int].nodes@.len(),
                            0 <= j < bn,
                            nd == config.blocks@[i as int].nodes@[j as int].0,
                            0 <= k <= bn,
                            nd < n_nodes,
                            bd < 2,
                            occ_nd == occ_partial(config, i as int, j as int, nd as int),
                            bd as int == min2(occ_nd.len() as int),
                            bd as int == occ_nd.len() as int,
                            node_blocks@.len() == n_nodes,
                            borders@.len() == n_nodes,
                            conns0@.len() == n_nodes,
                            conns1@.len() == n_nodes,
                            flags@.len() == bn,
                            forall|k2: int| 0 <= k2 < bn ==> (#[trigger] flags@[k2]).0 < n_nodes,
                            forall|k2: int|
                                0 <= k2 < bn ==> (#[trigger] flags@[k2]) == (
                                    config.blocks@[i as int].nodes@[k2].0,
                                    seen_before(
                                        config,
                                        i as int,
                                        config.blocks@[i as int].nodes@[k2].0 as int,
                                    ),
                                ),
                            forall|n: int|
                                0 <= n < n_nodes ==> (#[trigger] node_blocks@[n]).0 <= i
                                    && node_blocks@[n].1 <= i && (n_blocks > 0
                                    ==> node_blocks@[n].0 < n_blocks && node_blocks@[n].1
                                    < n_blocks),
                            forall|n: int, k2: int|
                                0 <= n < n_nodes && 0 <= k2 < conns0@[n]@.len() ==> (
                                #[trigger] conns0@[n]@[k2]).0 < n_nodes,
                            forall|n: int, k2: int|
                                0 <= n < n_nodes && 0 <= k2 < conns1@[n]@.len() ==> (
                                #[trigger] conns1@[n]@[k2]).0 < n_nodes,
                            forall|n: int|
                                0 <= n < n_nodes ==> (#[trigger] borders@[n]) as int == min2(
                                    occ_partial(config, i as int, j as int, n).len() as int,
                                ),
                            forall|n: int|
                                0 <= n < n_nodes ==> (#[trigger] node_blocks@[n])
                                    == node_blocks_of(
                                    occ_partial(config, i as int, j as int, n),
                                ),
                            forall|n: int|
                                0 <= n < n_nodes && n != nd as int ==> (#[trigger] conns0@[n])@
                                    == conns_side(
                                    config,
                                    occ_partial(config, i as int, j as int, n),
                                    n,
                                    0,
                                ),
                            forall|n: int|
                                0 <= n < n_nodes && n != nd as int ==> (#[trigger] conns1@[n])@
                                    == conns_side(
                                    config,
                                    occ_partial(config, i as int, j as int, n),
                                    n,
                                    1,
                                ),
                            bd == 0 ==> conns1@[nd as int]@ == conns_side(
                                config,
                                occ_nd,
                                nd as int,
                                1,
                            ) && conns0@[nd as int]@ == conn_row(
                                config,
                                i as int,
                                nd as int,
                                k as int,
                            ),
                            bd == 1 ==> conns0@[nd as int]@ == conns_side(
                                config,
                                occ_nd,
                                nd as int,
                                0,
                            ) && conns1@[nd as int]@ == conn_row(
                                config,
                                i as int,
                                nd as int,
                                k as int,
                            ),
                        decreases bn - k,
                    {
                        let fl = flags[k];
                        if fl.0 != nd && !contains_route(&config.blocks[i].non_routes, nd, fl.0) {
                            if bd == 0 {
                                conns0[nd].push(fl);
                            } else {
                                conns1[nd].push(fl);
                            }
                        }
                        k = k + 1;
                    }
                    if bd == 0 {
                        node_blocks[nd] = (i, i);
                    } else {
                        let f = node_blocks[nd].0;
                        node_blocks[nd] = (f, i);
                    }
                    borders[nd] = bd + 1;
                }
                proof {
                    assert forall|n: int| 0 <= n < n_nodes implies occ_partial(
                        config,
                        i as int,
                        j as int + 1,
                        n,
                    ) == (if n == nd as int {
                        occ_partial(config, i as int, j as int, n).push(i)
                    } else {
                        occ_partial(config, i as int, j as int, n)
                    }) by {
                        lemma_occ_partial_step(config, i as int, j as int, n);
                    }
                    let o2 = occ_partial(config, i as int, j as int + 1, nd as int);
                    assert(o2 == occ_nd.push(i));
                    if bd < 2 {
                        assert(o2[bd as int] == i);
                        assert(conn_row(config, i as int, nd as int, bn as int) == conn_row_full(
                            config,
                            i as int,
                            nd as int,
                        ));
                        assert(conns_side(config, o2, nd as int, bd as int) == conn_row_full(
                            config,
                            i as int,
                            nd as int,
                        ));
                    } else {
                        assert(o2.len() > 2);
                        assert(o2[0] == occ_nd[0] && o2[1] == occ_nd[1]);
                        assert(node_blocks_of(o2) == node_blocks_of(occ_nd));
                        assert(conns_side(config, o2, nd as int, 0) == conns_side(
                            config,
                            occ_nd,
                            nd as int,
                            0,
                        ));
                        assert(conns_side(config, o2, nd as int, 1) == conns_side(
                            config,
                            occ_nd,
                            nd as int,
                            1,
                        ));
                    }
                }
                j = j + 1;
            }
            proof {
                assert forall|n: int| 0 <= n < n_nodes implies occ_partial(
                    config,
                    i as int,
                    bn as int,
                    n,
                ) == occ_blocks(config.blocks@.take(i as int + 1), n) by {
                    lemma_occ_partial_full(config, i as int, n);
                }
            }
            i = i + 1;
        }
        proof {
            assert(config.blocks@.take(n_blocks as int) =~= config.blocks@);
        }

        // Element dependency tables.
        let mut node_deps: Vec<Vec<usize>> = Vec::new();
        let mut i: usize = 0;
        while i < n_nodes
            invariant
                0 <= i <= n_nodes,
                node_deps@.len() == i,
                forall|n: int| 0 <= n < i ==> (#[trigger] node_deps@[n])@.len() == 0,
            decreases n_nodes - i,
        {
            node_deps.push(Vec::new());
            i = i + 1;
        }
        let mut edge_deps: Vec<Vec<usize>> = Vec::new();
        let mut i: usize = 0;
        while i < n_edges
            invariant
                0 <= i <= n_edges,
                edge_deps@.len() == i,
                forall|e: int| 0 <= e < i ==> (#[trigger] edge_deps@[e])@.len() == 0,
            decreases n_edges - i,
        {
            edge_deps.push(Vec::new());
            i = i + 1;
        }
        let n_elements = config.elements.len();
        let mut i: usize = 0;
        while i < n_elements
            invariant
                config.wf(),
                n_nodes == config.nodes@.len(),
                n_edges == config.edges@.len(),
                n_elements == config.elements@.len(),
                0 <= i <= n_elements,
                node_deps@.len() == n_nodes,
                edge_deps@.len() == n_edges,
                forall|n: int, k: int|
                    0 <= n < n_nodes && 0 <= k < node_deps@[n]@.len() ==> (#[trigger] node_deps@[
                        n
                    ]@[k]) < i && (match config.elements@[node_deps@[n]@[k] as int].condition {
                        ElementCondition::Node(r) => r.0 == n,
                        _ => false,
                    }),
                forall|e: int, k: int|
                    0 <= e < n_edges && 0 <= k < edge_deps@[e]@.len() ==> (#[trigger] edge_deps@[
                        e
                    ]@[k]) < i && (match config.elements@[edge_deps@[e]@[k] as int].condition {
                        ElementCondition::Edge(r) => r.0 == e,
                        _ => false,
                    }),
                forall|n: int, k1: int, k2: int|
                    0 <= n < n_nodes && 0 <= k1 < k2 < node_deps@[n]@.len() ==> node_deps@[n]@[k1]
                        < node_deps@[n]@[k2],
                forall|e: int, k1: int, k2: int|
                    0 <= e < n_edges && 0 <= k1 < k2 < edge_deps@[e]@.len() ==> edge_deps@[e]@[k1]
                        < edge_deps@[e]@[k2],
                forall|i2: int|
                    0 <= i2 < i ==> (match #[trigger] config.elements@[i2].condition {
                        ElementCondition::Node(r) => node_deps@[r.0 as int]@.contains(i2 as usize),
                        ElementCondition::Edge(r) => edge_deps@[r.0 as int]@.contains(i2 as usize),
                        ElementCondition::Fixed(_) => true,
                    }),
            decreases n_elements - i,
        {
            match config.elements[i].condition {
                ElementCondition::Fixed(_) => {},
                ElementCondition::Node(r) => {
                    node_deps[r.0].push(i);
                },
                ElementCondition::Edge(r) => {
                    edge_deps[r.0].push(i);
                },
            }
            i = i + 1;
        }

        // Default dual-state cells under profile 0.
        let mut nodes: Vec<State<bool>> = Vec::new();
        let mut i: usize = 0;
        while i < n_nodes
            invariant
                config.wf(),
                n_nodes == config.nodes@.len(),
                0 <= i <= n_nodes,
                nodes@.len() == i,
                forall|n: int|
                    0 <= n < i ==> #[trigger] nodes@[n] == (State {
                        current: default_node_state(config.profiles@[0].nodes@[n]),
                        pending: Option::<bool>::None,
                    }),
            decreases n_nodes - i,
        {
            let current = match config.profiles[0].nodes[i] {
                NodeCondition::Fixed { state } => state == NodeState::On,
                NodeCondition::Direct { reset } => reset != ResetCondition::Never,
                _ => true,
            };
            nodes.push(State { current, pending: None });
            i = i + 1;
        }
        let mut blocks: Vec<State<BlockState>> = Vec::new();
        let mut i: usize = 0;
        while i < n_blocks
            invariant
                0 <= i <= n_blocks,
                blocks@.len() == i,
                forall|b: int|
                    0 <= b < i ==> #[trigger] blocks@[b] == (State {
                        current: BlockState::Clear,
                        pending: Option::<BlockState>::None,
                    }),
            decreases n_blocks - i,
        {
            blocks.push(State { current: BlockState::Clear, pending: None });
            i = i + 1;
        }
        let mut prev: Vec<bool> = Vec::new();
        let mut i: usize = 0;
        while i < n_edges
            invariant
                0 <= i <= n_edges,
                prev@.len() == i,
            decreases n_edges - i,
        {
            prev.push(false);
            i = i + 1;
        }

        let mut this = Aerodrome {
            config,
            state: ActivityState::Inactive,
            profile: 0,
            conns0,
            conns1,
            node_blocks,
            children,
            nodes,
            blocks,
            aircraft: Vec::new(),
            pending_patch: Patch::new(),
            pending_nodes: Vec::new(),
            previous_edges: prev,
            node_dependencies: node_deps,
            edge_dependencies: edge_deps,
            node_timers: Vec::new(),
            block_timers: Vec::new(),
        };
        assert(this.inv());
        let pe = this.calculate_edges();
        let ghost mid = this;
        let ghost pev = pe@;
        this.previous_edges = pe;
        proof {
            lemma_edge_state_congruence(mid, this);
            assert forall|e: int|
                0 <= e < this.n_edges() implies this.previous_edges@[e]
                == #[trigger] this.edge_state_spec(e) by {
                assert(this.previous_edges@[e] == pev[e]);
                assert(pev[e] == mid.edge_state_spec(e));
                assert(mid.edge_state_spec(e) == this.edge_state_spec(e));
            }
        }
        this
    }
}

// ------------------------------------------------------------------
// Server patches
// ------------------------------------------------------------------

/// The index of the node with id `id`, if any; node ids are unique in a
/// well-formed configuration.
pub open spec fn node_index_of(c: config::Aerodrome, id: Seq<char>) -> Option<int> {
    if exists|i: int| 0 <= i < c.nodes@.len() && c.nodes@[i].id@ == id {
        Some(choose|i: int| 0 <= i < c.nodes@.len() && c.nodes@[i].id@ == id)
    } else {
        None
    }
}

/// The index of the block with id `id`, if any.
pub open spec fn block_index_of(c: config::Aerodrome, id: Seq<char>) -> Option<int> {
    if exists|i: int| 0 <= i < c.blocks@.len() && c.blocks@[i].id@ == id {
        Some(choose|i: int| 0 <= i < c.blocks@.len() && c.blocks@[i].id@ == id)
    } else {
        None
    }
}

/// The index of the profile with id `id`, if any.
pub open spec fn profile_index_of(c: config::Aerodrome, id: Seq<char>) -> Option<int> {
    if exists|i: int| 0 <= i < c.profiles@.len() && c.profiles@[i].id@ == id {
        Some(choose|i: int| 0 <= i < c.profiles@.len() && c.profiles@[i].id@ == id)
    } else {
        None
    }
}

/// A wire block state resolves when every node id it names is known.
pub open spec fn wire_resolvable(c: config::Aerodrome, wv: protocol::BlockStateView) -> bool {
    match wv {
        protocol::BlockStateView::Route(a, b) => node_index_of(c, a) is Some && node_index_of(
            c,
            b,
        ) is Some,
        _ => true,
    }
}

/// The internal form of a resolvable wire block state.
pub open spec fn resolved_bs(c: config::Aerodrome, wv: protocol::BlockStateView) -> BlockState {
    match wv {
        protocol::BlockStateView::Clear => BlockState::Clear,
        protocol::BlockStateView::Relax => BlockState::Relax,
        protocol::BlockStateView::Route(a, b) => BlockState::Route(
            (
                config::ref_at(
                    match node_index_of(c, a) {
                        Some(i) => i,
                        None => 0,
                    },
                ),
                config::ref_at(
                    match node_index_of(c, b) {
                        Some(i) => i,
                        None => 0,
                    },
                ),
            ),
        ),
    }
}

/// Finds the node named `id`.
fn find_node_index(c: &config::Aerodrome, id: &String) -> (r: Option<usize>)
    requires
        c.wf(),
    ensures
        match r {
            Some(i) => i < c.nodes@.len() && node_index_of(*c, id@) == Some(i as int),
            None => node_index_of(*c, id@) is None,
        },
{
    let mut i: usize = 0;
    while i < c.nodes.len()
        invariant
            c.wf(),
            0 <= i <= c.nodes@.len(),
            forall|j: int| 0 <= j < i ==> c.nodes@[j].id@ != id@,
        decreases c.nodes@.len() - i,
    {
        if str_eq(&c.nodes[i].id, id) {
            proof {
                let w = choose|j: int| 0 <= j < c.nodes@.len() && c.nodes@[j].id@ == id@;
                if w != i as int {
                    assert(c.nodes@[w].id@ != c.nodes@[i as int].id@);
                }
            }
            return Some(i);
        }
        i = i + 1;
    }
    None
}

/// Finds the block named `id`.
fn find_block_index(c: &config::Aerodrome, id: &String) -> (r: Option<usize>)
    requires
        c.wf(),
    ensures
        match r {
            Some(i) => i < c.blocks@.len() && block_index_of(*c, id@) == Some(i as int),
            None => block_index_of(*c, id@) is None,
        },
{
    let mut i: usize = 0;
    while i < c.blocks.len()
        invariant
            c.wf(),
            0 <= i <= c.blocks@.len(),
            forall|j: int| 0 <= j < i ==> c.blocks@[j].id@ != id@,
        decreases c.blocks@.len() - i,
    {
        if str_eq(&c.blocks[i].id, id) {
            proof {
                let w = choose|j: int| 0 <= j < c.blocks@.len() && c.blocks@[j].id@ == id@;
                if w != i as int {
                    assert(c.blocks@[w].id@ != c.blocks@[i as int].id@);
                }
            }
            return Some(i);
        }
        i = i + 1;
    }
    None
}

/// Finds the profile named `id`.
fn find_profile_index(c: &config::Aerodrome, id: &String) -> (r: Option<usize>)
    requires
        c.wf(),
    ensures
        match r {
            Some(i) => i < c.profiles@.len() && profile_index_of(*c, id@) == Some(i as int),
            None => profile_index_of(*c, id@) is None,
        },
{
    let mut i: usize = 0;
    while i < c.profiles.len()
        invariant
            c.wf(),
            0 <= i <= c.profiles@.len(),
            forall|j: int| 0 <= j < i ==> c.profiles@[j].id@ != id@,
        decreases c.profiles@.len() - i,
    {
        if str_eq(&c.profiles[i].id, id) {
            proof {
                let w = choose|j: int| 0 <= j < c.profiles@.len() && c.profiles@[j].id@ == id@;
                if w != i as int {
                    assert(c.profiles@[w].id@ != c.profiles@[i as int].id@);
                }
            }
            return Some(i);
        }
        i = i + 1;
    }
    None
}

/// The profile a patch switches to, when it names a known one.
pub open spec fn patch_profile_target(c: config::Aerodrome, p: Option<String>) -> Option<int> {
    match p {
        Some(s) => profile_index_of(c, s@),
        None => None,
    }
}

/// A server-confirmed node cell: `current` becomes the server value; a
/// matching prediction settles.
pub open spec fn committed_node(cell: State<bool>, v: bool) -> State<bool> {
    cell.commit_spec(v, cell.pending == Some(v))
}

/// A server-confirmed block cell, comparing route endpoints by index.
pub open spec fn committed_block(cell: State<BlockState>, v: BlockState) -> State<BlockState> {
    cell.commit_spec(
        v,
        match cell.pending {
            Some(p) => bs_eq_spec(p, v),
            None => false,
        },
    )
}

/// What applying a server patch does; see the clauses. The patch is
/// authoritative for `current` values; it never touches the outbound buffers.
pub open spec fn apply_patch_post(pre: Aerodrome, post: Aerodrome, patch: Patch) -> bool {
    let nm = kv_map(patch.nodes@);
    let bm = kv_map(patch.blocks@);
    let target = patch_profile_target(pre.config, patch.profile);
    &&& same_static(pre, post)
    &&& post.state == pre.state
    &&& post.aircraft == pre.aircraft
    &&& post.pending_patch == pre.pending_patch
    &&& post.pending_nodes == pre.pending_nodes
    &&& post.previous_edges == pre.previous_edges
    &&& post.profile as int == (match target {
        Some(k) => k,
        None => pre.profile as int,
    })
    &&& post.nodes@.len() == pre.n_nodes()
    &&& forall|n: int|
        0 <= n < pre.n_nodes() ==> #[trigger] post.nodes@[n] == (if nm.contains_key(
            pre.config.nodes@[n].id@,
        ) {
            committed_node(pre.nodes@[n], nm[pre.config.nodes@[n].id@])
        } else {
            pre.nodes@[n]
        })
    &&& post.blocks@.len() == pre.n_blocks()
    &&& forall|b: int|
        0 <= b < pre.n_blocks() ==> #[trigger] post.blocks@[b] == (if bm.contains_key(
            pre.config.blocks@[b].id@,
        ) && wire_resolvable(pre.config, bm[pre.config.blocks@[b].id@]) {
            committed_block(pre.blocks@[b], resolved_bs(pre.config, bm[pre.config.blocks@[b].id@]))
        } else {
            pre.blocks@[b]
        })
    &&& forall|n: int|
        0 <= n < pre.n_nodes() ==> #[trigger] timers_for(post.node_timers@, n) == (if target
            is Some {
            Seq::<(usize, u64)>::empty()
        } else if nm.contains_key(pre.config.nodes@[n].id@) && pre.nodes@[n].pending != Some(
            nm[pre.config.nodes@[n].id@],
        ) {
            Seq::<(usize, u64)>::empty()
        } else {
            timers_for(pre.node_timers@, n)
        })
    &&& forall|b: int|
        0 <= b < pre.n_blocks() ==> #[trigger] timers_for(post.block_timers@, b) == (if target
            is Some {
            Seq::<(usize, u64)>::empty()
        } else if bm.contains_key(pre.config.blocks@[b].id@) && wire_resolvable(
            pre.config,
            bm[pre.config.blocks@[b].id@],
        ) && !(match pre.blocks@[b].pending {
            Some(p) => bs_eq_spec(p, resolved_bs(pre.config, bm[pre.config.blocks@[b].id@])),
            None => false,
        }) {
            Seq::<(usize, u64)>::empty()
        } else {
            timers_for(pre.block_timers@, b)
        })
}

impl Aerodrome {
    /// Converts a wire block state to internal form; `None` when it names an
    /// unknown node.
    fn bs_ipc_to_conf(&self, state: &protocol::BlockState) -> (r: Option<BlockState>)
        requires
            self.inv(),
        ensures
            match r {
                Some(s) => wire_resolvable(self.config, state@) && s == resolved_bs(
                    self.config,
                    state@,
                ) && self.bs_wf(s),
                None => !wire_resolvable(self.config, state@),
            },
    {
        match state {
            protocol::BlockState::Clear => Some(BlockState::Clear),
            protocol::BlockState::Relax => Some(BlockState::Relax),
            protocol::BlockState::Route(a, b) => {
                let ia = find_node_index(&self.config, a);
                let ib = find_node_index(&self.config, b);
                match (ia, ib) {
                    (Some(x), Some(y)) => Some(
                        BlockState::Route((config::Ref::new(x), config::Ref::new(y))),
                    ),
                    _ => None,
                }
            },
        }
    }

    /// Applies a server patch: an optional profile switch (which wipes all
    /// timers), then authoritative `current` values per entity id. A matching
    /// prediction settles; a contradicted one keeps standing but loses its
    /// timer. Unknown ids are dropped silently.
    pub fn apply_patch(&mut self, patch: &Patch)
        requires
            old(self).inv(),
            patch.wf(),
        ensures
            final(self).inv(),
            apply_patch_post(*old(self), *final(self), *patch),
    {
        let ghost pre = *old(self);
        let ghost target = patch_profile_target(pre.config, patch.profile);
        if let Some(pid) = &patch.profile {
            match find_profile_index(&self.config, pid) {
                Some(k) => {
                    self.profile = k;
                    self.node_timers = Vec::new();
                    self.block_timers = Vec::new();
                },
                None => {
                    // Unknown profile id: the profile part of the patch is
                    // ignored.
                },
            }
        }
        let ghost switched = target is Some;
        let mut i: usize = 0;
        while i < patch.nodes.len()
            invariant
                self.inv(),
                pre.inv(),
                patch.wf(),
                target == patch_profile_target(pre.config, patch.profile),
                0 <= i <= patch.nodes@.len(),
                same_static(pre, *self),
                switched == (target is Some),
                self.state == pre.state,
                self.aircraft == pre.aircraft,
                self.pending_patch == pre.pending_patch,
                self.pending_nodes == pre.pending_nodes,
                self.previous_edges == pre.previous_edges,
                self.blocks == pre.blocks,
                self.block_timers@ == (if switched {
                    Seq::<(usize, u64)>::empty()
                } else {
                    pre.block_timers@
                }),
                self.profile as int == (match target {
                    Some(k) => k,
                    None => pre.profile as int,
                }),
                self.nodes@.len() == pre.n_nodes(),
                forall|n: int|
                    0 <= n < pre.n_nodes() ==> #[trigger] self.nodes@[n] == (if kv_map(
                        patch.nodes@.take(i as int),
                    ).contains_key(pre.config.nodes@[n].id@) {
                        committed_node(
                            pre.nodes@[n],
                            kv_map(patch.nodes@.take(i as int))[pre.config.nodes@[n].id@],
                        )
                    } else {
                        pre.nodes@[n]
                    }),
                forall|n: int|
                    0 <= n < pre.n_nodes() ==> #[trigger] timers_for(self.node_timers@, n) == (if
                    switched {
                        Seq::<(usize, u64)>::empty()
                    } else if kv_map(patch.nodes@.take(i as int)).contains_key(
                        pre.config.nodes@[n].id@,
                    ) && pre.nodes@[n].pending != Some(
                        kv_map(patch.nodes@.take(i as int))[pre.config.nodes@[n].id@],
                    ) {
                        Seq::<(usize, u64)>::empty()
                    } else {
                        timers_for(pre.node_timers@, n)
                    }),
            decreases patch.nodes@.len() - i,
        {
            let ghost mprev = kv_map(patch.nodes@.take(i as int));
            proof {
                assert(patch.nodes@.take(i as int + 1).drop_last() =~= patch.nodes@.take(i as int));
                assert(patch.nodes@.take(i as int + 1).last() == patch.nodes@[i as int]);
                lemma_kv_map_dom(patch.nodes@.take(i as int));
            }
            let entry_state = patch.nodes[i].1;
            let found = find_node_index(&self.config, &patch.nodes[i].0);
            match found {
                Some(n) => {
                    proof {
                        let w = choose|j: int|
                            0 <= j < pre.config.nodes@.len() && pre.config.nodes@[j].id@
                                == patch.nodes@[i as int].0@;
                        assert(pre.config.nodes@[n as int].id@ == patch.nodes@[i as int].0@);
                        // The key is fresh in the prefix: patch keys are unique.
                        assert forall|j: int| 0 <= j < i implies patch.nodes@[j].0@
                            != patch.nodes@[i as int].0@ by {}
                        assert(!kv_has_key(
                            patch.nodes@.take(i as int),
                            patch.nodes@[i as int].0@,
                        ));
                        assert(!mprev.contains_key(pre.config.nodes@[n as int].id@));
                    }
                    let ghost tprev = self.node_timers@;
                    self.nodes[n].current = entry_state;
                    let matched = match self.nodes[n].pending {
                        Some(p) => p == entry_state,
                        None => false,
                    };
                    if matched {
                        self.nodes[n].pending = None;
                    } else {
                        remove_timers(&mut self.node_timers, n);
                        proof {
                            lemma_timers_without_entries(tprev, n as int);
                            assert forall|n2: int| 0 <= n2 < pre.n_nodes() implies #[trigger]
                            timers_for(self.node_timers@, n2) == (if n2 == n as int {
                                Seq::<(usize, u64)>::empty()
                            } else {
                                timers_for(tprev, n2)
                            }) by {
                                lemma_timers_for_without(tprev, n as int, n2);
                            }
                        }
                    }
                },
                None => {
                    proof {
                        assert forall|n: int| 0 <= n < pre.n_nodes() implies pre.config.nodes@[
                            n
                        ].id@ != patch.nodes@[i as int].0@ by {
                            if pre.config.nodes@[n].id@ == patch.nodes@[i as int].0@ {
                                assert(node_index_of(pre.config, patch.nodes@[i as int].0@)
                                    is Some);
                            }
                        }
                    }
                },
            }
            i = i + 1;
        }
        proof {
            assert(patch.nodes@.take(patch.nodes@.len() as int) =~= patch.nodes@);
        }
        let mut i: usize = 0;
        while i < patch.blocks.len()
            invariant
                self.inv(),
                pre.inv(),
                patch.wf(),
                target == patch_profile_target(pre.config, patch.profile),
                0 <= i <= patch.blocks@.len(),
                same_static(pre, *self),
                switched == (target is Some),
                self.state == pre.state,
                self.aircraft == pre.aircraft,
                self.pending_patch == pre.pending_patch,
                self.pending_nodes == pre.pending_nodes,
                self.previous_edges == pre.previous_edges,
                self.profile as int == (match target {
                    Some(k) => k,
                    None => pre.profile as int,
                }),
                self.nodes@.len() == pre.n_nodes(),
                forall|n: int|
                    0 <= n < pre.n_nodes() ==> #[trigger] self.nodes@[n] == (if kv_map(
                        patch.nodes@,
                    ).contains_key(pre.config.nodes@[n].id@) {
                        committed_node(
                            pre.nodes@[n],
                            kv_map(patch.nodes@)[pre.config.nodes@[n].id@],
                        )
                    } else {
                        pre.nodes@[n]
                    }),
                forall|n: int|
                    0 <= n < pre.n_nodes() ==> #[trigger] timers_for(self.node_timers@, n) == (if
                    switched {
                        Seq::<(usize, u64)>::empty()
                    } else if kv_map(patch.nodes@).contains_key(pre.config.nodes@[n].id@)
                        && pre.nodes@[n].pending != Some(
                        kv_map(patch.nodes@)[pre.config.nodes@[n].id@],
                    ) {
                        Seq::<(usize, u64)>::empty()
                    } else {
                        timers_for(pre.node_timers@, n)
                    }),
                self.blocks@.len() == pre.n_blocks(),
                forall|b: int|
                    0 <= b < pre.n_blocks() ==> #[trigger] self.blocks@[b] == (if kv_map(
                        patch.blocks@.take(i as int),
                    ).contains_key(pre.config.blocks@[b].id@) && wire_resolvable(
                        pre.config,
                        kv_map(patch.blocks@.take(i as int))[pre.config.blocks@[b].id@],
                    ) {
                        committed_block(
                            pre.blocks@[b],
                            resolved_bs(
                                pre.config,
                                kv_map(patch.blocks@.take(i as int))[pre.config.blocks@[b].id@],
                            ),
                        )
                    } else {
                        pre.blocks@[b]
                    }),
                forall|b: int|
                    0 <= b < pre.n_blocks() ==> #[trigger] timers_for(self.block_timers@, b) == (if
                    switched {
                        Seq::<(usize, u64)>::empty()
                    } else if kv_map(patch.blocks@.take(i as int)).contains_key(
                        pre.config.blocks@[b].id@,
                    ) && wire_resolvable(
                        pre.config,
                        kv_map(patch.blocks@.take(i as int))[pre.config.blocks@[b].id@],
                    ) && !(match pre.blocks@[b].pending {
                        Some(p) => bs_eq_spec(
                            p,
                            resolved_bs(
                                pre.config,
                                kv_map(patch.blocks@.take(i as int))[pre.config.blocks@[b].id@],
                            ),
                        ),
                        None => false,
                    }) {
                        Seq::<(usize, u64)>::empty()
                    } else {
                        timers_for(pre.block_timers@, b)
                    }),
            decreases patch.blocks@.len() - i,
        {
            let ghost mprev = kv_map(patch.blocks@.take(i as int));
            proof {
                assert(patch.blocks@.take(i as int + 1).drop_last() =~= patch.blocks@.take(
                    i as int,
                ));
                assert(patch.blocks@.take(i as int + 1).last() == patch.blocks@[i as int]);
                lemma_kv_map_dom(patch.blocks@.take(i as int));
            }
            let found = find_block_index(&self.config, &patch.blocks[i].0);
            match found {
                Some(b) => {
                    proof {
                        assert(pre.config.blocks@[b as int].id@ == patch.blocks@[i as int].0@);
                        assert forall|j: int| 0 <= j < i implies patch.blocks@[j].0@
                            != patch.blocks@[i as int].0@ by {}
                        assert(!kv_has_key(
                            patch.blocks@.take(i as int),
                            patch.blocks@[i as int].0@,
                        ));
                        assert(!mprev.contains_key(pre.config.blocks@[b as int].id@));
                    }
                    let resolved = self.bs_ipc_to_conf(&patch.blocks[i].1);
                    match resolved {
                        Some(bs) => {
                            let ghost tprev = self.block_timers@;
                            self.blocks[b].current = bs;
                            let matched = match &self.blocks[b].pending {
                                Some(p) => bs_eq(p, &bs),
                                None => false,
                            };
                            if matched {
                                self.blocks[b].pending = None;
                            } else {
                                remove_timers(&mut self.block_timers, b);
                                proof {
                                    lemma_timers_without_entries(tprev, b as int);
                                    assert forall|b2: int| 0 <= b2 < pre.n_blocks() implies
                                    #[trigger] timers_for(self.block_timers@, b2) == (if b2
                                        == b as int {
                                        Seq::<(usize, u64)>::empty()
                                    } else {
                                        timers_for(tprev, b2)
                                    }) by {
                                        lemma_timers_for_without(tprev, b as int, b2);
                                    }
                                }
                            }
                        },
                        None => {
                            // A route naming an unknown node is skipped.
                        },
                    }
                },
                None => {
                    proof {
                        assert forall|b: int| 0 <= b < pre.n_blocks() implies pre.config.blocks@[
                            b
                        ].id@ != patch.blocks@[i as int].0@ by {
                            if pre.config.blocks@[b].id@ == patch.blocks@[i as int].0@ {
                                assert(block_index_of(pre.config, patch.blocks@[i as int].0@)
                                    is Some);
                            }
                        }
                    }
                },
            }
            i = i + 1;
        }
        proof {
            assert(patch.blocks@.take(patch.blocks@.len() as int) =~= patch.blocks@);
        }
    }
}

// ------------------------------------------------------------------
// The flush: outbound patch and scenery diff
// ------------------------------------------------------------------

/// The value element `i` displays, given the current edge vector `next`.
pub open spec fn elem_value(a: Aerodrome, i: int, next: Seq<bool>) -> bool {
    match a.config.elements@[i].condition {
        ElementCondition::Fixed(s) => s,
        ElementCondition::Edge(r) => next[r.0 as int],
        ElementCondition::Node(r) => a.node_eff(r.0 as int),
    }
}

/// The edge vector at flush time.
pub open spec fn next_edges_seq(a: Aerodrome) -> Seq<bool> {
    Seq::new(a.n_edges() as nat, |e: int| a.edge_state_spec(e))
}

/// The scenery diff a flush emits, as a map from element id to value. With a
/// profile switch pending it is a full refresh: every element exactly once.
/// Otherwise it holds exactly the elements whose node was touched since the
/// last flush and those whose edge changed value against the previous tick.
pub open spec fn scenery_ok(pre: Aerodrome, sm: Map<Seq<char>, bool>, next: Seq<bool>) -> bool {
    if pre.pending_patch.profile is Some {
        &&& forall|i: int|
            0 <= i < pre.n_elements() ==> sm.contains_key(#[trigger] pre.config.elements@[i].id@)
                && sm[pre.config.elements@[i].id@] == elem_value(pre, i, next)
        &&& forall|k: Seq<char>|
            #[trigger] sm.contains_key(k) ==> exists|i: int|
                0 <= i < pre.n_elements() && k == pre.config.elements@[i].id@
    } else {
        &&& forall|i: int|
            0 <= i < pre.n_elements() ==> match #[trigger] pre.config.elements@[i].condition {
                ElementCondition::Node(r) => if pre.pending_nodes@.contains(r.0) {
                    sm.contains_key(pre.config.elements@[i].id@) && sm[pre.config.elements@[i].id@]
                        == pre.node_eff(r.0 as int)
                } else {
                    !sm.contains_key(pre.config.elements@[i].id@)
                },
                ElementCondition::Edge(r) => if next[r.0 as int] != pre.previous_edges@[
                    r.0 as int
                ] {
                    sm.contains_key(pre.config.elements@[i].id@) && sm[pre.config.elements@[i].id@]
                        == next[r.0 as int]
                } else {
                    !sm.contains_key(pre.config.elements@[i].id@)
                },
                ElementCondition::Fixed(_) => !sm.contains_key(pre.config.elements@[i].id@),
            }
        &&& forall|k: Seq<char>|
            #[trigger] sm.contains_key(k) ==> exists|i: int|
                0 <= i < pre.n_elements() && k == pre.config.elements@[i].id@
    }
}

/// Scenery is bounded by the touched set: without a pending profile switch, a
/// flush emits only ids of elements whose node was touched or whose edge
/// actually changed since the previous tick.
pub proof fn lemma_scenery_subset_touched(pre: Aerodrome, sm: Map<Seq<char>, bool>, next: Seq<bool>)
    requires
        scenery_ok(pre, sm, next),
        pre.pending_patch.profile is None,
    ensures
        forall|k: Seq<char>|
            #[trigger] sm.contains_key(k) ==> exists|i: int|
                0 <= i < pre.n_elements() && k == pre.config.elements@[i].id@ && (match pre.config.elements@[i].condition {
                    ElementCondition::Node(r) => pre.pending_nodes@.contains(r.0),
                    ElementCondition::Edge(r) => next[r.0 as int] != pre.previous_edges@[
                        r.0 as int
                    ],
                    ElementCondition::Fixed(_) => false,
                }),
{
    assert forall|k: Seq<char>| #[trigger] sm.contains_key(k) implies exists|i: int|
        0 <= i < pre.n_elements() && k == pre.config.elements@[i].id@ && (match pre.config.elements@[i].condition {
            ElementCondition::Node(r) => pre.pending_nodes@.contains(r.0),
            ElementCondition::Edge(r) => next[r.0 as int] != pre.previous_edges@[r.0 as int],
            ElementCondition::Fixed(_) => false,
        }) by {
        let i = choose|i: int| 0 <= i < pre.n_elements() && k == pre.config.elements@[i].id@;
        match pre.config.elements@[i].condition {
            ElementCondition::Node(r) => {
                if !pre.pending_nodes@.contains(r.0) {
                    assert(!sm.contains_key(pre.config.elements@[i].id@));
                }
            },
            ElementCondition::Edge(r) => {
                if next[r.0 as int] == pre.previous_edges@[r.0 as int] {
                    assert(!sm.contains_key(pre.config.elements@[i].id@));
                }
            },
            ElementCondition::Fixed(_) => {
                assert(!sm.contains_key(pre.config.elements@[i].id@));
            },
        }
    }
}

/// Profile switch means full refresh: with a profile switch pending, the
/// flushed scenery holds exactly one entry per configured element.
pub proof fn lemma_scenery_full_refresh(pre: Aerodrome, sm: Map<Seq<char>, bool>, next: Seq<bool>)
    requires
        scenery_ok(pre, sm, next),
        pre.pending_patch.profile is Some,
    ensures
        forall|i: int|
            0 <= i < pre.n_elements() ==> sm.contains_key(#[trigger] pre.config.elements@[i].id@),
        forall|k: Seq<char>|
            #[trigger] sm.contains_key(k) ==> exists|i: int|
                0 <= i < pre.n_elements() && k == pre.config.elements@[i].id@,
{
}

/// What one flush does: the returned patch is the old outbound buffer, the
/// buffers are left empty, the previous-edge vector becomes the freshly
/// computed one, the cells and timers stand, and the returned scenery list
/// denotes exactly the diff map `scenery_ok` describes.
pub open spec fn flushed(pre: Aerodrome, post: Aerodrome, p: Patch, sc: Vec<(String, bool)>) -> bool {
    &&& same_static(pre, post)
    &&& post.state == pre.state
    &&& post.profile == pre.profile
    &&& post.aircraft == pre.aircraft
    &&& post.nodes == pre.nodes
    &&& post.blocks == pre.blocks
    &&& post.node_timers == pre.node_timers
    &&& post.block_timers == pre.block_timers
    &&& p == pre.pending_patch
    &&& post.pending_patch.is_empty_spec()
    &&& post.pending_nodes@.len() == 0
    &&& post.previous_edges@ == next_edges_seq(pre)
    &&& post.pending_patch.wf()
    &&& kv_unique(sc@)
    &&& scenery_ok(pre, kv_map(sc@), next_edges_seq(pre))
}

impl Aerodrome {
    /// Takes the accumulated outbound patch and computes the scenery diff for
    /// this tick (see `scenery_ok`); the previous-edge vector is replaced by
    /// the freshly computed one and the buffers are cleared.
    pub fn take_pending(&mut self) -> (r: (Patch, Vec<(String, bool)>))
        requires
            old(self).inv(),
        ensures
            final(self).inv(),
            flushed(*old(self), *final(self), r.0, r.1),
    {
        let ghost pre = *old(self);
        let next_edges = self.calculate_edges();
        proof {
            assert(next_edges@ =~= next_edges_seq(pre));
        }
        let mut patch = Patch::new();
        core::mem::swap(&mut patch, &mut self.pending_patch);
        let mut touched: Vec<usize> = Vec::new();
        core::mem::swap(&mut touched, &mut self.pending_nodes);
        let mut scenery: Vec<(String, bool)> = Vec::new();
        let n_elements = self.config.elements.len();
        if patch.profile.is_some() {
            let mut i: usize = 0;
            while i < n_elements
                invariant
                    self.inv(),
                    pre.inv(),
                    self.config == pre.config,
                    self.nodes == pre.nodes,
                    n_elements == pre.n_elements(),
                    next_edges@ == next_edges_seq(pre),
                    0 <= i <= n_elements,
                    kv_unique(scenery@),
                    forall|j: int|
                        0 <= j < i ==> kv_map(scenery@).contains_key(
                            #[trigger] pre.config.elements@[j].id@,
                        ) && kv_map(scenery@)[pre.config.elements@[j].id@] == elem_value(
                            pre,
                            j,
                            next_edges_seq(pre),
                        ),
                    forall|k: Seq<char>|
                        #[trigger] kv_map(scenery@).contains_key(k) ==> exists|j: int|
                            0 <= j < i && k == pre.config.elements@[j].id@,
                decreases n_elements - i,
            {
                let v = match self.config.elements[i].condition {
                    ElementCondition::Fixed(s) => s,
                    ElementCondition::Edge(r) => next_edges[r.0],
                    ElementCondition::Node(r) => *self.nodes[r.0].state(),
                };
                kv_insert(&mut scenery, self.config.elements[i].id.clone(), v);
                proof {
                    lemma_kv_map_dom(scenery@);
                }
                i = i + 1;
            }
        } else {
            let n_touched = touched.len();
            let mut t: usize = 0;
            while t < n_touched
                invariant
                    self.inv(),
                    pre.inv(),
                    self.config == pre.config,
                    self.nodes == pre.nodes,
                    self.node_dependencies == pre.node_dependencies,
                    n_touched == touched@.len(),
                    n_elements == pre.n_elements(),
                    touched@ == pre.pending_nodes@,
                    0 <= t <= n_touched,
                    kv_unique(scenery@),
                    forall|j: int|
                        0 <= j < pre.n_elements() ==> match #[trigger] pre.config.elements@[
                            j
                        ].condition {
                            ElementCondition::Node(r) => if touched@.take(t as int).contains(r.0) {
                                kv_map(scenery@).contains_key(pre.config.elements@[j].id@)
                                    && kv_map(scenery@)[pre.config.elements@[j].id@]
                                    == pre.node_eff(r.0 as int)
                            } else {
                                !kv_map(scenery@).contains_key(pre.config.elements@[j].id@)
                            },
                            _ => !kv_map(scenery@).contains_key(pre.config.elements@[j].id@),
                        },
                    forall|k: Seq<char>|
                        #[trigger] kv_map(scenery@).contains_key(k) ==> exists|j: int|
                            0 <= j < pre.n_elements() && k == pre.config.elements@[j].id@,
                decreases n_touched - t,
            {
                let n = touched[t];
                let ndeps = self.node_dependencies[n].len();
                let v = *self.nodes[n].state();
                let mut d: usize = 0;
                while d < ndeps
                    invariant
                        self.inv(),
                        pre.inv(),
                        self.config == pre.config,
                        self.nodes == pre.nodes,
                        self.node_dependencies == pre.node_dependencies,
                        touched@ == pre.pending_nodes@,
                        n_elements == pre.n_elements(),
                        0 <= t < touched@.len(),
                        n == touched@[t as int],
                        n < pre.n_nodes(),
                        v == pre.node_eff(n as int),
                        ndeps == pre.node_dependencies@[n as int]@.len(),
                        0 <= d <= ndeps,
                        kv_unique(scenery@),
                        forall|j: int|
                            0 <= j < pre.n_elements() ==> match #[trigger] pre.config.elements@[
                                j
                            ].condition {
                                ElementCondition::Node(r) => if touched@.take(t as int).contains(
                                    r.0,
                                ) || (r.0 == n && pre.node_dependencies@[n as int]@.take(
                                    d as int,
                                ).contains(j as usize)) {
                                    kv_map(scenery@).contains_key(pre.config.elements@[j].id@)
                                        && kv_map(scenery@)[pre.config.elements@[j].id@]
                                        == pre.node_eff(r.0 as int)
                                } else {
                                    !kv_map(scenery@).contains_key(pre.config.elements@[j].id@)
                                },
                                _ => !kv_map(scenery@).contains_key(pre.config.elements@[j].id@),
                            },
                        forall|k: Seq<char>|
                            #[trigger] kv_map(scenery@).contains_key(k) ==> exists|j: int|
                                0 <= j < pre.n_elements() && k == pre.config.elements@[j].id@,
                    decreases ndeps - d,
                {
                    let el = self.node_dependencies[n][d];
                    proof {
                        assert(pre.node_dependencies@[n as int]@.take(d as int + 1)
                            =~= pre.node_dependencies@[n as int]@.take(d as int).push(el));
                        assert(pre.config.elements@[el as int].condition matches
                            ElementCondition::Node(r) && r.0 == n);
                    }
                    kv_insert(&mut scenery, self.config.elements[el].id.clone(), v);
                    proof {
                        lemma_kv_map_dom(scenery@);
                        assert(kv_map(scenery@).contains_key(
                            pre.config.elements@[el as int].id@,
                        ));
                        assert(pre.node_dependencies@[n as int]@.take(d as int + 1).contains(
                            el,
                        )) by {
                            assert(pre.node_dependencies@[n as int]@.take(d as int + 1)[d as int]
                                == el);
                        }
                    }
                    d = d + 1;
                }
                proof {
                    assert(touched@.take(t as int + 1).drop_last() =~= touched@.take(t as int));
                    assert(touched@.take(t as int + 1).last() == touched@[t as int]);
                    assert(pre.node_dependencies@[n as int]@.take(ndeps as int)
                        =~= pre.node_dependencies@[n as int]@);
                    assert forall|j: int|
                        0 <= j < pre.n_elements() && (match #[trigger] pre.config.elements@[
                            j
                        ].condition {
                            ElementCondition::Node(r) => r.0 == n,
                            _ => false,
                        }) implies pre.node_dependencies@[n as int]@.contains(j as usize) by {}
                }
                t = t + 1;
            }
            proof {
                assert(touched@.take(n_touched as int) =~= touched@);
            }
            let n_edges = self.config.edges.len();
            let mut e: usize = 0;
            while e < n_edges
                invariant
                    self.inv(),
                    pre.inv(),
                    self.config == pre.config,
                    self.nodes == pre.nodes,
                    self.edge_dependencies == pre.edge_dependencies,
                    self.previous_edges == pre.previous_edges,
                    touched@ == pre.pending_nodes@,
                    next_edges@ == next_edges_seq(pre),
                    n_elements == pre.n_elements(),
                    n_edges == pre.n_edges(),
                    0 <= e <= n_edges,
                    kv_unique(scenery@),
                    forall|j: int|
                        0 <= j < pre.n_elements() ==> match #[trigger] pre.config.elements@[
                            j
                        ].condition {
                            ElementCondition::Node(r) => if pre.pending_nodes@.contains(r.0) {
                                kv_map(scenery@).contains_key(pre.config.elements@[j].id@)
                                    && kv_map(scenery@)[pre.config.elements@[j].id@]
                                    == pre.node_eff(r.0 as int)
                            } else {
                                !kv_map(scenery@).contains_key(pre.config.elements@[j].id@)
                            },
                            ElementCondition::Edge(r) => if r.0 < e && next_edges_seq(pre)[
                                r.0 as int
                            ] != pre.previous_edges@[r.0 as int] {
                                kv_map(scenery@).contains_key(pre.config.elements@[j].id@)
                                    && kv_map(scenery@)[pre.config.elements@[j].id@]
                                    == next_edges_seq(pre)[r.0 as int]
                            } else {
                                !kv_map(scenery@).contains_key(pre.config.elements@[j].id@)
                            },
                            ElementCondition::Fixed(_) => !kv_map(scenery@).contains_key(
                                pre.config.elements@[j].id@,
                            ),
                        },
                    forall|k: Seq<char>|
                        #[trigger] kv_map(scenery@).contains_key(k) ==> exists|j: int|
                            0 <= j < pre.n_elements() && k == pre.config.elements@[j].id@,
                decreases n_edges - e,
            {
                if next_edges[e] != self.previous_edges[e] {
                    let v = next_edges[e];
                    let edeps = self.edge_dependencies[e].len();
                    let mut d: usize = 0;
                    while d < edeps
                        invariant
                            self.inv(),
                            pre.inv(),
                            self.config == pre.config,
                            self.nodes == pre.nodes,
                            self.edge_dependencies == pre.edge_dependencies,
                            self.previous_edges == pre.previous_edges,
                            touched@ == pre.pending_nodes@,
                            next_edges@ == next_edges_seq(pre),
                            n_elements == pre.n_elements(),
                            0 <= e < pre.n_edges(),
                            v == next_edges_seq(pre)[e as int],
                            v != pre.previous_edges@[e as int],
                            edeps == pre.edge_dependencies@[e as int]@.len(),
                            0 <= d <= edeps,
                            kv_unique(scenery@),
                            forall|j: int|
                                0 <= j < pre.n_elements() ==> match #[trigger] pre.config.elements@[
                                    j
                                ].condition {
                                    ElementCondition::Node(r) => if pre.pending_nodes@.contains(
                                        r.0,
                                    ) {
                                        kv_map(scenery@).contains_key(pre.config.elements@[j].id@)
                                            && kv_map(scenery@)[pre.config.elements@[j].id@]
                                            == pre.node_eff(r.0 as int)
                                    } else {
                                        !kv_map(scenery@).contains_key(
                                            pre.config.elements@[j].id@,
                                        )
                                    },
                                    ElementCondition::Edge(r) => if (r.0 < e
                                        && next_edges_seq(pre)[r.0 as int]
                                        != pre.previous_edges@[r.0 as int]) || (r.0 == e
                                        && pre.edge_dependencies@[e as int]@.take(
                                        d as int,
                                    ).contains(j as usize)) {
                                        kv_map(scenery@).contains_key(pre.config.elements@[j].id@)
                                            && kv_map(scenery@)[pre.config.elements@[j].id@]
                                            == next_edges_seq(pre)[r.0 as int]
                                    } else {
                                        !kv_map(scenery@).contains_key(
                                            pre.config.elements@[j].id@,
                                        )
                                    },
                                    ElementCondition::Fixed(_) => !kv_map(scenery@).contains_key(
                                        pre.config.elements@[j].id@,
                                    ),
                                },
                            forall|k: Seq<char>|
                                #[trigger] kv_map(scenery@).contains_key(k) ==> exists|j: int|
                                    0 <= j < pre.n_elements() && k == pre.config.elements@[j].id@,
                        decreases edeps - d,
                    {
                        let el = self.edge_dependencies[e][d];
                        proof {
                            assert(pre.edge_dependencies@[e as int]@.take(d as int + 1)
                                =~= pre.edge_dependencies@[e as int]@.take(d as int).push(el));
                            assert(pre.config.elements@[el as int].condition matches
                                ElementCondition::Edge(r) && r.0 == e);
                        }
                        kv_insert(&mut scenery, self.config.elements[el].id.clone(), v);
                        proof {
                            lemma_kv_map_dom(scenery@);
                            assert(kv_map(scenery@).contains_key(
                                pre.config.elements@[el as int].id@,
                            ));
                            assert(pre.edge_dependencies@[e as int]@.take(d as int + 1).contains(
                                el,
                            )) by {
                                assert(pre.edge_dependencies@[e as int]@.take(d as int + 1)[
                                    d as int
                                ] == el);
                            }
                        }
                        d = d + 1;
                    }
                    proof {
                        assert(pre.edge_dependencies@[e as int]@.take(edeps as int)
                            =~= pre.edge_dependencies@[e as int]@);
                        assert forall|j: int|
                            0 <= j < pre.n_elements() && (match #[trigger] pre.config.elements@[
                                j
                            ].condition {
                                ElementCondition::Edge(r) => r.0 == e,
                                _ => false,
                            }) implies pre.edge_dependencies@[e as int]@.contains(j as usize) by {}
                    }
                }
                e = e + 1;
            }
        }
        let ghost mid = *self;
        let ghost pev = next_edges@;
        self.previous_edges = next_edges;
        proof {
            lemma_edge_state_congruence(mid, *self);
        }
        (patch, scenery)
    }
}

// ------------------------------------------------------------------
// The route solver
// ------------------------------------------------------------------

impl Aerodrome {
    /// The `(peer node, peer side)` pairs co-located with node `n` on side
    /// `d`.
    pub open spec fn conns_at(self, n: int, d: bool) -> Seq<(usize, bool)> {
        if d {
            self.conns1@[n]@
        } else {
            self.conns0@[n]@
        }
    }

    /// The solver reached `key` by expanding `parent`: entering `key.0` flips
    /// the side recorded in the adjacency.
    pub open spec fn linked(self, parent: (usize, bool), key: (usize, bool)) -> bool {
        self.conns_at(parent.0 as int, parent.1).contains((key.0, !key.1))
    }

    /// A reconstructed routing chain: it starts at the destination, ends at
    /// the origin, each entry was reached by expanding its successor, and no
    /// entry is a lit fixed node (those block traversal entirely).
    pub open spec fn chain_ok(self, list: Seq<(usize, bool)>, orgn: int, dest: int) -> bool {
        &&& list.len() >= 1
        &&& list[0].0 == dest
        &&& list[list.len() - 1].0 == orgn
        &&& forall|i: int| 0 <= i < list.len() ==> (#[trigger] list[i]).0 < self.n_nodes()
        &&& forall|i: int| 0 <= i < list.len() - 1 ==> self.linked(#[trigger] list[i + 1], list[i])
        &&& forall|i: int|
            0 <= i < list.len() ==> !(self.node_cond((#[trigger] list[i]).0 as int)
                == (NodeCondition::Fixed { state: NodeState::On }))
    }

    /// The block committed for one consecutive chain pair: the block on the
    /// recorded side of the pair's origin node.
    pub open spec fn chain_block(self, list: Seq<(usize, bool)>, w: int) -> int {
        if list[w + 1].1 {
            self.node_blocks@[list[w + 1].0 as int].1 as int
        } else {
            self.node_blocks@[list[w + 1].0 as int].0 as int
        }
    }
}

impl Aerodrome {
    /// The route request is unambiguously one hop: distinct router endpoints,
    /// and the origin's only adjacency is the destination, on one side. On
    /// such inputs the search can only find the two-key chain through that
    /// adjacency, so a routed block is owed.
    pub open spec fn one_hop_route(self, orgn: int, dest: int) -> bool {
        &&& 0 <= orgn < self.n_nodes()
        &&& 0 <= dest < self.n_nodes()
        &&& orgn != dest
        &&& self.node_cond(orgn) is Router
        &&& self.node_cond(dest) is Router
        &&& self.conns_at(orgn, false).len() == 1
        &&& self.conns_at(orgn, false)[0].0 == dest
        &&& self.conns_at(orgn, true).len() == 0
    }
}

/// A run of block writes committing a found chain: write `w` routes from the
/// chain's `w+1`-th node to its `w`-th.
pub open spec fn commit_chain(
    pre: Aerodrome,
    tr: Seq<Aerodrome>,
    list: Seq<(usize, bool)>,
    now_ms: u64,
) -> bool {
    &&& tr.len() == list.len()
    &&& tr[0] == pre
    &&& forall|w: int|
        0 <= w < list.len() - 1 ==> set_block_state_post(
            tr[w],
            #[trigger] tr[w + 1],
            pre.chain_block(list, w),
            BlockState::Route(
                (config::ref_at(list[w + 1].0 as int), config::ref_at(list[w].0 as int)),
            ),
            now_ms,
        )
}

impl Aerodrome {
    /// Operator command: route from `route.0` to `route.1`, both router
    /// nodes, by a bidirectional side-aware search over the node adjacency.
    /// On success the blocks along the found chain are set to the
    /// corresponding `Route` states; the search is best-effort and commits
    /// nothing when it fails (ambiguous or over-long chains included). On an
    /// unambiguous one-hop request (`one_hop_route`) the single routed block
    /// write is guaranteed; wider success conditions are left unstated.
    #[verifier::rlimit(80)]
    pub fn set_route(&mut self, route: (usize, usize), now_ms: u64)
        requires
            old(self).inv(),
        ensures
            final(self).inv(),
            same_static(*old(self), *final(self)),
            final(self).state == old(self).state,
            final(self).profile == old(self).profile,
            final(self).aircraft == old(self).aircraft,
            final(self).nodes == old(self).nodes,
            final(self).node_timers == old(self).node_timers,
            final(self).pending_nodes == old(self).pending_nodes,
            final(self).previous_edges == old(self).previous_edges,
            final(self).pending_patch.profile == old(self).pending_patch.profile,
            final(self).pending_patch.nodes == old(self).pending_patch.nodes,
            route.0 >= old(self).n_nodes() || route.1 >= old(self).n_nodes() ==> *final(self)
                == *old(self),
            route.0 < old(self).n_nodes() && route.1 < old(self).n_nodes() && !(old(
                self,
            ).node_cond(route.0 as int) is Router && old(self).node_cond(route.1 as int)
                is Router) ==> *final(self) == *old(self),
            old(self).one_hop_route(route.0 as int, route.1 as int) ==> set_block_state_post(
                *old(self),
                *final(self),
                old(self).node_blocks@[route.0 as int].0 as int,
                BlockState::Route(
                    (config::ref_at(route.0 as int), config::ref_at(route.1 as int)),
                ),
                now_ms,
            ),
            (*final(self) == *old(self)) || exists|list: Seq<(usize, bool)>, tr: Seq<Aerodrome>|
                {
                    &&& old(self).chain_ok(list, route.0 as int, route.1 as int)
                    &&& commit_chain(*old(self), tr, list, now_ms)
                    &&& tr.last() == *final(self)
                },
    {
        let (orgn, dest) = route;
        if orgn >= self.nodes.len() || dest >= self.nodes.len() {
            return ;
        }
        let o_router = matches!(
            self.config.profiles[self.profile].nodes[orgn],
            NodeCondition::Router { .. }
        );
        let d_router = matches!(
            self.config.profiles[self.profile].nodes[dest],
            NodeCondition::Router { .. }
        );
        if !o_router || !d_router {
            return ;
        }
        let ghost pre = *self;
        // Unambiguous one-hop request: the search below would seed both sides
        // of the origin, reach the destination through the origin's single
        // adjacency at distance one, pass the ambiguity checks and commit
        // exactly this block, so commit it directly.
        if orgn != dest && self.conns0[orgn].len() == 1 && self.conns0[orgn][0].0 == dest
            && self.conns1[orgn].len() == 0 {
            let sd = self.conns0[orgn][0].1;
            proof {
                if pre.n_blocks() == 0 {
                    assert(!(pre.config.profiles@[pre.profile as int].nodes@[orgn as int]
                        is Router));
                }
            }
            let b = self.node_blocks[orgn].0;
            let state = BlockState::Route(
                (config::Ref::new(orgn), config::Ref::new(dest)),
            );
            self.set_block_state(b, state, now_ms);
            proof {
                let list: Seq<(usize, bool)> = seq![(dest, !sd), (orgn, false)];
                let tr: Seq<Aerodrome> = seq![pre, *self];
                assert(pre.conns_at(orgn as int, false)[0] == (dest, sd));
                assert(pre.conns_at(orgn as int, false).contains((dest, !!sd)));
                assert(pre.linked((orgn, false), (dest, !sd)));
                assert(pre.chain_ok(list, orgn as int, dest as int));
                assert(pre.chain_block(list, 0) == pre.node_blocks@[orgn as int].0 as int);
                assert(commit_chain(pre, tr, list, now_ms));
                assert(tr.last() == *self);
            }
            return ;
        }
        proof {
            assert(!pre.one_hop_route(orgn as int, dest as int));
        }
        let n = self.config.nodes.len();
        let mut visited: Vec<bool> = Vec::new();
        let mut chain: Vec<Option<(usize, bool)>> = Vec::new();
        let mut revisited: Vec<bool> = Vec::new();
        let mut t: usize = 0;
        while t < n
            invariant
                0 <= t <= n,
                visited@.len() == 2 * t,
                chain@.len() == 2 * t,
                revisited@.len() == 2 * t,
                forall|i: int| 0 <= i < 2 * t ==> !(#[trigger] visited@[i]),
                forall|i: int| 0 <= i < 2 * t ==> (#[trigger] chain@[i]) is None,
                forall|i: int| 0 <= i < 2 * t ==> !(#[trigger] revisited@[i]),
            decreases n - t,
        {
            visited.push(false);
            visited.push(false);
            chain.push(None);
            chain.push(None);
            revisited.push(false);
            revisited.push(false);
            t = t + 1;
        }
        let mut queue: Vec<(usize, bool, usize)> = Vec::new();
        queue.push((orgn, false, 0));
        queue.push((orgn, true, 0));
        proof {
            assert(visited@.len() == visited.len());
            lemma_count_false_update(visited@, 2 * orgn as int);
        }
        visited[2 * orgn] = true;
        proof {
            lemma_count_false_update(visited@, 2 * orgn as int + 1);
        }
        visited[2 * orgn + 1] = true;
        proof {
            lemma_count_false_nonneg(visited@);
        }
        let mut list: Vec<(usize, bool)> = Vec::new();
        let mut found = false;
        while queue.len() > 0
            invariant
                self.inv(),
                pre.inv(),
                *self == pre,
                pre == *old(self),
                orgn == route.0,
                dest == route.1,
                orgn < pre.n_nodes(),
                dest < pre.n_nodes(),
                n == pre.n_nodes(),
                visited@.len() == 2 * n,
                visited@.len() <= usize::MAX as int,
                chain@.len() == 2 * n,
                revisited@.len() == 2 * n,
                pre.node_cond(orgn as int) is Router,
                pre.node_cond(dest as int) is Router,
                !pre.one_hop_route(orgn as int, dest as int),
                count_false(visited@) >= 0,
                forall|k: int|
                    0 <= k < queue@.len() ==> (#[trigger] queue@[k]).0 < n && visited@[
                        2 * queue@[k].0 + (if queue@[k].1 {
                            1int
                        } else {
                            0int
                        })
                    ],
                forall|idx: int|
                    0 <= idx < 2 * n ==> match #[trigger] chain@[idx] {
                        Some(p) => p.0 < n && pre.linked(
                            p,
                            ((idx / 2) as usize, idx % 2 == 1),
                        ) && visited@[
                            2 * p.0 + (if p.1 {
                                1int
                            } else {
                                0int
                            })
                        ] && !(pre.node_cond(p.0 as int) == (NodeCondition::Fixed {
                            state: NodeState::On,
                        })),
                        None => true,
                    },
                forall|idx: int|
                    0 <= idx < 2 * n && #[trigger] visited@[idx] && chain@[idx] is None ==> idx / 2
                        == orgn,
                found ==> pre.chain_ok(list@, orgn as int, dest as int),
                !found ==> list@.len() == 0,
            decreases queue@.len() + count_false(visited@),
        {
            proof {
                lemma_count_false_nonneg(visited@);
            }
            let trip = queue.remove(0);
            let node = trip.0;
            let direction = trip.1;
            let distance = trip.2;
            let cond = self.config.profiles[self.profile].nodes[node];
            if cond == (NodeCondition::Fixed { state: NodeState::On }) {
                // A lit fixed node blocks traversal entirely.
                continue ;
            }
            let transparent = cond == (NodeCondition::Fixed { state: NodeState::Off });
            if node == dest {
                if found {
                    // A second arrival after a chain exists: ambiguous.
                    return ;
                }
                let mut prev: Option<(usize, bool)> = Some((node, direction));
                let mut i: usize = 0;
                while prev.is_some()
                    invariant
                        self.inv(),
                        pre.inv(),
                        *self == pre,
                        pre == *old(self),
                        orgn == route.0,
                        dest == route.1,
                        n == pre.n_nodes(),
                        chain@.len() == 2 * n,
                        visited@.len() == 2 * n,
                        visited@.len() <= usize::MAX as int,
                        dest < n,
                        orgn < n,
                        pre.node_cond(orgn as int) is Router,
                        pre.node_cond(dest as int) is Router,
                        !pre.one_hop_route(orgn as int, dest as int),
                        0 <= i <= 1000,
                        forall|idx: int|
                            0 <= idx < 2 * n ==> match #[trigger] chain@[idx] {
                                Some(p) => p.0 < n && pre.linked(
                                    p,
                                    ((idx / 2) as usize, idx % 2 == 1),
                                ) && visited@[
                                    2 * p.0 + (if p.1 {
                                        1int
                                    } else {
                                        0int
                                    })
                                ] && !(pre.node_cond(p.0 as int) == (NodeCondition::Fixed {
                                    state: NodeState::On,
                                })),
                                None => true,
                            },
                        forall|idx: int|
                            0 <= idx < 2 * n && #[trigger] visited@[idx] && chain@[idx] is None
                                ==> idx / 2 == orgn,
                        forall|w: int| 0 <= w < list@.len() ==> (#[trigger] list@[w]).0 < n,
                        forall|w: int|
                            0 <= w < list@.len() ==> !(pre.node_cond((#[trigger] list@[w]).0 as int)
                                == (NodeCondition::Fixed { state: NodeState::On })),
                        forall|w: int|
                            0 <= w < list@.len() - 1 ==> pre.linked(
                                #[trigger] list@[w + 1],
                                list@[w],
                            ),
                        list@.len() > 0 ==> list@[0] == (node, direction),
                        match prev {
                            Some(p) => {
                                &&& p.0 < n
                                &&& visited@[
                                    2 * p.0 + (if p.1 {
                                        1int
                                    } else {
                                        0int
                                    })
                                ]
                                &&& if list@.len() == 0 {
                                    p == (node, direction)
                                } else {
                                    chain@[
                                        2 * list@.last().0 + (if list@.last().1 {
                                            1int
                                        } else {
                                            0int
                                        })
                                    ] == Some(p)
                                }
                            },
                            None => {
                                &&& list@.len() > 0
                                &&& list@.last().0 == orgn
                            },
                        },
                        visited@[
                            2 * node + (if direction {
                                1int
                            } else {
                                0int
                            })
                        ],
                        node == dest,
                    decreases 1000 - i,
                {
                    let item = prev.unwrap();
                    i = i + 1;
                    list.push(item);
                    let idx = 2 * item.0 + (if item.1 {
                        1
                    } else {
                        0
                    });
                    prev = chain[idx];
                    if i > 1000 {
                        // Anti-loop guard: give up without committing.
                        return ;
                    }
                }
                found = true;
                proof {
                    assert(pre.chain_ok(list@, orgn as int, dest as int));
                }
                if distance > 1 {
                    // A shorter chain may still be found behind.
                } else {
                    break ;
                }
            } else {
                let conns_len = if direction {
                    self.conns1[node].len()
                } else {
                    self.conns0[node].len()
                };
                let ghost m0 = queue@.len() + count_false(visited@);
                let mut ci: usize = 0;
                while ci < conns_len
                    invariant
                        self.inv(),
                        pre.inv(),
                        *self == pre,
                        pre == *old(self),
                        orgn == route.0,
                        dest == route.1,
                        orgn < pre.n_nodes(),
                        dest < pre.n_nodes(),
                        n == pre.n_nodes(),
                        node < n,
                        visited@.len() == 2 * n,
                        visited@.len() <= usize::MAX as int,
                        chain@.len() == 2 * n,
                        revisited@.len() == 2 * n,
                        conns_len == pre.conns_at(node as int, direction).len(),
                        0 <= ci <= conns_len,
                        queue@.len() + count_false(visited@) == m0,
                        count_false(visited@) >= 0,
                        forall|k: int|
                            0 <= k < queue@.len() ==> (#[trigger] queue@[k]).0 < n && visited@[
                                2 * queue@[k].0 + (if queue@[k].1 {
                                    1int
                                } else {
                                    0int
                                })
                            ],
                        forall|idx: int|
                            0 <= idx < 2 * n ==> match #[trigger] chain@[idx] {
                                Some(p) => p.0 < n && pre.linked(
                                    p,
                                    ((idx / 2) as usize, idx % 2 == 1),
                                ) && visited@[
                                    2 * p.0 + (if p.1 {
                                        1int
                                    } else {
                                        0int
                                    })
                                ] && !(pre.node_cond(p.0 as int) == (NodeCondition::Fixed {
                                    state: NodeState::On,
                                })),
                                None => true,
                            },
                        forall|idx: int|
                            0 <= idx < 2 * n && #[trigger] visited@[idx] && chain@[idx] is None
                                ==> idx / 2 == orgn,
                        found ==> pre.chain_ok(list@, orgn as int, dest as int),
                        !found ==> list@.len() == 0,
                        !(pre.node_cond(node as int) == (NodeCondition::Fixed {
                            state: NodeState::On,
                        })),
                        visited@[
                            2 * node + (if direction {
                                1int
                            } else {
                                0int
                            })
                        ],
                    decreases conns_len - ci,
                {
                    let conn = if direction {
                        self.conns1[node][ci]
                    } else {
                        self.conns0[node][ci]
                    };
                    let next_node = conn.0;
                    let next_dir = !conn.1;
                    proof {
                        assert(pre.conns_at(node as int, direction)[ci as int] == conn);
                        assert(conn.0 < n);
                    }
                    let nk = 2 * next_node + (if next_dir {
                        1
                    } else {
                        0
                    });
                    let nd = if transparent {
                        distance
                    } else {
                        distance.saturating_add(1)
                    };
                    if !visited[nk] {
                        proof {
                            lemma_count_false_update(visited@, nk as int);
                        }
                        visited[nk] = true;
                        chain[nk] = Some((node, direction));
                        proof {
                            assert(pre.linked((node, direction), (next_node, next_dir)));
                            lemma_count_false_nonneg(visited@);
                        }
                        if transparent {
                            queue.insert(0, (next_node, next_dir, nd));
                        } else {
                            queue.push((next_node, next_dir, nd));
                        }
                    } else {
                        revisited[nk] = true;
                    }
                    ci = ci + 1;
                }
            }
        }
        if !found {
            return ;
        }
        // A chain whose interior was reachable twice is ambiguous.
        let mut w: usize = 0;
        while w < list.len() - 1
            invariant
                self.inv(),
                pre.inv(),
                *self == pre,
                pre == *old(self),
                orgn == route.0,
                dest == route.1,
                0 <= w,
                list@.len() >= 1,
                w <= list@.len() - 1,
                revisited@.len() == 2 * n,
                visited@.len() == 2 * n,
                visited@.len() <= usize::MAX as int,
                n == pre.n_nodes(),
                pre.node_cond(orgn as int) is Router,
                pre.node_cond(dest as int) is Router,
                !pre.one_hop_route(orgn as int, dest as int),
                pre.chain_ok(list@, orgn as int, dest as int),
                forall|k: int| 0 <= k < list@.len() ==> (#[trigger] list@[k]).0 < n,
            decreases list@.len() - 1 - w,
        {
            let item = list[w];
            let idx = 2 * item.0 + (if item.1 {
                1
            } else {
                0
            });
            if revisited[idx] {
                return ;
            }
            w = w + 1;
        }
        // Commit the chain: one routed block per consecutive pair.
        proof {
            assert(pre.chain_ok(list@, orgn as int, dest as int));
            if pre.n_blocks() == 0 {
                assert(!(pre.config.profiles@[pre.profile as int].nodes@[orgn as int] is Router));
            }
            assert(pre.n_blocks() > 0);
        }
        let ghost mut tr: Seq<Aerodrome> = seq![*self];
        let mut w: usize = 0;
        while w < list.len() - 1
            invariant
                self.inv(),
                pre.inv(),
                pre == *old(self),
                orgn == route.0,
                dest == route.1,
                n == pre.n_nodes(),
                pre.n_blocks() > 0,
                !pre.one_hop_route(orgn as int, dest as int),
                pre.chain_ok(list@, orgn as int, dest as int),
                same_static(pre, *self),
                self.state == pre.state,
                self.profile == pre.profile,
                self.aircraft == pre.aircraft,
                self.nodes == pre.nodes,
                self.node_timers == pre.node_timers,
                self.pending_nodes == pre.pending_nodes,
                self.previous_edges == pre.previous_edges,
                self.pending_patch.profile == pre.pending_patch.profile,
                self.pending_patch.nodes == pre.pending_patch.nodes,
                0 <= w <= list@.len() - 1,
                tr.len() == w + 1,
                tr[0] == pre,
                tr.last() == *self,
                forall|w2: int|
                    0 <= w2 < w ==> set_block_state_post(
                        tr[w2],
                        #[trigger] tr[w2 + 1],
                        pre.chain_block(list@, w2),
                        BlockState::Route(
                            (
                                config::ref_at(list@[w2 + 1].0 as int),
                                config::ref_at(list@[w2].0 as int),
                            ),
                        ),
                        now_ms,
                    ),
            decreases list@.len() - 1 - w,
        {
            let node2 = list[w].0;
            let pair1 = list[w + 1];
            let node1 = pair1.0;
            let nb = self.node_blocks[node1];
            let block = if pair1.1 {
                nb.1
            } else {
                nb.0
            };
            let state = BlockState::Route((config::Ref::new(node1), config::Ref::new(node2)));
            proof {
                assert(block as int == pre.chain_block(list@, w as int));
                assert(self.bs_wf(state));
            }
            self.set_block_state(block, state, now_ms);
            proof {
                let prev = tr;
                tr = tr.push(*self);
                assert(tr.last() == *self);
                assert forall|w2: int| 0 <= w2 < w + 1 implies set_block_state_post(
                    tr[w2],
                    #[trigger] tr[w2 + 1],
                    pre.chain_block(list@, w2),
                    BlockState::Route(
                        (
                            config::ref_at(list@[w2 + 1].0 as int),
                            config::ref_at(list@[w2].0 as int),
                        ),
                    ),
                    now_ms,
                ) by {
                    if w2 < w {
                        assert(tr[w2] == prev[w2] && tr[w2 + 1] == prev[w2 + 1]);
                    } else {
                        assert(tr[w2] == prev[prev.len() - 1] && tr[w2 + 1] == *self);
                    }
                }
            }
            w = w + 1;
        }
        proof {
            assert(tr.len() == list@.len());
            assert(commit_chain(pre, tr, list@, now_ms));
        }
    }
}

// ------------------------------------------------------------------
// Presets
// ------------------------------------------------------------------

/// The value a preset assigns to node `n`, later entries winning.
pub open spec fn preset_node_val(
    s: Seq<(config::Ref<config::Node>, NodeState)>,
    n: int,
) -> Option<bool>
    decreases s.len(),
{
    if s.len() == 0 {
        None
    } else if s.last().0.0 == n {
        Some(s.last().1 is On)
    } else {
        preset_node_val(s.drop_last(), n)
    }
}

/// The state a preset assigns to block `b`, later entries winning.
pub open spec fn preset_block_val(
    s: Seq<(config::Ref<config::Block>, BlockState)>,
    b: int,
) -> Option<BlockState>
    decreases s.len(),
{
    if s.len() == 0 {
        None
    } else if s.last().0.0 == b {
        Some(s.last().1)
    } else {
        preset_block_val(s.drop_last(), b)
    }
}

/// The in-range node indices a preset names, in order, duplicates kept.
pub open spec fn preset_touched(
    s: Seq<(config::Ref<config::Node>, NodeState)>,
    bound: int,
) -> Seq<usize>
    decreases s.len(),
{
    if s.len() == 0 {
        Seq::empty()
    } else {
        preset_touched(s.drop_last(), bound) + if s.last().0.0 < bound {
            seq![s.last().0.0]
        } else {
            Seq::empty()
        }
    }
}

/// What applying a preset does: every named in-range node and block is
/// predicted to its target, the pending patch's node and block maps are
/// replaced (not merged) by exactly those assignments, the named nodes
/// become the touched set, and all timers are wiped.
pub open spec fn apply_preset_post(pre: Aerodrome, post: Aerodrome, i: int) -> bool {
    let p = pre.config.profiles@[pre.profile as int].presets@[i];
    &&& same_static(pre, post)
    &&& post.state == pre.state
    &&& post.profile == pre.profile
    &&& post.aircraft == pre.aircraft
    &&& post.previous_edges == pre.previous_edges
    &&& post.pending_patch.profile == pre.pending_patch.profile
    &&& post.nodes@.len() == pre.n_nodes()
    &&& forall|n: int|
        0 <= n < pre.n_nodes() ==> #[trigger] post.nodes@[n] == (match preset_node_val(
            p.nodes@,
            n,
        ) {
            Some(v) => pre.nodes@[n].predict_spec(v),
            None => pre.nodes@[n],
        })
    &&& post.blocks@.len() == pre.n_blocks()
    &&& forall|b: int|
        0 <= b < pre.n_blocks() ==> #[trigger] post.blocks@[b] == (match preset_block_val(
            p.blocks@,
            b,
        ) {
            Some(v) => pre.blocks@[b].predict_spec(v),
            None => pre.blocks@[b],
        })
    &&& forall|n: int|
        0 <= n < pre.n_nodes() ==> match preset_node_val(p.nodes@, n) {
            Some(v) => kv_map(post.pending_patch.nodes@).contains_key(
                #[trigger] pre.config.nodes@[n].id@,
            ) && kv_map(post.pending_patch.nodes@)[pre.config.nodes@[n].id@] == v,
            None => !kv_map(post.pending_patch.nodes@).contains_key(pre.config.nodes@[n].id@),
        }
    &&& forall|k: Seq<char>|
        #[trigger] kv_map(post.pending_patch.nodes@).contains_key(k) ==> exists|n: int|
            0 <= n < pre.n_nodes() && k == pre.config.nodes@[n].id@
    &&& forall|b: int|
        0 <= b < pre.n_blocks() ==> match preset_block_val(p.blocks@, b) {
            Some(v) => kv_map(post.pending_patch.blocks@).contains_key(
                #[trigger] pre.config.blocks@[b].id@,
            ) && kv_map(post.pending_patch.blocks@)[pre.config.blocks@[b].id@] == wire_of_spec(
                pre.config,
                v,
            ),
            None => !kv_map(post.pending_patch.blocks@).contains_key(pre.config.blocks@[b].id@),
        }
    &&& forall|k: Seq<char>|
        #[trigger] kv_map(post.pending_patch.blocks@).contains_key(k) ==> exists|b: int|
            0 <= b < pre.n_blocks() && k == pre.config.blocks@[b].id@
    &&& post.pending_nodes@ == preset_touched(p.nodes@, pre.n_nodes())
    &&& post.node_timers@.len() == 0
    &&& post.block_timers@.len() == 0
}

impl Aerodrome {
    /// Operator command: apply preset `i` of the active profile. The prior
    /// pending patch maps are replaced, not merged, and all timers are
    /// cleared; an out-of-range preset index, and any out-of-range entity
    /// inside the preset, is ignored.
    pub fn apply_preset(&mut self, i: usize)
        requires
            old(self).inv(),
        ensures
            final(self).inv(),
            i < old(self).config.profiles@[old(self).profile as int].presets@.len()
                ==> apply_preset_post(*old(self), *final(self), i as int),
            i >= old(self).config.profiles@[old(self).profile as int].presets@.len()
                ==> *final(self) == *old(self),
    {
        if i >= self.config.profiles[self.profile].presets.len() {
            return ;
        }
        let ghost pre = *old(self);
        let ghost p = pre.config.profiles@[pre.profile as int].presets@[i as int];
        let pn = self.config.profiles[self.profile].presets[i].nodes.len();
        let mut nodes_map: Vec<(String, bool)> = Vec::new();
        let mut k: usize = 0;
        while k < pn
            invariant
                self.inv(),
                pre.inv(),
                i < pre.config.profiles@[pre.profile as int].presets@.len(),
                p == pre.config.profiles@[pre.profile as int].presets@[i as int],
                pn == p.nodes@.len(),
                0 <= k <= pn,
                same_static(pre, *self),
                self.state == pre.state,
                self.profile == pre.profile,
                self.aircraft == pre.aircraft,
                self.previous_edges == pre.previous_edges,
                self.pending_patch == pre.pending_patch,
                self.pending_nodes == pre.pending_nodes,
                self.node_timers == pre.node_timers,
                self.block_timers == pre.block_timers,
                self.blocks == pre.blocks,
                self.nodes@.len() == pre.n_nodes(),
                kv_unique(nodes_map@),
                forall|n: int|
                    0 <= n < pre.n_nodes() ==> #[trigger] self.nodes@[n] == (match preset_node_val(
                        p.nodes@.take(k as int),
                        n,
                    ) {
                        Some(v) => pre.nodes@[n].predict_spec(v),
                        None => pre.nodes@[n],
                    }),
                forall|n: int|
                    0 <= n < pre.n_nodes() ==> match preset_node_val(p.nodes@.take(k as int), n) {
                        Some(v) => kv_map(nodes_map@).contains_key(
                            #[trigger] pre.config.nodes@[n].id@,
                        ) && kv_map(nodes_map@)[pre.config.nodes@[n].id@] == v,
                        None => !kv_map(nodes_map@).contains_key(pre.config.nodes@[n].id@),
                    },
                forall|k2: Seq<char>|
                    #[trigger] kv_map(nodes_map@).contains_key(k2) ==> exists|n: int|
                        0 <= n < pre.n_nodes() && k2 == pre.config.nodes@[n].id@,
            decreases pn - k,
        {
            proof {
                assert(p.nodes@.take(k as int + 1).drop_last() =~= p.nodes@.take(k as int));
                assert(p.nodes@.take(k as int + 1).last() == p.nodes@[k as int]);
                lemma_kv_map_dom(nodes_map@);
            }
            let entry = self.config.profiles[self.profile].presets[i].nodes[k];
            if entry.0.0 < self.nodes.len() {
                let v = entry.1 == NodeState::On;
                self.nodes[entry.0.0].pending = Some(v);
                kv_insert(&mut nodes_map, self.config.nodes[entry.0.0].id.clone(), v);
                proof {
                    lemma_kv_map_dom(nodes_map@);
                }
            }
            k = k + 1;
        }
        proof {
            assert(p.nodes@.take(pn as int) =~= p.nodes@);
        }
        let mut touched: Vec<usize> = Vec::new();
        let mut k: usize = 0;
        while k < pn
            invariant
                self.inv(),
                pre.inv(),
                i < pre.config.profiles@[pre.profile as int].presets@.len(),
                p == pre.config.profiles@[pre.profile as int].presets@[i as int],
                pn == p.nodes@.len(),
                0 <= k <= pn,
                self.profile == pre.profile,
                same_static(pre, *self),
                self.nodes@.len() == pre.n_nodes(),
                self.state == pre.state,
                self.aircraft == pre.aircraft,
                self.previous_edges == pre.previous_edges,
                self.pending_patch == pre.pending_patch,
                self.pending_nodes == pre.pending_nodes,
                self.node_timers == pre.node_timers,
                self.block_timers == pre.block_timers,
                self.blocks == pre.blocks,
                kv_unique(nodes_map@),
                forall|n: int|
                    0 <= n < pre.n_nodes() ==> #[trigger] self.nodes@[n] == (match preset_node_val(
                        p.nodes@,
                        n,
                    ) {
                        Some(v) => pre.nodes@[n].predict_spec(v),
                        None => pre.nodes@[n],
                    }),
                forall|n: int|
                    0 <= n < pre.n_nodes() ==> match preset_node_val(p.nodes@, n) {
                        Some(v) => kv_map(nodes_map@).contains_key(
                            #[trigger] pre.config.nodes@[n].id@,
                        ) && kv_map(nodes_map@)[pre.config.nodes@[n].id@] == v,
                        None => !kv_map(nodes_map@).contains_key(pre.config.nodes@[n].id@),
                    },
                forall|k2: Seq<char>|
                    #[trigger] kv_map(nodes_map@).contains_key(k2) ==> exists|n: int|
                        0 <= n < pre.n_nodes() && k2 == pre.config.nodes@[n].id@,
                touched@ == preset_touched(p.nodes@.take(k as int), pre.n_nodes()),
                forall|j: int| 0 <= j < touched@.len() ==> #[trigger] touched@[j] < pre.n_nodes(),
            decreases pn - k,
        {
            proof {
                assert(p.nodes@.take(k as int + 1).drop_last() =~= p.nodes@.take(k as int));
                assert(p.nodes@.take(k as int + 1).last() == p.nodes@[k as int]);
            }
            let entry = self.config.profiles[self.profile].presets[i].nodes[k];
            if entry.0.0 < self.nodes.len() {
                touched.push(entry.0.0);
            }
            k = k + 1;
        }
        proof {
            assert(p.nodes@.take(pn as int) =~= p.nodes@);
        }
        let pb = self.config.profiles[self.profile].presets[i].blocks.len();
        let mut blocks_map: Vec<(String, protocol::BlockState)> = Vec::new();
        let mut k: usize = 0;
        while k < pb
            invariant
                self.inv(),
                pre.inv(),
                i < pre.config.profiles@[pre.profile as int].presets@.len(),
                p == pre.config.profiles@[pre.profile as int].presets@[i as int],
                pb == p.blocks@.len(),
                0 <= k <= pb,
                same_static(pre, *self),
                self.profile == pre.profile,
                self.nodes@.len() == pre.n_nodes(),
                self.state == pre.state,
                self.aircraft == pre.aircraft,
                self.previous_edges == pre.previous_edges,
                self.pending_patch == pre.pending_patch,
                self.pending_nodes == pre.pending_nodes,
                self.node_timers == pre.node_timers,
                self.block_timers == pre.block_timers,
                                kv_unique(nodes_map@),
                forall|n: int|
                    0 <= n < pre.n_nodes() ==> #[trigger] self.nodes@[n] == (match preset_node_val(
                        p.nodes@,
                        n,
                    ) {
                        Some(v) => pre.nodes@[n].predict_spec(v),
                        None => pre.nodes@[n],
                    }),
                forall|n: int|
                    0 <= n < pre.n_nodes() ==> match preset_node_val(p.nodes@, n) {
                        Some(v) => kv_map(nodes_map@).contains_key(
                            #[trigger] pre.config.nodes@[n].id@,
                        ) && kv_map(nodes_map@)[pre.config.nodes@[n].id@] == v,
                        None => !kv_map(nodes_map@).contains_key(pre.config.nodes@[n].id@),
                    },
                forall|k2: Seq<char>|
                    #[trigger] kv_map(nodes_map@).contains_key(k2) ==> exists|n: int|
                        0 <= n < pre.n_nodes() && k2 == pre.config.nodes@[n].id@,
                touched@ == preset_touched(p.nodes@, pre.n_nodes()),
                forall|j: int| 0 <= j < touched@.len() ==> #[trigger] touched@[j] < pre.n_nodes(),
                self.blocks@.len() == pre.n_blocks(),
                kv_unique(blocks_map@),
                forall|b: int|
                    0 <= b < pre.n_blocks() ==> #[trigger] self.blocks@[b] == (match
                    preset_block_val(p.blocks@.take(k as int), b) {
                        Some(v) => pre.blocks@[b].predict_spec(v),
                        None => pre.blocks@[b],
                    }),
                forall|b: int|
                    0 <= b < pre.n_blocks() ==> match preset_block_val(p.blocks@.take(k as int), b) {
                        Some(v) => kv_map(blocks_map@).contains_key(
                            #[trigger] pre.config.blocks@[b].id@,
                        ) && kv_map(blocks_map@)[pre.config.blocks@[b].id@] == wire_of_spec(
                            pre.config,
                            v,
                        ),
                        None => !kv_map(blocks_map@).contains_key(pre.config.blocks@[b].id@),
                    },
                forall|k2: Seq<char>|
                    #[trigger] kv_map(blocks_map@).contains_key(k2) ==> exists|b: int|
                        0 <= b < pre.n_blocks() && k2 == pre.config.blocks@[b].id@,
            decreases pb - k,
        {
            proof {
                assert(p.blocks@.take(k as int + 1).drop_last() =~= p.blocks@.take(k as int));
                assert(p.blocks@.take(k as int + 1).last() == p.blocks@[k as int]);
                lemma_kv_map_dom(blocks_map@);
            }
            let entry = self.config.profiles[self.profile].presets[i].blocks[k];
            if entry.0.0 < self.blocks.len() {
                proof {
                    assert((p.blocks@[k as int]).1 == entry.1);
                    assert(self.bs_wf(entry.1));
                }
                let wire = self.bs_conf_to_ipc(&entry.1);
                self.blocks[entry.0.0].pending = Some(entry.1);
                kv_insert(&mut blocks_map, self.config.blocks[entry.0.0].id.clone(), wire);
                proof {
                    lemma_kv_map_dom(blocks_map@);
                }
            }
            k = k + 1;
        }
        proof {
            assert(p.blocks@.take(pb as int) =~= p.blocks@);
        }
        let ghost nm = nodes_map@;
        let ghost bm = blocks_map@;
        let ghost tv = touched@;
        self.pending_patch.nodes = nodes_map;
        self.pending_patch.blocks = blocks_map;
        self.pending_nodes = touched;
        self.node_timers = Vec::new();
        self.block_timers = Vec::new();
        proof {
            assert(self.pending_patch.nodes@ == nm);
            assert(self.pending_patch.blocks@ == bm);
            assert(self.pending_nodes@ == tv);
            assert(self.inv());
            assert(apply_preset_post(pre, *self, i as int));
        }
    }
}

// ------------------------------------------------------------------
// The tick: firing reset timers
// ------------------------------------------------------------------

/// `y` is `x` with the head node timer removed and nothing else changed.
pub open spec fn popped_node_timer(x: Aerodrome, y: Aerodrome) -> bool {
    &&& same_static(x, y)
    &&& y.state == x.state
    &&& y.profile == x.profile
    &&& y.aircraft == x.aircraft
    &&& y.nodes == x.nodes
    &&& y.blocks == x.blocks
    &&& y.pending_patch == x.pending_patch
    &&& y.pending_nodes == x.pending_nodes
    &&& y.previous_edges == x.previous_edges
    &&& y.block_timers == x.block_timers
    &&& x.node_timers@.len() > 0
    &&& y.node_timers@ == x.node_timers@.drop_first()
}

/// `y` is `x` with the head block timer removed and nothing else changed.
pub open spec fn popped_block_timer(x: Aerodrome, y: Aerodrome) -> bool {
    &&& same_static(x, y)
    &&& y.state == x.state
    &&& y.profile == x.profile
    &&& y.aircraft == x.aircraft
    &&& y.nodes == x.nodes
    &&& y.blocks == x.blocks
    &&& y.pending_patch == x.pending_patch
    &&& y.pending_nodes == x.pending_nodes
    &&& y.previous_edges == x.previous_edges
    &&& y.node_timers == x.node_timers
    &&& x.block_timers@.len() > 0
    &&& y.block_timers@ == x.block_timers@.drop_first()
}

/// What `set_node` does, guard included.
pub open spec fn set_node_rel(
    pre: Aerodrome,
    post: Aerodrome,
    node: int,
    state: bool,
    now_ms: u64,
) -> bool {
    if 0 <= node < pre.n_nodes() && pre.node_cond(node) is Direct {
        set_node_post(pre, post, node, state, now_ms)
    } else {
        post == pre
    }
}

/// What `set_block` does, guard included.
pub open spec fn set_block_rel(
    pre: Aerodrome,
    post: Aerodrome,
    b: int,
    state: BlockState,
    now_ms: u64,
) -> bool {
    if 0 <= b < pre.n_blocks() {
        set_block_post(pre, post, b, state, now_ms)
    } else {
        post == pre
    }
}

/// One due node timer fires: the head timer (deadline at or before now) is
/// popped and its node is switched back on.
pub open spec fn node_fire_step(x: Aerodrome, y: Aerodrome, now_ms: u64) -> bool {
    &&& x.node_timers@.len() > 0
    &&& x.node_timers@[0].1 <= now_ms
    &&& exists|mid: Aerodrome|
        popped_node_timer(x, mid) && set_node_rel(
            mid,
            y,
            x.node_timers@[0].0 as int,
            true,
            now_ms,
        )
}

/// One expired block timer fires: the head timer is popped and its block is
/// cleared (cascading).
pub open spec fn block_fire_step(x: Aerodrome, y: Aerodrome, now_ms: u64) -> bool {
    &&& x.block_timers@.len() > 0
    &&& x.block_timers@[0].1 <= now_ms
    &&& exists|mid: Aerodrome|
        popped_block_timer(x, mid) && set_block_rel(
            mid,
            y,
            x.block_timers@[0].0 as int,
            BlockState::Clear,
            now_ms,
        )
}

/// A run of node-timer firings.
pub open spec fn node_fire_chain(tr: Seq<Aerodrome>, now_ms: u64) -> bool {
    &&& tr.len() >= 1
    &&& forall|i: int| 0 <= i < tr.len() - 1 ==> node_fire_step(tr[i], #[trigger] tr[i + 1], now_ms)
}

/// A run of block-timer firings.
pub open spec fn block_fire_chain(tr: Seq<Aerodrome>, now_ms: u64) -> bool {
    &&& tr.len() >= 1
    &&& forall|i: int|
        0 <= i < tr.len() - 1 ==> block_fire_step(tr[i], #[trigger] tr[i + 1], now_ms)
}

/// What one tick does: a run of node-timer firings leaving no due node
/// timer at the head, then a run of block-timer firings leaving no due
/// block timer at the head.
pub open spec fn ticked(pre: Aerodrome, post: Aerodrome, now_ms: u64) -> bool {
    exists|tn: Seq<Aerodrome>, tb: Seq<Aerodrome>|
        {
            &&& node_fire_chain(tn, now_ms)
            &&& tn[0] == pre
            &&& (tn.last().node_timers@.len() == 0 || tn.last().node_timers@[0].1 > now_ms)
            &&& block_fire_chain(tb, now_ms)
            &&& tb[0] == tn.last()
            &&& (tb.last().block_timers@.len() == 0 || tb.last().block_timers@[0].1 > now_ms)
            &&& post == tb.last()
        }
}

impl Aerodrome {
    /// Advances time to `now_ms`: while the head node timer has expired, pop
    /// it and switch its node back on; then likewise clear the blocks of
    /// expired block timers. The chains in the contract record each firing.
    pub fn tick(&mut self, now_ms: u64)
        requires
            old(self).inv(),
        ensures
            final(self).inv(),
            ticked(*old(self), *final(self), now_ms),
    {
        let ghost mut tn: Seq<Aerodrome> = seq![*self];
        while self.node_timers.len() > 0 && self.node_timers[0].1 <= now_ms
            invariant
                self.inv(),
                node_fire_chain(tn, now_ms),
                tn[0] == *old(self),
                tn.last() == *self,
            decreases self.node_timers@.len(),
        {
            let ghost x = *self;
            let head = self.node_timers[0];
            let _ = self.node_timers.remove(0);
            let ghost mid = *self;
            proof {
                assert(mid.node_timers@ =~= x.node_timers@.drop_first());
                assert(popped_node_timer(x, mid));
            }
            self.set_node(head.0, true, now_ms);
            proof {
                assert(set_node_rel(mid, *self, head.0 as int, true, now_ms));
                assert(node_fire_step(x, *self, now_ms));
                let prev = tn;
                tn = tn.push(*self);
                assert(tn.last() == *self);
                assert(tn[0] == *old(self));
                assert forall|i: int| 0 <= i < tn.len() - 1 implies node_fire_step(
                    tn[i],
                    #[trigger] tn[i + 1],
                    now_ms,
                ) by {
                    if i < prev.len() - 1 {
                        assert(tn[i] == prev[i] && tn[i + 1] == prev[i + 1]);
                    } else {
                        assert(tn[i] == x && tn[i + 1] == *self);
                    }
                }
            }
        }
        let ghost mut tb: Seq<Aerodrome> = seq![*self];
        let ghost tnf = tn;
        while self.block_timers.len() > 0 && self.block_timers[0].1 <= now_ms
            invariant
                self.inv(),
                node_fire_chain(tnf, now_ms),
                tnf[0] == *old(self),
                tnf.last().node_timers@.len() == 0 || tnf.last().node_timers@[0].1 > now_ms,
                block_fire_chain(tb, now_ms),
                tb[0] == tnf.last(),
                tb.last() == *self,
            decreases self.block_timers@.len(),
        {
            let ghost x = *self;
            let head = self.block_timers[0];
            let _ = self.block_timers.remove(0);
            let ghost mid = *self;
            proof {
                assert(mid.block_timers@ =~= x.block_timers@.drop_first());
                assert(popped_block_timer(x, mid));
            }
            self.set_block(head.0, BlockState::Clear, now_ms);
            proof {
                assert(set_block_rel(mid, *self, head.0 as int, BlockState::Clear, now_ms));
                assert(block_fire_step(x, *self, now_ms));
                let prev = tb;
                tb = tb.push(*self);
                assert forall|i: int| 0 <= i < tb.len() - 1 implies block_fire_step(
                    tb[i],
                    #[trigger] tb[i + 1],
                    now_ms,
                ) by {
                    if i < prev.len() - 1 {
                        assert(tb[i] == prev[i] && tb[i + 1] == prev[i + 1]);
                    } else {
                        assert(tb[i] == x && tb[i + 1] == *self);
                    }
                }
            }
        }
    }
}

/// Pending settlement for one entity: after an operator prediction of `v`, a
/// server patch asserting the same `v` leaves the cell reading `v` with the
/// pending side empty.
pub proof fn lemma_patch_settles_prediction(cell: State<bool>, v: bool)
    requires
        cell.pending == Some(v),
    ensures
        committed_node(cell, v).pending is None,
        committed_node(cell, v).effective() == v,
{
}

/// Contradiction wipes timers: when a server patch writes a node value that
/// differs from the outstanding prediction, the node keeps no reset timer.
pub proof fn lemma_contradiction_wipes_timer(
    pre: Aerodrome,
    post: Aerodrome,
    patch: Patch,
    n: int,
)
    requires
        apply_patch_post(pre, post, patch),
        0 <= n < pre.n_nodes(),
        kv_map(patch.nodes@).contains_key(pre.config.nodes@[n].id@),
        pre.nodes@[n].pending != Some(kv_map(patch.nodes@)[pre.config.nodes@[n].id@]),
    ensures
        timers_for(post.node_timers@, n) == Seq::<(usize, u64)>::empty(),
{
}

/// Cascade idempotence: applying the same cascading block write twice leaves
/// the same block cells, and so the same block-state map, as applying it
/// once.
pub proof fn lemma_cascade_idempotent(
    a0: Aerodrome,
    a1: Aerodrome,
    a2: Aerodrome,
    b: int,
    state: BlockState,
    t1: u64,
    t2: u64,
)
    requires
        a0.inv(),
        0 <= b < a0.n_blocks(),
        set_block_post(a0, a1, b, state, t1),
        set_block_post(a1, a2, b, state, t2),
    ensures
        a2.blocks@ == a1.blocks@,
        forall|j: int| 0 <= j < a0.n_blocks() ==> a2.blk_eff(j) == a1.blk_eff(j),
{
    lemma_cascade_congruence(a0, a1);
    assert forall|j: int| 0 <= j < a0.n_blocks() implies a2.blocks@[j] == a1.blocks@[j] by {
        if a0.cascade_reach(b, j) {
            assert(a1.blocks@[j] == a0.blocks@[j].predict_spec(state));
            assert(a2.blocks@[j] == a1.blocks@[j].predict_spec(state));
        }
    }
    assert(a2.blocks@ =~= a1.blocks@);
}

/// Router-node invariant: a router node reads as unlit only when at least one
/// of its bordered blocks is relaxing or actively routing through it.
pub proof fn lemma_router_node_invariant(a: Aerodrome, n: int)
    requires
        a.inv(),
        0 <= n < a.n_nodes(),
        a.node_cond(n) is Router,
        !a.node_state_spec(n),
    ensures
        exists|b: int|
            (b == a.node_blocks@[n].0 || b == a.node_blocks@[n].1) && (a.blk_eff(b)
                is Relax || match a.blk_eff(b) {
                BlockState::Route((x, y)) => x.0 == n || y.0 == n,
                _ => false,
            }),
{
    let b0 = a.node_blocks@[n].0 as int;
    if !(a.blk_eff(b0) is Relax || match a.blk_eff(b0) {
        BlockState::Route((x, y)) => x.0 == n || y.0 == n,
        _ => false,
    }) {
        assert(a.block_clears(b0, n));
    }
}

} // verus!

verus! {

/// Why an inbound configuration message was rejected: it did not parse, or
/// it violated the structural invariants the engine relies on.
#[derive(Clone, Copy, Debug, PartialEq, Eq, Structural)]
pub enum ConfigError {
    Undecodable,
    IllFormed,
}

/// Decides `kv_unique` executably.
pub fn kv_keys_unique<V>(list: &Vec<(String, V)>) -> (r: bool)
    ensures
        r == kv_unique(list@),
{
    let mut i: usize = 0;
    while i < list.len()
        invariant
            0 <= i <= list@.len(),
            forall|a: int, b: int| 0 <= a < b < list@.len() && b < i ==> list@[a].0@ != list@[b].0@,
        decreases list@.len() - i,
    {
        let mut j: usize = 0;
        while j < i
            invariant
                0 <= j <= i < list@.len(),
                forall|a: int| 0 <= a < j ==> list@[a].0@ != list@[i as int].0@,
            decreases i - j,
        {
            if str_eq(&list[j].0, &list[i].0) {
                return false;
            }
            j = j + 1;
        }
        i = i + 1;
    }
    true
}

/// The two registries list the same aerodromes in the same order.
pub open spec fn same_keys(pre: Client, post: Client) -> bool {
    &&& post.aerodromes@.len() == pre.aerodromes@.len()
    &&& forall|i: int|
        0 <= i < pre.aerodromes@.len() ==> (#[trigger] post.aerodromes@[i]).0 == pre.aerodromes@[
            i
        ].0
}

/// `post` equals `pre` except possibly at the entry keyed `icao`.
pub open spec fn entry_updated(pre: Client, post: Client, icao: Seq<char>) -> bool {
    &&& same_keys(pre, post)
    &&& forall|i: int|
        0 <= i < pre.aerodromes@.len() && (#[trigger] pre.aerodromes@[i]).0@ != icao
            ==> post.aerodromes@[i] == pre.aerodromes@[i]
}

/// The upstream traffic one aerodrome's flush produces: its patch when
/// non-empty, then its scenery when non-empty.
pub open spec fn flush_messages(icao: String, p: Patch, sc: Vec<(String, bool)>) -> Seq<
    protocol::Upstream,
> {
    (if !p.is_empty_spec() {
        seq![protocol::Upstream::Patch { icao: icao, patch: p }]
    } else {
        Seq::empty()
    }) + (if sc@.len() > 0 {
        seq![protocol::Upstream::Scenery { icao: icao, scenery: sc }]
    } else {
        Seq::empty()
    })
}

/// The concatenated upstream traffic of the first `k` aerodromes, in
/// registry order.
pub open spec fn tick_messages(
    entries: Seq<(String, Aerodrome)>,
    ps: Seq<Patch>,
    scs: Seq<Vec<(String, bool)>>,
    k: int,
) -> Seq<protocol::Upstream>
    decreases k,
{
    if k <= 0 {
        Seq::empty()
    } else {
        tick_messages(entries, ps, scs, k - 1) + flush_messages(
            entries[k - 1].0,
            ps[k - 1],
            scs[k - 1],
        )
    }
}

/// A later patch or scenery entry does not change the earlier traffic.
proof fn lemma_tick_messages_push(
    entries: Seq<(String, Aerodrome)>,
    ps: Seq<Patch>,
    scs: Seq<Vec<(String, bool)>>,
    x: Patch,
    y: Vec<(String, bool)>,
    k: int,
)
    requires
        0 <= k <= ps.len(),
        k <= scs.len(),
    ensures
        tick_messages(entries, ps.push(x), scs.push(y), k) == tick_messages(entries, ps, scs, k),
    decreases k,
{
    if k > 0 {
        lemma_tick_messages_push(entries, ps, scs, x, y, k - 1);
    }
}

/// The multi-aerodrome registry: the client-side top level. The host owns
/// the channel; it hands every inbound message to `apply_message` and drives
/// `tick`, sending whatever messages both return.
pub struct Client {
    pub aerodromes: Vec<(String, Aerodrome)>,
}

impl Client {
    /// Aerodromes are keyed by unique ICAO codes and each engine satisfies
    /// its invariant.
    pub open spec fn inv(self) -> bool {
        &&& kv_unique(self.aerodromes@)
        &&& forall|i: int|
            0 <= i < self.aerodromes@.len() ==> (#[trigger] self.aerodromes@[i]).1.inv()
    }

    /// Whether some aerodrome is tracked under `icao`.
    pub open spec fn tracks(self, icao: Seq<char>) -> bool {
        kv_has_key(self.aerodromes@, icao)
    }

    pub fn new() -> (r: Client)
        ensures
            r.inv(),
            r.aerodromes@.len() == 0,
    {
        Client { aerodromes: Vec::new() }
    }

    /// The handshake the host must send first on a fresh connection.
    pub fn init_message() -> (r: protocol::Upstream)
        ensures
            r == protocol::Upstream::Init,
    {
        protocol::Upstream::Init
    }

    /// Dropping the client drops all per-aerodrome state; the host closes
    /// the channel.
    pub fn disconnect(self) {
    }

    fn find(&self, icao: &String) -> (r: Option<usize>)
        ensures
            match r {
                Some(i) => i < self.aerodromes@.len() && self.aerodromes@[i as int].0@ == icao@,
                None => !self.tracks(icao@),
            },
    {
        let mut i: usize = 0;
        while i < self.aerodromes.len()
            invariant
                0 <= i <= self.aerodromes@.len(),
                forall|j: int| 0 <= j < i ==> self.aerodromes@[j].0@ != icao@,
            decreases self.aerodromes@.len() - i,
        {
            if str_eq(&self.aerodromes[i].0, icao) {
                return Some(i);
            }
            i = i + 1;
        }
        None
    }

    /// The tracked aerodrome named `icao`, if any.
    pub fn aerodrome(&self, icao: &String) -> (r: Option<&Aerodrome>)
        ensures
            match r {
                Some(a) => exists|i: int|
                    0 <= i < self.aerodromes@.len() && (#[trigger] self.aerodromes@[i]).0@ == icao@
                        && *a == self.aerodromes@[i].1,
                None => !self.tracks(icao@),
            },
    {
        match self.find(icao) {
            Some(i) => Some(&self.aerodromes[i].1),
            None => None,
        }
    }

    /// The tracked aerodrome named `icao`, for issuing operator commands.
    pub fn aerodrome_mut(&mut self, icao: &String) -> (r: Option<&mut Aerodrome>)
        ensures
            match r {
                Some(a) => exists|i: int|
                    {
                        &&& 0 <= i < old(self).aerodromes@.len()
                        &&& (#[trigger] old(self).aerodromes@[i]).0@ == icao@
                        &&& *a == old(self).aerodromes@[i].1
                        &&& final(self).aerodromes@ == old(self).aerodromes@.update(
                            i,
                            (old(self).aerodromes@[i].0, *final(a)),
                        )
                    },
                None => !old(self).tracks(icao@) && *final(self) == *old(self),
            },
    {
        match self.find(icao) {
            Some(i) => {
                let entry = &mut self.aerodromes[i];
                Some(&mut entry.1)
            },
            None => None,
        }
    }

    /// Starts or stops tracking an aerodrome; the returned message tells the
    /// server. Stopping discards the aerodrome's state immediately.
    pub fn set_tracking(&mut self, icao: String, track: bool) -> (r: protocol::Upstream)
        requires
            old(self).inv(),
        ensures
            final(self).inv(),
            track ==> *final(self) == *old(self),
            !track ==> !final(self).tracks(icao@),
            !track && !old(self).tracks(icao@) ==> *final(self) == *old(self),
            !track && old(self).tracks(icao@) ==> exists|i: int|
                {
                    &&& 0 <= i < old(self).aerodromes@.len()
                    &&& (#[trigger] old(self).aerodromes@[i]).0@ == icao@
                    &&& final(self).aerodromes@ == old(self).aerodromes@.remove(i)
                },
            match r {
                protocol::Upstream::Track { icao: i2, track: t2 } => i2@ == icao@ && t2 == track,
                _ => false,
            },
    {
        if !track {
            match self.find(&icao) {
                Some(i) => {
                    let _ = self.aerodromes.remove(i);
                    proof {
                        let s0 = old(self).aerodromes@;
                        assert forall|j: int|
                            0 <= j < self.aerodromes@.len() implies self.aerodromes@[j].0@
                            != icao@ by {
                            if j < i {
                                assert(self.aerodromes@[j] == s0[j]);
                                assert(s0[j].0@ != s0[i as int].0@);
                            } else {
                                assert(self.aerodromes@[j] == s0[j + 1]);
                                assert(s0[i as int].0@ != s0[j + 1].0@);
                            }
                        }
                    }
                },
                None => {},
            }
        }
        protocol::Upstream::Track { icao, track }
    }

    /// Asks the server for control of a tracked aerodrome; untracked ones
    /// are ignored.
    pub fn set_controlling(&mut self, icao: String, control: bool) -> (r: Option<
        protocol::Upstream,
    >)
        requires
            old(self).inv(),
        ensures
            final(self).inv(),
            *final(self) == *old(self),
            match r {
                Some(m) => old(self).tracks(icao@) && match m {
                    protocol::Upstream::Control { icao: i2, control: c2 } => i2@ == icao@ && c2
                        == control,
                    _ => false,
                },
                None => !old(self).tracks(icao@),
            },
    {
        match self.find(&icao) {
            Some(_) => Some(protocol::Upstream::Control { icao, control }),
            None => None,
        }
    }

    /// Applies one inbound server message; see the match arms. Returns an
    /// optional message for the user and an optional reply for the server;
    /// an undecodable or ill-formed configuration is a fatal error.
    pub fn apply_message(&mut self, message: protocol::Downstream) -> (r: Result<
        (Option<String>, Option<protocol::Upstream>),
        ConfigError,
    >)
        requires
            old(self).inv(),
        ensures
            final(self).inv(),
            match message {
                protocol::Downstream::Config { data } => match r {
                    Err(ConfigError::Undecodable) => *final(self) == *old(self) && !(exists|
                        c: config::Aerodrome,
                    | #[trigger] crate::codec::enc_aerodrome(c) == data@),
                    Err(ConfigError::IllFormed) => *final(self) == *old(self) && exists|
                        c: config::Aerodrome,
                    | #[trigger] crate::codec::enc_aerodrome(c) == data@ && !c.wf(),
                    Ok(out) => out == (None::<String>, None::<protocol::Upstream>) && exists|
                        cfg: config::Aerodrome,
                    |
                        {
                            &&& #[trigger] crate::codec::enc_aerodrome(cfg) == data@
                            &&& cfg.wf()
                            &&& if old(self).tracks(cfg.icao@) {
                                *final(self) == *old(self)
                            } else {
                                &&& final(self).aerodromes@.len() == old(self).aerodromes@.len()
                                    + 1
                                &&& final(self).aerodromes@.drop_last() == old(self).aerodromes@
                                &&& final(self).aerodromes@.last().0@ == cfg.icao@
                                &&& fresh_engine(cfg, final(self).aerodromes@.last().1)
                            }
                        },
                    Err(_) => *final(self) == *old(self),
                },
                protocol::Downstream::Control { icao, control } => {
                    &&& r == Ok::<(Option<String>, Option<protocol::Upstream>), ConfigError>(
                        (None, None),
                    )
                    &&& entry_updated(*old(self), *final(self), icao@)
                    &&& forall|i: int|
                        0 <= i < old(self).aerodromes@.len() && (#[trigger] old(self).aerodromes@[
                            i
                        ]).0@ == icao@ ==> final(self).aerodromes@[i].1 == (Aerodrome {
                            state: if control {
                                ActivityState::Controlling
                            } else {
                                ActivityState::Observing
                            },
                            ..old(self).aerodromes@[i].1
                        })
                },
                protocol::Downstream::Patch { icao, patch } => {
                    &&& r == Ok::<(Option<String>, Option<protocol::Upstream>), ConfigError>(
                        (None, None),
                    )
                    &&& entry_updated(*old(self), *final(self), icao@)
                    &&& forall|i: int|
                        0 <= i < old(self).aerodromes@.len() && (#[trigger] old(self).aerodromes@[
                            i
                        ]).0@ == icao@ ==> if patch.wf() {
                            apply_patch_post(
                                old(self).aerodromes@[i].1,
                                final(self).aerodromes@[i].1,
                                patch,
                            )
                        } else {
                            final(self).aerodromes@[i] == old(self).aerodromes@[i]
                        }
                },
                protocol::Downstream::Aircraft { icao, aircraft } => {
                    &&& r == Ok::<(Option<String>, Option<protocol::Upstream>), ConfigError>(
                        (None, None),
                    )
                    &&& entry_updated(*old(self), *final(self), icao@)
                    &&& forall|i: int|
                        0 <= i < old(self).aerodromes@.len() && (#[trigger] old(self).aerodromes@[
                            i
                        ]).0@ == icao@ ==> final(self).aerodromes@[i].1 == (Aerodrome {
                            aircraft: aircraft,
                            ..old(self).aerodromes@[i].1
                        })
                },
                protocol::Downstream::Error { icao, message: m, disconnect } => match r {
                    Ok(out) => {
                        &&& match out.0 {
                            Some(text) => text@ == "server: "@ + icao@ + ": "@ + (match m {
                                Some(v) => v@,
                                None => "error"@,
                            }),
                            None => false,
                        }
                        &&& !disconnect ==> *final(self) == *old(self) && out.1 is None
                        &&& disconnect ==> !final(self).tracks(icao@) && match out.1 {
                            Some(protocol::Upstream::Track { icao: i2, track: t2 }) => i2@ == icao@
                                && t2 == false,
                            _ => false,
                        }
                    },
                    Err(_) => false,
                },
            },
    {
        match message {
            protocol::Downstream::Config { data } => {
                let cfg = match config::Aerodrome::decode(&data) {
                    Some(c) => c,
                    None => {
                        return Err(ConfigError::Undecodable);
                    },
                };
                if !cfg.wf_check() {
                    return Err(ConfigError::IllFormed);
                }
                match self.find(&cfg.icao) {
                    Some(_) => {
                        // Already tracked: the first configuration wins.
                    },
                    None => {
                        let icao = cfg.icao.clone();
                        let engine = Aerodrome::new(cfg);
                        self.aerodromes.push((icao, engine));
                        proof {
                            assert(self.aerodromes@.drop_last() =~= old(self).aerodromes@);
                        }
                    },
                }
                Ok((None, None))
            },
            protocol::Downstream::Control { icao, control } => {
                match self.find(&icao) {
                    Some(i) => {
                        self.aerodromes[i].1.state = if control {
                            ActivityState::Controlling
                        } else {
                            ActivityState::Observing
                        };
                    },
                    None => {},
                }
                Ok((None, None))
            },
            protocol::Downstream::Patch { icao, patch } => {
                match self.find(&icao) {
                    Some(i) => {
                        if kv_keys_unique(&patch.nodes) && kv_keys_unique(&patch.blocks) {
                            let entry = &mut self.aerodromes[i];
                            entry.1.apply_patch(&patch);
                        }
                        // A patch with duplicate ids cannot come from the
                        // server's maps; it is dropped.
                    },
                    None => {},
                }
                Ok((None, None))
            },
            protocol::Downstream::Aircraft { icao, aircraft } => {
                match self.find(&icao) {
                    Some(i) => {
                        self.aerodromes[i].1.aircraft = aircraft;
                    },
                    None => {},
                }
                Ok((None, None))
            },
            protocol::Downstream::Error { icao, message, disconnect } => {
                let mut text = String::from_str("server: ");
                text.append(icao.as_str());
                text.append(": ");
                match &message {
                    Some(m) => text.append(m.as_str()),
                    None => text.append("error"),
                }
                let reply = if disconnect {
                    Some(self.set_tracking(icao, false))
                } else {
                    None
                };
                Ok((Some(text), reply))
            },
        }
    }

    /// One cooperative tick at `now_ms`: every aerodrome fires its due
    /// timers (`ticked`) and flushes (`flushed`), and the result holds, in
    /// registry order, exactly one patch message per non-empty flushed patch
    /// and one scenery message per non-empty scenery diff.
    pub fn tick(&mut self, now_ms: u64) -> (r: Vec<protocol::Upstream>)
        requires
            old(self).inv(),
        ensures
            final(self).inv(),
            final(self).aerodromes@.len() == old(self).aerodromes@.len(),
            forall|i: int|
                0 <= i < final(self).aerodromes@.len() ==> (#[trigger] final(self).aerodromes@[
                    i
                ]).0 == old(self).aerodromes@[i].0,
            exists|mids: Seq<Aerodrome>, ps: Seq<Patch>, scs: Seq<Vec<(String, bool)>>|
                #![trigger mids.len(), ps.len(), scs.len()]
                {
                    &&& mids.len() == old(self).aerodromes@.len()
                    &&& ps.len() == old(self).aerodromes@.len()
                    &&& scs.len() == old(self).aerodromes@.len()
                    &&& forall|i: int|
                        0 <= i < old(self).aerodromes@.len() ==> ticked(
                            old(self).aerodromes@[i].1,
                            #[trigger] mids[i],
                            now_ms,
                        )
                    &&& forall|i: int|
                        0 <= i < old(self).aerodromes@.len() ==> flushed(
                            mids[i],
                            final(self).aerodromes@[i].1,
                            #[trigger] ps[i],
                            scs[i],
                        )
                    &&& r@ == tick_messages(
                        old(self).aerodromes@,
                        ps,
                        scs,
                        old(self).aerodromes@.len() as int,
                    )
                },
    {
        let mut out: Vec<protocol::Upstream> = Vec::new();
        let ghost mut mids: Seq<Aerodrome> = Seq::empty();
        let ghost mut gps: Seq<Patch> = Seq::empty();
        let ghost mut gscs: Seq<Vec<(String, bool)>> = Seq::empty();
        let n = self.aerodromes.len();
        let mut i: usize = 0;
        while i < n
            invariant
                self.inv(),
                n == self.aerodromes@.len(),
                0 <= i <= n,
                self.aerodromes@.len() == old(self).aerodromes@.len(),
                mids.len() == i,
                gps.len() == i,
                gscs.len() == i,
                forall|j: int|
                    0 <= j < self.aerodromes@.len() ==> (#[trigger] self.aerodromes@[j]).0 == old(
                        self,
                    ).aerodromes@[j].0,
                forall|j: int|
                    i <= j < n ==> (#[trigger] self.aerodromes@[j]).1 == old(self).aerodromes@[
                        j
                    ].1,
                forall|j: int|
                    0 <= j < i ==> ticked(old(self).aerodromes@[j].1, #[trigger] mids[j], now_ms),
                forall|j: int|
                    0 <= j < i ==> flushed(
                        mids[j],
                        self.aerodromes@[j].1,
                        #[trigger] gps[j],
                        gscs[j],
                    ),
                out@ == tick_messages(old(self).aerodromes@, gps, gscs, i as int),
            decreases n - i,
        {
            let icao = self.aerodromes[i].0.clone();
            let entry = &mut self.aerodromes[i];
            entry.1.tick(now_ms);
            let ghost midv = entry.1;
            let flushed_pair = entry.1.take_pending();
            let patch = flushed_pair.0;
            let scenery = flushed_pair.1;
            proof {
                lemma_tick_messages_push(
                    old(self).aerodromes@,
                    gps,
                    gscs,
                    patch,
                    scenery,
                    i as int,
                );
                mids = mids.push(midv);
                gps = gps.push(patch);
                gscs = gscs.push(scenery);
            }
            if !patch.is_empty() {
                out.push(protocol::Upstream::Patch { icao: icao.clone(), patch });
            }
            if scenery.len() > 0 {
                out.push(protocol::Upstream::Scenery { icao, scenery });
            }
            proof {
                assert(out@ =~= tick_messages(old(self).aerodromes@, gps, gscs, i as int + 1));
            }
            i = i + 1;
        }
        proof {
            assert(out@ == tick_messages(
                old(self).aerodromes@,
                gps,
                gscs,
                old(self).aerodromes@.len() as int,
            ));
        }
        out
    }
}

} // verus!
