//! Immutable aerodrome configuration: a graph of nodes, edges, blocks and
//! elements, plus per-profile conditions and presets. The engine evaluates
//! these conditions; it never mutates a configuration.

use vstd::prelude::*;

verus! {

/// Typed index into one of the configuration's parallel vectors. The phantom
/// parameter keeps node, edge and block references apart at compile time; at
/// run time it is a bare `usize`.
#[derive(Debug)]
pub struct Ref<T>(pub usize, pub core::marker::PhantomData<T>);

/// The reference with bare index `i`; references carry nothing else.
pub open spec fn ref_at<T>(i: int) -> Ref<T> {
    Ref(i as usize, core::marker::PhantomData)
}

impl<T> Ref<T> {
    pub fn new(i: usize) -> (r: Self)
        ensures
            r.0 == i,
    {
        Ref(i, core::marker::PhantomData)
    }
}

impl<T> Clone for Ref<T> {
    fn clone(&self) -> (r: Self)
        ensures
            r == *self,
    {
        Ref(self.0, core::marker::PhantomData)
    }
}

impl<T> Copy for Ref<T> {

}

impl<T> PartialEq for Ref<T> {
    fn eq(&self, other: &Self) -> (r: bool) {
        self.0 == other.0
    }
}

impl<T> vstd::std_specs::cmp::PartialEqSpecImpl for Ref<T> {
    open spec fn obeys_eq_spec() -> bool {
        true
    }

    open spec fn eq_spec(&self, other: &Self) -> bool {
        self.0 == other.0
    }
}

impl<T> Eq for Ref<T> {

}

/// Lighting state of a node.
#[derive(Clone, Copy, Debug, PartialEq, Eq, Structural)]
pub enum NodeState {
    Off,
    On,
}

/// Lighting state of an edge.
#[derive(Clone, Copy, Debug, PartialEq, Eq, Structural)]
pub enum EdgeState {
    Off,
    On,
}

/// Whether, and after how many seconds, an entity returns to its default
/// state once an operator has changed it.
#[derive(Clone, Copy, Debug, PartialEq, Eq, Structural)]
pub enum ResetCondition {
    Never,
    TimeSecs(u32),
}

/// Routing state of a block: free, explicitly relaxed, or actively routing
/// between two of its parent nodes.
#[derive(Clone, Copy, Debug, PartialEq, Eq)]
pub enum BlockState {
    Clear,
    Relax,
    /// The two referenced nodes are parent nodes.
    Route((Ref<Node>, Ref<Node>)),
}

/// Structural equality of two block states, comparing route endpoints by
/// index.
pub open spec fn bs_eq_spec(a: BlockState, b: BlockState) -> bool {
    match (a, b) {
        (BlockState::Clear, BlockState::Clear) => true,
        (BlockState::Relax, BlockState::Relax) => true,
        (BlockState::Route(x), BlockState::Route(y)) => x.0.0 == y.0.0 && x.1.0 == y.1.0,
        _ => false,
    }
}

/// Decides `bs_eq_spec` executably.
pub fn bs_eq(a: &BlockState, b: &BlockState) -> (r: bool)
    ensures
        r == bs_eq_spec(*a, *b),
{
    match (a, b) {
        (BlockState::Clear, BlockState::Clear) => true,
        (BlockState::Relax, BlockState::Relax) => true,
        (BlockState::Route(x), BlockState::Route(y)) => x.0.0 == y.0.0 && x.1.0 == y.1.0,
        _ => false,
    }
}

/// A renderer-addressable visual token; its boolean state is published as
/// scenery.
#[derive(Clone, Debug, PartialEq)]
pub struct Element {
    pub id: String,
    pub condition: ElementCondition,
}

/// What an element's displayed value follows: a constant, a node's state or
/// an edge's state.
#[derive(Clone, Copy, Debug, PartialEq)]
pub enum ElementCondition {
    Fixed(bool),
    Node(Ref<Node>),
    Edge(Ref<Edge>),
}

/// A logical taxiway lighting or routing point. A node without a parent is a
/// routing endpoint ("parent node"); one with a parent refines that parent's
/// position within a block's routes ("child node").
#[derive(Clone, Debug, PartialEq)]
pub struct Node {
    pub id: String,
    pub scratchpad: Option<String>,
    pub parent: Option<Ref<Node>>,
}

/// A visual connector; all of its dynamic behaviour lives in the per-profile
/// edge condition.
#[derive(Clone, Debug, PartialEq)]
pub struct Edge;

/// A mutually-exclusive routing region spanning a set of parent nodes.
#[derive(Clone, Debug, PartialEq)]
pub struct Block {
    pub id: String,
    /// Parent nodes only.
    pub nodes: Vec<Ref<Node>>,
    pub edges: Vec<Ref<Edge>>,
    pub non_routes: Vec<BlockRoute>,
    pub stands: Vec<String>,
}

/// A pair of child nodes naming one route through a block.
#[derive(Clone, Copy, Debug, PartialEq)]
pub struct BlockRoute {
    pub from: Ref<Node>,
    pub to: Ref<Node>,
}

/// Whether `list` holds a route from `from` to `to` (indices compared).
pub open spec fn routes_contain(list: Seq<BlockRoute>, from: int, to: int) -> bool {
    exists|i: int| 0 <= i < list.len() && list[i].from.0 == from && list[i].to.0 == to
}

/// Decides `routes_contain` executably.
pub fn contains_route(list: &Vec<BlockRoute>, from: usize, to: usize) -> (r: bool)
    ensures
        r == routes_contain(list@, from as int, to as int),
{
    let mut i: usize = 0;
    while i < list.len()
        invariant
            0 <= i <= list@.len(),
            forall|j: int|
                0 <= j < i ==> !(list@[j].from.0 == from && list@[j].to.0 == to),
        decreases list@.len() - i,
    {
        if list[i].from.0 == from && list[i].to.0 == to {
            return true;
        }
        i = i + 1;
    }
    false
}

/// A complete overlay of per-node, per-edge and per-block conditions, plus the
/// presets available under it. Its three condition vectors are parallel to
/// the configuration's entity vectors.
#[derive(Clone, Debug, PartialEq)]
pub struct Profile {
    pub id: String,
    pub name: String,
    pub nodes: Vec<NodeCondition>,
    pub edges: Vec<EdgeCondition>,
    pub blocks: Vec<BlockCondition>,
    pub presets: Vec<Preset>,
}

/// How a node's state is determined under a profile.
#[derive(Clone, Copy, Debug, PartialEq, Eq, Structural)]
pub enum NodeCondition {
    Fixed { state: NodeState },
    Direct { reset: ResetCondition },
    Router { sticky: bool },
}

/// How an edge's state is determined under a profile.
#[derive(Clone, Debug, PartialEq)]
pub enum EdgeCondition {
    Fixed { state: EdgeState },
    Direct { nodes: NodeExpression },
    Router { block: Ref<Block>, routes: Vec<BlockRoute> },
}

/// A disjunction of conjunctions over node states; the empty disjunction is
/// false.
#[derive(Clone, Debug, PartialEq)]
pub struct NodeExpression {
    pub disjunction: Vec<NodeConjunction>,
}

/// One conjunct: every `positive` node on and every `negative` node off.
#[derive(Clone, Debug, PartialEq)]
pub struct NodeConjunction {
    pub positive: Vec<Ref<Node>>,
    pub negative: Vec<Ref<Node>>,
}

/// Reset behaviour of a block under a profile.
#[derive(Clone, Copy, Debug, PartialEq, Eq, Structural)]
pub struct BlockCondition {
    pub reset: ResetCondition,
}

/// A named bundle of node and block assignments applied atomically.
#[derive(Clone, Debug, PartialEq)]
pub struct Preset {
    pub name: String,
    pub nodes: Vec<(Ref<Node>, NodeState)>,
    pub blocks: Vec<(Ref<Block>, BlockState)>,
}

/// One aerodrome's full configuration, named by its ICAO code.
#[derive(Clone, Debug, PartialEq)]
pub struct Aerodrome {
    pub icao: String,
    pub elements: Vec<Element>,
    pub nodes: Vec<Node>,
    pub edges: Vec<Edge>,
    pub blocks: Vec<Block>,
    pub profiles: Vec<Profile>,
}

/// A container of aerodrome configurations, as distributed in one file.
#[derive(Clone, Debug, PartialEq)]
pub struct Config {
    pub name: Option<String>,
    pub version: Option<String>,
    pub aerodromes: Vec<Aerodrome>,
}

// ------------------------------------------------------------------
// Node expressions
// ------------------------------------------------------------------

/// Every node reference of the conjunction lies below `n`.
pub open spec fn conj_wf(c: NodeConjunction, n: int) -> bool {
    &&& forall|i: int| 0 <= i < c.positive@.len() ==> #[trigger] c.positive@[i].0 < n
    &&& forall|i: int| 0 <= i < c.negative@.len() ==> #[trigger] c.negative@[i].0 < n
}

/// Every node reference of the expression lies below `n`.
pub open spec fn expr_wf(e: NodeExpression, n: int) -> bool {
    forall|i: int| 0 <= i < e.disjunction@.len() ==> #[trigger] conj_wf(e.disjunction@[i], n)
}

/// The conjunction holds under the given node-state valuation.
pub open spec fn conj_holds(c: NodeConjunction, states: Seq<bool>) -> bool {
    &&& forall|i: int|
        0 <= i < c.positive@.len() ==> states[#[trigger] c.positive@[i].0 as int] == true
    &&& forall|i: int|
        0 <= i < c.negative@.len() ==> states[#[trigger] c.negative@[i].0 as int] == false
}

/// The expression holds under the given node-state valuation: some
/// conjunction holds.
pub open spec fn expr_holds(e: NodeExpression, states: Seq<bool>) -> bool {
    exists|i: int| 0 <= i < e.disjunction@.len() && conj_holds(#[trigger] e.disjunction@[i], states)
}

impl NodeConjunction {
    fn evaluate(&self, states: &Vec<bool>) -> (r: bool)
        requires
            conj_wf(*self, states@.len() as int),
        ensures
            r == conj_holds(*self, states@),
    {
        let mut i: usize = 0;
        while i < self.positive.len()
            invariant
                0 <= i <= self.positive@.len(),
                conj_wf(*self, states@.len() as int),
                forall|j: int| 0 <= j < i ==> states@[#[trigger] self.positive@[j].0 as int] == true,
            decreases self.positive@.len() - i,
        {
            if !states[self.positive[i].0] {
                return false;
            }
            i = i + 1;
        }
        let mut i: usize = 0;
        while i < self.negative.len()
            invariant
                0 <= i <= self.negative@.len(),
                conj_wf(*self, states@.len() as int),
                forall|j: int| 0 <= j < self.positive@.len()
                    ==> states@[#[trigger] self.positive@[j].0 as int] == true,
                forall|j: int| 0 <= j < i ==> states@[#[trigger] self.negative@[j].0 as int] == false,
            decreases self.negative@.len() - i,
        {
            if states[self.negative[i].0] {
                return false;
            }
            i = i + 1;
        }
        true
    }
}

impl NodeExpression {
    /// Evaluates the disjunction of conjunctions under `states`, the effective
    /// state of every node.
    pub fn evaluate(&self, states: &Vec<bool>) -> (r: EdgeState)
        requires
            expr_wf(*self, states@.len() as int),
        ensures
            r == (if expr_holds(*self, states@) {
                EdgeState::On
            } else {
                EdgeState::Off
            }),
    {
        let mut i: usize = 0;
        while i < self.disjunction.len()
            invariant
                0 <= i <= self.disjunction@.len(),
                expr_wf(*self, states@.len() as int),
                forall|j: int| 0 <= j < i ==> !conj_holds(#[trigger] self.disjunction@[j], states@),
            decreases self.disjunction@.len() - i,
        {
            if self.disjunction[i].evaluate(states) {
                return EdgeState::On;
            }
            i = i + 1;
        }
        EdgeState::Off
    }
}

// ------------------------------------------------------------------
// Well-formedness
// ------------------------------------------------------------------

/// How often node `n` occurs in one block's parent-node list.
pub open spec fn count_node_refs(s: Seq<Ref<Node>>, n: int) -> int
    decreases s.len(),
{
    if s.len() == 0 {
        0
    } else {
        count_node_refs(s.drop_last(), n) + if s.last().0 == n {
            1int
        } else {
            0int
        }
    }
}

/// How often node `n` occurs across all blocks' parent-node lists.
pub open spec fn node_occurrences(blocks: Seq<Block>, n: int) -> int
    decreases blocks.len(),
{
    if blocks.len() == 0 {
        0
    } else {
        node_occurrences(blocks.drop_last(), n) + count_node_refs(blocks.last().nodes@, n)
    }
}

impl Aerodrome {
    /// Node `i` exists and is a parent node (it has no parent of its own).
    pub open spec fn is_parent_node(self, i: int) -> bool {
        0 <= i < self.nodes@.len() && self.nodes@[i].parent is None
    }

    /// References and per-profile vectors are consistent with the entity
    /// vectors; see the individual conjuncts.
    pub open spec fn wf(self) -> bool {
        &&& self.profiles@.len() > 0
        // A child's parent exists and is itself a parent node.
        &&& forall|i: int|
            0 <= i < self.nodes@.len() ==> match #[trigger] self.nodes@[i].parent {
                Some(p) => self.is_parent_node(p.0 as int),
                None => true,
            }
        // A block spans existing parent nodes.
        &&& forall|b: int, j: int|
            0 <= b < self.blocks@.len() && 0 <= j < self.blocks@[b].nodes@.len()
                ==> self.is_parent_node(#[trigger] self.blocks@[b].nodes@[j].0 as int)
        // A node borders at most two blocks.
        &&& forall|n: int| node_occurrences(self.blocks@, n) <= 2
        // Element conditions point at existing entities.
        &&& forall|i: int|
            0 <= i < self.elements@.len() ==> match #[trigger] self.elements@[i].condition {
                ElementCondition::Fixed(_) => true,
                ElementCondition::Node(r) => r.0 < self.nodes@.len(),
                ElementCondition::Edge(r) => r.0 < self.edges@.len(),
            }
        // Profiles are parallel overlays with in-range references.
        &&& forall|p: int| 0 <= p < self.profiles@.len() ==> self.wf_profile(#[trigger] self.profiles@[p])
        // A router node only makes sense where a block exists for it to read.
        &&& self.blocks@.len() == 0 ==> forall|p: int, n: int|
            0 <= p < self.profiles@.len() && 0 <= n < self.nodes@.len()
                ==> !(#[trigger] self.profiles@[p].nodes@[n] is Router)
        // Entity and profile ids are unique.
        &&& forall|i: int, j: int|
            0 <= i < j < self.nodes@.len() ==> self.nodes@[i].id@ != self.nodes@[j].id@
        &&& forall|i: int, j: int|
            0 <= i < j < self.blocks@.len() ==> self.blocks@[i].id@ != self.blocks@[j].id@
        &&& forall|i: int, j: int|
            0 <= i < j < self.elements@.len() ==> self.elements@[i].id@ != self.elements@[j].id@
        &&& forall|i: int, j: int|
            0 <= i < j < self.profiles@.len() ==> self.profiles@[i].id@ != self.profiles@[j].id@
    }

    /// One profile's overlay is parallel to the entity vectors and its
    /// references are in range.
    pub open spec fn wf_profile(self, p: Profile) -> bool {
        &&& p.nodes@.len() == self.nodes@.len()
        &&& p.edges@.len() == self.edges@.len()
        &&& p.blocks@.len() == self.blocks@.len()
        &&& forall|e: int|
            0 <= e < p.edges@.len() ==> match #[trigger] p.edges@[e] {
                EdgeCondition::Fixed { .. } => true,
                EdgeCondition::Direct { nodes } => expr_wf(nodes, self.nodes@.len() as int),
                EdgeCondition::Router { block, .. } => block.0 < self.blocks@.len(),
            }
        &&& forall|i: int, j: int|
            0 <= i < p.presets@.len() && 0 <= j < p.presets@[i].blocks@.len()
                ==> match (#[trigger] p.presets@[i].blocks@[j]).1 {
                    BlockState::Route((a, b)) => {
                        a.0 < self.nodes@.len() && b.0 < self.nodes@.len()
                    },
                    _ => true,
                }
    }
}

} // verus!

verus! {

/// All block references stay inside `[0, bound)`, so nodes outside that
/// range occur in no block.
proof fn lemma_occurrences_out_of_range(blocks: Seq<Block>, n: int, bound: int)
    requires
        forall|b: int, j: int|
            0 <= b < blocks.len() && 0 <= j < blocks[b].nodes@.len() ==> 0 <= (
            #[trigger] blocks[b].nodes@[j]).0 < bound,
        !(0 <= n < bound),
    ensures
        node_occurrences(blocks, n) == 0,
    decreases blocks.len(),
{
    if blocks.len() > 0 {
        let t = blocks.drop_last();
        assert forall|b: int, j: int|
            0 <= b < t.len() && 0 <= j < t[b].nodes@.len() implies 0 <= (
        #[trigger] t[b].nodes@[j]).0 < bound by {
            assert(t[b] == blocks[b]);
        }
        lemma_occurrences_out_of_range(t, n, bound);
        lemma_count_refs_out_of_range(blocks.last().nodes@, n, bound);
    }
}

proof fn lemma_count_refs_out_of_range(s: Seq<Ref<Node>>, n: int, bound: int)
    requires
        forall|j: int| 0 <= j < s.len() ==> 0 <= (#[trigger] s[j]).0 < bound,
        !(0 <= n < bound),
    ensures
        count_node_refs(s, n) == 0,
    decreases s.len(),
{
    if s.len() > 0 {
        assert(forall|j: int| 0 <= j < s.drop_last().len() ==> 0 <= (#[trigger] s.drop_last()[j]).0
            < bound);
        lemma_count_refs_out_of_range(s.drop_last(), n, bound);
    }
}

/// Counts how often node `n` occurs in one reference list.
fn count_refs_exec(s: &Vec<Ref<Node>>, n: usize) -> (r: u64)
    ensures
        r == count_node_refs(s@, n as int),
{
    let mut c: u64 = 0;
    let mut i: usize = 0;
    while i < s.len()
        invariant
            0 <= i <= s@.len(),
            c == count_node_refs(s@.take(i as int), n as int),
            c <= i,
        decreases s@.len() - i,
    {
        proof {
            assert(s@.take(i as int + 1).drop_last() =~= s@.take(i as int));
        }
        if s[i].0 == n {
            c = c + 1;
        }
        i = i + 1;
    }
    proof {
        assert(s@.take(s@.len() as int) =~= s@);
    }
    c
}

pub proof fn lemma_count_refs_nonneg(s: Seq<Ref<Node>>, n: int)
    ensures
        count_node_refs(s, n) >= 0,
    decreases s.len(),
{
    if s.len() > 0 {
        lemma_count_refs_nonneg(s.drop_last(), n);
    }
}

proof fn lemma_occ_nonneg(blocks: Seq<Block>, n: int)
    ensures
        node_occurrences(blocks, n) >= 0,
    decreases blocks.len(),
{
    if blocks.len() > 0 {
        lemma_occ_nonneg(blocks.drop_last(), n);
        lemma_count_refs_nonneg(blocks.last().nodes@, n);
    }
}

/// A prefix never holds more occurrences than the whole.
proof fn lemma_occ_prefix(blocks: Seq<Block>, k: int, n: int)
    requires
        0 <= k <= blocks.len(),
    ensures
        node_occurrences(blocks.take(k), n) <= node_occurrences(blocks, n),
    decreases blocks.len(),
{
    if k == blocks.len() {
        assert(blocks.take(k) =~= blocks);
    } else {
        assert(blocks.take(k) =~= blocks.drop_last().take(k));
        lemma_occ_prefix(blocks.drop_last(), k, n);
        lemma_count_refs_nonneg(blocks.last().nodes@, n);
    }
}

impl Aerodrome {
    fn check_parents(&self) -> (r: bool)
        ensures
            r == (forall|i: int|
                0 <= i < self.nodes@.len() ==> match #[trigger] self.nodes@[i].parent {
                    Some(p) => self.is_parent_node(p.0 as int),
                    None => true,
                }),
    {
        let nn = self.nodes.len();
        let mut i: usize = 0;
        while i < nn
            invariant
                0 <= i <= nn,
                nn == self.nodes@.len(),
                forall|j: int|
                    0 <= j < i ==> match #[trigger] self.nodes@[j].parent {
                        Some(p) => self.is_parent_node(p.0 as int),
                        None => true,
                    },
            decreases nn - i,
        {
            match self.nodes[i].parent {
                Some(p) => {
                    if p.0 >= nn || !self.nodes[p.0].parent.is_none() {
                        return false;
                    }
                },
                None => {},
            }
            i = i + 1;
        }
        true
    }

    fn check_block_nodes(&self) -> (r: bool)
        ensures
            r == (forall|b: int, j: int|
                0 <= b < self.blocks@.len() && 0 <= j < self.blocks@[b].nodes@.len()
                    ==> self.is_parent_node(#[trigger] self.blocks@[b].nodes@[j].0 as int)),
    {
        let nn = self.nodes.len();
        let nb = self.blocks.len();
        let mut b: usize = 0;
        while b < nb
            invariant
                0 <= b <= nb,
                nn == self.nodes@.len(),
                nb == self.blocks@.len(),
                forall|b2: int, j: int|
                    0 <= b2 < b && 0 <= j < self.blocks@[b2].nodes@.len()
                        ==> self.is_parent_node(#[trigger] self.blocks@[b2].nodes@[j].0 as int),
            decreases nb - b,
        {
            let bl = self.blocks[b].nodes.len();
            let mut j: usize = 0;
            while j < bl
                invariant
                    0 <= j <= bl,
                    0 <= b < nb,
                    nn == self.nodes@.len(),
                    nb == self.blocks@.len(),
                    bl == self.blocks@[b as int].nodes@.len(),
                    forall|j2: int|
                        0 <= j2 < j ==> self.is_parent_node(
                            #[trigger] self.blocks@[b as int].nodes@[j2].0 as int,
                        ),
                decreases bl - j,
            {
                let pr = self.blocks[b].nodes[j];
                if pr.0 >= nn || !self.nodes[pr.0].parent.is_none() {
                    return false;
                }
                j = j + 1;
            }
            b = b + 1;
        }
        true
    }

    fn check_occurrences(&self) -> (r: bool)
        requires
            forall|b: int, j: int|
                0 <= b < self.blocks@.len() && 0 <= j < self.blocks@[b].nodes@.len()
                    ==> self.is_parent_node(#[trigger] self.blocks@[b].nodes@[j].0 as int),
        ensures
            r == (forall|n: int| node_occurrences(self.blocks@, n) <= 2),
    {
        let nn = self.nodes.len();
        let nb = self.blocks.len();
        let mut n: usize = 0;
        while n < nn
            invariant
                0 <= n <= nn,
                nn == self.nodes@.len(),
                nb == self.blocks@.len(),
                forall|b: int, j: int|
                    0 <= b < self.blocks@.len() && 0 <= j < self.blocks@[b].nodes@.len()
                        ==> self.is_parent_node(#[trigger] self.blocks@[b].nodes@[j].0 as int),
                forall|n2: int| 0 <= n2 < n ==> node_occurrences(self.blocks@, n2) <= 2,
            decreases nn - n,
        {
            let mut total: u64 = 0;
            let mut b2: usize = 0;
            while b2 < nb
                invariant
                    0 <= b2 <= nb,
                    0 <= n < nn,
                    nn == self.nodes@.len(),
                    nb == self.blocks@.len(),
                    total == node_occurrences(self.blocks@.take(b2 as int), n as int),
                    total <= 2,
                decreases nb - b2,
            {
                proof {
                    assert(self.blocks@.take(b2 as int + 1).drop_last() =~= self.blocks@.take(
                        b2 as int,
                    ));
                }
                let c = count_refs_exec(&self.blocks[b2].nodes, n);
                if c > 2 {
                    proof {
                        lemma_occ_nonneg(self.blocks@.take(b2 as int), n as int);
                        lemma_occ_prefix(self.blocks@, b2 as int + 1, n as int);
                    }
                    return false;
                }
                total = total + c;
                if total > 2 {
                    proof {
                        lemma_occ_prefix(self.blocks@, b2 as int + 1, n as int);
                    }
                    return false;
                }
                b2 = b2 + 1;
            }
            proof {
                assert(self.blocks@.take(nb as int) =~= self.blocks@);
            }
            n = n + 1;
        }
        proof {
            assert forall|n2: int| node_occurrences(self.blocks@, n2) <= 2 by {
                if !(0 <= n2 < nn as int) {
                    assert forall|b: int, j: int|
                        0 <= b < self.blocks@.len() && 0 <= j < self.blocks@[b].nodes@.len()
                            implies 0 <= (#[trigger] self.blocks@[b].nodes@[j]).0
                        < nn as int by {}
                    lemma_occurrences_out_of_range(self.blocks@, n2, nn as int);
                }
            }
        }
        true
    }

    fn check_elements(&self) -> (r: bool)
        ensures
            r == (forall|i: int|
                0 <= i < self.elements@.len() ==> match #[trigger] self.elements@[i].condition {
                    ElementCondition::Fixed(_) => true,
                    ElementCondition::Node(x) => x.0 < self.nodes@.len(),
                    ElementCondition::Edge(x) => x.0 < self.edges@.len(),
                }),
    {
        let nel = self.elements.len();
        let mut i: usize = 0;
        while i < nel
            invariant
                0 <= i <= nel,
                nel == self.elements@.len(),
                forall|j: int|
                    0 <= j < i ==> match #[trigger] self.elements@[j].condition {
                        ElementCondition::Fixed(_) => true,
                        ElementCondition::Node(x) => x.0 < self.nodes@.len(),
                        ElementCondition::Edge(x) => x.0 < self.edges@.len(),
                    },
            decreases nel - i,
        {
            match self.elements[i].condition {
                ElementCondition::Fixed(_) => {},
                ElementCondition::Node(x) => {
                    if x.0 >= self.nodes.len() {
                        return false;
                    }
                },
                ElementCondition::Edge(x) => {
                    if x.0 >= self.edges.len() {
                        return false;
                    }
                },
            }
            i = i + 1;
        }
        true
    }

    fn check_profiles(&self) -> (r: bool)
        ensures
            r == (forall|p: int|
                0 <= p < self.profiles@.len() ==> self.wf_profile(#[trigger] self.profiles@[p])),
    {
        let np = self.profiles.len();
        let mut p: usize = 0;
        while p < np
            invariant
                0 <= p <= np,
                np == self.profiles@.len(),
                forall|j: int| 0 <= j < p ==> self.wf_profile(#[trigger] self.profiles@[j]),
            decreases np - p,
        {
            if !self.wf_profile_check(p) {
                return false;
            }
            p = p + 1;
        }
        true
    }

    fn check_router_blocks(&self) -> (r: bool)
        requires
            forall|p: int|
                0 <= p < self.profiles@.len() ==> self.wf_profile(#[trigger] self.profiles@[p]),
        ensures
            r == (self.blocks@.len() == 0 ==> forall|p: int, n: int|
                0 <= p < self.profiles@.len() && 0 <= n < self.nodes@.len() ==> !(
                #[trigger] self.profiles@[p].nodes@[n] is Router)),
    {
        if self.blocks.len() > 0 {
            return true;
        }
        let np = self.profiles.len();
        let nn = self.nodes.len();
        let mut p: usize = 0;
        while p < np
            invariant
                0 <= p <= np,
                np == self.profiles@.len(),
                nn == self.nodes@.len(),
                self.blocks@.len() == 0,
                forall|j: int|
                    0 <= j < np ==> self.wf_profile(#[trigger] self.profiles@[j]),
                forall|j: int, n2: int|
                    0 <= j < p && 0 <= n2 < nn ==> !(#[trigger] self.profiles@[j].nodes@[n2]
                        is Router),
            decreases np - p,
        {
            let mut n2: usize = 0;
            while n2 < nn
                invariant
                    0 <= n2 <= nn,
                    0 <= p < np,
                    np == self.profiles@.len(),
                    nn == self.nodes@.len(),
                    self.blocks@.len() == 0,
                    self.profiles@[p as int].nodes@.len() == nn,
                    forall|k: int|
                        0 <= k < n2 ==> !(#[trigger] self.profiles@[p as int].nodes@[k]
                            is Router),
                decreases nn - n2,
            {
                if matches!(self.profiles[p].nodes[n2], NodeCondition::Router { .. }) {
                    return false;
                }
                n2 = n2 + 1;
            }
            p = p + 1;
        }
        true
    }

    fn check_node_ids(&self) -> (r: bool)
        ensures
            r == (forall|a: int, b: int|
                0 <= a < b < self.nodes@.len() ==> self.nodes@[a].id@ != self.nodes@[b].id@),
    {
        let nn = self.nodes.len();
        let mut i: usize = 0;
        while i < nn
            invariant
                0 <= i <= nn,
                nn == self.nodes@.len(),
                forall|a: int, b: int|
                    0 <= a < b < i ==> self.nodes@[a].id@ != self.nodes@[b].id@,
            decreases nn - i,
        {
            let mut j: usize = 0;
            while j < i
                invariant
                    0 <= j <= i < nn,
                    nn == self.nodes@.len(),
                    forall|a: int| 0 <= a < j ==> self.nodes@[a].id@ != self.nodes@[i as int].id@,
                decreases i - j,
            {
                if crate::protocol::str_eq(&self.nodes[j].id, &self.nodes[i].id) {
                    return false;
                }
                j = j + 1;
            }
            i = i + 1;
        }
        true
    }

    fn check_block_ids(&self) -> (r: bool)
        ensures
            r == (forall|a: int, b: int|
                0 <= a < b < self.blocks@.len() ==> self.blocks@[a].id@ != self.blocks@[b].id@),
    {
        let nb = self.blocks.len();
        let mut i: usize = 0;
        while i < nb
            invariant
                0 <= i <= nb,
                nb == self.blocks@.len(),
                forall|a: int, b: int|
                    0 <= a < b < i ==> self.blocks@[a].id@ != self.blocks@[b].id@,
            decreases nb - i,
        {
            let mut j: usize = 0;
            while j < i
                invariant
                    0 <= j <= i < nb,
                    nb == self.blocks@.len(),
                    forall|a: int| 0 <= a < j ==> self.blocks@[a].id@ != self.blocks@[i as int].id@,
                decreases i - j,
            {
                if crate::protocol::str_eq(&self.blocks[j].id, &self.blocks[i].id) {
                    return false;
                }
                j = j + 1;
            }
            i = i + 1;
        }
        true
    }

    fn check_element_ids(&self) -> (r: bool)
        ensures
            r == (forall|a: int, b: int|
                0 <= a < b < self.elements@.len() ==> self.elements@[a].id@ != self.elements@[
                    b
                ].id@),
    {
        let nel = self.elements.len();
        let mut i: usize = 0;
        while i < nel
            invariant
                0 <= i <= nel,
                nel == self.elements@.len(),
                forall|a: int, b: int|
                    0 <= a < b < i ==> self.elements@[a].id@ != self.elements@[b].id@,
            decreases nel - i,
        {
            let mut j: usize = 0;
            while j < i
                invariant
                    0 <= j <= i < nel,
                    nel == self.elements@.len(),
                    forall|a: int|
                        0 <= a < j ==> self.elements@[a].id@ != self.elements@[i as int].id@,
                decreases i - j,
            {
                if crate::protocol::str_eq(&self.elements[j].id, &self.elements[i].id) {
                    return false;
                }
                j = j + 1;
            }
            i = i + 1;
        }
        true
    }

    fn check_profile_ids(&self) -> (r: bool)
        ensures
            r == (forall|a: int, b: int|
                0 <= a < b < self.profiles@.len() ==> self.profiles@[a].id@ != self.profiles@[
                    b
                ].id@),
    {
        let np = self.profiles.len();
        let mut i: usize = 0;
        while i < np
            invariant
                0 <= i <= np,
                np == self.profiles@.len(),
                forall|a: int, b: int|
                    0 <= a < b < i ==> self.profiles@[a].id@ != self.profiles@[b].id@,
            decreases np - i,
        {
            let mut j: usize = 0;
            while j < i
                invariant
                    0 <= j <= i < np,
                    np == self.profiles@.len(),
                    forall|a: int|
                        0 <= a < j ==> self.profiles@[a].id@ != self.profiles@[i as int].id@,
                decreases i - j,
            {
                if crate::protocol::str_eq(&self.profiles[j].id, &self.profiles[i].id) {
                    return false;
                }
                j = j + 1;
            }
            i = i + 1;
        }
        true
    }

    /// Decides `wf` executably.
    pub fn wf_check(&self) -> (r: bool)
        ensures
            r == self.wf(),
    {
        if self.profiles.len() == 0 {
            return false;
        }
        if !self.check_parents() {
            return false;
        }
        if !self.check_block_nodes() {
            return false;
        }
        if !self.check_occurrences() {
            return false;
        }
        if !self.check_elements() {
            return false;
        }
        if !self.check_profiles() {
            return false;
        }
        if !self.check_router_blocks() {
            return false;
        }
        if !self.check_node_ids() {
            return false;
        }
        if !self.check_block_ids() {
            return false;
        }
        if !self.check_element_ids() {
            return false;
        }
        if !self.check_profile_ids() {
            return false;
        }
        true
    }

    /// Decides `wf_profile` for profile `p`.
    fn wf_profile_check(&self, p: usize) -> (r: bool)
        requires
            p < self.profiles@.len(),
        ensures
            r == self.wf_profile(self.profiles@[p as int]),
    {
        let prof = &self.profiles[p];
        if prof.nodes.len() != self.nodes.len() || prof.edges.len() != self.edges.len()
            || prof.blocks.len() != self.blocks.len() {
            return false;
        }
        let ne = prof.edges.len();
        let mut e: usize = 0;
        while e < ne
            invariant
                0 <= e <= ne,
                p < self.profiles@.len(),
                prof == self.profiles@[p as int],
                ne == prof.edges@.len(),
                forall|j: int|
                    0 <= j < e ==> match #[trigger] prof.edges@[j] {
                        EdgeCondition::Fixed { .. } => true,
                        EdgeCondition::Direct { nodes } => expr_wf(
                            nodes,
                            self.nodes@.len() as int,
                        ),
                        EdgeCondition::Router { block, .. } => block.0 < self.blocks@.len(),
                    },
            decreases ne - e,
        {
            match &prof.edges[e] {
                EdgeCondition::Fixed { .. } => {},
                EdgeCondition::Direct { nodes } => {
                    if !expr_wf_check(nodes, self.nodes.len()) {
                        return false;
                    }
                },
                EdgeCondition::Router { block, .. } => {
                    if block.0 >= self.blocks.len() {
                        return false;
                    }
                },
            }
            e = e + 1;
        }
        let npre = prof.presets.len();
        let mut i: usize = 0;
        while i < npre
            invariant
                0 <= i <= npre,
                p < self.profiles@.len(),
                prof == self.profiles@[p as int],
                npre == prof.presets@.len(),
                forall|i2: int, j: int|
                    0 <= i2 < i && 0 <= j < prof.presets@[i2].blocks@.len() ==> match (
                    #[trigger] prof.presets@[i2].blocks@[j]).1 {
                        BlockState::Route((a, b)) => {
                            a.0 < self.nodes@.len() && b.0 < self.nodes@.len()
                        },
                        _ => true,
                    },
            decreases npre - i,
        {
            let nbl = prof.presets[i].blocks.len();
            let mut j: usize = 0;
            while j < nbl
                invariant
                    0 <= j <= nbl,
                    0 <= i < npre,
                    p < self.profiles@.len(),
                    prof == self.profiles@[p as int],
                    npre == prof.presets@.len(),
                    nbl == prof.presets@[i as int].blocks@.len(),
                    forall|j2: int|
                        0 <= j2 < j ==> match (#[trigger] prof.presets@[i as int].blocks@[j2]).1 {
                            BlockState::Route((a, b)) => {
                                a.0 < self.nodes@.len() && b.0 < self.nodes@.len()
                            },
                            _ => true,
                        },
                decreases nbl - j,
            {
                match prof.presets[i].blocks[j].1 {
                    BlockState::Route(pair) => {
                        if pair.0.0 >= self.nodes.len() || pair.1.0 >= self.nodes.len() {
                            return false;
                        }
                    },
                    _ => {},
                }
                j = j + 1;
            }
            i = i + 1;
        }
        true
    }
}

/// Decides `expr_wf`.
fn expr_wf_check(e: &NodeExpression, n: usize) -> (r: bool)
    ensures
        r == expr_wf(*e, n as int),
{
    let mut i: usize = 0;
    while i < e.disjunction.len()
        invariant
            0 <= i <= e.disjunction@.len(),
            forall|j: int| 0 <= j < i ==> conj_wf(#[trigger] e.disjunction@[j], n as int),
        decreases e.disjunction@.len() - i,
    {
        let c = &e.disjunction[i];
        let mut j: usize = 0;
        while j < c.positive.len()
            invariant
                0 <= i < e.disjunction@.len(),
                *c == e.disjunction@[i as int],
                0 <= j <= c.positive@.len(),
                forall|k: int| 0 <= k < j ==> (#[trigger] c.positive@[k]).0 < n,
            decreases c.positive@.len() - j,
        {
            if c.positive[j].0 >= n {
                proof {
                    assert(!conj_wf(e.disjunction@[i as int], n as int));
                }
                return false;
            }
            j = j + 1;
        }
        let mut j: usize = 0;
        while j < c.negative.len()
            invariant
                0 <= i < e.disjunction@.len(),
                *c == e.disjunction@[i as int],
                0 <= j <= c.negative@.len(),
                forall|k: int| 0 <= k < j ==> (#[trigger] c.negative@[k]).0 < n,
                forall|k: int| 0 <= k < c.positive@.len() ==> (#[trigger] c.positive@[k]).0 < n,
            decreases c.negative@.len() - j,
        {
            if c.negative[j].0 >= n {
                proof {
                    assert(!conj_wf(e.disjunction@[i as int], n as int));
                }
                return false;
            }
            j = j + 1;
        }
        proof {
            assert(conj_wf(e.disjunction@[i as int], n as int));
        }
        i = i + 1;
    }
    true
}

} // verus!
