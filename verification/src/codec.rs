//! Binary encoding of configurations, and the framed container they travel
//! in: an 8-byte magic, a 2-byte big-endian format version, and a
//! deflate-compressed body.
//!
//! Every decoder is proved sound against the byte format: whatever it
//! accepts re-encodes to exactly the bytes it consumed.

use std::io::Read;
use std::io::Write;

use vstd::prelude::*;

use crate::config::{
    Aerodrome, Block, BlockCondition, BlockRoute, BlockState, Config, Edge, EdgeCondition,
    EdgeState, Element, ElementCondition, Node, NodeCondition, NodeConjunction, NodeExpression,
    NodeState, Preset, Profile, Ref, ResetCondition,
};

verus! {

broadcast use vstd::utf8::encode_utf8_valid_utf8;

// ------------------------------------------------------------------
// Byte-format specification
// ------------------------------------------------------------------

/// An unsigned 64-bit value, little endian.
pub open spec fn enc_u64(v: u64) -> Seq<u8> {
    Seq::new(8, |i: int| (v >> (8 * i)) as u8)
}

/// A boolean as one byte.
pub open spec fn enc_bool(b: bool) -> Seq<u8> {
    if b {
        seq![1u8]
    } else {
        seq![0u8]
    }
}

/// A string: byte length, then UTF-8 bytes.
pub open spec fn enc_str(s: Seq<char>) -> Seq<u8> {
    enc_u64(vstd::utf8::encode_utf8(s).len() as u64) + vstd::utf8::encode_utf8(s)
}

/// An optional string: presence byte, then the string.
pub open spec fn enc_opt_str(s: Option<String>) -> Seq<u8> {
    match s {
        None => seq![0u8],
        Some(v) => seq![1u8] + enc_str(v@),
    }
}

/// A typed index as its bare value.
pub open spec fn enc_ref<T>(r: Ref<T>) -> Seq<u8> {
    enc_u64(r.0 as u64)
}

/// An optional typed index.
pub open spec fn enc_opt_ref<T>(r: Option<Ref<T>>) -> Seq<u8> {
    match r {
        None => seq![0u8],
        Some(v) => seq![1u8] + enc_ref(v),
    }
}

pub open spec fn enc_ref_items<T>(s: Seq<Ref<T>>) -> Seq<u8>
    decreases s.len(),
{
    if s.len() == 0 {
        Seq::empty()
    } else {
        enc_ref_items(s.drop_last()) + enc_ref(s.last())
    }
}

pub open spec fn enc_string_items(s: Seq<String>) -> Seq<u8>
    decreases s.len(),
{
    if s.len() == 0 {
        Seq::empty()
    } else {
        enc_string_items(s.drop_last()) + enc_str(s.last()@)
    }
}

pub open spec fn enc_route(r: BlockRoute) -> Seq<u8> {
    enc_ref(r.from) + enc_ref(r.to)
}

pub open spec fn enc_route_items(s: Seq<BlockRoute>) -> Seq<u8>
    decreases s.len(),
{
    if s.len() == 0 {
        Seq::empty()
    } else {
        enc_route_items(s.drop_last()) + enc_route(s.last())
    }
}

pub open spec fn enc_node_state(s: NodeState) -> Seq<u8> {
    match s {
        NodeState::Off => seq![0u8],
        NodeState::On => seq![1u8],
    }
}

pub open spec fn enc_edge_state(s: EdgeState) -> Seq<u8> {
    match s {
        EdgeState::Off => seq![0u8],
        EdgeState::On => seq![1u8],
    }
}

pub open spec fn enc_reset(r: ResetCondition) -> Seq<u8> {
    match r {
        ResetCondition::Never => seq![0u8],
        ResetCondition::TimeSecs(k) => seq![1u8] + enc_u64(k as u64),
    }
}

pub open spec fn enc_block_state(s: BlockState) -> Seq<u8> {
    match s {
        BlockState::Clear => seq![0u8],
        BlockState::Relax => seq![1u8],
        BlockState::Route((a, b)) => seq![2u8] + enc_ref(a) + enc_ref(b),
    }
}

pub open spec fn enc_node_cond(c: NodeCondition) -> Seq<u8> {
    match c {
        NodeCondition::Fixed { state } => seq![0u8] + enc_node_state(state),
        NodeCondition::Direct { reset } => seq![1u8] + enc_reset(reset),
        NodeCondition::Router { sticky } => seq![2u8] + enc_bool(sticky),
    }
}

pub open spec fn enc_node_cond_items(s: Seq<NodeCondition>) -> Seq<u8>
    decreases s.len(),
{
    if s.len() == 0 {
        Seq::empty()
    } else {
        enc_node_cond_items(s.drop_last()) + enc_node_cond(s.last())
    }
}

pub open spec fn enc_conj(c: NodeConjunction) -> Seq<u8> {
    enc_u64(c.positive@.len() as u64) + enc_ref_items(c.positive@) + enc_u64(
        c.negative@.len() as u64,
    ) + enc_ref_items(c.negative@)
}

pub open spec fn enc_conj_items(s: Seq<NodeConjunction>) -> Seq<u8>
    decreases s.len(),
{
    if s.len() == 0 {
        Seq::empty()
    } else {
        enc_conj_items(s.drop_last()) + enc_conj(s.last())
    }
}

pub open spec fn enc_expr(e: NodeExpression) -> Seq<u8> {
    enc_u64(e.disjunction@.len() as u64) + enc_conj_items(e.disjunction@)
}

pub open spec fn enc_edge_cond(c: EdgeCondition) -> Seq<u8> {
    match c {
        EdgeCondition::Fixed { state } => seq![0u8] + enc_edge_state(state),
        EdgeCondition::Direct { nodes } => seq![1u8] + enc_expr(nodes),
        EdgeCondition::Router { block, routes } => seq![2u8] + enc_ref(block) + enc_u64(
            routes@.len() as u64,
        ) + enc_route_items(routes@),
    }
}

pub open spec fn enc_edge_cond_items(s: Seq<EdgeCondition>) -> Seq<u8>
    decreases s.len(),
{
    if s.len() == 0 {
        Seq::empty()
    } else {
        enc_edge_cond_items(s.drop_last()) + enc_edge_cond(s.last())
    }
}

pub open spec fn enc_block_cond_items(s: Seq<BlockCondition>) -> Seq<u8>
    decreases s.len(),
{
    if s.len() == 0 {
        Seq::empty()
    } else {
        enc_block_cond_items(s.drop_last()) + enc_reset(s.last().reset)
    }
}

pub open spec fn enc_preset_node_items(s: Seq<(Ref<Node>, NodeState)>) -> Seq<u8>
    decreases s.len(),
{
    if s.len() == 0 {
        Seq::empty()
    } else {
        enc_preset_node_items(s.drop_last()) + enc_ref(s.last().0) + enc_node_state(s.last().1)
    }
}

pub open spec fn enc_preset_block_items(s: Seq<(Ref<Block>, BlockState)>) -> Seq<u8>
    decreases s.len(),
{
    if s.len() == 0 {
        Seq::empty()
    } else {
        enc_preset_block_items(s.drop_last()) + enc_ref(s.last().0) + enc_block_state(s.last().1)
    }
}

pub open spec fn enc_preset(p: Preset) -> Seq<u8> {
    enc_str(p.name@) + enc_u64(p.nodes@.len() as u64) + enc_preset_node_items(p.nodes@) + enc_u64(
        p.blocks@.len() as u64,
    ) + enc_preset_block_items(p.blocks@)
}

pub open spec fn enc_preset_items(s: Seq<Preset>) -> Seq<u8>
    decreases s.len(),
{
    if s.len() == 0 {
        Seq::empty()
    } else {
        enc_preset_items(s.drop_last()) + enc_preset(s.last())
    }
}

pub open spec fn enc_profile(p: Profile) -> Seq<u8> {
    enc_str(p.id@) + enc_str(p.name@) + enc_u64(p.nodes@.len() as u64) + enc_node_cond_items(
        p.nodes@,
    ) + enc_u64(p.edges@.len() as u64) + enc_edge_cond_items(p.edges@) + enc_u64(
        p.blocks@.len() as u64,
    ) + enc_block_cond_items(p.blocks@) + enc_u64(p.presets@.len() as u64) + enc_preset_items(
        p.presets@,
    )
}

pub open spec fn enc_profile_items(s: Seq<Profile>) -> Seq<u8>
    decreases s.len(),
{
    if s.len() == 0 {
        Seq::empty()
    } else {
        enc_profile_items(s.drop_last()) + enc_profile(s.last())
    }
}

pub open spec fn enc_elem_cond(c: ElementCondition) -> Seq<u8> {
    match c {
        ElementCondition::Fixed(b) => seq![0u8] + enc_bool(b),
        ElementCondition::Node(r) => seq![1u8] + enc_ref(r),
        ElementCondition::Edge(r) => seq![2u8] + enc_ref(r),
    }
}

pub open spec fn enc_element(e: Element) -> Seq<u8> {
    enc_str(e.id@) + enc_elem_cond(e.condition)
}

pub open spec fn enc_element_items(s: Seq<Element>) -> Seq<u8>
    decreases s.len(),
{
    if s.len() == 0 {
        Seq::empty()
    } else {
        enc_element_items(s.drop_last()) + enc_element(s.last())
    }
}

pub open spec fn enc_node(n: Node) -> Seq<u8> {
    enc_str(n.id@) + enc_opt_str(n.scratchpad) + enc_opt_ref(n.parent)
}

pub open spec fn enc_node_items(s: Seq<Node>) -> Seq<u8>
    decreases s.len(),
{
    if s.len() == 0 {
        Seq::empty()
    } else {
        enc_node_items(s.drop_last()) + enc_node(s.last())
    }
}

pub open spec fn enc_block(b: Block) -> Seq<u8> {
    enc_str(b.id@) + enc_u64(b.nodes@.len() as u64) + enc_ref_items(b.nodes@) + enc_u64(
        b.edges@.len() as u64,
    ) + enc_ref_items(b.edges@) + enc_u64(b.non_routes@.len() as u64) + enc_route_items(
        b.non_routes@,
    ) + enc_u64(b.stands@.len() as u64) + enc_string_items(b.stands@)
}

pub open spec fn enc_block_items(s: Seq<Block>) -> Seq<u8>
    decreases s.len(),
{
    if s.len() == 0 {
        Seq::empty()
    } else {
        enc_block_items(s.drop_last()) + enc_block(s.last())
    }
}

/// One aerodrome's whole configuration. Edges carry no data of their own, so
/// only their count is written.
pub open spec fn enc_aerodrome(a: Aerodrome) -> Seq<u8> {
    enc_str(a.icao@) + enc_u64(a.elements@.len() as u64) + enc_element_items(a.elements@) + enc_u64(
        a.nodes@.len() as u64,
    ) + enc_node_items(a.nodes@) + enc_u64(a.edges@.len() as u64) + enc_u64(
        a.blocks@.len() as u64,
    ) + enc_block_items(a.blocks@) + enc_u64(a.profiles@.len() as u64) + enc_profile_items(
        a.profiles@,
    )
}

pub open spec fn enc_aerodrome_items(s: Seq<Aerodrome>) -> Seq<u8>
    decreases s.len(),
{
    if s.len() == 0 {
        Seq::empty()
    } else {
        enc_aerodrome_items(s.drop_last()) + enc_aerodrome(s.last())
    }
}

/// A whole configuration container body.
pub open spec fn enc_config(c: Config) -> Seq<u8> {
    enc_opt_str(c.name) + enc_opt_str(c.version) + enc_u64(c.aerodromes@.len() as u64)
        + enc_aerodrome_items(c.aerodromes@)
}

// ------------------------------------------------------------------
// Encoders
// ------------------------------------------------------------------

fn push_u64(out: &mut Vec<u8>, v: u64)
    ensures
        final(out)@ == old(out)@ + enc_u64(v),
{
    let b0: u8 = #[verifier::truncate] (v as u8);
    let b1: u8 = #[verifier::truncate] ((v >> 8) as u8);
    let b2: u8 = #[verifier::truncate] ((v >> 16) as u8);
    let b3: u8 = #[verifier::truncate] ((v >> 24) as u8);
    let b4: u8 = #[verifier::truncate] ((v >> 32) as u8);
    let b5: u8 = #[verifier::truncate] ((v >> 40) as u8);
    let b6: u8 = #[verifier::truncate] ((v >> 48) as u8);
    let b7: u8 = #[verifier::truncate] ((v >> 56) as u8);
    out.push(b0);
    out.push(b1);
    out.push(b2);
    out.push(b3);
    out.push(b4);
    out.push(b5);
    out.push(b6);
    out.push(b7);
    proof {
        assert(v >> 0 == v) by (bit_vector);
        assert(final(out)@ =~= old(out)@ + enc_u64(v));
    }
}

fn push_byte(out: &mut Vec<u8>, b: u8)
    ensures
        final(out)@ == old(out)@ + seq![b],
{
    out.push(b);
    proof {
        assert(final(out)@ =~= old(out)@ + seq![b]);
    }
}

fn push_bool(out: &mut Vec<u8>, b: bool)
    ensures
        final(out)@ == old(out)@ + enc_bool(b),
{
    push_byte(
        out,
        if b {
            1
        } else {
            0
        },
    );
}

fn push_str(out: &mut Vec<u8>, s: &String)
    ensures
        final(out)@ == old(out)@ + enc_str(s@),
{
    let bytes = s.as_str().as_bytes();
    push_u64(out, bytes.len() as u64);
    out.extend_from_slice(bytes);
    proof {
        assert(final(out)@ =~= old(out)@ + enc_str(s@));
    }
}

fn push_opt_str(out: &mut Vec<u8>, s: &Option<String>)
    ensures
        final(out)@ == old(out)@ + enc_opt_str(*s),
{
    match s {
        None => {
            push_byte(out, 0);
            proof {
                assert(final(out)@ =~= old(out)@ + enc_opt_str(*s));
            }
        },
        Some(v) => {
            push_byte(out, 1);
            push_str(out, v);
            proof {
                assert(final(out)@ =~= old(out)@ + enc_opt_str(*s));
            }
        },
    }
}

fn push_ref<T>(out: &mut Vec<u8>, r: &Ref<T>)
    ensures
        final(out)@ == old(out)@ + enc_ref(*r),
{
    push_u64(out, r.0 as u64);
}

fn push_refs<T>(out: &mut Vec<u8>, list: &Vec<Ref<T>>)
    ensures
        final(out)@ == old(out)@ + enc_u64(list@.len() as u64) + enc_ref_items(list@),
{
    push_u64(out, list.len() as u64);
    let ghost base = out@;
    let mut i: usize = 0;
    while i < list.len()
        invariant
            0 <= i <= list@.len(),
            out@ == base + enc_ref_items(list@.take(i as int)),
        decreases list@.len() - i,
    {
        proof {
            assert(list@.take(i as int + 1).drop_last() =~= list@.take(i as int));
        }
        push_ref(out, &list[i]);
        i = i + 1;
    }
    proof {
        assert(list@.take(list@.len() as int) =~= list@);
        assert(final(out)@ =~= old(out)@ + enc_u64(list@.len() as u64) + enc_ref_items(list@));
    }
}

fn push_route(out: &mut Vec<u8>, r: &BlockRoute)
    ensures
        final(out)@ == old(out)@ + enc_route(*r),
{
    push_ref(out, &r.from);
    push_ref(out, &r.to);
    proof {
        assert(final(out)@ =~= old(out)@ + enc_route(*r));
    }
}

fn push_routes(out: &mut Vec<u8>, list: &Vec<BlockRoute>)
    ensures
        final(out)@ == old(out)@ + enc_u64(list@.len() as u64) + enc_route_items(list@),
{
    push_u64(out, list.len() as u64);
    let ghost base = out@;
    let mut i: usize = 0;
    while i < list.len()
        invariant
            0 <= i <= list@.len(),
            out@ == base + enc_route_items(list@.take(i as int)),
        decreases list@.len() - i,
    {
        proof {
            assert(list@.take(i as int + 1).drop_last() =~= list@.take(i as int));
        }
        push_route(out, &list[i]);
        i = i + 1;
    }
    proof {
        assert(list@.take(list@.len() as int) =~= list@);
        assert(final(out)@ =~= old(out)@ + enc_u64(list@.len() as u64) + enc_route_items(list@));
    }
}

fn push_node_state(out: &mut Vec<u8>, s: &NodeState)
    ensures
        final(out)@ == old(out)@ + enc_node_state(*s),
{
    match s {
        NodeState::Off => push_byte(out, 0),
        NodeState::On => push_byte(out, 1),
    }
}

fn push_reset(out: &mut Vec<u8>, r: &ResetCondition)
    ensures
        final(out)@ == old(out)@ + enc_reset(*r),
{
    match r {
        ResetCondition::Never => push_byte(out, 0),
        ResetCondition::TimeSecs(k) => {
            push_byte(out, 1);
            push_u64(out, *k as u64);
            proof {
                assert(final(out)@ =~= old(out)@ + enc_reset(*r));
            }
        },
    }
}

fn push_block_state(out: &mut Vec<u8>, s: &BlockState)
    ensures
        final(out)@ == old(out)@ + enc_block_state(*s),
{
    match s {
        BlockState::Clear => push_byte(out, 0),
        BlockState::Relax => push_byte(out, 1),
        BlockState::Route(pair) => {
            push_byte(out, 2);
            push_ref(out, &pair.0);
            push_ref(out, &pair.1);
            proof {
                assert(final(out)@ =~= old(out)@ + enc_block_state(*s));
            }
        },
    }
}

fn push_node_cond(out: &mut Vec<u8>, c: &NodeCondition)
    ensures
        final(out)@ == old(out)@ + enc_node_cond(*c),
{
    match c {
        NodeCondition::Fixed { state } => {
            push_byte(out, 0);
            push_node_state(out, state);
            proof {
                assert(final(out)@ =~= old(out)@ + enc_node_cond(*c));
            }
        },
        NodeCondition::Direct { reset } => {
            push_byte(out, 1);
            push_reset(out, reset);
            proof {
                assert(final(out)@ =~= old(out)@ + enc_node_cond(*c));
            }
        },
        NodeCondition::Router { sticky } => {
            push_byte(out, 2);
            push_bool(out, *sticky);
            proof {
                assert(final(out)@ =~= old(out)@ + enc_node_cond(*c));
            }
        },
    }
}

fn push_conj(out: &mut Vec<u8>, c: &NodeConjunction)
    ensures
        final(out)@ == old(out)@ + enc_conj(*c),
{
    push_refs(out, &c.positive);
    push_refs(out, &c.negative);
    proof {
        assert(final(out)@ =~= old(out)@ + enc_conj(*c));
    }
}

fn push_expr(out: &mut Vec<u8>, e: &NodeExpression)
    ensures
        final(out)@ == old(out)@ + enc_expr(*e),
{
    push_u64(out, e.disjunction.len() as u64);
    let ghost base = out@;
    let mut i: usize = 0;
    while i < e.disjunction.len()
        invariant
            0 <= i <= e.disjunction@.len(),
            out@ == base + enc_conj_items(e.disjunction@.take(i as int)),
        decreases e.disjunction@.len() - i,
    {
        proof {
            assert(e.disjunction@.take(i as int + 1).drop_last() =~= e.disjunction@.take(i as int));
        }
        push_conj(out, &e.disjunction[i]);
        i = i + 1;
    }
    proof {
        assert(e.disjunction@.take(e.disjunction@.len() as int) =~= e.disjunction@);
        assert(final(out)@ =~= old(out)@ + enc_expr(*e));
    }
}

fn push_edge_cond(out: &mut Vec<u8>, c: &EdgeCondition)
    ensures
        final(out)@ == old(out)@ + enc_edge_cond(*c),
{
    match c {
        EdgeCondition::Fixed { state } => {
            push_byte(
                out,
                0,
            );
            match state {
                EdgeState::Off => push_byte(out, 0),
                EdgeState::On => push_byte(out, 1),
            }
            proof {
                assert(final(out)@ =~= old(out)@ + enc_edge_cond(*c));
            }
        },
        EdgeCondition::Direct { nodes } => {
            push_byte(out, 1);
            push_expr(out, nodes);
            proof {
                assert(final(out)@ =~= old(out)@ + enc_edge_cond(*c));
            }
        },
        EdgeCondition::Router { block, routes } => {
            push_byte(out, 2);
            push_ref(out, block);
            push_routes(out, routes);
            proof {
                assert(final(out)@ =~= old(out)@ + enc_edge_cond(*c));
            }
        },
    }
}

fn push_preset(out: &mut Vec<u8>, p: &Preset)
    ensures
        final(out)@ == old(out)@ + enc_preset(*p),
{
    push_str(out, &p.name);
    push_u64(out, p.nodes.len() as u64);
    let ghost base = out@;
    let mut i: usize = 0;
    while i < p.nodes.len()
        invariant
            0 <= i <= p.nodes@.len(),
            out@ == base + enc_preset_node_items(p.nodes@.take(i as int)),
        decreases p.nodes@.len() - i,
    {
        proof {
            assert(p.nodes@.take(i as int + 1).drop_last() =~= p.nodes@.take(i as int));
        }
        let entry = p.nodes[i];
        push_ref(out, &entry.0);
        push_node_state(out, &entry.1);
        i = i + 1;
    }
    proof {
        assert(p.nodes@.take(p.nodes@.len() as int) =~= p.nodes@);
    }
    push_u64(out, p.blocks.len() as u64);
    let ghost base2 = out@;
    let mut i: usize = 0;
    while i < p.blocks.len()
        invariant
            0 <= i <= p.blocks@.len(),
            out@ == base2 + enc_preset_block_items(p.blocks@.take(i as int)),
        decreases p.blocks@.len() - i,
    {
        proof {
            assert(p.blocks@.take(i as int + 1).drop_last() =~= p.blocks@.take(i as int));
        }
        let entry = p.blocks[i];
        push_ref(out, &entry.0);
        push_block_state(out, &entry.1);
        i = i + 1;
    }
    proof {
        assert(p.blocks@.take(p.blocks@.len() as int) =~= p.blocks@);
        assert(final(out)@ =~= old(out)@ + enc_preset(*p));
    }
}

#[verifier::rlimit(60)]
fn push_profile(out: &mut Vec<u8>, p: &Profile)
    ensures
        final(out)@ == old(out)@ + enc_profile(*p),
{
    push_str(out, &p.id);
    push_str(out, &p.name);
    push_u64(out, p.nodes.len() as u64);
    let ghost b1 = out@;
    let mut i: usize = 0;
    while i < p.nodes.len()
        invariant
            0 <= i <= p.nodes@.len(),
            out@ == b1 + enc_node_cond_items(p.nodes@.take(i as int)),
        decreases p.nodes@.len() - i,
    {
        proof {
            assert(p.nodes@.take(i as int + 1).drop_last() =~= p.nodes@.take(i as int));
        }
        push_node_cond(out, &p.nodes[i]);
        i = i + 1;
    }
    proof {
        assert(p.nodes@.take(p.nodes@.len() as int) =~= p.nodes@);
    }
    push_u64(out, p.edges.len() as u64);
    let ghost b2 = out@;
    let mut i: usize = 0;
    while i < p.edges.len()
        invariant
            0 <= i <= p.edges@.len(),
            out@ == b2 + enc_edge_cond_items(p.edges@.take(i as int)),
        decreases p.edges@.len() - i,
    {
        proof {
            assert(p.edges@.take(i as int + 1).drop_last() =~= p.edges@.take(i as int));
        }
        push_edge_cond(out, &p.edges[i]);
        i = i + 1;
    }
    proof {
        assert(p.edges@.take(p.edges@.len() as int) =~= p.edges@);
    }
    push_u64(out, p.blocks.len() as u64);
    let ghost b3 = out@;
    let mut i: usize = 0;
    while i < p.blocks.len()
        invariant
            0 <= i <= p.blocks@.len(),
            out@ == b3 + enc_block_cond_items(p.blocks@.take(i as int)),
        decreases p.blocks@.len() - i,
    {
        proof {
            assert(p.blocks@.take(i as int + 1).drop_last() =~= p.blocks@.take(i as int));
        }
        push_reset(out, &p.blocks[i].reset);
        i = i + 1;
    }
    proof {
        assert(p.blocks@.take(p.blocks@.len() as int) =~= p.blocks@);
    }
    push_u64(out, p.presets.len() as u64);
    let ghost b4 = out@;
    let mut i: usize = 0;
    while i < p.presets.len()
        invariant
            0 <= i <= p.presets@.len(),
            out@ == b4 + enc_preset_items(p.presets@.take(i as int)),
        decreases p.presets@.len() - i,
    {
        proof {
            assert(p.presets@.take(i as int + 1).drop_last() =~= p.presets@.take(i as int));
        }
        push_preset(out, &p.presets[i]);
        i = i + 1;
    }
    proof {
        assert(p.presets@.take(p.presets@.len() as int) =~= p.presets@);
        assert(final(out)@ =~= old(out)@ + enc_profile(*p));
    }
}

fn push_element(out: &mut Vec<u8>, e: &Element)
    ensures
        final(out)@ == old(out)@ + enc_element(*e),
{
    push_str(out, &e.id);
    match &e.condition {
        ElementCondition::Fixed(b) => {
            push_byte(out, 0);
            push_bool(out, *b);
        },
        ElementCondition::Node(r) => {
            push_byte(out, 1);
            push_ref(out, r);
        },
        ElementCondition::Edge(r) => {
            push_byte(out, 2);
            push_ref(out, r);
        },
    }
    proof {
        assert(final(out)@ =~= old(out)@ + enc_element(*e));
    }
}

fn push_node(out: &mut Vec<u8>, n: &Node)
    ensures
        final(out)@ == old(out)@ + enc_node(*n),
{
    push_str(out, &n.id);
    push_opt_str(out, &n.scratchpad);
    match &n.parent {
        None => push_byte(out, 0),
        Some(r) => {
            push_byte(out, 1);
            push_ref(out, r);
        },
    }
    proof {
        assert(final(out)@ =~= old(out)@ + enc_node(*n));
    }
}

fn push_block(out: &mut Vec<u8>, b: &Block)
    ensures
        final(out)@ == old(out)@ + enc_block(*b),
{
    push_str(out, &b.id);
    push_refs(out, &b.nodes);
    push_refs(out, &b.edges);
    push_routes(out, &b.non_routes);
    push_u64(out, b.stands.len() as u64);
    let ghost base = out@;
    let mut i: usize = 0;
    while i < b.stands.len()
        invariant
            0 <= i <= b.stands@.len(),
            out@ == base + enc_string_items(b.stands@.take(i as int)),
        decreases b.stands@.len() - i,
    {
        proof {
            assert(b.stands@.take(i as int + 1).drop_last() =~= b.stands@.take(i as int));
        }
        push_str(out, &b.stands[i]);
        i = i + 1;
    }
    proof {
        assert(b.stands@.take(b.stands@.len() as int) =~= b.stands@);
        assert(final(out)@ =~= old(out)@ + enc_block(*b));
    }
}

#[verifier::rlimit(60)]
fn push_aerodrome(out: &mut Vec<u8>, a: &Aerodrome)
    ensures
        final(out)@ == old(out)@ + enc_aerodrome(*a),
{
    push_str(out, &a.icao);
    push_u64(out, a.elements.len() as u64);
    let ghost b1 = out@;
    let mut i: usize = 0;
    while i < a.elements.len()
        invariant
            0 <= i <= a.elements@.len(),
            out@ == b1 + enc_element_items(a.elements@.take(i as int)),
        decreases a.elements@.len() - i,
    {
        proof {
            assert(a.elements@.take(i as int + 1).drop_last() =~= a.elements@.take(i as int));
        }
        push_element(out, &a.elements[i]);
        i = i + 1;
    }
    proof {
        assert(a.elements@.take(a.elements@.len() as int) =~= a.elements@);
    }
    push_u64(out, a.nodes.len() as u64);
    let ghost b2 = out@;
    let mut i: usize = 0;
    while i < a.nodes.len()
        invariant
            0 <= i <= a.nodes@.len(),
            out@ == b2 + enc_node_items(a.nodes@.take(i as int)),
        decreases a.nodes@.len() - i,
    {
        proof {
            assert(a.nodes@.take(i as int + 1).drop_last() =~= a.nodes@.take(i as int));
        }
        push_node(out, &a.nodes[i]);
        i = i + 1;
    }
    proof {
        assert(a.nodes@.take(a.nodes@.len() as int) =~= a.nodes@);
    }
    push_u64(out, a.edges.len() as u64);
    push_u64(out, a.blocks.len() as u64);
    let ghost b3 = out@;
    let mut i: usize = 0;
    while i < a.blocks.len()
        invariant
            0 <= i <= a.blocks@.len(),
            out@ == b3 + enc_block_items(a.blocks@.take(i as int)),
        decreases a.blocks@.len() - i,
    {
        proof {
            assert(a.blocks@.take(i as int + 1).drop_last() =~= a.blocks@.take(i as int));
        }
        push_block(out, &a.blocks[i]);
        i = i + 1;
    }
    proof {
        assert(a.blocks@.take(a.blocks@.len() as int) =~= a.blocks@);
    }
    push_u64(out, a.profiles.len() as u64);
    let ghost b4 = out@;
    let mut i: usize = 0;
    while i < a.profiles.len()
        invariant
            0 <= i <= a.profiles@.len(),
            out@ == b4 + enc_profile_items(a.profiles@.take(i as int)),
        decreases a.profiles@.len() - i,
    {
        proof {
            assert(a.profiles@.take(i as int + 1).drop_last() =~= a.profiles@.take(i as int));
        }
        push_profile(out, &a.profiles[i]);
        i = i + 1;
    }
    proof {
        assert(a.profiles@.take(a.profiles@.len() as int) =~= a.profiles@);
        assert(final(out)@ =~= old(out)@ + enc_aerodrome(*a));
    }
}

impl Aerodrome {
    /// Serialises this aerodrome to the exact byte sequence `enc_aerodrome`
    /// describes.
    pub fn encode(&self) -> (r: Vec<u8>)
        ensures
            r@ == enc_aerodrome(*self),
    {
        let mut out: Vec<u8> = Vec::new();
        push_aerodrome(&mut out, self);
        proof {
            assert(out@ =~= enc_aerodrome(*self));
        }
        out
    }
}

impl Config {
    /// Serialises this container body to the exact byte sequence `enc_config`
    /// describes.
    #[verifier::rlimit(100)]
    pub fn encode(&self) -> (r: Vec<u8>)
        ensures
            r@ == enc_config(*self),
    {
        let mut out: Vec<u8> = Vec::new();
        push_opt_str(&mut out, &self.name);
        push_opt_str(&mut out, &self.version);
        push_u64(&mut out, self.aerodromes.len() as u64);
        let ghost base = out@;
        let mut i: usize = 0;
        while i < self.aerodromes.len()
            invariant
                0 <= i <= self.aerodromes@.len(),
                out@ == base + enc_aerodrome_items(self.aerodromes@.take(i as int)),
            decreases self.aerodromes@.len() - i,
        {
            proof {
                assert(self.aerodromes@.take(i as int + 1).drop_last() =~= self.aerodromes@.take(
                    i as int,
                ));
            }
            push_aerodrome(&mut out, &self.aerodromes[i]);
            i = i + 1;
        }
        proof {
            assert(self.aerodromes@.take(self.aerodromes@.len() as int) =~= self.aerodromes@);
            assert(out@ =~= enc_config(*self));
        }
        out
    }
}


// ------------------------------------------------------------------
// Decoders. Soundness: every accepted value re-encodes to exactly the
// consumed bytes. Completeness: wherever the bytes at `pos` carry the
// encoding of some value, the decoder accepts and consumes exactly it.
// ------------------------------------------------------------------

/// The bytes at `pos` carry exactly `e`.
pub open spec fn can_read(b: Seq<u8>, pos: int, e: Seq<u8>) -> bool {
    &&& 0 <= pos
    &&& pos + e.len() <= b.len()
    &&& b.subrange(pos, pos + e.len()) == e
}

#[verifier::rlimit(100)]
#[verifier::spinoff_prover]
proof fn lemma_can_read_split(b: Seq<u8>, pos: int, e1: Seq<u8>, e2: Seq<u8>)
    requires
        can_read(b, pos, e1 + e2),
    ensures
        can_read(b, pos, e1),
        can_read(b, pos + e1.len(), e2),
{
    let e = e1 + e2;
    assert(b.subrange(pos, pos + e1.len()) =~= e1) by {
        assert forall|j: int|
            0 <= j < e1.len() implies b.subrange(pos, pos + e1.len())[j] == e1[j] by {
            assert(b.subrange(pos, pos + e.len())[j] == e[j]);
        }
    }
    assert(b.subrange(pos + e1.len(), pos + e1.len() + e2.len()) =~= e2) by {
        assert forall|j: int|
            0 <= j < e2.len() implies b.subrange(pos + e1.len(), pos + e1.len() + e2.len())[j]
            == e2[j] by {
            assert(b.subrange(pos, pos + e.len())[e1.len() + j] == e[e1.len() + j]);
        }
    }
}

#[verifier::rlimit(100)]
#[verifier::spinoff_prover]
proof fn lemma_can_read_split3(b: Seq<u8>, pos: int, e1: Seq<u8>, e2: Seq<u8>, e3: Seq<u8>)
    requires
        can_read(b, pos, e1 + e2 + e3),
    ensures
        can_read(b, pos, e1),
        can_read(b, pos + e1.len(), e2),
        can_read(b, pos + e1.len() + e2.len(), e3),
{
    lemma_can_read_split(b, pos, e1 + e2, e3);
    lemma_can_read_split(b, pos, e1, e2);
}

/// Two equal 64-bit encodings carry equal values.
proof fn lemma_enc_u64_inj(v: u64, w: u64)
    requires
        enc_u64(v) == enc_u64(w),
    ensures
        v == w,
{
    assert(((v >> (8 * 0)) as u8) == ((w >> (8 * 0)) as u8)) by {
        assert(enc_u64(v)[0] == enc_u64(w)[0]);
        assert(enc_u64(v)[0] == ((v >> (8 * 0)) as u8));
        assert(enc_u64(w)[0] == ((w >> (8 * 0)) as u8));
    }
    assert(((v >> (8 * 1)) as u8) == ((w >> (8 * 1)) as u8)) by {
        assert(enc_u64(v)[1] == enc_u64(w)[1]);
        assert(enc_u64(v)[1] == ((v >> (8 * 1)) as u8));
        assert(enc_u64(w)[1] == ((w >> (8 * 1)) as u8));
    }
    assert(((v >> (8 * 2)) as u8) == ((w >> (8 * 2)) as u8)) by {
        assert(enc_u64(v)[2] == enc_u64(w)[2]);
        assert(enc_u64(v)[2] == ((v >> (8 * 2)) as u8));
        assert(enc_u64(w)[2] == ((w >> (8 * 2)) as u8));
    }
    assert(((v >> (8 * 3)) as u8) == ((w >> (8 * 3)) as u8)) by {
        assert(enc_u64(v)[3] == enc_u64(w)[3]);
        assert(enc_u64(v)[3] == ((v >> (8 * 3)) as u8));
        assert(enc_u64(w)[3] == ((w >> (8 * 3)) as u8));
    }
    assert(((v >> (8 * 4)) as u8) == ((w >> (8 * 4)) as u8)) by {
        assert(enc_u64(v)[4] == enc_u64(w)[4]);
        assert(enc_u64(v)[4] == ((v >> (8 * 4)) as u8));
        assert(enc_u64(w)[4] == ((w >> (8 * 4)) as u8));
    }
    assert(((v >> (8 * 5)) as u8) == ((w >> (8 * 5)) as u8)) by {
        assert(enc_u64(v)[5] == enc_u64(w)[5]);
        assert(enc_u64(v)[5] == ((v >> (8 * 5)) as u8));
        assert(enc_u64(w)[5] == ((w >> (8 * 5)) as u8));
    }
    assert(((v >> (8 * 6)) as u8) == ((w >> (8 * 6)) as u8)) by {
        assert(enc_u64(v)[6] == enc_u64(w)[6]);
        assert(enc_u64(v)[6] == ((v >> (8 * 6)) as u8));
        assert(enc_u64(w)[6] == ((w >> (8 * 6)) as u8));
    }
    assert(((v >> (8 * 7)) as u8) == ((w >> (8 * 7)) as u8)) by {
        assert(enc_u64(v)[7] == enc_u64(w)[7]);
        assert(enc_u64(v)[7] == ((v >> (8 * 7)) as u8));
        assert(enc_u64(w)[7] == ((w >> (8 * 7)) as u8));
    }
    assert(((v >> 0) as u8) == ((w >> 0) as u8));
    assert(((v >> 8) as u8) == ((w >> 8) as u8));
    assert(((v >> 16) as u8) == ((w >> 16) as u8));
    assert(((v >> 24) as u8) == ((w >> 24) as u8));
    assert(((v >> 32) as u8) == ((w >> 32) as u8));
    assert(((v >> 40) as u8) == ((w >> 40) as u8));
    assert(((v >> 48) as u8) == ((w >> 48) as u8));
    assert(((v >> 56) as u8) == ((w >> 56) as u8));
    assert(v == w) by (bit_vector)
        requires
            ((v >> 0) as u8) == ((w >> 0) as u8) && ((v >> 8) as u8) == ((w >> 8) as u8) && ((v
                >> 16) as u8) == ((w >> 16) as u8) && ((v >> 24) as u8) == ((w >> 24) as u8) && ((
            v >> 32) as u8) == ((w >> 32) as u8) && ((v >> 40) as u8) == ((w >> 40) as u8) && ((v
                >> 48) as u8) == ((w >> 48) as u8) && ((v >> 56) as u8) == ((w >> 56) as u8),
    ;
}

fn dec_u64(bytes: &Vec<u8>, pos: usize) -> (r: Option<(u64, usize)>)
    ensures
        match r {
            Some(v) => pos <= v.1 <= bytes@.len() && bytes@.subrange(pos as int, v.1 as int)
                == enc_u64(v.0),
            None => true,
        },
        forall|x: u64|
            #[trigger] can_read(bytes@, pos as int, enc_u64(x)) ==> (r matches Some(v) && v.0 == x
                && v.1 == pos + 8),
{
    proof {
        assert(bytes@.len() == bytes.len());
    }
    if pos >= bytes.len() || bytes.len() - pos < 8 {
        proof {
            assert forall|x: u64| !can_read(bytes@, pos as int, enc_u64(x)) by {
                assert(enc_u64(x).len() == 8);
            }
        }
        return None;
    }
    let b0 = bytes[pos];
    let b1 = bytes[pos + 1];
    let b2 = bytes[pos + 2];
    let b3 = bytes[pos + 3];
    let b4 = bytes[pos + 4];
    let b5 = bytes[pos + 5];
    let b6 = bytes[pos + 6];
    let b7 = bytes[pos + 7];
    let v: u64 = (b0 as u64) | ((b1 as u64) << 8) | ((b2 as u64) << 16) | ((b3 as u64) << 24) | (
    (b4 as u64) << 32) | ((b5 as u64) << 40) | ((b6 as u64) << 48) | ((b7 as u64) << 56);
    proof {
        assert((v as u8) == b0 && ((v >> 8) as u8) == b1 && ((v >> 16) as u8) == b2 && ((v >> 24)
            as u8) == b3 && ((v >> 32) as u8) == b4 && ((v >> 40) as u8) == b5 && ((v >> 48) as u8)
            == b6 && ((v >> 56) as u8) == b7) by (bit_vector)
            requires
                v == (b0 as u64) | ((b1 as u64) << 8) | ((b2 as u64) << 16) | ((b3 as u64) << 24)
                    | ((b4 as u64) << 32) | ((b5 as u64) << 40) | ((b6 as u64) << 48) | ((
                b7 as u64) << 56),
        ;
        assert(v >> 0 == v) by (bit_vector);
        assert(bytes@.subrange(pos as int, pos as int + 8) =~= enc_u64(v));
        assert forall|x: u64| #[trigger] can_read(bytes@, pos as int, enc_u64(x)) implies v
            == x by {
            assert(enc_u64(x).len() == 8);
            assert(bytes@.subrange(pos as int, pos as int + 8) == enc_u64(x));
            lemma_enc_u64_inj(v, x);
        }
    }
    Some((v, pos + 8))
}

fn dec_byte(bytes: &Vec<u8>, pos: usize) -> (r: Option<(u8, usize)>)
    ensures
        match r {
            Some(v) => pos <= v.1 <= bytes@.len() && bytes@.subrange(pos as int, v.1 as int)
                == seq![v.0],
            None => true,
        },
        forall|x: u8|
            #[trigger] can_read(bytes@, pos as int, seq![x]) ==> (r matches Some(v) && v.0 == x
                && v.1 == pos + 1),
{
    proof {
        assert(bytes@.len() == bytes.len());
    }
    if pos >= bytes.len() {
        proof {
            assert forall|x: u8| !can_read(bytes@, pos as int, seq![x]) by {
                assert(seq![x].len() == 1);
            }
        }
        return None;
    }
    let b = bytes[pos];
    proof {
        assert(bytes@.subrange(pos as int, pos as int + 1) =~= seq![b]);
        assert forall|x: u8| #[trigger] can_read(bytes@, pos as int, seq![x]) implies b == x by {
            assert(bytes@.subrange(pos as int, pos as int + 1) == seq![x]);
            assert(seq![b][0] == seq![x][0]);
        }
    }
    Some((b, pos + 1))
}

fn dec_bool(bytes: &Vec<u8>, pos: usize) -> (r: Option<(bool, usize)>)
    ensures
        match r {
            Some(v) => pos <= v.1 <= bytes@.len() && bytes@.subrange(pos as int, v.1 as int)
                == enc_bool(v.0),
            None => true,
        },
        forall|x: bool|
            #[trigger] can_read(bytes@, pos as int, enc_bool(x)) ==> (r matches Some(v) && v.0 == x
                && v.1 == pos + 1),
{
    let (b, p) = match dec_byte(bytes, pos) {
        Some(v) => v,
        None => {
            proof {
                assert forall|x: bool| !can_read(bytes@, pos as int, enc_bool(x)) by {
                    if can_read(bytes@, pos as int, enc_bool(x)) {
                        if x {
                            assert(can_read(bytes@, pos as int, seq![1u8]));
                        } else {
                            assert(can_read(bytes@, pos as int, seq![0u8]));
                        }
                    }
                }
            }
            return None;
        },
    };
    proof {
        assert forall|x: bool| #[trigger] can_read(bytes@, pos as int, enc_bool(x)) implies (b == 0
            || b == 1) && (x == (b == 1)) by {
            if x {
                assert(can_read(bytes@, pos as int, seq![1u8]));
            } else {
                assert(can_read(bytes@, pos as int, seq![0u8]));
            }
        }
    }
    if b == 0 {
        Some((false, p))
    } else if b == 1 {
        Some((true, p))
    } else {
        None
    }
}

/// Relies on std's String::from_utf8: on success the returned string's UTF-8
/// bytes are exactly the input bytes, and it fails exactly on input that is
/// not valid UTF-8 (here stated over vstd's UTF-8 formalization, as vstd's
/// own str specifications do).
#[verifier::external_body]
fn string_from_utf8(v: Vec<u8>) -> (r: Option<String>)
    ensures
        match r {
            Some(s) => vstd::utf8::encode_utf8(s@) == v@,
            None => !vstd::utf8::valid_utf8(v@),
        },
{
    match String::from_utf8(v) {
        Ok(s) => Some(s),
        Err(_) => None,
    }
}

fn dec_str(bytes: &Vec<u8>, pos: usize) -> (r: Option<(String, usize)>)
    ensures
        match r {
            Some(v) => pos <= v.1 <= bytes@.len() && bytes@.subrange(pos as int, v.1 as int)
                == enc_str(v.0@),
            None => true,
        },
        forall|x: String|
            #[trigger] can_read(bytes@, pos as int, enc_str(x@)) ==> (r matches Some(v) && v.1
                == pos + enc_str(x@).len()),
{
    proof {
        assert(bytes@.len() == bytes.len());
    }
    let (len64, p0) = match dec_u64(bytes, pos) {
        Some(v) => v,
        None => {
            proof {
                assert forall|x: String| !can_read(bytes@, pos as int, enc_str(x@)) by {
                    if can_read(bytes@, pos as int, enc_str(x@)) {
                        lemma_can_read_split(
                            bytes@,
                            pos as int,
                            enc_u64(vstd::utf8::encode_utf8(x@).len() as u64),
                            vstd::utf8::encode_utf8(x@),
                        );
                    }
                }
            }
            return None;
        },
    };
    if len64 > (bytes.len() - p0) as u64 {
        proof {
            assert forall|x: String| !can_read(bytes@, pos as int, enc_str(x@)) by {
                if can_read(bytes@, pos as int, enc_str(x@)) {
                    lemma_can_read_split(
                        bytes@,
                        pos as int,
                        enc_u64(vstd::utf8::encode_utf8(x@).len() as u64),
                        vstd::utf8::encode_utf8(x@),
                    );
                    assert(len64 == vstd::utf8::encode_utf8(x@).len() as u64);
                }
            }
        }
        return None;
    }
    let len = len64 as usize;
    let sub = vstd::slice::slice_subrange(bytes.as_slice(), p0, p0 + len);
    let sv = vstd::slice::slice_to_vec(sub);
    let ghost svv = sv@;
    let s = match string_from_utf8(sv) {
        Some(s) => s,
        None => {
            proof {
                assert forall|x: String| !can_read(bytes@, pos as int, enc_str(x@)) by {
                    if can_read(bytes@, pos as int, enc_str(x@)) {
                        lemma_can_read_split(
                            bytes@,
                            pos as int,
                            enc_u64(vstd::utf8::encode_utf8(x@).len() as u64),
                            vstd::utf8::encode_utf8(x@),
                        );
                        assert(len64 == vstd::utf8::encode_utf8(x@).len() as u64);
                        assert(svv =~= vstd::utf8::encode_utf8(x@));
                    }
                }
            }
            return None;
        },
    };
    proof {
        assert(vstd::utf8::encode_utf8(s@) =~= bytes@.subrange(p0 as int, (p0 + len) as int));
        assert(bytes@.subrange(pos as int, (p0 + len) as int) =~= bytes@.subrange(
            pos as int,
            p0 as int,
        ) + bytes@.subrange(p0 as int, (p0 + len) as int));
        assert forall|x: String| #[trigger] can_read(bytes@, pos as int, enc_str(x@)) implies p0
            + len == pos + enc_str(x@).len() by {
            lemma_can_read_split(
                bytes@,
                pos as int,
                enc_u64(vstd::utf8::encode_utf8(x@).len() as u64),
                vstd::utf8::encode_utf8(x@),
            );
            assert(len64 == vstd::utf8::encode_utf8(x@).len() as u64);
        }
    }
    Some((s, p0 + len))
}

fn dec_opt_str(bytes: &Vec<u8>, pos: usize) -> (r: Option<(Option<String>, usize)>)
    ensures
        match r {
            Some(v) => pos <= v.1 <= bytes@.len() && bytes@.subrange(pos as int, v.1 as int)
                == enc_opt_str(v.0),
            None => true,
        },
        forall|x: Option<String>|
            #[trigger] can_read(bytes@, pos as int, enc_opt_str(x)) ==> (r matches Some(v) && v.1
                == pos + enc_opt_str(x).len()),
{
    let ghost gpos = pos as int;
    proof {
        assert forall|x: Option<String>|
            can_read(bytes@, gpos, enc_opt_str(x)) implies match x {
            None => can_read(bytes@, gpos, seq![0u8]),
            Some(sx) => can_read(bytes@, gpos, seq![1u8]) && can_read(
                bytes@,
                gpos + 1,
                enc_str(sx@),
            ),
        } by {
            match x {
                None => {
                    assert(can_read(bytes@, gpos, seq![0u8]));
                },
                Some(sx) => {
                    lemma_can_read_split(bytes@, gpos, seq![1u8], enc_str(sx@));
                },
            }
        }
    }
    let (tag, p0) = match dec_byte(bytes, pos) {
        Some(v) => v,
        None => {
            return None;
        },
    };
    if tag == 0 {
        Some((None, p0))
    } else if tag == 1 {
        let (s, p1) = match dec_str(bytes, p0) {
            Some(v) => v,
            None => {
                return None;
            },
        };
        proof {
            assert(bytes@.subrange(pos as int, p1 as int) =~= bytes@.subrange(
                pos as int,
                p0 as int,
            ) + bytes@.subrange(p0 as int, p1 as int));
        }
        Some((Some(s), p1))
    } else {
        None
    }
}

fn dec_ref<T>(bytes: &Vec<u8>, pos: usize) -> (r: Option<(Ref<T>, usize)>)
    ensures
        match r {
            Some(v) => pos <= v.1 <= bytes@.len() && bytes@.subrange(pos as int, v.1 as int)
                == enc_ref(v.0),
            None => true,
        },
        forall|x: Ref<T>|
            #[trigger] can_read(bytes@, pos as int, enc_ref(x)) ==> (r matches Some(v) && v.0 == x
                && v.1 == pos + 8),
{
    proof {
        assert forall|x: Ref<T>| can_read(bytes@, pos as int, enc_ref(x)) implies can_read(
            bytes@,
            pos as int,
            enc_u64(x.0 as u64),
        ) by {}
    }
    let (v, p) = match dec_u64(bytes, pos) {
        Some(v) => v,
        None => {
            return None;
        },
    };
    if v > usize::MAX as u64 {
        return None;
    }
    Some((Ref::new(v as usize), p))
}

fn dec_opt_ref<T>(bytes: &Vec<u8>, pos: usize) -> (r: Option<(Option<Ref<T>>, usize)>)
    ensures
        match r {
            Some(v) => pos <= v.1 <= bytes@.len() && bytes@.subrange(pos as int, v.1 as int)
                == enc_opt_ref(v.0),
            None => true,
        },
        forall|x: Option<Ref<T>>|
            #[trigger] can_read(bytes@, pos as int, enc_opt_ref(x)) ==> (r matches Some(v) && v.0
                == x && v.1 == pos + enc_opt_ref(x).len()),
{
    let ghost gpos = pos as int;
    proof {
        assert forall|x: Option<Ref<T>>|
            can_read(bytes@, gpos, enc_opt_ref(x)) implies match x {
            None => can_read(bytes@, gpos, seq![0u8]),
            Some(rx) => can_read(bytes@, gpos, seq![1u8]) && can_read(
                bytes@,
                gpos + 1,
                enc_ref(rx),
            ),
        } by {
            match x {
                None => {
                    assert(can_read(bytes@, gpos, seq![0u8]));
                },
                Some(rx) => {
                    lemma_can_read_split(bytes@, gpos, seq![1u8], enc_ref(rx));
                },
            }
        }
    }
    let (tag, p0) = match dec_byte(bytes, pos) {
        Some(v) => v,
        None => {
            return None;
        },
    };
    if tag == 0 {
        Some((None, p0))
    } else if tag == 1 {
        let (x, p1) = match dec_ref(bytes, p0) {
            Some(v) => v,
            None => {
                return None;
            },
        };
        proof {
            assert(bytes@.subrange(pos as int, p1 as int) =~= bytes@.subrange(
                pos as int,
                p0 as int,
            ) + bytes@.subrange(p0 as int, p1 as int));
        }
        Some((Some(x), p1))
    } else {
        None
    }
}

fn dec_route(bytes: &Vec<u8>, pos: usize) -> (r: Option<(BlockRoute, usize)>)
    ensures
        match r {
            Some(v) => pos <= v.1 <= bytes@.len() && bytes@.subrange(pos as int, v.1 as int)
                == enc_route(v.0),
            None => true,
        },
        forall|x: BlockRoute|
            #[trigger] can_read(bytes@, pos as int, enc_route(x)) ==> (r matches Some(v) && v.0
                == x && v.1 == pos + 16),
{
    proof {
        assert forall|x: BlockRoute| can_read(bytes@, pos as int, enc_route(x)) implies can_read(
            bytes@,
            pos as int,
            enc_ref(x.from),
        ) && can_read(bytes@, pos as int + 8, enc_ref(x.to)) by {
            lemma_can_read_split(bytes@, pos as int, enc_ref(x.from), enc_ref(x.to));
        }
    }
    let (f, p0) = match dec_ref(bytes, pos) {
        Some(v) => v,
        None => {
            return None;
        },
    };
    let (t, p1) = match dec_ref(bytes, p0) {
        Some(v) => v,
        None => {
            return None;
        },
    };
    proof {
        assert(bytes@.subrange(pos as int, p1 as int) =~= bytes@.subrange(pos as int, p0 as int)
            + bytes@.subrange(p0 as int, p1 as int));
    }
    Some((BlockRoute { from: f, to: t }, p1))
}

fn dec_node_state(bytes: &Vec<u8>, pos: usize) -> (r: Option<(NodeState, usize)>)
    ensures
        match r {
            Some(v) => pos <= v.1 <= bytes@.len() && bytes@.subrange(pos as int, v.1 as int)
                == enc_node_state(v.0),
            None => true,
        },
        forall|x: NodeState|
            #[trigger] can_read(bytes@, pos as int, enc_node_state(x)) ==> (r matches Some(v)
                && v.0 == x && v.1 == pos + 1),
{
    let ghost gpos = pos as int;
    proof {
        assert forall|x: NodeState|
            can_read(bytes@, gpos, enc_node_state(x)) implies can_read(
            bytes@,
            gpos,
            seq![
                match x {
                    NodeState::Off => 0u8,
                    NodeState::On => 1u8,
                },
            ],
        ) by {
            match x {
                NodeState::Off => {
                    assert(can_read(bytes@, gpos, seq![0u8]));
                },
                NodeState::On => {
                    assert(can_read(bytes@, gpos, seq![1u8]));
                },
            }
        }
    }
    let (b, p) = match dec_byte(bytes, pos) {
        Some(v) => v,
        None => {
            return None;
        },
    };
    if b == 0 {
        Some((NodeState::Off, p))
    } else if b == 1 {
        Some((NodeState::On, p))
    } else {
        None
    }
}

fn dec_edge_state(bytes: &Vec<u8>, pos: usize) -> (r: Option<(EdgeState, usize)>)
    ensures
        match r {
            Some(v) => pos <= v.1 <= bytes@.len() && bytes@.subrange(pos as int, v.1 as int)
                == enc_edge_state(v.0),
            None => true,
        },
        forall|x: EdgeState|
            #[trigger] can_read(bytes@, pos as int, enc_edge_state(x)) ==> (r matches Some(v)
                && v.0 == x && v.1 == pos + 1),
{
    let ghost gpos = pos as int;
    proof {
        assert forall|x: EdgeState|
            can_read(bytes@, gpos, enc_edge_state(x)) implies can_read(
            bytes@,
            gpos,
            seq![
                match x {
                    EdgeState::Off => 0u8,
                    EdgeState::On => 1u8,
                },
            ],
        ) by {
            match x {
                EdgeState::Off => {
                    assert(can_read(bytes@, gpos, seq![0u8]));
                },
                EdgeState::On => {
                    assert(can_read(bytes@, gpos, seq![1u8]));
                },
            }
        }
    }
    let (b, p) = match dec_byte(bytes, pos) {
        Some(v) => v,
        None => {
            return None;
        },
    };
    if b == 0 {
        Some((EdgeState::Off, p))
    } else if b == 1 {
        Some((EdgeState::On, p))
    } else {
        None
    }
}

fn dec_reset(bytes: &Vec<u8>, pos: usize) -> (r: Option<(ResetCondition, usize)>)
    ensures
        match r {
            Some(v) => pos <= v.1 <= bytes@.len() && bytes@.subrange(pos as int, v.1 as int)
                == enc_reset(v.0),
            None => true,
        },
        forall|x: ResetCondition|
            #[trigger] can_read(bytes@, pos as int, enc_reset(x)) ==> (r matches Some(v) && v.0
                == x && v.1 == pos + enc_reset(x).len()),
{
    let ghost gpos = pos as int;
    proof {
        assert forall|x: ResetCondition|
            can_read(bytes@, gpos, enc_reset(x)) implies match x {
            ResetCondition::Never => can_read(bytes@, gpos, seq![0u8]),
            ResetCondition::TimeSecs(k) => can_read(bytes@, gpos, seq![1u8]) && can_read(
                bytes@,
                gpos + 1,
                enc_u64(k as u64),
            ),
        } by {
            match x {
                ResetCondition::Never => {
                    assert(can_read(bytes@, gpos, seq![0u8]));
                },
                ResetCondition::TimeSecs(k) => {
                    lemma_can_read_split(bytes@, gpos, seq![1u8], enc_u64(k as u64));
                },
            }
        }
    }
    let (tag, p0) = match dec_byte(bytes, pos) {
        Some(v) => v,
        None => {
            return None;
        },
    };
    if tag == 0 {
        Some((ResetCondition::Never, p0))
    } else if tag == 1 {
        let (k, p1) = match dec_u64(bytes, p0) {
            Some(v) => v,
            None => {
                return None;
            },
        };
        if k > u32::MAX as u64 {
            return None;
        }
        proof {
            assert(bytes@.subrange(pos as int, p1 as int) =~= bytes@.subrange(
                pos as int,
                p0 as int,
            ) + bytes@.subrange(p0 as int, p1 as int));
        }
        Some((ResetCondition::TimeSecs(k as u32), p1))
    } else {
        None
    }
}

fn dec_block_state(bytes: &Vec<u8>, pos: usize) -> (r: Option<(BlockState, usize)>)
    ensures
        match r {
            Some(v) => pos <= v.1 <= bytes@.len() && bytes@.subrange(pos as int, v.1 as int)
                == enc_block_state(v.0),
            None => true,
        },
        forall|x: BlockState|
            #[trigger] can_read(bytes@, pos as int, enc_block_state(x)) ==> (r matches Some(v)
                && v.0 == x && v.1 == pos + enc_block_state(x).len()),
{
    let ghost gpos = pos as int;
    proof {
        assert forall|x: BlockState|
            can_read(bytes@, gpos, enc_block_state(x)) implies match x {
            BlockState::Clear => can_read(bytes@, gpos, seq![0u8]),
            BlockState::Relax => can_read(bytes@, gpos, seq![1u8]),
            BlockState::Route(pair) => can_read(bytes@, gpos, seq![2u8]) && can_read(
                bytes@,
                gpos + 1,
                enc_ref(pair.0),
            ) && can_read(bytes@, gpos + 9, enc_ref(pair.1)),
        } by {
            match x {
                BlockState::Clear => {
                    assert(can_read(bytes@, gpos, seq![0u8]));
                },
                BlockState::Relax => {
                    assert(can_read(bytes@, gpos, seq![1u8]));
                },
                BlockState::Route(pair) => {
                    lemma_can_read_split3(
                        bytes@,
                        gpos,
                        seq![2u8],
                        enc_ref(pair.0),
                        enc_ref(pair.1),
                    );
                },
            }
        }
    }
    let (tag, p0) = match dec_byte(bytes, pos) {
        Some(v) => v,
        None => {
            return None;
        },
    };
    if tag == 0 {
        Some((BlockState::Clear, p0))
    } else if tag == 1 {
        Some((BlockState::Relax, p0))
    } else if tag == 2 {
        let (a, p1) = match dec_ref(bytes, p0) {
            Some(v) => v,
            None => {
                return None;
            },
        };
        let (b, p2) = match dec_ref(bytes, p1) {
            Some(v) => v,
            None => {
                return None;
            },
        };
        proof {
            assert(bytes@.subrange(pos as int, p2 as int) =~= bytes@.subrange(
                pos as int,
                p0 as int,
            ) + bytes@.subrange(p0 as int, p1 as int) + bytes@.subrange(p1 as int, p2 as int));
        }
        Some((BlockState::Route((a, b)), p2))
    } else {
        None
    }
}

fn dec_node_cond(bytes: &Vec<u8>, pos: usize) -> (r: Option<(NodeCondition, usize)>)
    ensures
        match r {
            Some(v) => pos <= v.1 <= bytes@.len() && bytes@.subrange(pos as int, v.1 as int)
                == enc_node_cond(v.0),
            None => true,
        },
        forall|x: NodeCondition|
            #[trigger] can_read(bytes@, pos as int, enc_node_cond(x)) ==> (r matches Some(v)
                && v.0 == x && v.1 == pos + enc_node_cond(x).len()),
{
    let ghost gpos = pos as int;
    proof {
        assert forall|x: NodeCondition|
            can_read(bytes@, gpos, enc_node_cond(x)) implies match x {
            NodeCondition::Fixed { state } => can_read(bytes@, gpos, seq![0u8]) && can_read(
                bytes@,
                gpos + 1,
                enc_node_state(state),
            ),
            NodeCondition::Direct { reset } => can_read(bytes@, gpos, seq![1u8]) && can_read(
                bytes@,
                gpos + 1,
                enc_reset(reset),
            ),
            NodeCondition::Router { sticky } => can_read(bytes@, gpos, seq![2u8]) && can_read(
                bytes@,
                gpos + 1,
                enc_bool(sticky),
            ),
        } by {
            match x {
                NodeCondition::Fixed { state } => {
                    lemma_can_read_split(bytes@, gpos, seq![0u8], enc_node_state(state));
                },
                NodeCondition::Direct { reset } => {
                    lemma_can_read_split(bytes@, gpos, seq![1u8], enc_reset(reset));
                },
                NodeCondition::Router { sticky } => {
                    lemma_can_read_split(bytes@, gpos, seq![2u8], enc_bool(sticky));
                },
            }
        }
    }
    let (tag, p0) = match dec_byte(bytes, pos) {
        Some(v) => v,
        None => {
            return None;
        },
    };
    if tag == 0 {
        let (s, p1) = match dec_node_state(bytes, p0) {
            Some(v) => v,
            None => {
                return None;
            },
        };
        proof {
            assert(bytes@.subrange(pos as int, p1 as int) =~= bytes@.subrange(
                pos as int,
                p0 as int,
            ) + bytes@.subrange(p0 as int, p1 as int));
        }
        Some((NodeCondition::Fixed { state: s }, p1))
    } else if tag == 1 {
        let (rst, p1) = match dec_reset(bytes, p0) {
            Some(v) => v,
            None => {
                return None;
            },
        };
        proof {
            assert(bytes@.subrange(pos as int, p1 as int) =~= bytes@.subrange(
                pos as int,
                p0 as int,
            ) + bytes@.subrange(p0 as int, p1 as int));
        }
        Some((NodeCondition::Direct { reset: rst }, p1))
    } else if tag == 2 {
        let (b, p1) = match dec_bool(bytes, p0) {
            Some(v) => v,
            None => {
                return None;
            },
        };
        proof {
            assert(bytes@.subrange(pos as int, p1 as int) =~= bytes@.subrange(
                pos as int,
                p0 as int,
            ) + bytes@.subrange(p0 as int, p1 as int));
        }
        Some((NodeCondition::Router { sticky: b }, p1))
    } else {
        None
    }
}

fn dec_block_cond(bytes: &Vec<u8>, pos: usize) -> (r: Option<(BlockCondition, usize)>)
    ensures
        match r {
            Some(v) => pos <= v.1 <= bytes@.len() && bytes@.subrange(pos as int, v.1 as int)
                == enc_reset(v.0.reset),
            None => true,
        },
        forall|x: BlockCondition|
            #[trigger] can_read(bytes@, pos as int, enc_reset(x.reset)) ==> (r matches Some(v)
                && v.0 == x && v.1 == pos + enc_reset(x.reset).len()),
{
    let (rst, p) = match dec_reset(bytes, pos) {
        Some(v) => v,
        None => {
            return None;
        },
    };
    Some((BlockCondition { reset: rst }, p))
}

fn dec_preset_node(bytes: &Vec<u8>, pos: usize) -> (r: Option<((Ref<Node>, NodeState), usize)>)
    ensures
        match r {
            Some(v) => pos <= v.1 <= bytes@.len() && bytes@.subrange(pos as int, v.1 as int)
                == enc_ref(v.0.0) + enc_node_state(v.0.1),
            None => true,
        },
        forall|x: (Ref<Node>, NodeState)|
            #[trigger] can_read(bytes@, pos as int, enc_ref(x.0) + enc_node_state(x.1)) ==> (
            r matches Some(v) && v.0 == x && v.1 == pos + 9),
{
    proof {
        assert forall|x: (Ref<Node>, NodeState)|
            can_read(bytes@, pos as int, enc_ref(x.0) + enc_node_state(x.1)) implies can_read(
            bytes@,
            pos as int,
            enc_ref(x.0),
        ) && can_read(bytes@, pos as int + 8, enc_node_state(x.1)) by {
            lemma_can_read_split(bytes@, pos as int, enc_ref(x.0), enc_node_state(x.1));
        }
    }
    let (a, p0) = match dec_ref(bytes, pos) {
        Some(v) => v,
        None => {
            return None;
        },
    };
    let (s, p1) = match dec_node_state(bytes, p0) {
        Some(v) => v,
        None => {
            return None;
        },
    };
    proof {
        assert(bytes@.subrange(pos as int, p1 as int) =~= bytes@.subrange(pos as int, p0 as int)
            + bytes@.subrange(p0 as int, p1 as int));
    }
    Some(((a, s), p1))
}

fn dec_preset_block(bytes: &Vec<u8>, pos: usize) -> (r: Option<((Ref<Block>, BlockState), usize)>)
    ensures
        match r {
            Some(v) => pos <= v.1 <= bytes@.len() && bytes@.subrange(pos as int, v.1 as int)
                == enc_ref(v.0.0) + enc_block_state(v.0.1),
            None => true,
        },
        forall|x: (Ref<Block>, BlockState)|
            #[trigger] can_read(bytes@, pos as int, enc_ref(x.0) + enc_block_state(x.1)) ==> (
            r matches Some(v) && v.0 == x && v.1 == pos + 8 + enc_block_state(x.1).len()),
{
    proof {
        assert forall|x: (Ref<Block>, BlockState)|
            can_read(bytes@, pos as int, enc_ref(x.0) + enc_block_state(x.1)) implies can_read(
            bytes@,
            pos as int,
            enc_ref(x.0),
        ) && can_read(bytes@, pos as int + 8, enc_block_state(x.1)) by {
            lemma_can_read_split(bytes@, pos as int, enc_ref(x.0), enc_block_state(x.1));
        }
    }
    let (a, p0) = match dec_ref(bytes, pos) {
        Some(v) => v,
        None => {
            return None;
        },
    };
    let (s, p1) = match dec_block_state(bytes, p0) {
        Some(v) => v,
        None => {
            return None;
        },
    };
    proof {
        assert(bytes@.subrange(pos as int, p1 as int) =~= bytes@.subrange(pos as int, p0 as int)
            + bytes@.subrange(p0 as int, p1 as int));
    }
    Some(((a, s), p1))
}




#[verifier::rlimit(100)]
#[verifier::spinoff_prover]
proof fn lemma_refs_split<T>(s: Seq<Ref<T>>, k: int)
    requires
        0 <= k <= s.len(),
    ensures
        enc_ref_items(s) == enc_ref_items(s.take(k)) + enc_ref_items(s.skip(k)),
    decreases s.len(),
{
    if k == s.len() {
        assert(s.take(k) =~= s);
        assert(s.skip(k) =~= Seq::<Ref<T>>::empty());
        assert(enc_ref_items(s) =~= enc_ref_items(s.take(k)) + enc_ref_items(s.skip(k)));
    } else {
        lemma_refs_split(s.drop_last(), k);
        assert(s.drop_last().take(k) =~= s.take(k));
        assert(s.skip(k).drop_last() =~= s.drop_last().skip(k));
        assert(s.skip(k).last() == s.last());
        assert(s.skip(k).len() > 0);
        assert(enc_ref_items(s) =~= enc_ref_items(s.take(k)) + enc_ref_items(s.skip(k)));
    }
}

#[verifier::rlimit(100)]
#[verifier::spinoff_prover]
proof fn lemma_refs_cons<T>(s: Seq<Ref<T>>, k: int)
    requires
        0 <= k < s.len(),
    ensures
        enc_ref_items(s.skip(k)) == enc_ref(s[k]) + enc_ref_items(s.skip(k + 1)),
{
    lemma_refs_split(s.skip(k), 1);
    assert(s.skip(k).take(1) =~= seq![s[k]]);
    assert(s.skip(k).skip(1) =~= s.skip(k + 1));
    assert(seq![s[k]].drop_last() =~= Seq::<Ref<T>>::empty());
    assert(enc_ref_items(Seq::<Ref<T>>::empty()) =~= Seq::<u8>::empty());
    assert(enc_ref_items(seq![s[k]]) =~= enc_ref(s[k]));
}

#[verifier::rlimit(100)]
#[verifier::spinoff_prover]
proof fn lemma_refs_len_ge<T>(s: Seq<Ref<T>>)
    ensures
        enc_ref_items(s).len() >= s.len(),
    decreases s.len(),
{
    if s.len() > 0 {
        lemma_refs_len_ge(s.drop_last());
        assert((enc_ref(s.last())).len() >= 1);
    }
}

#[verifier::rlimit(100)]
#[verifier::spinoff_prover]
fn dec_refs<T>(bytes: &Vec<u8>, pos: usize) -> (r: Option<(Vec<Ref<T>>, usize)>)
    ensures
        match r {
            Some(v) => pos <= v.1 <= bytes@.len() && bytes@.subrange(pos as int, v.1 as int)
                == enc_u64(v.0@.len() as u64) + enc_ref_items(v.0@),
            None => true,
        },
        forall|xs: Vec<Ref<T>>|
            #[trigger] can_read(bytes@, pos as int, enc_u64(xs@.len() as u64) + enc_ref_items(xs@)) ==> (
            r matches Some(v) && v.1 == pos + 8 + enc_ref_items(xs@).len()),
{
    proof {
        assert(bytes@.len() == bytes.len());
        assert forall|xs: Vec<Ref<T>>|
            #[trigger] can_read(bytes@, pos as int, enc_u64(xs@.len() as u64) + enc_ref_items(xs@))
            implies can_read(bytes@, pos as int, enc_u64(xs@.len() as u64)) && can_read(
            bytes@,
            pos as int + 8,
            enc_ref_items(xs@),
        ) && xs@.len() <= bytes@.len() && enc_ref_items(xs@.take(0)).len() == 0 by {
            lemma_can_read_split(bytes@, pos as int, enc_u64(xs@.len() as u64), enc_ref_items(xs@));
            lemma_refs_len_ge(xs@);
            assert(xs@.take(0) =~= Seq::<Ref<T>>::empty());
        }
    }
    let (count, p0) = match dec_u64(bytes, pos) {
        Some(v) => v,
        None => {
            return None;
        },
    };
    proof {
        assert(enc_u64(count).len() == 8);
    }
    if count > bytes.len() as u64 {
        proof {
            assert forall|xs: Vec<Ref<T>>|
                !can_read(bytes@, pos as int, enc_u64(xs@.len() as u64) + enc_ref_items(xs@)) by {
                if can_read(bytes@, pos as int, enc_u64(xs@.len() as u64) + enc_ref_items(xs@)) {
                    assert(count == xs@.len() as u64);
                }
            }
        }
        return None;
    }
    let mut out: Vec<Ref<T>> = Vec::new();
    let mut p = p0;
    let mut i: u64 = 0;
    while i < count
        invariant
            0 <= i <= count,
            count <= bytes@.len(),
            out@.len() == i,
            pos <= p0 <= p <= bytes@.len(),
            p0 == pos + 8,
            bytes@.subrange(p0 as int, p as int) == enc_ref_items(out@),
            forall|xs: Vec<Ref<T>>|
                #[trigger] can_read(bytes@, pos as int, enc_u64(xs@.len() as u64) + enc_ref_items(xs@))
                    ==> (xs@.len() as u64 == count && i <= xs@.len() && p as int == p0 + enc_ref_items(
                    xs@.take(i as int),
                ).len() && can_read(bytes@, pos as int + 8, enc_ref_items(xs@))),
        decreases count - i,
    {
        let ghost gp = p as int;
        proof {
            assert forall|xs: Vec<Ref<T>>|
                #[trigger] can_read(bytes@, pos as int, enc_u64(xs@.len() as u64) + enc_ref_items(xs@))
                implies can_read(bytes@, gp, enc_ref(xs@[i as int])) by {
                lemma_refs_split(xs@, i as int);
                lemma_can_read_split(
                    bytes@,
                    pos as int + 8,
                    enc_ref_items(xs@.take(i as int)),
                    enc_ref_items(xs@.skip(i as int)),
                );
                lemma_refs_cons(xs@, i as int);
                lemma_can_read_split(bytes@, gp, enc_ref(xs@[i as int]), enc_ref_items(xs@.skip(i as int + 1)));
            }
        }
        let (x, p2) = match dec_ref(bytes, p) {
            Some(v) => v,
            None => {
                proof {
                    assert forall|xs: Vec<Ref<T>>|
                        !can_read(
                            bytes@,
                            pos as int,
                            enc_u64(xs@.len() as u64) + enc_ref_items(xs@),
                        ) by {
                        if can_read(bytes@, pos as int, enc_u64(xs@.len() as u64) + enc_ref_items(xs@)) {
                            assert(can_read(bytes@, gp, enc_ref(xs@[i as int])));
                        }
                    }
                }
                return None;
            },
        };
        proof {
            assert(bytes@.subrange(p0 as int, p2 as int) =~= bytes@.subrange(p0 as int, p as int)
                + bytes@.subrange(p as int, p2 as int));
        }
        let ghost pre = out@;
        out.push(x);
        proof {
            assert(out@.drop_last() =~= pre);
            assert(enc_ref_items(out@) == enc_ref_items(pre) + enc_ref(out@.last()));
            assert forall|xs: Vec<Ref<T>>|
                #[trigger] can_read(bytes@, pos as int, enc_u64(xs@.len() as u64) + enc_ref_items(xs@))
                implies p2 as int == p0 + enc_ref_items(xs@.take(i as int + 1)).len() by {
                assert(can_read(bytes@, gp, enc_ref(xs@[i as int])));
                assert(p2 as int == gp + (enc_ref(xs@[i as int])).len());
                assert(xs@.take(i as int + 1).drop_last() =~= xs@.take(i as int));
                assert(xs@.take(i as int + 1).last() == xs@[i as int]);
                assert(enc_ref_items(xs@.take(i as int + 1)) == enc_ref_items(xs@.take(i as int)) + (enc_ref(xs@[i as int])));
            }
        }
        p = p2;
        i = i + 1;
    }
    proof {
        assert(bytes@.subrange(pos as int, p as int) =~= bytes@.subrange(pos as int, p0 as int)
            + bytes@.subrange(p0 as int, p as int));
        assert forall|xs: Vec<Ref<T>>|
            #[trigger] can_read(bytes@, pos as int, enc_u64(xs@.len() as u64) + enc_ref_items(xs@))
            implies p as int == pos + 8 + enc_ref_items(xs@).len() by {
            assert(xs@.take(i as int) =~= xs@);
        }
    }
    Some((out, p))
}


#[verifier::rlimit(100)]
#[verifier::spinoff_prover]
proof fn lemma_routes_split(s: Seq<BlockRoute>, k: int)
    requires
        0 <= k <= s.len(),
    ensures
        enc_route_items(s) == enc_route_items(s.take(k)) + enc_route_items(s.skip(k)),
    decreases s.len(),
{
    if k == s.len() {
        assert(s.take(k) =~= s);
        assert(s.skip(k) =~= Seq::<BlockRoute>::empty());
        assert(enc_route_items(s) =~= enc_route_items(s.take(k)) + enc_route_items(s.skip(k)));
    } else {
        lemma_routes_split(s.drop_last(), k);
        assert(s.drop_last().take(k) =~= s.take(k));
        assert(s.skip(k).drop_last() =~= s.drop_last().skip(k));
        assert(s.skip(k).last() == s.last());
        assert(s.skip(k).len() > 0);
        assert(enc_route_items(s) =~= enc_route_items(s.take(k)) + enc_route_items(s.skip(k)));
    }
}

#[verifier::rlimit(100)]
#[verifier::spinoff_prover]
proof fn lemma_routes_cons(s: Seq<BlockRoute>, k: int)
    requires
        0 <= k < s.len(),
    ensures
        enc_route_items(s.skip(k)) == enc_route(s[k]) + enc_route_items(s.skip(k + 1)),
{
    lemma_routes_split(s.skip(k), 1);
    assert(s.skip(k).take(1) =~= seq![s[k]]);
    assert(s.skip(k).skip(1) =~= s.skip(k + 1));
    assert(seq![s[k]].drop_last() =~= Seq::<BlockRoute>::empty());
    assert(enc_route_items(Seq::<BlockRoute>::empty()) =~= Seq::<u8>::empty());
    assert(enc_route_items(seq![s[k]]) =~= enc_route(s[k]));
}

#[verifier::rlimit(100)]
#[verifier::spinoff_prover]
proof fn lemma_routes_len_ge(s: Seq<BlockRoute>)
    ensures
        enc_route_items(s).len() >= s.len(),
    decreases s.len(),
{
    if s.len() > 0 {
        lemma_routes_len_ge(s.drop_last());
        assert((enc_route(s.last())).len() >= 1);
    }
}

#[verifier::rlimit(100)]
#[verifier::spinoff_prover]
fn dec_routes(bytes: &Vec<u8>, pos: usize) -> (r: Option<(Vec<BlockRoute>, usize)>)
    ensures
        match r {
            Some(v) => pos <= v.1 <= bytes@.len() && bytes@.subrange(pos as int, v.1 as int)
                == enc_u64(v.0@.len() as u64) + enc_route_items(v.0@),
            None => true,
        },
        forall|xs: Vec<BlockRoute>|
            #[trigger] can_read(bytes@, pos as int, enc_u64(xs@.len() as u64) + enc_route_items(xs@)) ==> (
            r matches Some(v) && v.1 == pos + 8 + enc_route_items(xs@).len()),
{
    proof {
        assert(bytes@.len() == bytes.len());
        assert forall|xs: Vec<BlockRoute>|
            #[trigger] can_read(bytes@, pos as int, enc_u64(xs@.len() as u64) + enc_route_items(xs@))
            implies can_read(bytes@, pos as int, enc_u64(xs@.len() as u64)) && can_read(
            bytes@,
            pos as int + 8,
            enc_route_items(xs@),
        ) && xs@.len() <= bytes@.len() && enc_route_items(xs@.take(0)).len() == 0 by {
            lemma_can_read_split(bytes@, pos as int, enc_u64(xs@.len() as u64), enc_route_items(xs@));
            lemma_routes_len_ge(xs@);
            assert(xs@.take(0) =~= Seq::<BlockRoute>::empty());
        }
    }
    let (count, p0) = match dec_u64(bytes, pos) {
        Some(v) => v,
        None => {
            return None;
        },
    };
    proof {
        assert(enc_u64(count).len() == 8);
    }
    if count > bytes.len() as u64 {
        proof {
            assert forall|xs: Vec<BlockRoute>|
                !can_read(bytes@, pos as int, enc_u64(xs@.len() as u64) + enc_route_items(xs@)) by {
                if can_read(bytes@, pos as int, enc_u64(xs@.len() as u64) + enc_route_items(xs@)) {
                    assert(count == xs@.len() as u64);
                }
            }
        }
        return None;
    }
    let mut out: Vec<BlockRoute> = Vec::new();
    let mut p = p0;
    let mut i: u64 = 0;
    while i < count
        invariant
            0 <= i <= count,
            count <= bytes@.len(),
            out@.len() == i,
            pos <= p0 <= p <= bytes@.len(),
            p0 == pos + 8,
            bytes@.subrange(p0 as int, p as int) == enc_route_items(out@),
            forall|xs: Vec<BlockRoute>|
                #[trigger] can_read(bytes@, pos as int, enc_u64(xs@.len() as u64) + enc_route_items(xs@))
                    ==> (xs@.len() as u64 == count && i <= xs@.len() && p as int == p0 + enc_route_items(
                    xs@.take(i as int),
                ).len() && can_read(bytes@, pos as int + 8, enc_route_items(xs@))),
        decreases count - i,
    {
        let ghost gp = p as int;
        proof {
            assert forall|xs: Vec<BlockRoute>|
                #[trigger] can_read(bytes@, pos as int, enc_u64(xs@.len() as u64) + enc_route_items(xs@))
                implies can_read(bytes@, gp, enc_route(xs@[i as int])) by {
                lemma_routes_split(xs@, i as int);
                lemma_can_read_split(
                    bytes@,
                    pos as int + 8,
                    enc_route_items(xs@.take(i as int)),
                    enc_route_items(xs@.skip(i as int)),
                );
                lemma_routes_cons(xs@, i as int);
                lemma_can_read_split(bytes@, gp, enc_route(xs@[i as int]), enc_route_items(xs@.skip(i as int + 1)));
            }
        }
        let (x, p2) = match dec_route(bytes, p) {
            Some(v) => v,
            None => {
                proof {
                    assert forall|xs: Vec<BlockRoute>|
                        !can_read(
                            bytes@,
                            pos as int,
                            enc_u64(xs@.len() as u64) + enc_route_items(xs@),
                        ) by {
                        if can_read(bytes@, pos as int, enc_u64(xs@.len() as u64) + enc_route_items(xs@)) {
                            assert(can_read(bytes@, gp, enc_route(xs@[i as int])));
                        }
                    }
                }
                return None;
            },
        };
        proof {
            assert(bytes@.subrange(p0 as int, p2 as int) =~= bytes@.subrange(p0 as int, p as int)
                + bytes@.subrange(p as int, p2 as int));
        }
        let ghost pre = out@;
        out.push(x);
        proof {
            assert(out@.drop_last() =~= pre);
            assert(enc_route_items(out@) == enc_route_items(pre) + enc_route(out@.last()));
            assert forall|xs: Vec<BlockRoute>|
                #[trigger] can_read(bytes@, pos as int, enc_u64(xs@.len() as u64) + enc_route_items(xs@))
                implies p2 as int == p0 + enc_route_items(xs@.take(i as int + 1)).len() by {
                assert(can_read(bytes@, gp, enc_route(xs@[i as int])));
                assert(p2 as int == gp + (enc_route(xs@[i as int])).len());
                assert(xs@.take(i as int + 1).drop_last() =~= xs@.take(i as int));
                assert(xs@.take(i as int + 1).last() == xs@[i as int]);
                assert(enc_route_items(xs@.take(i as int + 1)) == enc_route_items(xs@.take(i as int)) + (enc_route(xs@[i as int])));
            }
        }
        p = p2;
        i = i + 1;
    }
    proof {
        assert(bytes@.subrange(pos as int, p as int) =~= bytes@.subrange(pos as int, p0 as int)
            + bytes@.subrange(p0 as int, p as int));
        assert forall|xs: Vec<BlockRoute>|
            #[trigger] can_read(bytes@, pos as int, enc_u64(xs@.len() as u64) + enc_route_items(xs@))
            implies p as int == pos + 8 + enc_route_items(xs@).len() by {
            assert(xs@.take(i as int) =~= xs@);
        }
    }
    Some((out, p))
}


#[verifier::rlimit(100)]
#[verifier::spinoff_prover]
proof fn lemma_strings_split(s: Seq<String>, k: int)
    requires
        0 <= k <= s.len(),
    ensures
        enc_string_items(s) == enc_string_items(s.take(k)) + enc_string_items(s.skip(k)),
    decreases s.len(),
{
    if k == s.len() {
        assert(s.take(k) =~= s);
        assert(s.skip(k) =~= Seq::<String>::empty());
        assert(enc_string_items(s) =~= enc_string_items(s.take(k)) + enc_string_items(s.skip(k)));
    } else {
        lemma_strings_split(s.drop_last(), k);
        assert(s.drop_last().take(k) =~= s.take(k));
        assert(s.skip(k).drop_last() =~= s.drop_last().skip(k));
        assert(s.skip(k).last() == s.last());
        assert(s.skip(k).len() > 0);
        assert(enc_string_items(s) =~= enc_string_items(s.take(k)) + enc_string_items(s.skip(k)));
    }
}

#[verifier::rlimit(100)]
#[verifier::spinoff_prover]
proof fn lemma_strings_cons(s: Seq<String>, k: int)
    requires
        0 <= k < s.len(),
    ensures
        enc_string_items(s.skip(k)) == enc_str(s[k]@) + enc_string_items(s.skip(k + 1)),
{
    lemma_strings_split(s.skip(k), 1);
    assert(s.skip(k).take(1) =~= seq![s[k]]);
    assert(s.skip(k).skip(1) =~= s.skip(k + 1));
    assert(seq![s[k]].drop_last() =~= Seq::<String>::empty());
    assert(enc_string_items(Seq::<String>::empty()) =~= Seq::<u8>::empty());
    assert(enc_string_items(seq![s[k]]) =~= enc_str(s[k]@));
}

#[verifier::rlimit(100)]
#[verifier::spinoff_prover]
proof fn lemma_strings_len_ge(s: Seq<String>)
    ensures
        enc_string_items(s).len() >= s.len(),
    decreases s.len(),
{
    if s.len() > 0 {
        lemma_strings_len_ge(s.drop_last());
        assert((enc_str(s.last()@)).len() >= 1);
    }
}

#[verifier::rlimit(100)]
#[verifier::spinoff_prover]
fn dec_strings(bytes: &Vec<u8>, pos: usize) -> (r: Option<(Vec<String>, usize)>)
    ensures
        match r {
            Some(v) => pos <= v.1 <= bytes@.len() && bytes@.subrange(pos as int, v.1 as int)
                == enc_u64(v.0@.len() as u64) + enc_string_items(v.0@),
            None => true,
        },
        forall|xs: Vec<String>|
            #[trigger] can_read(bytes@, pos as int, enc_u64(xs@.len() as u64) + enc_string_items(xs@)) ==> (
            r matches Some(v) && v.1 == pos + 8 + enc_string_items(xs@).len()),
{
    proof {
        assert(bytes@.len() == bytes.len());
        assert forall|xs: Vec<String>|
            #[trigger] can_read(bytes@, pos as int, enc_u64(xs@.len() as u64) + enc_string_items(xs@))
            implies can_read(bytes@, pos as int, enc_u64(xs@.len() as u64)) && can_read(
            bytes@,
            pos as int + 8,
            enc_string_items(xs@),
        ) && xs@.len() <= bytes@.len() && enc_string_items(xs@.take(0)).len() == 0 by {
            lemma_can_read_split(bytes@, pos as int, enc_u64(xs@.len() as u64), enc_string_items(xs@));
            lemma_strings_len_ge(xs@);
            assert(xs@.take(0) =~= Seq::<String>::empty());
        }
    }
    let (count, p0) = match dec_u64(bytes, pos) {
        Some(v) => v,
        None => {
            return None;
        },
    };
    proof {
        assert(enc_u64(count).len() == 8);
    }
    if count > bytes.len() as u64 {
        proof {
            assert forall|xs: Vec<String>|
                !can_read(bytes@, pos as int, enc_u64(xs@.len() as u64) + enc_string_items(xs@)) by {
                if can_read(bytes@, pos as int, enc_u64(xs@.len() as u64) + enc_string_items(xs@)) {
                    assert(count == xs@.len() as u64);
                }
            }
        }
        return None;
    }
    let mut out: Vec<String> = Vec::new();
    let mut p = p0;
    let mut i: u64 = 0;
    while i < count
        invariant
            0 <= i <= count,
            count <= bytes@.len(),
            out@.len() == i,
            pos <= p0 <= p <= bytes@.len(),
            p0 == pos + 8,
            bytes@.subrange(p0 as int, p as int) == enc_string_items(out@),
            forall|xs: Vec<String>|
                #[trigger] can_read(bytes@, pos as int, enc_u64(xs@.len() as u64) + enc_string_items(xs@))
                    ==> (xs@.len() as u64 == count && i <= xs@.len() && p as int == p0 + enc_string_items(
                    xs@.take(i as int),
                ).len() && can_read(bytes@, pos as int + 8, enc_string_items(xs@))),
        decreases count - i,
    {
        let ghost gp = p as int;
        proof {
            assert forall|xs: Vec<String>|
                #[trigger] can_read(bytes@, pos as int, enc_u64(xs@.len() as u64) + enc_string_items(xs@))
                implies can_read(bytes@, gp, enc_str(xs@[i as int]@)) by {
                lemma_strings_split(xs@, i as int);
                lemma_can_read_split(
                    bytes@,
                    pos as int + 8,
                    enc_string_items(xs@.take(i as int)),
                    enc_string_items(xs@.skip(i as int)),
                );
                lemma_strings_cons(xs@, i as int);
                lemma_can_read_split(bytes@, gp, enc_str(xs@[i as int]@), enc_string_items(xs@.skip(i as int + 1)));
            }
        }
        let (x, p2) = match dec_str(bytes, p) {
            Some(v) => v,
            None => {
                proof {
                    assert forall|xs: Vec<String>|
                        !can_read(
                            bytes@,
                            pos as int,
                            enc_u64(xs@.len() as u64) + enc_string_items(xs@),
                        ) by {
                        if can_read(bytes@, pos as int, enc_u64(xs@.len() as u64) + enc_string_items(xs@)) {
                            assert(can_read(bytes@, gp, enc_str(xs@[i as int]@)));
                        }
                    }
                }
                return None;
            },
        };
        proof {
            assert(bytes@.subrange(p0 as int, p2 as int) =~= bytes@.subrange(p0 as int, p as int)
                + bytes@.subrange(p as int, p2 as int));
        }
        let ghost pre = out@;
        out.push(x);
        proof {
            assert(out@.drop_last() =~= pre);
            assert(enc_string_items(out@) == enc_string_items(pre) + enc_str(out@.last()@));
            assert forall|xs: Vec<String>|
                #[trigger] can_read(bytes@, pos as int, enc_u64(xs@.len() as u64) + enc_string_items(xs@))
                implies p2 as int == p0 + enc_string_items(xs@.take(i as int + 1)).len() by {
                assert(can_read(bytes@, gp, enc_str(xs@[i as int]@)));
                assert(p2 as int == gp + (enc_str(xs@[i as int]@)).len());
                assert(xs@.take(i as int + 1).drop_last() =~= xs@.take(i as int));
                assert(xs@.take(i as int + 1).last() == xs@[i as int]);
                assert(enc_string_items(xs@.take(i as int + 1)) == enc_string_items(xs@.take(i as int)) + (enc_str(xs@[i as int]@)));
            }
        }
        p = p2;
        i = i + 1;
    }
    proof {
        assert(bytes@.subrange(pos as int, p as int) =~= bytes@.subrange(pos as int, p0 as int)
            + bytes@.subrange(p0 as int, p as int));
        assert forall|xs: Vec<String>|
            #[trigger] can_read(bytes@, pos as int, enc_u64(xs@.len() as u64) + enc_string_items(xs@))
            implies p as int == pos + 8 + enc_string_items(xs@).len() by {
            assert(xs@.take(i as int) =~= xs@);
        }
    }
    Some((out, p))
}


#[verifier::rlimit(100)]
#[verifier::spinoff_prover]
proof fn lemma_node_conds_split(s: Seq<NodeCondition>, k: int)
    requires
        0 <= k <= s.len(),
    ensures
        enc_node_cond_items(s) == enc_node_cond_items(s.take(k)) + enc_node_cond_items(s.skip(k)),
    decreases s.len(),
{
    if k == s.len() {
        assert(s.take(k) =~= s);
        assert(s.skip(k) =~= Seq::<NodeCondition>::empty());
        assert(enc_node_cond_items(s) =~= enc_node_cond_items(s.take(k)) + enc_node_cond_items(s.skip(k)));
    } else {
        lemma_node_conds_split(s.drop_last(), k);
        assert(s.drop_last().take(k) =~= s.take(k));
        assert(s.skip(k).drop_last() =~= s.drop_last().skip(k));
        assert(s.skip(k).last() == s.last());
        assert(s.skip(k).len() > 0);
        assert(enc_node_cond_items(s) =~= enc_node_cond_items(s.take(k)) + enc_node_cond_items(s.skip(k)));
    }
}

#[verifier::rlimit(100)]
#[verifier::spinoff_prover]
proof fn lemma_node_conds_cons(s: Seq<NodeCondition>, k: int)
    requires
        0 <= k < s.len(),
    ensures
        enc_node_cond_items(s.skip(k)) == enc_node_cond(s[k]) + enc_node_cond_items(s.skip(k + 1)),
{
    lemma_node_conds_split(s.skip(k), 1);
    assert(s.skip(k).take(1) =~= seq![s[k]]);
    assert(s.skip(k).skip(1) =~= s.skip(k + 1));
    assert(seq![s[k]].drop_last() =~= Seq::<NodeCondition>::empty());
    assert(enc_node_cond_items(Seq::<NodeCondition>::empty()) =~= Seq::<u8>::empty());
    assert(enc_node_cond_items(seq![s[k]]) =~= enc_node_cond(s[k]));
}

#[verifier::rlimit(100)]
#[verifier::spinoff_prover]
proof fn lemma_node_conds_len_ge(s: Seq<NodeCondition>)
    ensures
        enc_node_cond_items(s).len() >= s.len(),
    decreases s.len(),
{
    if s.len() > 0 {
        lemma_node_conds_len_ge(s.drop_last());
        assert((enc_node_cond(s.last())).len() >= 1);
    }
}

#[verifier::rlimit(100)]
#[verifier::spinoff_prover]
fn dec_node_conds(bytes: &Vec<u8>, pos: usize) -> (r: Option<(Vec<NodeCondition>, usize)>)
    ensures
        match r {
            Some(v) => pos <= v.1 <= bytes@.len() && bytes@.subrange(pos as int, v.1 as int)
                == enc_u64(v.0@.len() as u64) + enc_node_cond_items(v.0@),
            None => true,
        },
        forall|xs: Vec<NodeCondition>|
            #[trigger] can_read(bytes@, pos as int, enc_u64(xs@.len() as u64) + enc_node_cond_items(xs@)) ==> (
            r matches Some(v) && v.1 == pos + 8 + enc_node_cond_items(xs@).len()),
{
    proof {
        assert(bytes@.len() == bytes.len());
        assert forall|xs: Vec<NodeCondition>|
            #[trigger] can_read(bytes@, pos as int, enc_u64(xs@.len() as u64) + enc_node_cond_items(xs@))
            implies can_read(bytes@, pos as int, enc_u64(xs@.len() as u64)) && can_read(
            bytes@,
            pos as int + 8,
            enc_node_cond_items(xs@),
        ) && xs@.len() <= bytes@.len() && enc_node_cond_items(xs@.take(0)).len() == 0 by {
            lemma_can_read_split(bytes@, pos as int, enc_u64(xs@.len() as u64), enc_node_cond_items(xs@));
            lemma_node_conds_len_ge(xs@);
            assert(xs@.take(0) =~= Seq::<NodeCondition>::empty());
        }
    }
    let (count, p0) = match dec_u64(bytes, pos) {
        Some(v) => v,
        None => {
            return None;
        },
    };
    proof {
        assert(enc_u64(count).len() == 8);
    }
    if count > bytes.len() as u64 {
        proof {
            assert forall|xs: Vec<NodeCondition>|
                !can_read(bytes@, pos as int, enc_u64(xs@.len() as u64) + enc_node_cond_items(xs@)) by {
                if can_read(bytes@, pos as int, enc_u64(xs@.len() as u64) + enc_node_cond_items(xs@)) {
                    assert(count == xs@.len() as u64);
                }
            }
        }
        return None;
    }
    let mut out: Vec<NodeCondition> = Vec::new();
    let mut p = p0;
    let mut i: u64 = 0;
    while i < count
        invariant
            0 <= i <= count,
            count <= bytes@.len(),
            out@.len() == i,
            pos <= p0 <= p <= bytes@.len(),
            p0 == pos + 8,
            bytes@.subrange(p0 as int, p as int) == enc_node_cond_items(out@),
            forall|xs: Vec<NodeCondition>|
                #[trigger] can_read(bytes@, pos as int, enc_u64(xs@.len() as u64) + enc_node_cond_items(xs@))
                    ==> (xs@.len() as u64 == count && i <= xs@.len() && p as int == p0 + enc_node_cond_items(
                    xs@.take(i as int),
                ).len() && can_read(bytes@, pos as int + 8, enc_node_cond_items(xs@))),
        decreases count - i,
    {
        let ghost gp = p as int;
        proof {
            assert forall|xs: Vec<NodeCondition>|
                #[trigger] can_read(bytes@, pos as int, enc_u64(xs@.len() as u64) + enc_node_cond_items(xs@))
                implies can_read(bytes@, gp, enc_node_cond(xs@[i as int])) by {
                lemma_node_conds_split(xs@, i as int);
                lemma_can_read_split(
                    bytes@,
                    pos as int + 8,
                    enc_node_cond_items(xs@.take(i as int)),
                    enc_node_cond_items(xs@.skip(i as int)),
                );
                lemma_node_conds_cons(xs@, i as int);
                lemma_can_read_split(bytes@, gp, enc_node_cond(xs@[i as int]), enc_node_cond_items(xs@.skip(i as int + 1)));
            }
        }
        let (x, p2) = match dec_node_cond(bytes, p) {
            Some(v) => v,
            None => {
                proof {
                    assert forall|xs: Vec<NodeCondition>|
                        !can_read(
                            bytes@,
                            pos as int,
                            enc_u64(xs@.len() as u64) + enc_node_cond_items(xs@),
                        ) by {
                        if can_read(bytes@, pos as int, enc_u64(xs@.len() as u64) + enc_node_cond_items(xs@)) {
                            assert(can_read(bytes@, gp, enc_node_cond(xs@[i as int])));
                        }
                    }
                }
                return None;
            },
        };
        proof {
            assert(bytes@.subrange(p0 as int, p2 as int) =~= bytes@.subrange(p0 as int, p as int)
                + bytes@.subrange(p as int, p2 as int));
        }
        let ghost pre = out@;
        out.push(x);
        proof {
            assert(out@.drop_last() =~= pre);
            assert(enc_node_cond_items(out@) == enc_node_cond_items(pre) + enc_node_cond(out@.last()));
            assert forall|xs: Vec<NodeCondition>|
                #[trigger] can_read(bytes@, pos as int, enc_u64(xs@.len() as u64) + enc_node_cond_items(xs@))
                implies p2 as int == p0 + enc_node_cond_items(xs@.take(i as int + 1)).len() by {
                assert(can_read(bytes@, gp, enc_node_cond(xs@[i as int])));
                assert(p2 as int == gp + (enc_node_cond(xs@[i as int])).len());
                assert(xs@.take(i as int + 1).drop_last() =~= xs@.take(i as int));
                assert(xs@.take(i as int + 1).last() == xs@[i as int]);
                assert(enc_node_cond_items(xs@.take(i as int + 1)) == enc_node_cond_items(xs@.take(i as int)) + (enc_node_cond(xs@[i as int])));
            }
        }
        p = p2;
        i = i + 1;
    }
    proof {
        assert(bytes@.subrange(pos as int, p as int) =~= bytes@.subrange(pos as int, p0 as int)
            + bytes@.subrange(p0 as int, p as int));
        assert forall|xs: Vec<NodeCondition>|
            #[trigger] can_read(bytes@, pos as int, enc_u64(xs@.len() as u64) + enc_node_cond_items(xs@))
            implies p as int == pos + 8 + enc_node_cond_items(xs@).len() by {
            assert(xs@.take(i as int) =~= xs@);
        }
    }
    Some((out, p))
}


#[verifier::rlimit(100)]
#[verifier::spinoff_prover]
proof fn lemma_conjs_split(s: Seq<NodeConjunction>, k: int)
    requires
        0 <= k <= s.len(),
    ensures
        enc_conj_items(s) == enc_conj_items(s.take(k)) + enc_conj_items(s.skip(k)),
    decreases s.len(),
{
    if k == s.len() {
        assert(s.take(k) =~= s);
        assert(s.skip(k) =~= Seq::<NodeConjunction>::empty());
        assert(enc_conj_items(s) =~= enc_conj_items(s.take(k)) + enc_conj_items(s.skip(k)));
    } else {
        lemma_conjs_split(s.drop_last(), k);
        assert(s.drop_last().take(k) =~= s.take(k));
        assert(s.skip(k).drop_last() =~= s.drop_last().skip(k));
        assert(s.skip(k).last() == s.last());
        assert(s.skip(k).len() > 0);
        assert(enc_conj_items(s) =~= enc_conj_items(s.take(k)) + enc_conj_items(s.skip(k)));
    }
}

#[verifier::rlimit(100)]
#[verifier::spinoff_prover]
proof fn lemma_conjs_cons(s: Seq<NodeConjunction>, k: int)
    requires
        0 <= k < s.len(),
    ensures
        enc_conj_items(s.skip(k)) == enc_conj(s[k]) + enc_conj_items(s.skip(k + 1)),
{
    lemma_conjs_split(s.skip(k), 1);
    assert(s.skip(k).take(1) =~= seq![s[k]]);
    assert(s.skip(k).skip(1) =~= s.skip(k + 1));
    assert(seq![s[k]].drop_last() =~= Seq::<NodeConjunction>::empty());
    assert(enc_conj_items(Seq::<NodeConjunction>::empty()) =~= Seq::<u8>::empty());
    assert(enc_conj_items(seq![s[k]]) =~= enc_conj(s[k]));
}

#[verifier::rlimit(100)]
#[verifier::spinoff_prover]
proof fn lemma_conjs_len_ge(s: Seq<NodeConjunction>)
    ensures
        enc_conj_items(s).len() >= s.len(),
    decreases s.len(),
{
    if s.len() > 0 {
        lemma_conjs_len_ge(s.drop_last());
        assert((enc_conj(s.last())).len() >= 1);
    }
}

#[verifier::rlimit(100)]
#[verifier::spinoff_prover]
fn dec_conjs(bytes: &Vec<u8>, pos: usize) -> (r: Option<(Vec<NodeConjunction>, usize)>)
    ensures
        match r {
            Some(v) => pos <= v.1 <= bytes@.len() && bytes@.subrange(pos as int, v.1 as int)
                == enc_u64(v.0@.len() as u64) + enc_conj_items(v.0@),
            None => true,
        },
        forall|xs: Vec<NodeConjunction>|
            #[trigger] can_read(bytes@, pos as int, enc_u64(xs@.len() as u64) + enc_conj_items(xs@)) ==> (
            r matches Some(v) && v.1 == pos + 8 + enc_conj_items(xs@).len()),
{
    proof {
        assert(bytes@.len() == bytes.len());
        assert forall|xs: Vec<NodeConjunction>|
            #[trigger] can_read(bytes@, pos as int, enc_u64(xs@.len() as u64) + enc_conj_items(xs@))
            implies can_read(bytes@, pos as int, enc_u64(xs@.len() as u64)) && can_read(
            bytes@,
            pos as int + 8,
            enc_conj_items(xs@),
        ) && xs@.len() <= bytes@.len() && enc_conj_items(xs@.take(0)).len() == 0 by {
            lemma_can_read_split(bytes@, pos as int, enc_u64(xs@.len() as u64), enc_conj_items(xs@));
            lemma_conjs_len_ge(xs@);
            assert(xs@.take(0) =~= Seq::<NodeConjunction>::empty());
        }
    }
    let (count, p0) = match dec_u64(bytes, pos) {
        Some(v) => v,
        None => {
            return None;
        },
    };
    proof {
        assert(enc_u64(count).len() == 8);
    }
    if count > bytes.len() as u64 {
        proof {
            assert forall|xs: Vec<NodeConjunction>|
                !can_read(bytes@, pos as int, enc_u64(xs@.len() as u64) + enc_conj_items(xs@)) by {
                if can_read(bytes@, pos as int, enc_u64(xs@.len() as u64) + enc_conj_items(xs@)) {
                    assert(count == xs@.len() as u64);
                }
            }
        }
        return None;
    }
    let mut out: Vec<NodeConjunction> = Vec::new();
    let mut p = p0;
    let mut i: u64 = 0;
    while i < count
        invariant
            0 <= i <= count,
            count <= bytes@.len(),
            out@.len() == i,
            pos <= p0 <= p <= bytes@.len(),
            p0 == pos + 8,
            bytes@.subrange(p0 as int, p as int) == enc_conj_items(out@),
            forall|xs: Vec<NodeConjunction>|
                #[trigger] can_read(bytes@, pos as int, enc_u64(xs@.len() as u64) + enc_conj_items(xs@))
                    ==> (xs@.len() as u64 == count && i <= xs@.len() && p as int == p0 + enc_conj_items(
                    xs@.take(i as int),
                ).len() && can_read(bytes@, pos as int + 8, enc_conj_items(xs@))),
        decreases count - i,
    {
        let ghost gp = p as int;
        proof {
            assert forall|xs: Vec<NodeConjunction>|
                #[trigger] can_read(bytes@, pos as int, enc_u64(xs@.len() as u64) + enc_conj_items(xs@))
                implies can_read(bytes@, gp, enc_conj(xs@[i as int])) by {
                lemma_conjs_split(xs@, i as int);
                lemma_can_read_split(
                    bytes@,
                    pos as int + 8,
                    enc_conj_items(xs@.take(i as int)),
                    enc_conj_items(xs@.skip(i as int)),
                );
                lemma_conjs_cons(xs@, i as int);
                lemma_can_read_split(bytes@, gp, enc_conj(xs@[i as int]), enc_conj_items(xs@.skip(i as int + 1)));
            }
        }
        let (x, p2) = match dec_conj(bytes, p) {
            Some(v) => v,
            None => {
                proof {
                    assert forall|xs: Vec<NodeConjunction>|
                        !can_read(
                            bytes@,
                            pos as int,
                            enc_u64(xs@.len() as u64) + enc_conj_items(xs@),
                        ) by {
                        if can_read(bytes@, pos as int, enc_u64(xs@.len() as u64) + enc_conj_items(xs@)) {
                            assert(can_read(bytes@, gp, enc_conj(xs@[i as int])));
                        }
                    }
                }
                return None;
            },
        };
        proof {
            assert(bytes@.subrange(p0 as int, p2 as int) =~= bytes@.subrange(p0 as int, p as int)
                + bytes@.subrange(p as int, p2 as int));
        }
        let ghost pre = out@;
        out.push(x);
        proof {
            assert(out@.drop_last() =~= pre);
            assert(enc_conj_items(out@) == enc_conj_items(pre) + enc_conj(out@.last()));
            assert forall|xs: Vec<NodeConjunction>|
                #[trigger] can_read(bytes@, pos as int, enc_u64(xs@.len() as u64) + enc_conj_items(xs@))
                implies p2 as int == p0 + enc_conj_items(xs@.take(i as int + 1)).len() by {
                assert(can_read(bytes@, gp, enc_conj(xs@[i as int])));
                assert(p2 as int == gp + (enc_conj(xs@[i as int])).len());
                assert(xs@.take(i as int + 1).drop_last() =~= xs@.take(i as int));
                assert(xs@.take(i as int + 1).last() == xs@[i as int]);
                assert(enc_conj_items(xs@.take(i as int + 1)) == enc_conj_items(xs@.take(i as int)) + (enc_conj(xs@[i as int])));
            }
        }
        p = p2;
        i = i + 1;
    }
    proof {
        assert(bytes@.subrange(pos as int, p as int) =~= bytes@.subrange(pos as int, p0 as int)
            + bytes@.subrange(p0 as int, p as int));
        assert forall|xs: Vec<NodeConjunction>|
            #[trigger] can_read(bytes@, pos as int, enc_u64(xs@.len() as u64) + enc_conj_items(xs@))
            implies p as int == pos + 8 + enc_conj_items(xs@).len() by {
            assert(xs@.take(i as int) =~= xs@);
        }
    }
    Some((out, p))
}


#[verifier::rlimit(100)]
#[verifier::spinoff_prover]
proof fn lemma_edge_conds_split(s: Seq<EdgeCondition>, k: int)
    requires
        0 <= k <= s.len(),
    ensures
        enc_edge_cond_items(s) == enc_edge_cond_items(s.take(k)) + enc_edge_cond_items(s.skip(k)),
    decreases s.len(),
{
    if k == s.len() {
        assert(s.take(k) =~= s);
        assert(s.skip(k) =~= Seq::<EdgeCondition>::empty());
        assert(enc_edge_cond_items(s) =~= enc_edge_cond_items(s.take(k)) + enc_edge_cond_items(s.skip(k)));
    } else {
        lemma_edge_conds_split(s.drop_last(), k);
        assert(s.drop_last().take(k) =~= s.take(k));
        assert(s.skip(k).drop_last() =~= s.drop_last().skip(k));
        assert(s.skip(k).last() == s.last());
        assert(s.skip(k).len() > 0);
        assert(enc_edge_cond_items(s) =~= enc_edge_cond_items(s.take(k)) + enc_edge_cond_items(s.skip(k)));
    }
}

#[verifier::rlimit(100)]
#[verifier::spinoff_prover]
proof fn lemma_edge_conds_cons(s: Seq<EdgeCondition>, k: int)
    requires
        0 <= k < s.len(),
    ensures
        enc_edge_cond_items(s.skip(k)) == enc_edge_cond(s[k]) + enc_edge_cond_items(s.skip(k + 1)),
{
    lemma_edge_conds_split(s.skip(k), 1);
    assert(s.skip(k).take(1) =~= seq![s[k]]);
    assert(s.skip(k).skip(1) =~= s.skip(k + 1));
    assert(seq![s[k]].drop_last() =~= Seq::<EdgeCondition>::empty());
    assert(enc_edge_cond_items(Seq::<EdgeCondition>::empty()) =~= Seq::<u8>::empty());
    assert(enc_edge_cond_items(seq![s[k]]) =~= enc_edge_cond(s[k]));
}

#[verifier::rlimit(100)]
#[verifier::spinoff_prover]
proof fn lemma_edge_conds_len_ge(s: Seq<EdgeCondition>)
    ensures
        enc_edge_cond_items(s).len() >= s.len(),
    decreases s.len(),
{
    if s.len() > 0 {
        lemma_edge_conds_len_ge(s.drop_last());
        assert((enc_edge_cond(s.last())).len() >= 1);
    }
}

#[verifier::rlimit(100)]
#[verifier::spinoff_prover]
fn dec_edge_conds(bytes: &Vec<u8>, pos: usize) -> (r: Option<(Vec<EdgeCondition>, usize)>)
    ensures
        match r {
            Some(v) => pos <= v.1 <= bytes@.len() && bytes@.subrange(pos as int, v.1 as int)
                == enc_u64(v.0@.len() as u64) + enc_edge_cond_items(v.0@),
            None => true,
        },
        forall|xs: Vec<EdgeCondition>|
            #[trigger] can_read(bytes@, pos as int, enc_u64(xs@.len() as u64) + enc_edge_cond_items(xs@)) ==> (
            r matches Some(v) && v.1 == pos + 8 + enc_edge_cond_items(xs@).len()),
{
    proof {
        assert(bytes@.len() == bytes.len());
        assert forall|xs: Vec<EdgeCondition>|
            #[trigger] can_read(bytes@, pos as int, enc_u64(xs@.len() as u64) + enc_edge_cond_items(xs@))
            implies can_read(bytes@, pos as int, enc_u64(xs@.len() as u64)) && can_read(
            bytes@,
            pos as int + 8,
            enc_edge_cond_items(xs@),
        ) && xs@.len() <= bytes@.len() && enc_edge_cond_items(xs@.take(0)).len() == 0 by {
            lemma_can_read_split(bytes@, pos as int, enc_u64(xs@.len() as u64), enc_edge_cond_items(xs@));
            lemma_edge_conds_len_ge(xs@);
            assert(xs@.take(0) =~= Seq::<EdgeCondition>::empty());
        }
    }
    let (count, p0) = match dec_u64(bytes, pos) {
        Some(v) => v,
        None => {
            return None;
        },
    };
    proof {
        assert(enc_u64(count).len() == 8);
    }
    if count > bytes.len() as u64 {
        proof {
            assert forall|xs: Vec<EdgeCondition>|
                !can_read(bytes@, pos as int, enc_u64(xs@.len() as u64) + enc_edge_cond_items(xs@)) by {
                if can_read(bytes@, pos as int, enc_u64(xs@.len() as u64) + enc_edge_cond_items(xs@)) {
                    assert(count == xs@.len() as u64);
                }
            }
        }
        return None;
    }
    let mut out: Vec<EdgeCondition> = Vec::new();
    let mut p = p0;
    let mut i: u64 = 0;
    while i < count
        invariant
            0 <= i <= count,
            count <= bytes@.len(),
            out@.len() == i,
            pos <= p0 <= p <= bytes@.len(),
            p0 == pos + 8,
            bytes@.subrange(p0 as int, p as int) == enc_edge_cond_items(out@),
            forall|xs: Vec<EdgeCondition>|
                #[trigger] can_read(bytes@, pos as int, enc_u64(xs@.len() as u64) + enc_edge_cond_items(xs@))
                    ==> (xs@.len() as u64 == count && i <= xs@.len() && p as int == p0 + enc_edge_cond_items(
                    xs@.take(i as int),
                ).len() && can_read(bytes@, pos as int + 8, enc_edge_cond_items(xs@))),
        decreases count - i,
    {
        let ghost gp = p as int;
        proof {
            assert forall|xs: Vec<EdgeCondition>|
                #[trigger] can_read(bytes@, pos as int, enc_u64(xs@.len() as u64) + enc_edge_cond_items(xs@))
                implies can_read(bytes@, gp, enc_edge_cond(xs@[i as int])) by {
                lemma_edge_conds_split(xs@, i as int);
                lemma_can_read_split(
                    bytes@,
                    pos as int + 8,
                    enc_edge_cond_items(xs@.take(i as int)),
                    enc_edge_cond_items(xs@.skip(i as int)),
                );
                lemma_edge_conds_cons(xs@, i as int);
                lemma_can_read_split(bytes@, gp, enc_edge_cond(xs@[i as int]), enc_edge_cond_items(xs@.skip(i as int + 1)));
            }
        }
        let (x, p2) = match dec_edge_cond(bytes, p) {
            Some(v) => v,
            None => {
                proof {
                    assert forall|xs: Vec<EdgeCondition>|
                        !can_read(
                            bytes@,
                            pos as int,
                            enc_u64(xs@.len() as u64) + enc_edge_cond_items(xs@),
                        ) by {
                        if can_read(bytes@, pos as int, enc_u64(xs@.len() as u64) + enc_edge_cond_items(xs@)) {
                            assert(can_read(bytes@, gp, enc_edge_cond(xs@[i as int])));
                        }
                    }
                }
                return None;
            },
        };
        proof {
            assert(bytes@.subrange(p0 as int, p2 as int) =~= bytes@.subrange(p0 as int, p as int)
                + bytes@.subrange(p as int, p2 as int));
        }
        let ghost pre = out@;
        out.push(x);
        proof {
            assert(out@.drop_last() =~= pre);
            assert(enc_edge_cond_items(out@) == enc_edge_cond_items(pre) + enc_edge_cond(out@.last()));
            assert forall|xs: Vec<EdgeCondition>|
                #[trigger] can_read(bytes@, pos as int, enc_u64(xs@.len() as u64) + enc_edge_cond_items(xs@))
                implies p2 as int == p0 + enc_edge_cond_items(xs@.take(i as int + 1)).len() by {
                assert(can_read(bytes@, gp, enc_edge_cond(xs@[i as int])));
                assert(p2 as int == gp + (enc_edge_cond(xs@[i as int])).len());
                assert(xs@.take(i as int + 1).drop_last() =~= xs@.take(i as int));
                assert(xs@.take(i as int + 1).last() == xs@[i as int]);
                assert(enc_edge_cond_items(xs@.take(i as int + 1)) == enc_edge_cond_items(xs@.take(i as int)) + (enc_edge_cond(xs@[i as int])));
            }
        }
        p = p2;
        i = i + 1;
    }
    proof {
        assert(bytes@.subrange(pos as int, p as int) =~= bytes@.subrange(pos as int, p0 as int)
            + bytes@.subrange(p0 as int, p as int));
        assert forall|xs: Vec<EdgeCondition>|
            #[trigger] can_read(bytes@, pos as int, enc_u64(xs@.len() as u64) + enc_edge_cond_items(xs@))
            implies p as int == pos + 8 + enc_edge_cond_items(xs@).len() by {
            assert(xs@.take(i as int) =~= xs@);
        }
    }
    Some((out, p))
}


#[verifier::rlimit(100)]
#[verifier::spinoff_prover]
proof fn lemma_block_conds_split(s: Seq<BlockCondition>, k: int)
    requires
        0 <= k <= s.len(),
    ensures
        enc_block_cond_items(s) == enc_block_cond_items(s.take(k)) + enc_block_cond_items(s.skip(k)),
    decreases s.len(),
{
    if k == s.len() {
        assert(s.take(k) =~= s);
        assert(s.skip(k) =~= Seq::<BlockCondition>::empty());
        assert(enc_block_cond_items(s) =~= enc_block_cond_items(s.take(k)) + enc_block_cond_items(s.skip(k)));
    } else {
        lemma_block_conds_split(s.drop_last(), k);
        assert(s.drop_last().take(k) =~= s.take(k));
        assert(s.skip(k).drop_last() =~= s.drop_last().skip(k));
        assert(s.skip(k).last() == s.last());
        assert(s.skip(k).len() > 0);
        assert(enc_block_cond_items(s) =~= enc_block_cond_items(s.take(k)) + enc_block_cond_items(s.skip(k)));
    }
}

#[verifier::rlimit(100)]
#[verifier::spinoff_prover]
proof fn lemma_block_conds_cons(s: Seq<BlockCondition>, k: int)
    requires
        0 <= k < s.len(),
    ensures
        enc_block_cond_items(s.skip(k)) == enc_reset(s[k].reset) + enc_block_cond_items(s.skip(k + 1)),
{
    lemma_block_conds_split(s.skip(k), 1);
    assert(s.skip(k).take(1) =~= seq![s[k]]);
    assert(s.skip(k).skip(1) =~= s.skip(k + 1));
    assert(seq![s[k]].drop_last() =~= Seq::<BlockCondition>::empty());
    assert(enc_block_cond_items(Seq::<BlockCondition>::empty()) =~= Seq::<u8>::empty());
    assert(enc_block_cond_items(seq![s[k]]) =~= enc_reset(s[k].reset));
}

#[verifier::rlimit(100)]
#[verifier::spinoff_prover]
proof fn lemma_block_conds_len_ge(s: Seq<BlockCondition>)
    ensures
        enc_block_cond_items(s).len() >= s.len(),
    decreases s.len(),
{
    if s.len() > 0 {
        lemma_block_conds_len_ge(s.drop_last());
        assert((enc_reset(s.last().reset)).len() >= 1);
    }
}

#[verifier::rlimit(100)]
#[verifier::spinoff_prover]
fn dec_block_conds(bytes: &Vec<u8>, pos: usize) -> (r: Option<(Vec<BlockCondition>, usize)>)
    ensures
        match r {
            Some(v) => pos <= v.1 <= bytes@.len() && bytes@.subrange(pos as int, v.1 as int)
                == enc_u64(v.0@.len() as u64) + enc_block_cond_items(v.0@),
            None => true,
        },
        forall|xs: Vec<BlockCondition>|
            #[trigger] can_read(bytes@, pos as int, enc_u64(xs@.len() as u64) + enc_block_cond_items(xs@)) ==> (
            r matches Some(v) && v.1 == pos + 8 + enc_block_cond_items(xs@).len()),
{
    proof {
        assert(bytes@.len() == bytes.len());
        assert forall|xs: Vec<BlockCondition>|
            #[trigger] can_read(bytes@, pos as int, enc_u64(xs@.len() as u64) + enc_block_cond_items(xs@))
            implies can_read(bytes@, pos as int, enc_u64(xs@.len() as u64)) && can_read(
            bytes@,
            pos as int + 8,
            enc_block_cond_items(xs@),
        ) && xs@.len() <= bytes@.len() && enc_block_cond_items(xs@.take(0)).len() == 0 by {
            lemma_can_read_split(bytes@, pos as int, enc_u64(xs@.len() as u64), enc_block_cond_items(xs@));
            lemma_block_conds_len_ge(xs@);
            assert(xs@.take(0) =~= Seq::<BlockCondition>::empty());
        }
    }
    let (count, p0) = match dec_u64(bytes, pos) {
        Some(v) => v,
        None => {
            return None;
        },
    };
    proof {
        assert(enc_u64(count).len() == 8);
    }
    if count > bytes.len() as u64 {
        proof {
            assert forall|xs: Vec<BlockCondition>|
                !can_read(bytes@, pos as int, enc_u64(xs@.len() as u64) + enc_block_cond_items(xs@)) by {
                if can_read(bytes@, pos as int, enc_u64(xs@.len() as u64) + enc_block_cond_items(xs@)) {
                    assert(count == xs@.len() as u64);
                }
            }
        }
        return None;
    }
    let mut out: Vec<BlockCondition> = Vec::new();
    let mut p = p0;
    let mut i: u64 = 0;
    while i < count
        invariant
            0 <= i <= count,
            count <= bytes@.len(),
            out@.len() == i,
            pos <= p0 <= p <= bytes@.len(),
            p0 == pos + 8,
            bytes@.subrange(p0 as int, p as int) == enc_block_cond_items(out@),
            forall|xs: Vec<BlockCondition>|
                #[trigger] can_read(bytes@, pos as int, enc_u64(xs@.len() as u64) + enc_block_cond_items(xs@))
                    ==> (xs@.len() as u64 == count && i <= xs@.len() && p as int == p0 + enc_block_cond_items(
                    xs@.take(i as int),
                ).len() && can_read(bytes@, pos as int + 8, enc_block_cond_items(xs@))),
        decreases count - i,
    {
        let ghost gp = p as int;
        proof {
            assert forall|xs: Vec<BlockCondition>|
                #[trigger] can_read(bytes@, pos as int, enc_u64(xs@.len() as u64) + enc_block_cond_items(xs@))
                implies can_read(bytes@, gp, enc_reset(xs@[i as int].reset)) by {
                lemma_block_conds_split(xs@, i as int);
                lemma_can_read_split(
                    bytes@,
                    pos as int + 8,
                    enc_block_cond_items(xs@.take(i as int)),
                    enc_block_cond_items(xs@.skip(i as int)),
                );
                lemma_block_conds_cons(xs@, i as int);
                lemma_can_read_split(bytes@, gp, enc_reset(xs@[i as int].reset), enc_block_cond_items(xs@.skip(i as int + 1)));
            }
        }
        let (x, p2) = match dec_block_cond(bytes, p) {
            Some(v) => v,
            None => {
                proof {
                    assert forall|xs: Vec<BlockCondition>|
                        !can_read(
                            bytes@,
                            pos as int,
                            enc_u64(xs@.len() as u64) + enc_block_cond_items(xs@),
                        ) by {
                        if can_read(bytes@, pos as int, enc_u64(xs@.len() as u64) + enc_block_cond_items(xs@)) {
                            assert(can_read(bytes@, gp, enc_reset(xs@[i as int].reset)));
                        }
                    }
                }
                return None;
            },
        };
        proof {
            assert(bytes@.subrange(p0 as int, p2 as int) =~= bytes@.subrange(p0 as int, p as int)
                + bytes@.subrange(p as int, p2 as int));
        }
        let ghost pre = out@;
        out.push(x);
        proof {
            assert(out@.drop_last() =~= pre);
            assert(enc_block_cond_items(out@) == enc_block_cond_items(pre) + enc_reset(out@.last().reset));
            assert forall|xs: Vec<BlockCondition>|
                #[trigger] can_read(bytes@, pos as int, enc_u64(xs@.len() as u64) + enc_block_cond_items(xs@))
                implies p2 as int == p0 + enc_block_cond_items(xs@.take(i as int + 1)).len() by {
                assert(can_read(bytes@, gp, enc_reset(xs@[i as int].reset)));
                assert(p2 as int == gp + (enc_reset(xs@[i as int].reset)).len());
                assert(xs@.take(i as int + 1).drop_last() =~= xs@.take(i as int));
                assert(xs@.take(i as int + 1).last() == xs@[i as int]);
                assert(enc_block_cond_items(xs@.take(i as int + 1)) == enc_block_cond_items(xs@.take(i as int)) + (enc_reset(xs@[i as int].reset)));
            }
        }
        p = p2;
        i = i + 1;
    }
    proof {
        assert(bytes@.subrange(pos as int, p as int) =~= bytes@.subrange(pos as int, p0 as int)
            + bytes@.subrange(p0 as int, p as int));
        assert forall|xs: Vec<BlockCondition>|
            #[trigger] can_read(bytes@, pos as int, enc_u64(xs@.len() as u64) + enc_block_cond_items(xs@))
            implies p as int == pos + 8 + enc_block_cond_items(xs@).len() by {
            assert(xs@.take(i as int) =~= xs@);
        }
    }
    Some((out, p))
}


#[verifier::rlimit(100)]
#[verifier::spinoff_prover]
proof fn lemma_preset_nodes_split(s: Seq<(Ref<Node>, NodeState)>, k: int)
    requires
        0 <= k <= s.len(),
    ensures
        enc_preset_node_items(s) == enc_preset_node_items(s.take(k)) + enc_preset_node_items(s.skip(k)),
    decreases s.len(),
{
    if k == s.len() {
        assert(s.take(k) =~= s);
        assert(s.skip(k) =~= Seq::<(Ref<Node>, NodeState)>::empty());
        assert(enc_preset_node_items(s) =~= enc_preset_node_items(s.take(k)) + enc_preset_node_items(s.skip(k)));
    } else {
        lemma_preset_nodes_split(s.drop_last(), k);
        assert(s.drop_last().take(k) =~= s.take(k));
        assert(s.skip(k).drop_last() =~= s.drop_last().skip(k));
        assert(s.skip(k).last() == s.last());
        assert(s.skip(k).len() > 0);
        assert(enc_preset_node_items(s) =~= enc_preset_node_items(s.take(k)) + enc_preset_node_items(s.skip(k)));
    }
}

#[verifier::rlimit(100)]
#[verifier::spinoff_prover]
proof fn lemma_preset_nodes_cons(s: Seq<(Ref<Node>, NodeState)>, k: int)
    requires
        0 <= k < s.len(),
    ensures
        enc_preset_node_items(s.skip(k)) == enc_ref(s[k].0) + enc_node_state(s[k].1) + enc_preset_node_items(s.skip(k + 1)),
{
    lemma_preset_nodes_split(s.skip(k), 1);
    assert(s.skip(k).take(1) =~= seq![s[k]]);
    assert(s.skip(k).skip(1) =~= s.skip(k + 1));
    assert(seq![s[k]].drop_last() =~= Seq::<(Ref<Node>, NodeState)>::empty());
    assert(enc_preset_node_items(Seq::<(Ref<Node>, NodeState)>::empty()) =~= Seq::<u8>::empty());
    assert(enc_preset_node_items(seq![s[k]]) =~= enc_ref(s[k].0) + enc_node_state(s[k].1));
}

#[verifier::rlimit(100)]
#[verifier::spinoff_prover]
proof fn lemma_preset_nodes_len_ge(s: Seq<(Ref<Node>, NodeState)>)
    ensures
        enc_preset_node_items(s).len() >= s.len(),
    decreases s.len(),
{
    if s.len() > 0 {
        lemma_preset_nodes_len_ge(s.drop_last());
        assert((enc_ref(s.last().0) + enc_node_state(s.last().1)).len() >= 1);
    }
}

#[verifier::rlimit(100)]
#[verifier::spinoff_prover]
fn dec_preset_nodes(bytes: &Vec<u8>, pos: usize) -> (r: Option<(Vec<(Ref<Node>, NodeState)>, usize)>)
    ensures
        match r {
            Some(v) => pos <= v.1 <= bytes@.len() && bytes@.subrange(pos as int, v.1 as int)
                == enc_u64(v.0@.len() as u64) + enc_preset_node_items(v.0@),
            None => true,
        },
        forall|xs: Vec<(Ref<Node>, NodeState)>|
            #[trigger] can_read(bytes@, pos as int, enc_u64(xs@.len() as u64) + enc_preset_node_items(xs@)) ==> (
            r matches Some(v) && v.1 == pos + 8 + enc_preset_node_items(xs@).len()),
{
    proof {
        assert(bytes@.len() == bytes.len());
        assert forall|xs: Vec<(Ref<Node>, NodeState)>|
            #[trigger] can_read(bytes@, pos as int, enc_u64(xs@.len() as u64) + enc_preset_node_items(xs@))
            implies can_read(bytes@, pos as int, enc_u64(xs@.len() as u64)) && can_read(
            bytes@,
            pos as int + 8,
            enc_preset_node_items(xs@),
        ) && xs@.len() <= bytes@.len() && enc_preset_node_items(xs@.take(0)).len() == 0 by {
            lemma_can_read_split(bytes@, pos as int, enc_u64(xs@.len() as u64), enc_preset_node_items(xs@));
            lemma_preset_nodes_len_ge(xs@);
            assert(xs@.take(0) =~= Seq::<(Ref<Node>, NodeState)>::empty());
        }
    }
    let (count, p0) = match dec_u64(bytes, pos) {
        Some(v) => v,
        None => {
            return None;
        },
    };
    proof {
        assert(enc_u64(count).len() == 8);
    }
    if count > bytes.len() as u64 {
        proof {
            assert forall|xs: Vec<(Ref<Node>, NodeState)>|
                !can_read(bytes@, pos as int, enc_u64(xs@.len() as u64) + enc_preset_node_items(xs@)) by {
                if can_read(bytes@, pos as int, enc_u64(xs@.len() as u64) + enc_preset_node_items(xs@)) {
                    assert(count == xs@.len() as u64);
                }
            }
        }
        return None;
    }
    let mut out: Vec<(Ref<Node>, NodeState)> = Vec::new();
    let mut p = p0;
    let mut i: u64 = 0;
    while i < count
        invariant
            0 <= i <= count,
            count <= bytes@.len(),
            out@.len() == i,
            pos <= p0 <= p <= bytes@.len(),
            p0 == pos + 8,
            bytes@.subrange(p0 as int, p as int) == enc_preset_node_items(out@),
            forall|xs: Vec<(Ref<Node>, NodeState)>|
                #[trigger] can_read(bytes@, pos as int, enc_u64(xs@.len() as u64) + enc_preset_node_items(xs@))
                    ==> (xs@.len() as u64 == count && i <= xs@.len() && p as int == p0 + enc_preset_node_items(
                    xs@.take(i as int),
                ).len() && can_read(bytes@, pos as int + 8, enc_preset_node_items(xs@))),
        decreases count - i,
    {
        let ghost gp = p as int;
        proof {
            assert forall|xs: Vec<(Ref<Node>, NodeState)>|
                #[trigger] can_read(bytes@, pos as int, enc_u64(xs@.len() as u64) + enc_preset_node_items(xs@))
                implies can_read(bytes@, gp, (enc_ref(xs@[i as int].0) + enc_node_state(xs@[i as int].1))) by {
                lemma_preset_nodes_split(xs@, i as int);
                lemma_can_read_split(
                    bytes@,
                    pos as int + 8,
                    enc_preset_node_items(xs@.take(i as int)),
                    enc_preset_node_items(xs@.skip(i as int)),
                );
                lemma_preset_nodes_cons(xs@, i as int);
                lemma_can_read_split(bytes@, gp, (enc_ref(xs@[i as int].0) + enc_node_state(xs@[i as int].1)), enc_preset_node_items(xs@.skip(i as int + 1)));
            }
        }
        let (x, p2) = match dec_preset_node(bytes, p) {
            Some(v) => v,
            None => {
                proof {
                    assert forall|xs: Vec<(Ref<Node>, NodeState)>|
                        !can_read(
                            bytes@,
                            pos as int,
                            enc_u64(xs@.len() as u64) + enc_preset_node_items(xs@),
                        ) by {
                        if can_read(bytes@, pos as int, enc_u64(xs@.len() as u64) + enc_preset_node_items(xs@)) {
                            assert(can_read(bytes@, gp, (enc_ref(xs@[i as int].0) + enc_node_state(xs@[i as int].1))));
                        }
                    }
                }
                return None;
            },
        };
        proof {
            assert(bytes@.subrange(p0 as int, p2 as int) =~= bytes@.subrange(p0 as int, p as int)
                + bytes@.subrange(p as int, p2 as int));
        }
        let ghost pre = out@;
        out.push(x);
        proof {
            assert(out@.drop_last() =~= pre);
            assert(enc_preset_node_items(out@) == enc_preset_node_items(pre) + enc_ref(out@.last().0) + enc_node_state(out@.last().1));
            assert forall|xs: Vec<(Ref<Node>, NodeState)>|
                #[trigger] can_read(bytes@, pos as int, enc_u64(xs@.len() as u64) + enc_preset_node_items(xs@))
                implies p2 as int == p0 + enc_preset_node_items(xs@.take(i as int + 1)).len() by {
                assert(can_read(bytes@, gp, (enc_ref(xs@[i as int].0) + enc_node_state(xs@[i as int].1))));
                assert(p2 as int == gp + ((enc_ref(xs@[i as int].0) + enc_node_state(xs@[i as int].1))).len());
                assert(xs@.take(i as int + 1).drop_last() =~= xs@.take(i as int));
                assert(xs@.take(i as int + 1).last() == xs@[i as int]);
                assert(enc_preset_node_items(xs@.take(i as int + 1)) == enc_preset_node_items(xs@.take(i as int)) + ((enc_ref(xs@[i as int].0) + enc_node_state(xs@[i as int].1))));
            }
        }
        p = p2;
        i = i + 1;
    }
    proof {
        assert(bytes@.subrange(pos as int, p as int) =~= bytes@.subrange(pos as int, p0 as int)
            + bytes@.subrange(p0 as int, p as int));
        assert forall|xs: Vec<(Ref<Node>, NodeState)>|
            #[trigger] can_read(bytes@, pos as int, enc_u64(xs@.len() as u64) + enc_preset_node_items(xs@))
            implies p as int == pos + 8 + enc_preset_node_items(xs@).len() by {
            assert(xs@.take(i as int) =~= xs@);
        }
    }
    Some((out, p))
}


#[verifier::rlimit(100)]
#[verifier::spinoff_prover]
proof fn lemma_preset_blocks_split(s: Seq<(Ref<Block>, BlockState)>, k: int)
    requires
        0 <= k <= s.len(),
    ensures
        enc_preset_block_items(s) == enc_preset_block_items(s.take(k)) + enc_preset_block_items(s.skip(k)),
    decreases s.len(),
{
    if k == s.len() {
        assert(s.take(k) =~= s);
        assert(s.skip(k) =~= Seq::<(Ref<Block>, BlockState)>::empty());
        assert(enc_preset_block_items(s) =~= enc_preset_block_items(s.take(k)) + enc_preset_block_items(s.skip(k)));
    } else {
        lemma_preset_blocks_split(s.drop_last(), k);
        assert(s.drop_last().take(k) =~= s.take(k));
        assert(s.skip(k).drop_last() =~= s.drop_last().skip(k));
        assert(s.skip(k).last() == s.last());
        assert(s.skip(k).len() > 0);
        assert(enc_preset_block_items(s) =~= enc_preset_block_items(s.take(k)) + enc_preset_block_items(s.skip(k)));
    }
}

#[verifier::rlimit(100)]
#[verifier::spinoff_prover]
proof fn lemma_preset_blocks_cons(s: Seq<(Ref<Block>, BlockState)>, k: int)
    requires
        0 <= k < s.len(),
    ensures
        enc_preset_block_items(s.skip(k)) == enc_ref(s[k].0) + enc_block_state(s[k].1) + enc_preset_block_items(s.skip(k + 1)),
{
    lemma_preset_blocks_split(s.skip(k), 1);
    assert(s.skip(k).take(1) =~= seq![s[k]]);
    assert(s.skip(k).skip(1) =~= s.skip(k + 1));
    assert(seq![s[k]].drop_last() =~= Seq::<(Ref<Block>, BlockState)>::empty());
    assert(enc_preset_block_items(Seq::<(Ref<Block>, BlockState)>::empty()) =~= Seq::<u8>::empty());
    assert(enc_preset_block_items(seq![s[k]]) =~= enc_ref(s[k].0) + enc_block_state(s[k].1));
}

#[verifier::rlimit(100)]
#[verifier::spinoff_prover]
proof fn lemma_preset_blocks_len_ge(s: Seq<(Ref<Block>, BlockState)>)
    ensures
        enc_preset_block_items(s).len() >= s.len(),
    decreases s.len(),
{
    if s.len() > 0 {
        lemma_preset_blocks_len_ge(s.drop_last());
        assert((enc_ref(s.last().0) + enc_block_state(s.last().1)).len() >= 1);
    }
}

#[verifier::rlimit(100)]
#[verifier::spinoff_prover]
fn dec_preset_blocks(bytes: &Vec<u8>, pos: usize) -> (r: Option<(Vec<(Ref<Block>, BlockState)>, usize)>)
    ensures
        match r {
            Some(v) => pos <= v.1 <= bytes@.len() && bytes@.subrange(pos as int, v.1 as int)
                == enc_u64(v.0@.len() as u64) + enc_preset_block_items(v.0@),
            None => true,
        },
        forall|xs: Vec<(Ref<Block>, BlockState)>|
            #[trigger] can_read(bytes@, pos as int, enc_u64(xs@.len() as u64) + enc_preset_block_items(xs@)) ==> (
            r matches Some(v) && v.1 == pos + 8 + enc_preset_block_items(xs@).len()),
{
    proof {
        assert(bytes@.len() == bytes.len());
        assert forall|xs: Vec<(Ref<Block>, BlockState)>|
            #[trigger] can_read(bytes@, pos as int, enc_u64(xs@.len() as u64) + enc_preset_block_items(xs@))
            implies can_read(bytes@, pos as int, enc_u64(xs@.len() as u64)) && can_read(
            bytes@,
            pos as int + 8,
            enc_preset_block_items(xs@),
        ) && xs@.len() <= bytes@.len() && enc_preset_block_items(xs@.take(0)).len() == 0 by {
            lemma_can_read_split(bytes@, pos as int, enc_u64(xs@.len() as u64), enc_preset_block_items(xs@));
            lemma_preset_blocks_len_ge(xs@);
            assert(xs@.take(0) =~= Seq::<(Ref<Block>, BlockState)>::empty());
        }
    }
    let (count, p0) = match dec_u64(bytes, pos) {
        Some(v) => v,
        None => {
            return None;
        },
    };
    proof {
        assert(enc_u64(count).len() == 8);
    }
    if count > bytes.len() as u64 {
        proof {
            assert forall|xs: Vec<(Ref<Block>, BlockState)>|
                !can_read(bytes@, pos as int, enc_u64(xs@.len() as u64) + enc_preset_block_items(xs@)) by {
                if can_read(bytes@, pos as int, enc_u64(xs@.len() as u64) + enc_preset_block_items(xs@)) {
                    assert(count == xs@.len() as u64);
                }
            }
        }
        return None;
    }
    let mut out: Vec<(Ref<Block>, BlockState)> = Vec::new();
    let mut p = p0;
    let mut i: u64 = 0;
    while i < count
        invariant
            0 <= i <= count,
            count <= bytes@.len(),
            out@.len() == i,
            pos <= p0 <= p <= bytes@.len(),
            p0 == pos + 8,
            bytes@.subrange(p0 as int, p as int) == enc_preset_block_items(out@),
            forall|xs: Vec<(Ref<Block>, BlockState)>|
                #[trigger] can_read(bytes@, pos as int, enc_u64(xs@.len() as u64) + enc_preset_block_items(xs@))
                    ==> (xs@.len() as u64 == count && i <= xs@.len() && p as int == p0 + enc_preset_block_items(
                    xs@.take(i as int),
                ).len() && can_read(bytes@, pos as int + 8, enc_preset_block_items(xs@))),
        decreases count - i,
    {
        let ghost gp = p as int;
        proof {
            assert forall|xs: Vec<(Ref<Block>, BlockState)>|
                #[trigger] can_read(bytes@, pos as int, enc_u64(xs@.len() as u64) + enc_preset_block_items(xs@))
                implies can_read(bytes@, gp, (enc_ref(xs@[i as int].0) + enc_block_state(xs@[i as int].1))) by {
                lemma_preset_blocks_split(xs@, i as int);
                lemma_can_read_split(
                    bytes@,
                    pos as int + 8,
                    enc_preset_block_items(xs@.take(i as int)),
                    enc_preset_block_items(xs@.skip(i as int)),
                );
                lemma_preset_blocks_cons(xs@, i as int);
                lemma_can_read_split(bytes@, gp, (enc_ref(xs@[i as int].0) + enc_block_state(xs@[i as int].1)), enc_preset_block_items(xs@.skip(i as int + 1)));
            }
        }
        let (x, p2) = match dec_preset_block(bytes, p) {
            Some(v) => v,
            None => {
                proof {
                    assert forall|xs: Vec<(Ref<Block>, BlockState)>|
                        !can_read(
                            bytes@,
                            pos as int,
                            enc_u64(xs@.len() as u64) + enc_preset_block_items(xs@),
                        ) by {
                        if can_read(bytes@, pos as int, enc_u64(xs@.len() as u64) + enc_preset_block_items(xs@)) {
                            assert(can_read(bytes@, gp, (enc_ref(xs@[i as int].0) + enc_block_state(xs@[i as int].1))));
                        }
                    }
                }
                return None;
            },
        };
        proof {
            assert(bytes@.subrange(p0 as int, p2 as int) =~= bytes@.subrange(p0 as int, p as int)
                + bytes@.subrange(p as int, p2 as int));
        }
        let ghost pre = out@;
        out.push(x);
        proof {
            assert(out@.drop_last() =~= pre);
            assert(enc_preset_block_items(out@) == enc_preset_block_items(pre) + enc_ref(out@.last().0) + enc_block_state(out@.last().1));
            assert forall|xs: Vec<(Ref<Block>, BlockState)>|
                #[trigger] can_read(bytes@, pos as int, enc_u64(xs@.len() as u64) + enc_preset_block_items(xs@))
                implies p2 as int == p0 + enc_preset_block_items(xs@.take(i as int + 1)).len() by {
                assert(can_read(bytes@, gp, (enc_ref(xs@[i as int].0) + enc_block_state(xs@[i as int].1))));
                assert(p2 as int == gp + ((enc_ref(xs@[i as int].0) + enc_block_state(xs@[i as int].1))).len());
                assert(xs@.take(i as int + 1).drop_last() =~= xs@.take(i as int));
                assert(xs@.take(i as int + 1).last() == xs@[i as int]);
                assert(enc_preset_block_items(xs@.take(i as int + 1)) == enc_preset_block_items(xs@.take(i as int)) + ((enc_ref(xs@[i as int].0) + enc_block_state(xs@[i as int].1))));
            }
        }
        p = p2;
        i = i + 1;
    }
    proof {
        assert(bytes@.subrange(pos as int, p as int) =~= bytes@.subrange(pos as int, p0 as int)
            + bytes@.subrange(p0 as int, p as int));
        assert forall|xs: Vec<(Ref<Block>, BlockState)>|
            #[trigger] can_read(bytes@, pos as int, enc_u64(xs@.len() as u64) + enc_preset_block_items(xs@))
            implies p as int == pos + 8 + enc_preset_block_items(xs@).len() by {
            assert(xs@.take(i as int) =~= xs@);
        }
    }
    Some((out, p))
}


#[verifier::rlimit(100)]
#[verifier::spinoff_prover]
proof fn lemma_presets_split(s: Seq<Preset>, k: int)
    requires
        0 <= k <= s.len(),
    ensures
        enc_preset_items(s) == enc_preset_items(s.take(k)) + enc_preset_items(s.skip(k)),
    decreases s.len(),
{
    if k == s.len() {
        assert(s.take(k) =~= s);
        assert(s.skip(k) =~= Seq::<Preset>::empty());
        assert(enc_preset_items(s) =~= enc_preset_items(s.take(k)) + enc_preset_items(s.skip(k)));
    } else {
        lemma_presets_split(s.drop_last(), k);
        assert(s.drop_last().take(k) =~= s.take(k));
        assert(s.skip(k).drop_last() =~= s.drop_last().skip(k));
        assert(s.skip(k).last() == s.last());
        assert(s.skip(k).len() > 0);
        assert(enc_preset_items(s) =~= enc_preset_items(s.take(k)) + enc_preset_items(s.skip(k)));
    }
}

#[verifier::rlimit(100)]
#[verifier::spinoff_prover]
proof fn lemma_presets_cons(s: Seq<Preset>, k: int)
    requires
        0 <= k < s.len(),
    ensures
        enc_preset_items(s.skip(k)) == enc_preset(s[k]) + enc_preset_items(s.skip(k + 1)),
{
    lemma_presets_split(s.skip(k), 1);
    assert(s.skip(k).take(1) =~= seq![s[k]]);
    assert(s.skip(k).skip(1) =~= s.skip(k + 1));
    assert(seq![s[k]].drop_last() =~= Seq::<Preset>::empty());
    assert(enc_preset_items(Seq::<Preset>::empty()) =~= Seq::<u8>::empty());
    assert(enc_preset_items(seq![s[k]]) =~= enc_preset(s[k]));
}

#[verifier::rlimit(100)]
#[verifier::spinoff_prover]
proof fn lemma_presets_len_ge(s: Seq<Preset>)
    ensures
        enc_preset_items(s).len() >= s.len(),
    decreases s.len(),
{
    if s.len() > 0 {
        lemma_presets_len_ge(s.drop_last());
        assert((enc_preset(s.last())).len() >= 1);
    }
}

#[verifier::rlimit(100)]
#[verifier::spinoff_prover]
fn dec_presets(bytes: &Vec<u8>, pos: usize) -> (r: Option<(Vec<Preset>, usize)>)
    ensures
        match r {
            Some(v) => pos <= v.1 <= bytes@.len() && bytes@.subrange(pos as int, v.1 as int)
                == enc_u64(v.0@.len() as u64) + enc_preset_items(v.0@),
            None => true,
        },
        forall|xs: Vec<Preset>|
            #[trigger] can_read(bytes@, pos as int, enc_u64(xs@.len() as u64) + enc_preset_items(xs@)) ==> (
            r matches Some(v) && v.1 == pos + 8 + enc_preset_items(xs@).len()),
{
    proof {
        assert(bytes@.len() == bytes.len());
        assert forall|xs: Vec<Preset>|
            #[trigger] can_read(bytes@, pos as int, enc_u64(xs@.len() as u64) + enc_preset_items(xs@))
            implies can_read(bytes@, pos as int, enc_u64(xs@.len() as u64)) && can_read(
            bytes@,
            pos as int + 8,
            enc_preset_items(xs@),
        ) && xs@.len() <= bytes@.len() && enc_preset_items(xs@.take(0)).len() == 0 by {
            lemma_can_read_split(bytes@, pos as int, enc_u64(xs@.len() as u64), enc_preset_items(xs@));
            lemma_presets_len_ge(xs@);
            assert(xs@.take(0) =~= Seq::<Preset>::empty());
        }
    }
    let (count, p0) = match dec_u64(bytes, pos) {
        Some(v) => v,
        None => {
            return None;
        },
    };
    proof {
        assert(enc_u64(count).len() == 8);
    }
    if count > bytes.len() as u64 {
        proof {
            assert forall|xs: Vec<Preset>|
                !can_read(bytes@, pos as int, enc_u64(xs@.len() as u64) + enc_preset_items(xs@)) by {
                if can_read(bytes@, pos as int, enc_u64(xs@.len() as u64) + enc_preset_items(xs@)) {
                    assert(count == xs@.len() as u64);
                }
            }
        }
        return None;
    }
    let mut out: Vec<Preset> = Vec::new();
    let mut p = p0;
    let mut i: u64 = 0;
    while i < count
        invariant
            0 <= i <= count,
            count <= bytes@.len(),
            out@.len() == i,
            pos <= p0 <= p <= bytes@.len(),
            p0 == pos + 8,
            bytes@.subrange(p0 as int, p as int) == enc_preset_items(out@),
            forall|xs: Vec<Preset>|
                #[trigger] can_read(bytes@, pos as int, enc_u64(xs@.len() as u64) + enc_preset_items(xs@))
                    ==> (xs@.len() as u64 == count && i <= xs@.len() && p as int == p0 + enc_preset_items(
                    xs@.take(i as int),
                ).len() && can_read(bytes@, pos as int + 8, enc_preset_items(xs@))),
        decreases count - i,
    {
        let ghost gp = p as int;
        proof {
            assert forall|xs: Vec<Preset>|
                #[trigger] can_read(bytes@, pos as int, enc_u64(xs@.len() as u64) + enc_preset_items(xs@))
                implies can_read(bytes@, gp, enc_preset(xs@[i as int])) by {
                lemma_presets_split(xs@, i as int);
                lemma_can_read_split(
                    bytes@,
                    pos as int + 8,
                    enc_preset_items(xs@.take(i as int)),
                    enc_preset_items(xs@.skip(i as int)),
                );
                lemma_presets_cons(xs@, i as int);
                lemma_can_read_split(bytes@, gp, enc_preset(xs@[i as int]), enc_preset_items(xs@.skip(i as int + 1)));
            }
        }
        let (x, p2) = match dec_preset(bytes, p) {
            Some(v) => v,
            None => {
                proof {
                    assert forall|xs: Vec<Preset>|
                        !can_read(
                            bytes@,
                            pos as int,
                            enc_u64(xs@.len() as u64) + enc_preset_items(xs@),
                        ) by {
                        if can_read(bytes@, pos as int, enc_u64(xs@.len() as u64) + enc_preset_items(xs@)) {
                            assert(can_read(bytes@, gp, enc_preset(xs@[i as int])));
                        }
                    }
                }
                return None;
            },
        };
        proof {
            assert(bytes@.subrange(p0 as int, p2 as int) =~= bytes@.subrange(p0 as int, p as int)
                + bytes@.subrange(p as int, p2 as int));
        }
        let ghost pre = out@;
        out.push(x);
        proof {
            assert(out@.drop_last() =~= pre);
            assert(enc_preset_items(out@) == enc_preset_items(pre) + enc_preset(out@.last()));
            assert forall|xs: Vec<Preset>|
                #[trigger] can_read(bytes@, pos as int, enc_u64(xs@.len() as u64) + enc_preset_items(xs@))
                implies p2 as int == p0 + enc_preset_items(xs@.take(i as int + 1)).len() by {
                assert(can_read(bytes@, gp, enc_preset(xs@[i as int])));
                assert(p2 as int == gp + (enc_preset(xs@[i as int])).len());
                assert(xs@.take(i as int + 1).drop_last() =~= xs@.take(i as int));
                assert(xs@.take(i as int + 1).last() == xs@[i as int]);
                assert(enc_preset_items(xs@.take(i as int + 1)) == enc_preset_items(xs@.take(i as int)) + (enc_preset(xs@[i as int])));
            }
        }
        p = p2;
        i = i + 1;
    }
    proof {
        assert(bytes@.subrange(pos as int, p as int) =~= bytes@.subrange(pos as int, p0 as int)
            + bytes@.subrange(p0 as int, p as int));
        assert forall|xs: Vec<Preset>|
            #[trigger] can_read(bytes@, pos as int, enc_u64(xs@.len() as u64) + enc_preset_items(xs@))
            implies p as int == pos + 8 + enc_preset_items(xs@).len() by {
            assert(xs@.take(i as int) =~= xs@);
        }
    }
    Some((out, p))
}


#[verifier::rlimit(100)]
#[verifier::spinoff_prover]
proof fn lemma_elements_split(s: Seq<Element>, k: int)
    requires
        0 <= k <= s.len(),
    ensures
        enc_element_items(s) == enc_element_items(s.take(k)) + enc_element_items(s.skip(k)),
    decreases s.len(),
{
    if k == s.len() {
        assert(s.take(k) =~= s);
        assert(s.skip(k) =~= Seq::<Element>::empty());
        assert(enc_element_items(s) =~= enc_element_items(s.take(k)) + enc_element_items(s.skip(k)));
    } else {
        lemma_elements_split(s.drop_last(), k);
        assert(s.drop_last().take(k) =~= s.take(k));
        assert(s.skip(k).drop_last() =~= s.drop_last().skip(k));
        assert(s.skip(k).last() == s.last());
        assert(s.skip(k).len() > 0);
        assert(enc_element_items(s) =~= enc_element_items(s.take(k)) + enc_element_items(s.skip(k)));
    }
}

#[verifier::rlimit(100)]
#[verifier::spinoff_prover]
proof fn lemma_elements_cons(s: Seq<Element>, k: int)
    requires
        0 <= k < s.len(),
    ensures
        enc_element_items(s.skip(k)) == enc_element(s[k]) + enc_element_items(s.skip(k + 1)),
{
    lemma_elements_split(s.skip(k), 1);
    assert(s.skip(k).take(1) =~= seq![s[k]]);
    assert(s.skip(k).skip(1) =~= s.skip(k + 1));
    assert(seq![s[k]].drop_last() =~= Seq::<Element>::empty());
    assert(enc_element_items(Seq::<Element>::empty()) =~= Seq::<u8>::empty());
    assert(enc_element_items(seq![s[k]]) =~= enc_element(s[k]));
}

#[verifier::rlimit(100)]
#[verifier::spinoff_prover]
proof fn lemma_elements_len_ge(s: Seq<Element>)
    ensures
        enc_element_items(s).len() >= s.len(),
    decreases s.len(),
{
    if s.len() > 0 {
        lemma_elements_len_ge(s.drop_last());
        assert((enc_element(s.last())).len() >= 1);
    }
}

#[verifier::rlimit(100)]
#[verifier::spinoff_prover]
fn dec_elements(bytes: &Vec<u8>, pos: usize) -> (r: Option<(Vec<Element>, usize)>)
    ensures
        match r {
            Some(v) => pos <= v.1 <= bytes@.len() && bytes@.subrange(pos as int, v.1 as int)
                == enc_u64(v.0@.len() as u64) + enc_element_items(v.0@),
            None => true,
        },
        forall|xs: Vec<Element>|
            #[trigger] can_read(bytes@, pos as int, enc_u64(xs@.len() as u64) + enc_element_items(xs@)) ==> (
            r matches Some(v) && v.1 == pos + 8 + enc_element_items(xs@).len()),
{
    proof {
        assert(bytes@.len() == bytes.len());
        assert forall|xs: Vec<Element>|
            #[trigger] can_read(bytes@, pos as int, enc_u64(xs@.len() as u64) + enc_element_items(xs@))
            implies can_read(bytes@, pos as int, enc_u64(xs@.len() as u64)) && can_read(
            bytes@,
            pos as int + 8,
            enc_element_items(xs@),
        ) && xs@.len() <= bytes@.len() && enc_element_items(xs@.take(0)).len() == 0 by {
            lemma_can_read_split(bytes@, pos as int, enc_u64(xs@.len() as u64), enc_element_items(xs@));
            lemma_elements_len_ge(xs@);
            assert(xs@.take(0) =~= Seq::<Element>::empty());
        }
    }
    let (count, p0) = match dec_u64(bytes, pos) {
        Some(v) => v,
        None => {
            return None;
        },
    };
    proof {
        assert(enc_u64(count).len() == 8);
    }
    if count > bytes.len() as u64 {
        proof {
            assert forall|xs: Vec<Element>|
                !can_read(bytes@, pos as int, enc_u64(xs@.len() as u64) + enc_element_items(xs@)) by {
                if can_read(bytes@, pos as int, enc_u64(xs@.len() as u64) + enc_element_items(xs@)) {
                    assert(count == xs@.len() as u64);
                }
            }
        }
        return None;
    }
    let mut out: Vec<Element> = Vec::new();
    let mut p = p0;
    let mut i: u64 = 0;
    while i < count
        invariant
            0 <= i <= count,
            count <= bytes@.len(),
            out@.len() == i,
            pos <= p0 <= p <= bytes@.len(),
            p0 == pos + 8,
            bytes@.subrange(p0 as int, p as int) == enc_element_items(out@),
            forall|xs: Vec<Element>|
                #[trigger] can_read(bytes@, pos as int, enc_u64(xs@.len() as u64) + enc_element_items(xs@))
                    ==> (xs@.len() as u64 == count && i <= xs@.len() && p as int == p0 + enc_element_items(
                    xs@.take(i as int),
                ).len() && can_read(bytes@, pos as int + 8, enc_element_items(xs@))),
        decreases count - i,
    {
        let ghost gp = p as int;
        proof {
            assert forall|xs: Vec<Element>|
                #[trigger] can_read(bytes@, pos as int, enc_u64(xs@.len() as u64) + enc_element_items(xs@))
                implies can_read(bytes@, gp, enc_element(xs@[i as int])) by {
                lemma_elements_split(xs@, i as int);
                lemma_can_read_split(
                    bytes@,
                    pos as int + 8,
                    enc_element_items(xs@.take(i as int)),
                    enc_element_items(xs@.skip(i as int)),
                );
                lemma_elements_cons(xs@, i as int);
                lemma_can_read_split(bytes@, gp, enc_element(xs@[i as int]), enc_element_items(xs@.skip(i as int + 1)));
            }
        }
        let (x, p2) = match dec_element(bytes, p) {
            Some(v) => v,
            None => {
                proof {
                    assert forall|xs: Vec<Element>|
                        !can_read(
                            bytes@,
                            pos as int,
                            enc_u64(xs@.len() as u64) + enc_element_items(xs@),
                        ) by {
                        if can_read(bytes@, pos as int, enc_u64(xs@.len() as u64) + enc_element_items(xs@)) {
                            assert(can_read(bytes@, gp, enc_element(xs@[i as int])));
                        }
                    }
                }
                return None;
            },
        };
        proof {
            assert(bytes@.subrange(p0 as int, p2 as int) =~= bytes@.subrange(p0 as int, p as int)
                + bytes@.subrange(p as int, p2 as int));
        }
        let ghost pre = out@;
        out.push(x);
        proof {
            assert(out@.drop_last() =~= pre);
            assert(enc_element_items(out@) == enc_element_items(pre) + enc_element(out@.last()));
            assert forall|xs: Vec<Element>|
                #[trigger] can_read(bytes@, pos as int, enc_u64(xs@.len() as u64) + enc_element_items(xs@))
                implies p2 as int == p0 + enc_element_items(xs@.take(i as int + 1)).len() by {
                assert(can_read(bytes@, gp, enc_element(xs@[i as int])));
                assert(p2 as int == gp + (enc_element(xs@[i as int])).len());
                assert(xs@.take(i as int + 1).drop_last() =~= xs@.take(i as int));
                assert(xs@.take(i as int + 1).last() == xs@[i as int]);
                assert(enc_element_items(xs@.take(i as int + 1)) == enc_element_items(xs@.take(i as int)) + (enc_element(xs@[i as int])));
            }
        }
        p = p2;
        i = i + 1;
    }
    proof {
        assert(bytes@.subrange(pos as int, p as int) =~= bytes@.subrange(pos as int, p0 as int)
            + bytes@.subrange(p0 as int, p as int));
        assert forall|xs: Vec<Element>|
            #[trigger] can_read(bytes@, pos as int, enc_u64(xs@.len() as u64) + enc_element_items(xs@))
            implies p as int == pos + 8 + enc_element_items(xs@).len() by {
            assert(xs@.take(i as int) =~= xs@);
        }
    }
    Some((out, p))
}


#[verifier::rlimit(100)]
#[verifier::spinoff_prover]
proof fn lemma_nodes_list_split(s: Seq<Node>, k: int)
    requires
        0 <= k <= s.len(),
    ensures
        enc_node_items(s) == enc_node_items(s.take(k)) + enc_node_items(s.skip(k)),
    decreases s.len(),
{
    if k == s.len() {
        assert(s.take(k) =~= s);
        assert(s.skip(k) =~= Seq::<Node>::empty());
        assert(enc_node_items(s) =~= enc_node_items(s.take(k)) + enc_node_items(s.skip(k)));
    } else {
        lemma_nodes_list_split(s.drop_last(), k);
        assert(s.drop_last().take(k) =~= s.take(k));
        assert(s.skip(k).drop_last() =~= s.drop_last().skip(k));
        assert(s.skip(k).last() == s.last());
        assert(s.skip(k).len() > 0);
        assert(enc_node_items(s) =~= enc_node_items(s.take(k)) + enc_node_items(s.skip(k)));
    }
}

#[verifier::rlimit(100)]
#[verifier::spinoff_prover]
proof fn lemma_nodes_list_cons(s: Seq<Node>, k: int)
    requires
        0 <= k < s.len(),
    ensures
        enc_node_items(s.skip(k)) == enc_node(s[k]) + enc_node_items(s.skip(k + 1)),
{
    lemma_nodes_list_split(s.skip(k), 1);
    assert(s.skip(k).take(1) =~= seq![s[k]]);
    assert(s.skip(k).skip(1) =~= s.skip(k + 1));
    assert(seq![s[k]].drop_last() =~= Seq::<Node>::empty());
    assert(enc_node_items(Seq::<Node>::empty()) =~= Seq::<u8>::empty());
    assert(enc_node_items(seq![s[k]]) =~= enc_node(s[k]));
}

#[verifier::rlimit(100)]
#[verifier::spinoff_prover]
proof fn lemma_nodes_list_len_ge(s: Seq<Node>)
    ensures
        enc_node_items(s).len() >= s.len(),
    decreases s.len(),
{
    if s.len() > 0 {
        lemma_nodes_list_len_ge(s.drop_last());
        assert((enc_node(s.last())).len() >= 1);
    }
}

#[verifier::rlimit(100)]
#[verifier::spinoff_prover]
fn dec_nodes_list(bytes: &Vec<u8>, pos: usize) -> (r: Option<(Vec<Node>, usize)>)
    ensures
        match r {
            Some(v) => pos <= v.1 <= bytes@.len() && bytes@.subrange(pos as int, v.1 as int)
                == enc_u64(v.0@.len() as u64) + enc_node_items(v.0@),
            None => true,
        },
        forall|xs: Vec<Node>|
            #[trigger] can_read(bytes@, pos as int, enc_u64(xs@.len() as u64) + enc_node_items(xs@)) ==> (
            r matches Some(v) && v.1 == pos + 8 + enc_node_items(xs@).len()),
{
    proof {
        assert(bytes@.len() == bytes.len());
        assert forall|xs: Vec<Node>|
            #[trigger] can_read(bytes@, pos as int, enc_u64(xs@.len() as u64) + enc_node_items(xs@))
            implies can_read(bytes@, pos as int, enc_u64(xs@.len() as u64)) && can_read(
            bytes@,
            pos as int + 8,
            enc_node_items(xs@),
        ) && xs@.len() <= bytes@.len() && enc_node_items(xs@.take(0)).len() == 0 by {
            lemma_can_read_split(bytes@, pos as int, enc_u64(xs@.len() as u64), enc_node_items(xs@));
            lemma_nodes_list_len_ge(xs@);
            assert(xs@.take(0) =~= Seq::<Node>::empty());
        }
    }
    let (count, p0) = match dec_u64(bytes, pos) {
        Some(v) => v,
        None => {
            return None;
        },
    };
    proof {
        assert(enc_u64(count).len() == 8);
    }
    if count > bytes.len() as u64 {
        proof {
            assert forall|xs: Vec<Node>|
                !can_read(bytes@, pos as int, enc_u64(xs@.len() as u64) + enc_node_items(xs@)) by {
                if can_read(bytes@, pos as int, enc_u64(xs@.len() as u64) + enc_node_items(xs@)) {
                    assert(count == xs@.len() as u64);
                }
            }
        }
        return None;
    }
    let mut out: Vec<Node> = Vec::new();
    let mut p = p0;
    let mut i: u64 = 0;
    while i < count
        invariant
            0 <= i <= count,
            count <= bytes@.len(),
            out@.len() == i,
            pos <= p0 <= p <= bytes@.len(),
            p0 == pos + 8,
            bytes@.subrange(p0 as int, p as int) == enc_node_items(out@),
            forall|xs: Vec<Node>|
                #[trigger] can_read(bytes@, pos as int, enc_u64(xs@.len() as u64) + enc_node_items(xs@))
                    ==> (xs@.len() as u64 == count && i <= xs@.len() && p as int == p0 + enc_node_items(
                    xs@.take(i as int),
                ).len() && can_read(bytes@, pos as int + 8, enc_node_items(xs@))),
        decreases count - i,
    {
        let ghost gp = p as int;
        proof {
            assert forall|xs: Vec<Node>|
                #[trigger] can_read(bytes@, pos as int, enc_u64(xs@.len() as u64) + enc_node_items(xs@))
                implies can_read(bytes@, gp, enc_node(xs@[i as int])) by {
                lemma_nodes_list_split(xs@, i as int);
                lemma_can_read_split(
                    bytes@,
                    pos as int + 8,
                    enc_node_items(xs@.take(i as int)),
                    enc_node_items(xs@.skip(i as int)),
                );
                lemma_nodes_list_cons(xs@, i as int);
                lemma_can_read_split(bytes@, gp, enc_node(xs@[i as int]), enc_node_items(xs@.skip(i as int + 1)));
            }
        }
        let (x, p2) = match dec_node(bytes, p) {
            Some(v) => v,
            None => {
                proof {
                    assert forall|xs: Vec<Node>|
                        !can_read(
                            bytes@,
                            pos as int,
                            enc_u64(xs@.len() as u64) + enc_node_items(xs@),
                        ) by {
                        if can_read(bytes@, pos as int, enc_u64(xs@.len() as u64) + enc_node_items(xs@)) {
                            assert(can_read(bytes@, gp, enc_node(xs@[i as int])));
                        }
                    }
                }
                return None;
            },
        };
        proof {
            assert(bytes@.subrange(p0 as int, p2 as int) =~= bytes@.subrange(p0 as int, p as int)
                + bytes@.subrange(p as int, p2 as int));
        }
        let ghost pre = out@;
        out.push(x);
        proof {
            assert(out@.drop_last() =~= pre);
            assert(enc_node_items(out@) == enc_node_items(pre) + enc_node(out@.last()));
            assert forall|xs: Vec<Node>|
                #[trigger] can_read(bytes@, pos as int, enc_u64(xs@.len() as u64) + enc_node_items(xs@))
                implies p2 as int == p0 + enc_node_items(xs@.take(i as int + 1)).len() by {
                assert(can_read(bytes@, gp, enc_node(xs@[i as int])));
                assert(p2 as int == gp + (enc_node(xs@[i as int])).len());
                assert(xs@.take(i as int + 1).drop_last() =~= xs@.take(i as int));
                assert(xs@.take(i as int + 1).last() == xs@[i as int]);
                assert(enc_node_items(xs@.take(i as int + 1)) == enc_node_items(xs@.take(i as int)) + (enc_node(xs@[i as int])));
            }
        }
        p = p2;
        i = i + 1;
    }
    proof {
        assert(bytes@.subrange(pos as int, p as int) =~= bytes@.subrange(pos as int, p0 as int)
            + bytes@.subrange(p0 as int, p as int));
        assert forall|xs: Vec<Node>|
            #[trigger] can_read(bytes@, pos as int, enc_u64(xs@.len() as u64) + enc_node_items(xs@))
            implies p as int == pos + 8 + enc_node_items(xs@).len() by {
            assert(xs@.take(i as int) =~= xs@);
        }
    }
    Some((out, p))
}


#[verifier::rlimit(100)]
#[verifier::spinoff_prover]
proof fn lemma_blocks_list_split(s: Seq<Block>, k: int)
    requires
        0 <= k <= s.len(),
    ensures
        enc_block_items(s) == enc_block_items(s.take(k)) + enc_block_items(s.skip(k)),
    decreases s.len(),
{
    if k == s.len() {
        assert(s.take(k) =~= s);
        assert(s.skip(k) =~= Seq::<Block>::empty());
        assert(enc_block_items(s) =~= enc_block_items(s.take(k)) + enc_block_items(s.skip(k)));
    } else {
        lemma_blocks_list_split(s.drop_last(), k);
        assert(s.drop_last().take(k) =~= s.take(k));
        assert(s.skip(k).drop_last() =~= s.drop_last().skip(k));
        assert(s.skip(k).last() == s.last());
        assert(s.skip(k).len() > 0);
        assert(enc_block_items(s) =~= enc_block_items(s.take(k)) + enc_block_items(s.skip(k)));
    }
}

#[verifier::rlimit(100)]
#[verifier::spinoff_prover]
proof fn lemma_blocks_list_cons(s: Seq<Block>, k: int)
    requires
        0 <= k < s.len(),
    ensures
        enc_block_items(s.skip(k)) == enc_block(s[k]) + enc_block_items(s.skip(k + 1)),
{
    lemma_blocks_list_split(s.skip(k), 1);
    assert(s.skip(k).take(1) =~= seq![s[k]]);
    assert(s.skip(k).skip(1) =~= s.skip(k + 1));
    assert(seq![s[k]].drop_last() =~= Seq::<Block>::empty());
    assert(enc_block_items(Seq::<Block>::empty()) =~= Seq::<u8>::empty());
    assert(enc_block_items(seq![s[k]]) =~= enc_block(s[k]));
}

#[verifier::rlimit(100)]
#[verifier::spinoff_prover]
proof fn lemma_blocks_list_len_ge(s: Seq<Block>)
    ensures
        enc_block_items(s).len() >= s.len(),
    decreases s.len(),
{
    if s.len() > 0 {
        lemma_blocks_list_len_ge(s.drop_last());
        assert((enc_block(s.last())).len() >= 1);
    }
}

#[verifier::rlimit(100)]
#[verifier::spinoff_prover]
fn dec_blocks_list(bytes: &Vec<u8>, pos: usize) -> (r: Option<(Vec<Block>, usize)>)
    ensures
        match r {
            Some(v) => pos <= v.1 <= bytes@.len() && bytes@.subrange(pos as int, v.1 as int)
                == enc_u64(v.0@.len() as u64) + enc_block_items(v.0@),
            None => true,
        },
        forall|xs: Vec<Block>|
            #[trigger] can_read(bytes@, pos as int, enc_u64(xs@.len() as u64) + enc_block_items(xs@)) ==> (
            r matches Some(v) && v.1 == pos + 8 + enc_block_items(xs@).len()),
{
    proof {
        assert(bytes@.len() == bytes.len());
        assert forall|xs: Vec<Block>|
            #[trigger] can_read(bytes@, pos as int, enc_u64(xs@.len() as u64) + enc_block_items(xs@))
            implies can_read(bytes@, pos as int, enc_u64(xs@.len() as u64)) && can_read(
            bytes@,
            pos as int + 8,
            enc_block_items(xs@),
        ) && xs@.len() <= bytes@.len() && enc_block_items(xs@.take(0)).len() == 0 by {
            lemma_can_read_split(bytes@, pos as int, enc_u64(xs@.len() as u64), enc_block_items(xs@));
            lemma_blocks_list_len_ge(xs@);
            assert(xs@.take(0) =~= Seq::<Block>::empty());
        }
    }
    let (count, p0) = match dec_u64(bytes, pos) {
        Some(v) => v,
        None => {
            return None;
        },
    };
    proof {
        assert(enc_u64(count).len() == 8);
    }
    if count > bytes.len() as u64 {
        proof {
            assert forall|xs: Vec<Block>|
                !can_read(bytes@, pos as int, enc_u64(xs@.len() as u64) + enc_block_items(xs@)) by {
                if can_read(bytes@, pos as int, enc_u64(xs@.len() as u64) + enc_block_items(xs@)) {
                    assert(count == xs@.len() as u64);
                }
            }
        }
        return None;
    }
    let mut out: Vec<Block> = Vec::new();
    let mut p = p0;
    let mut i: u64 = 0;
    while i < count
        invariant
            0 <= i <= count,
            count <= bytes@.len(),
            out@.len() == i,
            pos <= p0 <= p <= bytes@.len(),
            p0 == pos + 8,
            bytes@.subrange(p0 as int, p as int) == enc_block_items(out@),
            forall|xs: Vec<Block>|
                #[trigger] can_read(bytes@, pos as int, enc_u64(xs@.len() as u64) + enc_block_items(xs@))
                    ==> (xs@.len() as u64 == count && i <= xs@.len() && p as int == p0 + enc_block_items(
                    xs@.take(i as int),
                ).len() && can_read(bytes@, pos as int + 8, enc_block_items(xs@))),
        decreases count - i,
    {
        let ghost gp = p as int;
        proof {
            assert forall|xs: Vec<Block>|
                #[trigger] can_read(bytes@, pos as int, enc_u64(xs@.len() as u64) + enc_block_items(xs@))
                implies can_read(bytes@, gp, enc_block(xs@[i as int])) by {
                lemma_blocks_list_split(xs@, i as int);
                lemma_can_read_split(
                    bytes@,
                    pos as int + 8,
                    enc_block_items(xs@.take(i as int)),
                    enc_block_items(xs@.skip(i as int)),
                );
                lemma_blocks_list_cons(xs@, i as int);
                lemma_can_read_split(bytes@, gp, enc_block(xs@[i as int]), enc_block_items(xs@.skip(i as int + 1)));
            }
        }
        let (x, p2) = match dec_block(bytes, p) {
            Some(v) => v,
            None => {
                proof {
                    assert forall|xs: Vec<Block>|
                        !can_read(
                            bytes@,
                            pos as int,
                            enc_u64(xs@.len() as u64) + enc_block_items(xs@),
                        ) by {
                        if can_read(bytes@, pos as int, enc_u64(xs@.len() as u64) + enc_block_items(xs@)) {
                            assert(can_read(bytes@, gp, enc_block(xs@[i as int])));
                        }
                    }
                }
                return None;
            },
        };
        proof {
            assert(bytes@.subrange(p0 as int, p2 as int) =~= bytes@.subrange(p0 as int, p as int)
                + bytes@.subrange(p as int, p2 as int));
        }
        let ghost pre = out@;
        out.push(x);
        proof {
            assert(out@.drop_last() =~= pre);
            assert(enc_block_items(out@) == enc_block_items(pre) + enc_block(out@.last()));
            assert forall|xs: Vec<Block>|
                #[trigger] can_read(bytes@, pos as int, enc_u64(xs@.len() as u64) + enc_block_items(xs@))
                implies p2 as int == p0 + enc_block_items(xs@.take(i as int + 1)).len() by {
                assert(can_read(bytes@, gp, enc_block(xs@[i as int])));
                assert(p2 as int == gp + (enc_block(xs@[i as int])).len());
                assert(xs@.take(i as int + 1).drop_last() =~= xs@.take(i as int));
                assert(xs@.take(i as int + 1).last() == xs@[i as int]);
                assert(enc_block_items(xs@.take(i as int + 1)) == enc_block_items(xs@.take(i as int)) + (enc_block(xs@[i as int])));
            }
        }
        p = p2;
        i = i + 1;
    }
    proof {
        assert(bytes@.subrange(pos as int, p as int) =~= bytes@.subrange(pos as int, p0 as int)
            + bytes@.subrange(p0 as int, p as int));
        assert forall|xs: Vec<Block>|
            #[trigger] can_read(bytes@, pos as int, enc_u64(xs@.len() as u64) + enc_block_items(xs@))
            implies p as int == pos + 8 + enc_block_items(xs@).len() by {
            assert(xs@.take(i as int) =~= xs@);
        }
    }
    Some((out, p))
}


#[verifier::rlimit(100)]
#[verifier::spinoff_prover]
proof fn lemma_profiles_split(s: Seq<Profile>, k: int)
    requires
        0 <= k <= s.len(),
    ensures
        enc_profile_items(s) == enc_profile_items(s.take(k)) + enc_profile_items(s.skip(k)),
    decreases s.len(),
{
    if k == s.len() {
        assert(s.take(k) =~= s);
        assert(s.skip(k) =~= Seq::<Profile>::empty());
        assert(enc_profile_items(s) =~= enc_profile_items(s.take(k)) + enc_profile_items(s.skip(k)));
    } else {
        lemma_profiles_split(s.drop_last(), k);
        assert(s.drop_last().take(k) =~= s.take(k));
        assert(s.skip(k).drop_last() =~= s.drop_last().skip(k));
        assert(s.skip(k).last() == s.last());
        assert(s.skip(k).len() > 0);
        assert(enc_profile_items(s) =~= enc_profile_items(s.take(k)) + enc_profile_items(s.skip(k)));
    }
}

#[verifier::rlimit(100)]
#[verifier::spinoff_prover]
proof fn lemma_profiles_cons(s: Seq<Profile>, k: int)
    requires
        0 <= k < s.len(),
    ensures
        enc_profile_items(s.skip(k)) == enc_profile(s[k]) + enc_profile_items(s.skip(k + 1)),
{
    lemma_profiles_split(s.skip(k), 1);
    assert(s.skip(k).take(1) =~= seq![s[k]]);
    assert(s.skip(k).skip(1) =~= s.skip(k + 1));
    assert(seq![s[k]].drop_last() =~= Seq::<Profile>::empty());
    assert(enc_profile_items(Seq::<Profile>::empty()) =~= Seq::<u8>::empty());
    assert(enc_profile_items(seq![s[k]]) =~= enc_profile(s[k]));
}

#[verifier::rlimit(100)]
#[verifier::spinoff_prover]
proof fn lemma_profiles_len_ge(s: Seq<Profile>)
    ensures
        enc_profile_items(s).len() >= s.len(),
    decreases s.len(),
{
    if s.len() > 0 {
        lemma_profiles_len_ge(s.drop_last());
        assert((enc_profile(s.last())).len() >= 1);
    }
}

#[verifier::rlimit(100)]
#[verifier::spinoff_prover]
fn dec_profiles(bytes: &Vec<u8>, pos: usize) -> (r: Option<(Vec<Profile>, usize)>)
    ensures
        match r {
            Some(v) => pos <= v.1 <= bytes@.len() && bytes@.subrange(pos as int, v.1 as int)
                == enc_u64(v.0@.len() as u64) + enc_profile_items(v.0@),
            None => true,
        },
        forall|xs: Vec<Profile>|
            #[trigger] can_read(bytes@, pos as int, enc_u64(xs@.len() as u64) + enc_profile_items(xs@)) ==> (
            r matches Some(v) && v.1 == pos + 8 + enc_profile_items(xs@).len()),
{
    proof {
        assert(bytes@.len() == bytes.len());
        assert forall|xs: Vec<Profile>|
            #[trigger] can_read(bytes@, pos as int, enc_u64(xs@.len() as u64) + enc_profile_items(xs@))
            implies can_read(bytes@, pos as int, enc_u64(xs@.len() as u64)) && can_read(
            bytes@,
            pos as int + 8,
            enc_profile_items(xs@),
        ) && xs@.len() <= bytes@.len() && enc_profile_items(xs@.take(0)).len() == 0 by {
            lemma_can_read_split(bytes@, pos as int, enc_u64(xs@.len() as u64), enc_profile_items(xs@));
            lemma_profiles_len_ge(xs@);
            assert(xs@.take(0) =~= Seq::<Profile>::empty());
        }
    }
    let (count, p0) = match dec_u64(bytes, pos) {
        Some(v) => v,
        None => {
            return None;
        },
    };
    proof {
        assert(enc_u64(count).len() == 8);
    }
    if count > bytes.len() as u64 {
        proof {
            assert forall|xs: Vec<Profile>|
                !can_read(bytes@, pos as int, enc_u64(xs@.len() as u64) + enc_profile_items(xs@)) by {
                if can_read(bytes@, pos as int, enc_u64(xs@.len() as u64) + enc_profile_items(xs@)) {
                    assert(count == xs@.len() as u64);
                }
            }
        }
        return None;
    }
    let mut out: Vec<Profile> = Vec::new();
    let mut p = p0;
    let mut i: u64 = 0;
    while i < count
        invariant
            0 <= i <= count,
            count <= bytes@.len(),
            out@.len() == i,
            pos <= p0 <= p <= bytes@.len(),
            p0 == pos + 8,
            bytes@.subrange(p0 as int, p as int) == enc_profile_items(out@),
            forall|xs: Vec<Profile>|
                #[trigger] can_read(bytes@, pos as int, enc_u64(xs@.len() as u64) + enc_profile_items(xs@))
                    ==> (xs@.len() as u64 == count && i <= xs@.len() && p as int == p0 + enc_profile_items(
                    xs@.take(i as int),
                ).len() && can_read(bytes@, pos as int + 8, enc_profile_items(xs@))),
        decreases count - i,
    {
        let ghost gp = p as int;
        proof {
            assert forall|xs: Vec<Profile>|
                #[trigger] can_read(bytes@, pos as int, enc_u64(xs@.len() as u64) + enc_profile_items(xs@))
                implies can_read(bytes@, gp, enc_profile(xs@[i as int])) by {
                lemma_profiles_split(xs@, i as int);
                lemma_can_read_split(
                    bytes@,
                    pos as int + 8,
                    enc_profile_items(xs@.take(i as int)),
                    enc_profile_items(xs@.skip(i as int)),
                );
                lemma_profiles_cons(xs@, i as int);
                lemma_can_read_split(bytes@, gp, enc_profile(xs@[i as int]), enc_profile_items(xs@.skip(i as int + 1)));
            }
        }
        let (x, p2) = match dec_profile(bytes, p) {
            Some(v) => v,
            None => {
                proof {
                    assert forall|xs: Vec<Profile>|
                        !can_read(
                            bytes@,
                            pos as int,
                            enc_u64(xs@.len() as u64) + enc_profile_items(xs@),
                        ) by {
                        if can_read(bytes@, pos as int, enc_u64(xs@.len() as u64) + enc_profile_items(xs@)) {
                            assert(can_read(bytes@, gp, enc_profile(xs@[i as int])));
                        }
                    }
                }
                return None;
            },
        };
        proof {
            assert(bytes@.subrange(p0 as int, p2 as int) =~= bytes@.subrange(p0 as int, p as int)
                + bytes@.subrange(p as int, p2 as int));
        }
        let ghost pre = out@;
        out.push(x);
        proof {
            assert(out@.drop_last() =~= pre);
            assert(enc_profile_items(out@) == enc_profile_items(pre) + enc_profile(out@.last()));
            assert forall|xs: Vec<Profile>|
                #[trigger] can_read(bytes@, pos as int, enc_u64(xs@.len() as u64) + enc_profile_items(xs@))
                implies p2 as int == p0 + enc_profile_items(xs@.take(i as int + 1)).len() by {
                assert(can_read(bytes@, gp, enc_profile(xs@[i as int])));
                assert(p2 as int == gp + (enc_profile(xs@[i as int])).len());
                assert(xs@.take(i as int + 1).drop_last() =~= xs@.take(i as int));
                assert(xs@.take(i as int + 1).last() == xs@[i as int]);
                assert(enc_profile_items(xs@.take(i as int + 1)) == enc_profile_items(xs@.take(i as int)) + (enc_profile(xs@[i as int])));
            }
        }
        p = p2;
        i = i + 1;
    }
    proof {
        assert(bytes@.subrange(pos as int, p as int) =~= bytes@.subrange(pos as int, p0 as int)
            + bytes@.subrange(p0 as int, p as int));
        assert forall|xs: Vec<Profile>|
            #[trigger] can_read(bytes@, pos as int, enc_u64(xs@.len() as u64) + enc_profile_items(xs@))
            implies p as int == pos + 8 + enc_profile_items(xs@).len() by {
            assert(xs@.take(i as int) =~= xs@);
        }
    }
    Some((out, p))
}


#[verifier::rlimit(100)]
#[verifier::spinoff_prover]
proof fn lemma_aerodromes_split(s: Seq<Aerodrome>, k: int)
    requires
        0 <= k <= s.len(),
    ensures
        enc_aerodrome_items(s) == enc_aerodrome_items(s.take(k)) + enc_aerodrome_items(s.skip(k)),
    decreases s.len(),
{
    if k == s.len() {
        assert(s.take(k) =~= s);
        assert(s.skip(k) =~= Seq::<Aerodrome>::empty());
        assert(enc_aerodrome_items(s) =~= enc_aerodrome_items(s.take(k)) + enc_aerodrome_items(s.skip(k)));
    } else {
        lemma_aerodromes_split(s.drop_last(), k);
        assert(s.drop_last().take(k) =~= s.take(k));
        assert(s.skip(k).drop_last() =~= s.drop_last().skip(k));
        assert(s.skip(k).last() == s.last());
        assert(s.skip(k).len() > 0);
        assert(enc_aerodrome_items(s) =~= enc_aerodrome_items(s.take(k)) + enc_aerodrome_items(s.skip(k)));
    }
}

#[verifier::rlimit(100)]
#[verifier::spinoff_prover]
proof fn lemma_aerodromes_cons(s: Seq<Aerodrome>, k: int)
    requires
        0 <= k < s.len(),
    ensures
        enc_aerodrome_items(s.skip(k)) == enc_aerodrome(s[k]) + enc_aerodrome_items(s.skip(k + 1)),
{
    lemma_aerodromes_split(s.skip(k), 1);
    assert(s.skip(k).take(1) =~= seq![s[k]]);
    assert(s.skip(k).skip(1) =~= s.skip(k + 1));
    assert(seq![s[k]].drop_last() =~= Seq::<Aerodrome>::empty());
    assert(enc_aerodrome_items(Seq::<Aerodrome>::empty()) =~= Seq::<u8>::empty());
    assert(enc_aerodrome_items(seq![s[k]]) =~= enc_aerodrome(s[k]));
}

#[verifier::rlimit(100)]
#[verifier::spinoff_prover]
proof fn lemma_aerodromes_len_ge(s: Seq<Aerodrome>)
    ensures
        enc_aerodrome_items(s).len() >= s.len(),
    decreases s.len(),
{
    if s.len() > 0 {
        lemma_aerodromes_len_ge(s.drop_last());
        assert((enc_aerodrome(s.last())).len() >= 1);
    }
}

#[verifier::rlimit(100)]
#[verifier::spinoff_prover]
fn dec_aerodromes(bytes: &Vec<u8>, pos: usize) -> (r: Option<(Vec<Aerodrome>, usize)>)
    ensures
        match r {
            Some(v) => pos <= v.1 <= bytes@.len() && bytes@.subrange(pos as int, v.1 as int)
                == enc_u64(v.0@.len() as u64) + enc_aerodrome_items(v.0@),
            None => true,
        },
        forall|xs: Vec<Aerodrome>|
            #[trigger] can_read(bytes@, pos as int, enc_u64(xs@.len() as u64) + enc_aerodrome_items(xs@)) ==> (
            r matches Some(v) && v.1 == pos + 8 + enc_aerodrome_items(xs@).len()),
{
    proof {
        assert(bytes@.len() == bytes.len());
        assert forall|xs: Vec<Aerodrome>|
            #[trigger] can_read(bytes@, pos as int, enc_u64(xs@.len() as u64) + enc_aerodrome_items(xs@))
            implies can_read(bytes@, pos as int, enc_u64(xs@.len() as u64)) && can_read(
            bytes@,
            pos as int + 8,
            enc_aerodrome_items(xs@),
        ) && xs@.len() <= bytes@.len() && enc_aerodrome_items(xs@.take(0)).len() == 0 by {
            lemma_can_read_split(bytes@, pos as int, enc_u64(xs@.len() as u64), enc_aerodrome_items(xs@));
            lemma_aerodromes_len_ge(xs@);
            assert(xs@.take(0) =~= Seq::<Aerodrome>::empty());
        }
    }
    let (count, p0) = match dec_u64(bytes, pos) {
        Some(v) => v,
        None => {
            return None;
        },
    };
    proof {
        assert(enc_u64(count).len() == 8);
    }
    if count > bytes.len() as u64 {
        proof {
            assert forall|xs: Vec<Aerodrome>|
                !can_read(bytes@, pos as int, enc_u64(xs@.len() as u64) + enc_aerodrome_items(xs@)) by {
                if can_read(bytes@, pos as int, enc_u64(xs@.len() as u64) + enc_aerodrome_items(xs@)) {
                    assert(count == xs@.len() as u64);
                }
            }
        }
        return None;
    }
    let mut out: Vec<Aerodrome> = Vec::new();
    let mut p = p0;
    let mut i: u64 = 0;
    while i < count
        invariant
            0 <= i <= count,
            count <= bytes@.len(),
            out@.len() == i,
            pos <= p0 <= p <= bytes@.len(),
            p0 == pos + 8,
            bytes@.subrange(p0 as int, p as int) == enc_aerodrome_items(out@),
            forall|xs: Vec<Aerodrome>|
                #[trigger] can_read(bytes@, pos as int, enc_u64(xs@.len() as u64) + enc_aerodrome_items(xs@))
                    ==> (xs@.len() as u64 == count && i <= xs@.len() && p as int == p0 + enc_aerodrome_items(
                    xs@.take(i as int),
                ).len() && can_read(bytes@, pos as int + 8, enc_aerodrome_items(xs@))),
        decreases count - i,
    {
        let ghost gp = p as int;
        proof {
            assert forall|xs: Vec<Aerodrome>|
                #[trigger] can_read(bytes@, pos as int, enc_u64(xs@.len() as u64) + enc_aerodrome_items(xs@))
                implies can_read(bytes@, gp, enc_aerodrome(xs@[i as int])) by {
                lemma_aerodromes_split(xs@, i as int);
                lemma_can_read_split(
                    bytes@,
                    pos as int + 8,
                    enc_aerodrome_items(xs@.take(i as int)),
                    enc_aerodrome_items(xs@.skip(i as int)),
                );
                lemma_aerodromes_cons(xs@, i as int);
                lemma_can_read_split(bytes@, gp, enc_aerodrome(xs@[i as int]), enc_aerodrome_items(xs@.skip(i as int + 1)));
            }
        }
        let (x, p2) = match dec_aerodrome(bytes, p) {
            Some(v) => v,
            None => {
                proof {
                    assert forall|xs: Vec<Aerodrome>|
                        !can_read(
                            bytes@,
                            pos as int,
                            enc_u64(xs@.len() as u64) + enc_aerodrome_items(xs@),
                        ) by {
                        if can_read(bytes@, pos as int, enc_u64(xs@.len() as u64) + enc_aerodrome_items(xs@)) {
                            assert(can_read(bytes@, gp, enc_aerodrome(xs@[i as int])));
                        }
                    }
                }
                return None;
            },
        };
        proof {
            assert(bytes@.subrange(p0 as int, p2 as int) =~= bytes@.subrange(p0 as int, p as int)
                + bytes@.subrange(p as int, p2 as int));
        }
        let ghost pre = out@;
        out.push(x);
        proof {
            assert(out@.drop_last() =~= pre);
            assert(enc_aerodrome_items(out@) == enc_aerodrome_items(pre) + enc_aerodrome(out@.last()));
            assert forall|xs: Vec<Aerodrome>|
                #[trigger] can_read(bytes@, pos as int, enc_u64(xs@.len() as u64) + enc_aerodrome_items(xs@))
                implies p2 as int == p0 + enc_aerodrome_items(xs@.take(i as int + 1)).len() by {
                assert(can_read(bytes@, gp, enc_aerodrome(xs@[i as int])));
                assert(p2 as int == gp + (enc_aerodrome(xs@[i as int])).len());
                assert(xs@.take(i as int + 1).drop_last() =~= xs@.take(i as int));
                assert(xs@.take(i as int + 1).last() == xs@[i as int]);
                assert(enc_aerodrome_items(xs@.take(i as int + 1)) == enc_aerodrome_items(xs@.take(i as int)) + (enc_aerodrome(xs@[i as int])));
            }
        }
        p = p2;
        i = i + 1;
    }
    proof {
        assert(bytes@.subrange(pos as int, p as int) =~= bytes@.subrange(pos as int, p0 as int)
            + bytes@.subrange(p0 as int, p as int));
        assert forall|xs: Vec<Aerodrome>|
            #[trigger] can_read(bytes@, pos as int, enc_u64(xs@.len() as u64) + enc_aerodrome_items(xs@))
            implies p as int == pos + 8 + enc_aerodrome_items(xs@).len() by {
            assert(xs@.take(i as int) =~= xs@);
        }
    }
    Some((out, p))
}


proof fn lemma_can_read_split5(
    b: Seq<u8>,
    pos: int,
    e1: Seq<u8>,
    e2: Seq<u8>,
    e3: Seq<u8>,
    e4: Seq<u8>,
    e5: Seq<u8>,
)
    requires
        can_read(b, pos, e1 + e2 + e3 + e4 + e5),
    ensures
        can_read(b, pos, e1),
        can_read(b, pos + e1.len(), e2),
        can_read(b, pos + e1.len() + e2.len(), e3),
        can_read(b, pos + e1.len() + e2.len() + e3.len(), e4),
        can_read(b, pos + e1.len() + e2.len() + e3.len() + e4.len(), e5),
{
    lemma_can_read_split(b, pos, e1 + e2 + e3 + e4, e5);
    lemma_can_read_split(b, pos, e1 + e2 + e3, e4);
    lemma_can_read_split3(b, pos, e1, e2, e3);
}

proof fn lemma_can_read_split6(
    b: Seq<u8>,
    pos: int,
    e1: Seq<u8>,
    e2: Seq<u8>,
    e3: Seq<u8>,
    e4: Seq<u8>,
    e5: Seq<u8>,
    e6: Seq<u8>,
)
    requires
        can_read(b, pos, e1 + e2 + e3 + e4 + e5 + e6),
    ensures
        can_read(b, pos, e1),
        can_read(b, pos + e1.len(), e2),
        can_read(b, pos + e1.len() + e2.len(), e3),
        can_read(b, pos + e1.len() + e2.len() + e3.len(), e4),
        can_read(b, pos + e1.len() + e2.len() + e3.len() + e4.len(), e5),
        can_read(b, pos + e1.len() + e2.len() + e3.len() + e4.len() + e5.len(), e6),
{
    lemma_can_read_split(b, pos, e1 + e2 + e3 + e4 + e5, e6);
    lemma_can_read_split5(b, pos, e1, e2, e3, e4, e5);
}

#[verifier::rlimit(100)]
#[verifier::spinoff_prover]
fn dec_conj(bytes: &Vec<u8>, pos: usize) -> (r: Option<(NodeConjunction, usize)>)
    ensures
        match r {
            Some(v) => pos <= v.1 <= bytes@.len() && bytes@.subrange(pos as int, v.1 as int)
                == enc_conj(v.0),
            None => true,
        },
        forall|x: NodeConjunction|
            #[trigger] can_read(bytes@, pos as int, enc_conj(x)) ==> (r matches Some(v) && v.1
                == pos + enc_conj(x).len()),
{
    let ghost gpos = pos as int;
    proof {
        assert forall|x: NodeConjunction|
            #[trigger] can_read(bytes@, gpos, enc_conj(x)) implies can_read(
            bytes@,
            gpos,
            enc_u64(x.positive@.len() as u64) + enc_ref_items(x.positive@),
        ) && can_read(
            bytes@,
            gpos + (enc_u64(x.positive@.len() as u64) + enc_ref_items(x.positive@)).len(),
            enc_u64(x.negative@.len() as u64) + enc_ref_items(x.negative@),
        ) by {
            assert(enc_conj(x) =~= (enc_u64(x.positive@.len() as u64) + enc_ref_items(
                x.positive@,
            )) + (enc_u64(x.negative@.len() as u64) + enc_ref_items(x.negative@)));
            lemma_can_read_split(
                bytes@,
                gpos,
                enc_u64(x.positive@.len() as u64) + enc_ref_items(x.positive@),
                enc_u64(x.negative@.len() as u64) + enc_ref_items(x.negative@),
            );
        }
    }
    let (p_list, p0) = match dec_refs(bytes, pos) {
        Some(v) => v,
        None => {
            return None;
        },
    };
    let (n_list, p1) = match dec_refs(bytes, p0) {
        Some(v) => v,
        None => {
            return None;
        },
    };
    proof {
        assert(bytes@.subrange(pos as int, p1 as int) =~= bytes@.subrange(pos as int, p0 as int)
            + bytes@.subrange(p0 as int, p1 as int));
    }
    Some((NodeConjunction { positive: p_list, negative: n_list }, p1))
}

#[verifier::rlimit(100)]
#[verifier::spinoff_prover]
fn dec_edge_cond(bytes: &Vec<u8>, pos: usize) -> (r: Option<(EdgeCondition, usize)>)
    ensures
        match r {
            Some(v) => pos <= v.1 <= bytes@.len() && bytes@.subrange(pos as int, v.1 as int)
                == enc_edge_cond(v.0),
            None => true,
        },
        forall|x: EdgeCondition|
            #[trigger] can_read(bytes@, pos as int, enc_edge_cond(x)) ==> (r matches Some(v) && v.1
                == pos + enc_edge_cond(x).len()),
{
    let ghost gpos = pos as int;
    proof {
        assert forall|x: EdgeCondition|
            can_read(bytes@, gpos, enc_edge_cond(x)) implies match x {
            EdgeCondition::Fixed { state } => can_read(bytes@, gpos, seq![0u8]) && can_read(
                bytes@,
                gpos + 1,
                enc_edge_state(state),
            ),
            EdgeCondition::Direct { nodes } => can_read(bytes@, gpos, seq![1u8]) && can_read(
                bytes@,
                gpos + 1,
                enc_u64(nodes.disjunction@.len() as u64) + enc_conj_items(nodes.disjunction@),
            ),
            EdgeCondition::Router { block, routes } => can_read(bytes@, gpos, seq![2u8])
                && can_read(bytes@, gpos + 1, enc_ref(block)) && can_read(
                bytes@,
                gpos + 9,
                enc_u64(routes@.len() as u64) + enc_route_items(routes@),
            ),
        } by {
            match x {
                EdgeCondition::Fixed { state } => {
                    lemma_can_read_split(bytes@, gpos, seq![0u8], enc_edge_state(state));
                },
                EdgeCondition::Direct { nodes } => {
                    lemma_can_read_split(
                        bytes@,
                        gpos,
                        seq![1u8],
                        enc_u64(nodes.disjunction@.len() as u64) + enc_conj_items(
                            nodes.disjunction@,
                        ),
                    );
                },
                EdgeCondition::Router { block, routes } => {
                    assert(enc_edge_cond(x) =~= seq![2u8] + enc_ref(block) + (enc_u64(
                        routes@.len() as u64,
                    ) + enc_route_items(routes@)));
                    lemma_can_read_split3(
                        bytes@,
                        gpos,
                        seq![2u8],
                        enc_ref(block),
                        enc_u64(routes@.len() as u64) + enc_route_items(routes@),
                    );
                },
            }
        }
    }
    let (tag, p0) = match dec_byte(bytes, pos) {
        Some(v) => v,
        None => {
            return None;
        },
    };
    if tag == 0 {
        let (st, p1) = match dec_edge_state(bytes, p0) {
            Some(v) => v,
            None => {
                return None;
            },
        };
        proof {
            assert(bytes@.subrange(pos as int, p1 as int) =~= bytes@.subrange(
                pos as int,
                p0 as int,
            ) + bytes@.subrange(p0 as int, p1 as int));
        }
        Some((EdgeCondition::Fixed { state: st }, p1))
    } else if tag == 1 {
        let (cs, p1) = match dec_conjs(bytes, p0) {
            Some(v) => v,
            None => {
                return None;
            },
        };
        proof {
            assert(bytes@.subrange(pos as int, p1 as int) =~= bytes@.subrange(
                pos as int,
                p0 as int,
            ) + bytes@.subrange(p0 as int, p1 as int));
        }
        Some((EdgeCondition::Direct { nodes: NodeExpression { disjunction: cs } }, p1))
    } else if tag == 2 {
        let (b, p1) = match dec_ref(bytes, p0) {
            Some(v) => v,
            None => {
                return None;
            },
        };
        let (rs, p2) = match dec_routes(bytes, p1) {
            Some(v) => v,
            None => {
                return None;
            },
        };
        proof {
            assert(bytes@.subrange(pos as int, p2 as int) =~= bytes@.subrange(
                pos as int,
                p0 as int,
            ) + bytes@.subrange(p0 as int, p1 as int) + bytes@.subrange(p1 as int, p2 as int));
        }
        Some((EdgeCondition::Router { block: b, routes: rs }, p2))
    } else {
        None
    }
}

#[verifier::rlimit(100)]
#[verifier::spinoff_prover]
fn dec_preset(bytes: &Vec<u8>, pos: usize) -> (r: Option<(Preset, usize)>)
    ensures
        match r {
            Some(v) => pos <= v.1 <= bytes@.len() && bytes@.subrange(pos as int, v.1 as int)
                == enc_preset(v.0),
            None => true,
        },
        forall|x: Preset|
            #[trigger] can_read(bytes@, pos as int, enc_preset(x)) ==> (r matches Some(v) && v.1
                == pos + enc_preset(x).len()),
{
    let ghost gpos = pos as int;
    proof {
        assert forall|x: Preset|
            #[trigger] can_read(bytes@, gpos, enc_preset(x)) implies can_read(
            bytes@,
            gpos,
            enc_str(x.name@),
        ) && can_read(
            bytes@,
            gpos + enc_str(x.name@).len(),
            enc_u64(x.nodes@.len() as u64) + enc_preset_node_items(x.nodes@),
        ) && can_read(
            bytes@,
            gpos + enc_str(x.name@).len() + (enc_u64(x.nodes@.len() as u64)
                + enc_preset_node_items(x.nodes@)).len(),
            enc_u64(x.blocks@.len() as u64) + enc_preset_block_items(x.blocks@),
        ) by {
            assert(enc_preset(x) =~= enc_str(x.name@) + (enc_u64(x.nodes@.len() as u64)
                + enc_preset_node_items(x.nodes@)) + (enc_u64(x.blocks@.len() as u64)
                + enc_preset_block_items(x.blocks@)));
            lemma_can_read_split3(
                bytes@,
                gpos,
                enc_str(x.name@),
                enc_u64(x.nodes@.len() as u64) + enc_preset_node_items(x.nodes@),
                enc_u64(x.blocks@.len() as u64) + enc_preset_block_items(x.blocks@),
            );
        }
    }
    let (name, p0) = match dec_str(bytes, pos) {
        Some(v) => v,
        None => {
            return None;
        },
    };
    let (ns, p1) = match dec_preset_nodes(bytes, p0) {
        Some(v) => v,
        None => {
            return None;
        },
    };
    let (bs, p2) = match dec_preset_blocks(bytes, p1) {
        Some(v) => v,
        None => {
            return None;
        },
    };
    proof {
        assert(bytes@.subrange(pos as int, p2 as int) =~= bytes@.subrange(pos as int, p0 as int)
            + bytes@.subrange(p0 as int, p1 as int) + bytes@.subrange(p1 as int, p2 as int));
    }
    Some((Preset { name, nodes: ns, blocks: bs }, p2))
}

#[verifier::rlimit(100)]
#[verifier::spinoff_prover]
fn dec_element(bytes: &Vec<u8>, pos: usize) -> (r: Option<(Element, usize)>)
    ensures
        match r {
            Some(v) => pos <= v.1 <= bytes@.len() && bytes@.subrange(pos as int, v.1 as int)
                == enc_element(v.0),
            None => true,
        },
        forall|x: Element|
            #[trigger] can_read(bytes@, pos as int, enc_element(x)) ==> (r matches Some(v) && v.1
                == pos + enc_element(x).len()),
{
    let ghost gpos = pos as int;
    proof {
        assert forall|x: Element|
            #[trigger] can_read(bytes@, gpos, enc_element(x)) implies can_read(
            bytes@,
            gpos,
            enc_str(x.id@),
        ) && can_read(bytes@, gpos + enc_str(x.id@).len(), enc_elem_cond(x.condition)) && (match x.condition {
            ElementCondition::Fixed(bv) => can_read(
                bytes@,
                gpos + enc_str(x.id@).len(),
                seq![0u8],
            ) && can_read(bytes@, gpos + enc_str(x.id@).len() + 1, enc_bool(bv)),
            ElementCondition::Node(nr) => can_read(
                bytes@,
                gpos + enc_str(x.id@).len(),
                seq![1u8],
            ) && can_read(bytes@, gpos + enc_str(x.id@).len() + 1, enc_ref(nr)),
            ElementCondition::Edge(er) => can_read(
                bytes@,
                gpos + enc_str(x.id@).len(),
                seq![2u8],
            ) && can_read(bytes@, gpos + enc_str(x.id@).len() + 1, enc_ref(er)),
        }) by {
            lemma_can_read_split(bytes@, gpos, enc_str(x.id@), enc_elem_cond(x.condition));
            match x.condition {
                ElementCondition::Fixed(bv) => {
                    lemma_can_read_split(
                        bytes@,
                        gpos + enc_str(x.id@).len(),
                        seq![0u8],
                        enc_bool(bv),
                    );
                },
                ElementCondition::Node(nr) => {
                    lemma_can_read_split(
                        bytes@,
                        gpos + enc_str(x.id@).len(),
                        seq![1u8],
                        enc_ref(nr),
                    );
                },
                ElementCondition::Edge(er) => {
                    lemma_can_read_split(
                        bytes@,
                        gpos + enc_str(x.id@).len(),
                        seq![2u8],
                        enc_ref(er),
                    );
                },
            }
        }
    }
    let (id, p0) = match dec_str(bytes, pos) {
        Some(v) => v,
        None => {
            return None;
        },
    };
    let (tag, p1) = match dec_byte(bytes, p0) {
        Some(v) => v,
        None => {
            return None;
        },
    };
    if tag == 0 {
        let (b, p2) = match dec_bool(bytes, p1) {
            Some(v) => v,
            None => {
                return None;
            },
        };
        proof {
            assert(bytes@.subrange(pos as int, p2 as int) =~= bytes@.subrange(
                pos as int,
                p0 as int,
            ) + bytes@.subrange(p0 as int, p1 as int) + bytes@.subrange(p1 as int, p2 as int));
        }
        Some((Element { id, condition: ElementCondition::Fixed(b) }, p2))
    } else if tag == 1 {
        let (x, p2) = match dec_ref(bytes, p1) {
            Some(v) => v,
            None => {
                return None;
            },
        };
        proof {
            assert(bytes@.subrange(pos as int, p2 as int) =~= bytes@.subrange(
                pos as int,
                p0 as int,
            ) + bytes@.subrange(p0 as int, p1 as int) + bytes@.subrange(p1 as int, p2 as int));
        }
        Some((Element { id, condition: ElementCondition::Node(x) }, p2))
    } else if tag == 2 {
        let (x, p2) = match dec_ref(bytes, p1) {
            Some(v) => v,
            None => {
                return None;
            },
        };
        proof {
            assert(bytes@.subrange(pos as int, p2 as int) =~= bytes@.subrange(
                pos as int,
                p0 as int,
            ) + bytes@.subrange(p0 as int, p1 as int) + bytes@.subrange(p1 as int, p2 as int));
        }
        Some((Element { id, condition: ElementCondition::Edge(x) }, p2))
    } else {
        None
    }
}

#[verifier::rlimit(100)]
#[verifier::spinoff_prover]
fn dec_node(bytes: &Vec<u8>, pos: usize) -> (r: Option<(Node, usize)>)
    ensures
        match r {
            Some(v) => pos <= v.1 <= bytes@.len() && bytes@.subrange(pos as int, v.1 as int)
                == enc_node(v.0),
            None => true,
        },
        forall|x: Node|
            #[trigger] can_read(bytes@, pos as int, enc_node(x)) ==> (r matches Some(v) && v.1
                == pos + enc_node(x).len()),
{
    let ghost gpos = pos as int;
    proof {
        assert forall|x: Node|
            #[trigger] can_read(bytes@, gpos, enc_node(x)) implies can_read(
            bytes@,
            gpos,
            enc_str(x.id@),
        ) && can_read(bytes@, gpos + enc_str(x.id@).len(), enc_opt_str(x.scratchpad)) && can_read(
            bytes@,
            gpos + enc_str(x.id@).len() + enc_opt_str(x.scratchpad).len(),
            enc_opt_ref(x.parent),
        ) by {
            lemma_can_read_split3(
                bytes@,
                gpos,
                enc_str(x.id@),
                enc_opt_str(x.scratchpad),
                enc_opt_ref(x.parent),
            );
        }
    }
    let (id, p0) = match dec_str(bytes, pos) {
        Some(v) => v,
        None => {
            return None;
        },
    };
    let (sp, p1) = match dec_opt_str(bytes, p0) {
        Some(v) => v,
        None => {
            return None;
        },
    };
    let (pr, p2) = match dec_opt_ref(bytes, p1) {
        Some(v) => v,
        None => {
            return None;
        },
    };
    proof {
        assert(bytes@.subrange(pos as int, p2 as int) =~= bytes@.subrange(pos as int, p0 as int)
            + bytes@.subrange(p0 as int, p1 as int) + bytes@.subrange(p1 as int, p2 as int));
    }
    Some((Node { id, scratchpad: sp, parent: pr }, p2))
}

#[verifier::rlimit(100)]
#[verifier::spinoff_prover]
fn dec_block(bytes: &Vec<u8>, pos: usize) -> (r: Option<(Block, usize)>)
    ensures
        match r {
            Some(v) => pos <= v.1 <= bytes@.len() && bytes@.subrange(pos as int, v.1 as int)
                == enc_block(v.0),
            None => true,
        },
        forall|x: Block|
            #[trigger] can_read(bytes@, pos as int, enc_block(x)) ==> (r matches Some(v) && v.1
                == pos + enc_block(x).len()),
{
    let ghost gpos = pos as int;
    proof {
        assert forall|x: Block|
            #[trigger] can_read(bytes@, gpos, enc_block(x)) implies can_read(
            bytes@,
            gpos,
            enc_str(x.id@),
        ) && can_read(
            bytes@,
            gpos + enc_str(x.id@).len(),
            enc_u64(x.nodes@.len() as u64) + enc_ref_items(x.nodes@),
        ) && can_read(
            bytes@,
            gpos + enc_str(x.id@).len() + (enc_u64(x.nodes@.len() as u64) + enc_ref_items(
                x.nodes@,
            )).len(),
            enc_u64(x.edges@.len() as u64) + enc_ref_items(x.edges@),
        ) && can_read(
            bytes@,
            gpos + enc_str(x.id@).len() + (enc_u64(x.nodes@.len() as u64) + enc_ref_items(
                x.nodes@,
            )).len() + (enc_u64(x.edges@.len() as u64) + enc_ref_items(x.edges@)).len(),
            enc_u64(x.non_routes@.len() as u64) + enc_route_items(x.non_routes@),
        ) && can_read(
            bytes@,
            gpos + enc_str(x.id@).len() + (enc_u64(x.nodes@.len() as u64) + enc_ref_items(
                x.nodes@,
            )).len() + (enc_u64(x.edges@.len() as u64) + enc_ref_items(x.edges@)).len() + (enc_u64(
                x.non_routes@.len() as u64,
            ) + enc_route_items(x.non_routes@)).len(),
            enc_u64(x.stands@.len() as u64) + enc_string_items(x.stands@),
        ) by {
            assert(enc_block(x) =~= enc_str(x.id@) + (enc_u64(x.nodes@.len() as u64)
                + enc_ref_items(x.nodes@)) + (enc_u64(x.edges@.len() as u64) + enc_ref_items(
                x.edges@,
            )) + (enc_u64(x.non_routes@.len() as u64) + enc_route_items(x.non_routes@)) + (enc_u64(
                x.stands@.len() as u64,
            ) + enc_string_items(x.stands@)));
            lemma_can_read_split5(
                bytes@,
                gpos,
                enc_str(x.id@),
                enc_u64(x.nodes@.len() as u64) + enc_ref_items(x.nodes@),
                enc_u64(x.edges@.len() as u64) + enc_ref_items(x.edges@),
                enc_u64(x.non_routes@.len() as u64) + enc_route_items(x.non_routes@),
                enc_u64(x.stands@.len() as u64) + enc_string_items(x.stands@),
            );
        }
    }
    let (id, p0) = match dec_str(bytes, pos) {
        Some(v) => v,
        None => {
            return None;
        },
    };
    let (ns, p1) = match dec_refs(bytes, p0) {
        Some(v) => v,
        None => {
            return None;
        },
    };
    let (es, p2) = match dec_refs(bytes, p1) {
        Some(v) => v,
        None => {
            return None;
        },
    };
    let (nr, p3) = match dec_routes(bytes, p2) {
        Some(v) => v,
        None => {
            return None;
        },
    };
    let (st, p4) = match dec_strings(bytes, p3) {
        Some(v) => v,
        None => {
            return None;
        },
    };
    proof {
        assert(bytes@.subrange(pos as int, p4 as int) =~= bytes@.subrange(pos as int, p0 as int)
            + bytes@.subrange(p0 as int, p1 as int) + bytes@.subrange(p1 as int, p2 as int)
            + bytes@.subrange(p2 as int, p3 as int) + bytes@.subrange(p3 as int, p4 as int));
    }
    Some((Block { id, nodes: ns, edges: es, non_routes: nr, stands: st }, p4))
}

#[verifier::rlimit(100)]
#[verifier::spinoff_prover]
fn dec_profile(bytes: &Vec<u8>, pos: usize) -> (r: Option<(Profile, usize)>)
    ensures
        match r {
            Some(v) => pos <= v.1 <= bytes@.len() && bytes@.subrange(pos as int, v.1 as int)
                == enc_profile(v.0),
            None => true,
        },
        forall|x: Profile|
            #[trigger] can_read(bytes@, pos as int, enc_profile(x)) ==> (r matches Some(v) && v.1
                == pos + enc_profile(x).len()),
{
    let ghost gpos = pos as int;
    proof {
        assert forall|x: Profile|
            #[trigger] can_read(bytes@, gpos, enc_profile(x)) implies can_read(
            bytes@,
            gpos,
            enc_str(x.id@),
        ) && can_read(bytes@, gpos + enc_str(x.id@).len(), enc_str(x.name@)) && can_read(
            bytes@,
            gpos + enc_str(x.id@).len() + enc_str(x.name@).len(),
            enc_u64(x.nodes@.len() as u64) + enc_node_cond_items(x.nodes@),
        ) && can_read(
            bytes@,
            gpos + enc_str(x.id@).len() + enc_str(x.name@).len() + (enc_u64(
                x.nodes@.len() as u64,
            ) + enc_node_cond_items(x.nodes@)).len(),
            enc_u64(x.edges@.len() as u64) + enc_edge_cond_items(x.edges@),
        ) && can_read(
            bytes@,
            gpos + enc_str(x.id@).len() + enc_str(x.name@).len() + (enc_u64(
                x.nodes@.len() as u64,
            ) + enc_node_cond_items(x.nodes@)).len() + (enc_u64(x.edges@.len() as u64)
                + enc_edge_cond_items(x.edges@)).len(),
            enc_u64(x.blocks@.len() as u64) + enc_block_cond_items(x.blocks@),
        ) && can_read(
            bytes@,
            gpos + enc_str(x.id@).len() + enc_str(x.name@).len() + (enc_u64(
                x.nodes@.len() as u64,
            ) + enc_node_cond_items(x.nodes@)).len() + (enc_u64(x.edges@.len() as u64)
                + enc_edge_cond_items(x.edges@)).len() + (enc_u64(x.blocks@.len() as u64)
                + enc_block_cond_items(x.blocks@)).len(),
            enc_u64(x.presets@.len() as u64) + enc_preset_items(x.presets@),
        ) by {
            assert(enc_profile(x) =~= enc_str(x.id@) + enc_str(x.name@) + (enc_u64(
                x.nodes@.len() as u64,
            ) + enc_node_cond_items(x.nodes@)) + (enc_u64(x.edges@.len() as u64)
                + enc_edge_cond_items(x.edges@)) + (enc_u64(x.blocks@.len() as u64)
                + enc_block_cond_items(x.blocks@)) + (enc_u64(x.presets@.len() as u64)
                + enc_preset_items(x.presets@)));
            lemma_can_read_split6(
                bytes@,
                gpos,
                enc_str(x.id@),
                enc_str(x.name@),
                enc_u64(x.nodes@.len() as u64) + enc_node_cond_items(x.nodes@),
                enc_u64(x.edges@.len() as u64) + enc_edge_cond_items(x.edges@),
                enc_u64(x.blocks@.len() as u64) + enc_block_cond_items(x.blocks@),
                enc_u64(x.presets@.len() as u64) + enc_preset_items(x.presets@),
            );
        }
    }
    let (id, p0) = match dec_str(bytes, pos) {
        Some(v) => v,
        None => {
            return None;
        },
    };
    let (name, p1) = match dec_str(bytes, p0) {
        Some(v) => v,
        None => {
            return None;
        },
    };
    let (ns, p2) = match dec_node_conds(bytes, p1) {
        Some(v) => v,
        None => {
            return None;
        },
    };
    let (es, p3) = match dec_edge_conds(bytes, p2) {
        Some(v) => v,
        None => {
            return None;
        },
    };
    let (bs, p4) = match dec_block_conds(bytes, p3) {
        Some(v) => v,
        None => {
            return None;
        },
    };
    let (ps, p5) = match dec_presets(bytes, p4) {
        Some(v) => v,
        None => {
            return None;
        },
    };
    proof {
        assert(bytes@.subrange(pos as int, p5 as int) =~= bytes@.subrange(pos as int, p0 as int)
            + bytes@.subrange(p0 as int, p1 as int) + bytes@.subrange(p1 as int, p2 as int)
            + bytes@.subrange(p2 as int, p3 as int) + bytes@.subrange(p3 as int, p4 as int)
            + bytes@.subrange(p4 as int, p5 as int));
    }
    Some((Profile { id, name, nodes: ns, edges: es, blocks: bs, presets: ps }, p5))
}

#[verifier::rlimit(100)]
#[verifier::spinoff_prover]
proof fn lemma_enc_aerodrome_group(x: Aerodrome)
    ensures
        enc_aerodrome(x) == enc_str(x.icao@) + (enc_u64(x.elements@.len() as u64)
            + enc_element_items(x.elements@)) + (enc_u64(x.nodes@.len() as u64) + enc_node_items(
            x.nodes@,
        )) + enc_u64(x.edges@.len() as u64) + (enc_u64(x.blocks@.len() as u64) + enc_block_items(
            x.blocks@,
        )) + (enc_u64(x.profiles@.len() as u64) + enc_profile_items(x.profiles@)),
{
    assert(enc_aerodrome(x) =~= enc_str(x.icao@) + (enc_u64(x.elements@.len() as u64)
        + enc_element_items(x.elements@)) + (enc_u64(x.nodes@.len() as u64) + enc_node_items(
        x.nodes@,
    )) + enc_u64(x.edges@.len() as u64) + (enc_u64(x.blocks@.len() as u64) + enc_block_items(
        x.blocks@,
    )) + (enc_u64(x.profiles@.len() as u64) + enc_profile_items(x.profiles@)));
}

#[verifier::rlimit(100)]
#[verifier::spinoff_prover]
fn dec_aerodrome(bytes: &Vec<u8>, pos: usize) -> (r: Option<(Aerodrome, usize)>)
    ensures
        match r {
            Some(v) => pos <= v.1 <= bytes@.len() && bytes@.subrange(pos as int, v.1 as int)
                == enc_aerodrome(v.0),
            None => true,
        },
        forall|x: Aerodrome|
            #[trigger] can_read(bytes@, pos as int, enc_aerodrome(x)) ==> (r matches Some(v) && v.1
                == pos + enc_aerodrome(x).len()),
{
    let ghost gpos = pos as int;
    proof {
        assert forall|x: Aerodrome|
            #[trigger] can_read(bytes@, gpos, enc_aerodrome(x)) implies can_read(
            bytes@,
            gpos,
            enc_str(x.icao@),
        ) && can_read(
            bytes@,
            gpos + enc_str(x.icao@).len(),
            enc_u64(x.elements@.len() as u64) + enc_element_items(x.elements@),
        ) && can_read(
            bytes@,
            gpos + enc_str(x.icao@).len() + (enc_u64(x.elements@.len() as u64)
                + enc_element_items(x.elements@)).len(),
            enc_u64(x.nodes@.len() as u64) + enc_node_items(x.nodes@),
        ) && can_read(
            bytes@,
            gpos + enc_str(x.icao@).len() + (enc_u64(x.elements@.len() as u64)
                + enc_element_items(x.elements@)).len() + (enc_u64(x.nodes@.len() as u64)
                + enc_node_items(x.nodes@)).len(),
            enc_u64(x.edges@.len() as u64),
        ) && can_read(
            bytes@,
            gpos + enc_str(x.icao@).len() + (enc_u64(x.elements@.len() as u64)
                + enc_element_items(x.elements@)).len() + (enc_u64(x.nodes@.len() as u64)
                + enc_node_items(x.nodes@)).len() + 8,
            enc_u64(x.blocks@.len() as u64) + enc_block_items(x.blocks@),
        ) && can_read(
            bytes@,
            gpos + enc_str(x.icao@).len() + (enc_u64(x.elements@.len() as u64)
                + enc_element_items(x.elements@)).len() + (enc_u64(x.nodes@.len() as u64)
                + enc_node_items(x.nodes@)).len() + 8 + (enc_u64(x.blocks@.len() as u64)
                + enc_block_items(x.blocks@)).len(),
            enc_u64(x.profiles@.len() as u64) + enc_profile_items(x.profiles@),
        ) by {
            lemma_enc_aerodrome_group(x);
            lemma_can_read_split6(
                bytes@,
                gpos,
                enc_str(x.icao@),
                enc_u64(x.elements@.len() as u64) + enc_element_items(x.elements@),
                enc_u64(x.nodes@.len() as u64) + enc_node_items(x.nodes@),
                enc_u64(x.edges@.len() as u64),
                enc_u64(x.blocks@.len() as u64) + enc_block_items(x.blocks@),
                enc_u64(x.profiles@.len() as u64) + enc_profile_items(x.profiles@),
            );
        }
    }
    let (icao, p0) = match dec_str(bytes, pos) {
        Some(v) => v,
        None => {
            return None;
        },
    };
    let (els, p1) = match dec_elements(bytes, p0) {
        Some(v) => v,
        None => {
            return None;
        },
    };
    let (ns, p2) = match dec_nodes_list(bytes, p1) {
        Some(v) => v,
        None => {
            return None;
        },
    };
    let (ecount, p3) = match dec_u64(bytes, p2) {
        Some(v) => v,
        None => {
            return None;
        },
    };
    if ecount > usize::MAX as u64 {
        proof {
            assert forall|x: Aerodrome| !can_read(bytes@, gpos, enc_aerodrome(x)) by {
                if can_read(bytes@, gpos, enc_aerodrome(x)) {
                    assert(x.edges@.len() == x.edges.len());
                    assert(ecount == x.edges@.len() as u64);
                }
            }
        }
        return None;
    }
    let mut edges: Vec<Edge> = Vec::new();
    let ecount_us = ecount as usize;
    let mut i: usize = 0;
    while i < ecount_us
        invariant
            0 <= i <= ecount_us,
            edges@.len() == i,
        decreases ecount_us - i,
    {
        edges.push(Edge);
        i = i + 1;
    }
    let (bs, p4) = match dec_blocks_list(bytes, p3) {
        Some(v) => v,
        None => {
            return None;
        },
    };
    let (ps, p5) = match dec_profiles(bytes, p4) {
        Some(v) => v,
        None => {
            return None;
        },
    };
    proof {
        assert(bytes@.subrange(pos as int, p5 as int) =~= bytes@.subrange(pos as int, p0 as int)
            + bytes@.subrange(p0 as int, p1 as int) + bytes@.subrange(p1 as int, p2 as int)
            + bytes@.subrange(p2 as int, p3 as int) + bytes@.subrange(p3 as int, p4 as int)
            + bytes@.subrange(p4 as int, p5 as int));
    }
    Some((Aerodrome { icao, elements: els, nodes: ns, edges, blocks: bs, profiles: ps }, p5))
}

impl Aerodrome {
    /// Parses a bare aerodrome configuration. Whatever this accepts
    /// re-encodes to exactly the input bytes, and whenever the input is some
    /// aerodrome's encoding the parse succeeds.
    #[verifier::rlimit(100)]
    pub fn decode(bytes: &Vec<u8>) -> (r: Option<Aerodrome>)
        ensures
            match r {
                Some(a) => enc_aerodrome(a) == bytes@,
                None => true,
            },
            (exists|a: Aerodrome| #[trigger] enc_aerodrome(a) == bytes@) ==> r is Some,
    {
        proof {
            assert(bytes@.len() == bytes.len());
            assert forall|a: Aerodrome| #[trigger] enc_aerodrome(a) == bytes@ implies can_read(
                bytes@,
                0,
                enc_aerodrome(a),
            ) by {
                assert(bytes@.subrange(0, enc_aerodrome(a).len() as int) =~= bytes@);
            }
        }
        let (a, p) = match dec_aerodrome(bytes, 0) {
            Some(v) => v,
            None => {
                return None;
            },
        };
        if p != bytes.len() {
            return None;
        }
        proof {
            assert(bytes@.subrange(0, p as int) =~= bytes@);
        }
        Some(a)
    }
}

impl Config {
    /// Parses a container body. Whatever this accepts re-encodes to exactly
    /// the input bytes, and whenever the input is some container body's
    /// encoding the parse succeeds.
    #[verifier::rlimit(100)]
    pub fn decode(bytes: &Vec<u8>) -> (r: Option<Config>)
        ensures
            match r {
                Some(c) => enc_config(c) == bytes@,
                None => true,
            },
            (exists|c: Config| #[trigger] enc_config(c) == bytes@) ==> r is Some,
    {
        proof {
            assert(bytes@.len() == bytes.len());
            assert forall|x: Config| #[trigger] enc_config(x) == bytes@ implies can_read(
                bytes@,
                0,
                enc_opt_str(x.name),
            ) && can_read(bytes@, enc_opt_str(x.name).len() as int, enc_opt_str(x.version))
                && can_read(
                bytes@,
                (enc_opt_str(x.name).len() + enc_opt_str(x.version).len()) as int,
                enc_u64(x.aerodromes@.len() as u64) + enc_aerodrome_items(x.aerodromes@),
            ) by {
                assert(bytes@.subrange(0, enc_config(x).len() as int) =~= bytes@);
                assert(can_read(bytes@, 0, enc_config(x)));
                assert(enc_config(x) =~= enc_opt_str(x.name) + enc_opt_str(x.version) + (enc_u64(
                    x.aerodromes@.len() as u64,
                ) + enc_aerodrome_items(x.aerodromes@)));
                lemma_can_read_split3(
                    bytes@,
                    0,
                    enc_opt_str(x.name),
                    enc_opt_str(x.version),
                    enc_u64(x.aerodromes@.len() as u64) + enc_aerodrome_items(x.aerodromes@),
                );
            }
        }
        let (name, p0) = match dec_opt_str(bytes, 0) {
            Some(v) => v,
            None => {
                return None;
            },
        };
        let (version, p1) = match dec_opt_str(bytes, p0) {
            Some(v) => v,
            None => {
                return None;
            },
        };
        let (ads, p2) = match dec_aerodromes(bytes, p1) {
            Some(v) => v,
            None => {
                return None;
            },
        };
        if p2 != bytes.len() {
            return None;
        }
        let c = Config { name, version, aerodromes: ads };
        proof {
            assert(bytes@.subrange(0, p2 as int) =~= bytes@);
            assert(bytes@ =~= bytes@.subrange(0, p0 as int) + bytes@.subrange(p0 as int, p1 as int)
                + bytes@.subrange(p1 as int, p2 as int));
        }
        Some(c)
    }
}

// ------------------------------------------------------------------
// The framed container: magic, version, deflated body
// ------------------------------------------------------------------

/// The container's 8-byte magic.
pub open spec fn magic() -> Seq<u8> {
    seq![0xffu8, 0x42u8, 0x41u8, 0x52u8, 0x53u8, 0x13u8, 0x65u8, 0x75u8]
}

/// The configuration container's format version, big endian.
pub open spec fn version_bytes() -> Seq<u8> {
    seq![0x00u8, 0x01u8]
}

/// What deflate-compressing a byte sequence yields; a function of the input
/// alone at the fixed compression level used here.
pub uninterp spec fn deflate_of(s: Seq<u8>) -> Seq<u8>;

/// What inflating a byte sequence yields, when it is valid deflate data; a
/// function of the input alone.
pub uninterp spec fn inflate_of(s: Seq<u8>) -> Option<Seq<u8>>;

/// Relies on flate2's `DeflateEncoder` at a fixed compression level: the
/// output is a function of the input bytes alone, and deflate is lossless,
/// so inflating the output yields the input again. Writing into a `Vec`
/// cannot fail.
#[verifier::external_body]
fn deflate_bytes(data: &Vec<u8>) -> (r: Vec<u8>)
    ensures
        r@ == deflate_of(data@),
        inflate_of(r@) == Some(data@),
{
    let mut enc = flate2::write::DeflateEncoder::new(Vec::new(), flate2::Compression::best());
    enc.write_all(data.as_slice()).unwrap();
    enc.finish().unwrap()
}

/// Relies on flate2's `DeflateDecoder`: decompression succeeds or fails as a
/// function of the input bytes alone.
#[verifier::external_body]
fn inflate_bytes(data: &Vec<u8>) -> (r: Option<Vec<u8>>)
    ensures
        match r {
            Some(v) => inflate_of(data@) == Some(v@),
            None => inflate_of(data@) is None,
        },
{
    let mut dec = flate2::read::DeflateDecoder::new(data.as_slice());
    let mut out = Vec::new();
    match dec.read_to_end(&mut out) {
        Ok(_) => Some(out),
        Err(_) => None,
    }
}

impl Aerodrome {
    /// The codec round trip: decoding an encoding always succeeds, and what
    /// comes back encodes to the same bytes (so every field agrees up to
    /// string views, which the encoding determines).
    pub fn round_trip(&self) -> (r: Option<Aerodrome>)
        ensures
            r is Some,
            match r {
                Some(b) => enc_aerodrome(b) == enc_aerodrome(*self),
                None => true,
            },
    {
        let bytes = self.encode();
        let r = Aerodrome::decode(&bytes);
        proof {
            assert(enc_aerodrome(*self) == bytes@);
        }
        r
    }
}

/// Why a framed container was rejected: the magic prefix was wrong, the
/// format version was not the supported one, or the compressed body did not
/// inflate and decode.
#[derive(Clone, Copy, Debug, PartialEq, Eq, Structural)]
pub enum LoadError {
    BadMagic,
    BadVersion,
    BadData,
}

impl Config {
    /// Serialises the framed container: the exact magic and version bytes of
    /// the format, then the deflate-compressed body.
    pub fn save(&self) -> (r: Vec<u8>)
        ensures
            r@ == magic() + version_bytes() + deflate_of(enc_config(*self)),
            inflate_of(deflate_of(enc_config(*self))) == Some(enc_config(*self)),
    {
        let body = self.encode();
        let comp = deflate_bytes(&body);
        let mut out: Vec<u8> = Vec::new();
        push_byte(&mut out, 0xff);
        push_byte(&mut out, 0x42);
        push_byte(&mut out, 0x41);
        push_byte(&mut out, 0x52);
        push_byte(&mut out, 0x53);
        push_byte(&mut out, 0x13);
        push_byte(&mut out, 0x65);
        push_byte(&mut out, 0x75);
        push_byte(&mut out, 0x00);
        push_byte(&mut out, 0x01);
        out.extend_from_slice(comp.as_slice());
        proof {
            assert(out@ =~= magic() + version_bytes() + deflate_of(enc_config(*self)));
        }
        out
    }

    /// Parses the framed container: checks the magic and version, inflates
    /// the body and decodes it. Whatever this accepts re-frames to a
    /// container whose magic, version and body encoding match the input, and
    /// each rejection names which framing layer failed.
    pub fn load(bytes: &Vec<u8>) -> (r: Result<Config, LoadError>)
        ensures
            match r {
                Ok(c) => {
                    &&& bytes@.len() >= 10
                    &&& bytes@.subrange(0, 8) == magic()
                    &&& bytes@.subrange(8, 10) == version_bytes()
                    &&& inflate_of(bytes@.subrange(10, bytes@.len() as int)) == Some(enc_config(c))
                },
                Err(LoadError::BadMagic) => bytes@.len() < 8 || bytes@.subrange(0, 8) != magic(),
                Err(LoadError::BadVersion) => bytes@.len() >= 8 && bytes@.subrange(0, 8) == magic()
                    && (bytes@.len() < 10 || bytes@.subrange(8, 10) != version_bytes()),
                Err(LoadError::BadData) => bytes@.len() >= 10 && bytes@.subrange(0, 8) == magic()
                    && bytes@.subrange(8, 10) == version_bytes(),
            },
            (bytes@.len() >= 10 && bytes@.subrange(0, 8) == magic() && bytes@.subrange(8, 10)
                == version_bytes() && (exists|c: Config|
                inflate_of(bytes@.subrange(10, bytes@.len() as int)) == Some(
                    #[trigger] enc_config(c),
                ))) ==> r is Ok,
    {
        proof {
            assert(bytes@.len() == bytes.len());
        }
        if bytes.len() < 8 {
            return Err(LoadError::BadMagic);
        }
        if !(bytes[0] == 0xff && bytes[1] == 0x42 && bytes[2] == 0x41 && bytes[3] == 0x52
            && bytes[4] == 0x53 && bytes[5] == 0x13 && bytes[6] == 0x65 && bytes[7] == 0x75) {
            proof {
                assert(bytes@.subrange(0, 8) != magic()) by {
                    if bytes@.subrange(0, 8) == magic() {
                        assert(bytes@.subrange(0, 8)[0] == magic()[0]);
                        assert(bytes@.subrange(0, 8)[1] == magic()[1]);
                        assert(bytes@.subrange(0, 8)[2] == magic()[2]);
                        assert(bytes@.subrange(0, 8)[3] == magic()[3]);
                        assert(bytes@.subrange(0, 8)[4] == magic()[4]);
                        assert(bytes@.subrange(0, 8)[5] == magic()[5]);
                        assert(bytes@.subrange(0, 8)[6] == magic()[6]);
                        assert(bytes@.subrange(0, 8)[7] == magic()[7]);
                    }
                }
            }
            return Err(LoadError::BadMagic);
        }
        proof {
            assert(bytes@.subrange(0, 8) =~= magic());
        }
        if bytes.len() < 10 {
            return Err(LoadError::BadVersion);
        }
        if !(bytes[8] == 0x00 && bytes[9] == 0x01) {
            proof {
                assert(bytes@.subrange(8, 10) != version_bytes()) by {
                    if bytes@.subrange(8, 10) == version_bytes() {
                        assert(bytes@.subrange(8, 10)[0] == version_bytes()[0]);
                        assert(bytes@.subrange(8, 10)[1] == version_bytes()[1]);
                    }
                }
            }
            return Err(LoadError::BadVersion);
        }
        proof {
            assert(bytes@.subrange(8, 10) =~= version_bytes());
        }
        let sub = vstd::slice::slice_subrange(bytes.as_slice(), 10, bytes.len());
        let comp = vstd::slice::slice_to_vec(sub);
        let body = match inflate_bytes(&comp) {
            Some(v) => v,
            None => {
                return Err(LoadError::BadData);
            },
        };
        let c = match Config::decode(&body) {
            Some(v) => v,
            None => {
                return Err(LoadError::BadData);
            },
        };
        Ok(c)
    }

    /// The container round trip: loading a saved container always succeeds,
    /// and what comes back encodes to the same body bytes.
    pub fn round_trip(&self) -> (r: Result<Config, LoadError>)
        ensures
            r is Ok,
            match r {
                Ok(c) => enc_config(c) == enc_config(*self),
                Err(_) => true,
            },
    {
        let bytes = self.save();
        let r = Config::load(&bytes);
        proof {
            let tail = bytes@.subrange(10, bytes@.len() as int);
            assert(bytes@.subrange(0, 8) =~= magic());
            assert(bytes@.subrange(8, 10) =~= version_bytes());
            assert(tail =~= deflate_of(enc_config(*self)));
            assert(inflate_of(tail) == Some(enc_config(*self)));
        }
        r
    }
}

} // verus!
