//! The structural half of the layout: roots, loops, layers and the layered
//! graph of layout nodes (real blocks and the dummies that carry long edges).

use vstd::prelude::*;

use crate::cycles::{acyclic, first_cycle, on_cycle, ranked_within, succ_of};
use crate::err::LayoutErr;
use crate::first::{first_index, lemma_first_index};
use crate::graph::{seq_has, Flags, Graph, Id, Node};
use crate::srcs::Srcs;
use crate::exits::{
    chain_has, exits_all_listed, exits_below, exits_ok, heights_cover, lemma_exits_done, lemma_exits_enter_done, lemma_exits_enter_raise,
    lemma_exits_out_end, lemma_exits_out_next, lemma_exits_root, lemma_exits_start, lemma_exits_succ_end,
    lemma_exits_succ_exit, lemma_exits_succ_next, loops_nested, nested, outside,
};
use crate::opts::Opts;
use crate::validate::{
    backedge_count, backedge_flag, graph_error, header_flag, lemma_count_witness, lemma_node_facts, node_facts,
    opts_error, osr_flag, validate, well_formed,
};

verus! {

/// The dummy is in the leftmost run of dummies in its layer.
pub const LEFT_DUMMY: u8 = 1;
/// The dummy is in the rightmost run of dummies in its layer.
pub const RIGHT_DUMMY: u8 = 2;
/// The dummy's link leads straight to a backedge block.
pub const NEXT_BACKEDGE: u8 = 4;
/// The layout node is a dummy, not a block.
pub const DUMMY: u8 = 8;
/// A link that is not connected yet.
pub const NO_DST: usize = usize::MAX;

/// What the layout learns about one block.
#[derive(Debug)]
pub struct BlockState {
    /// Loop depth after clamping to the reconstructed nesting.
    pub depth: usize,
    /// Layer, or -1 while unplaced.
    pub layer: isize,
    /// Innermost loop (header or root) that contains the block.
    pub loop_id: Option<usize>,
    /// Number of layers the loop spans, for headers and roots.
    pub loop_height: usize,
    /// Enclosing loop of a header.
    pub parent: Option<usize>,
    /// Blocks that leave this loop.
    pub outgoing: Vec<usize>,
    /// A root treated as a loop.
    pub pseudo: bool,
    /// The backedge block of a header.
    pub backedge: Option<usize>,
    /// The block's own layout node.
    pub layout_node: Option<usize>,
}

/// A node of the layered graph: a block, or a dummy standing in for an edge
/// that crosses a layer.
#[derive(Debug)]
pub struct LNode {
    /// The block itself, or the block a dummy's edge leads to.
    pub block: usize,
    /// Distinct layout nodes with a link to this one.
    pub src: Srcs,
    /// Destination layout node of each outgoing port.
    pub dsts: Vec<usize>,
    /// `DUMMY`, `LEFT_DUMMY`, `RIGHT_DUMMY` and `NEXT_BACKEDGE` bits.
    pub flags: u8,
}

/// Whether the layout node is a dummy.
pub open spec fn is_dummy(n: LNode) -> bool {
    n.flags & DUMMY != 0
}

impl LNode {
    /// Returns whether this node is a dummy.
    pub fn is_dummy(&self) -> (b: bool)
        ensures
            b == is_dummy(*self),
    {
        self.flags & DUMMY != 0
    }
}

/// The layered graph that edge routing and placement work on.
#[derive(Debug)]
pub struct Plan {
    /// Per-block results, in input order.
    pub blocks: Vec<BlockState>,
    /// Layout nodes.
    pub nodes: Vec<LNode>,
    /// Layout nodes of each layer, left to right.
    pub layers: Vec<Vec<usize>>,
}

/// The structural layout engine over a well-formed graph.
pub(crate) struct Engine<'a> {
    pub(crate) graph: &'a Graph,
    pub(crate) blocks: Vec<BlockState>,
    pub(crate) nodes: Vec<LNode>,
    pub(crate) layers: Vec<Vec<usize>>,
}

/// The one backedge predecessor of a header block.
pub open spec fn backedge_of(g: Seq<Node>, b: int, x: usize) -> bool {
    &&& x < g.len()
    &&& backedge_flag(g[x as int])
    &&& seq_has(g[b].preds@, Id(x))
}

/// Facts about the per-block state that hold through every phase.
pub open spec fn blocks_ok(g: Seq<Node>, blocks: Seq<BlockState>, nodes: nat) -> bool {
    &&& blocks.len() == g.len()
    &&& forall|b: int|
        0 <= b < g.len() ==> {
            let s = #[trigger] blocks[b];
            &&& (s.backedge is Some <==> header_flag(g[b]))
            &&& (s.backedge matches Some(x) ==> backedge_of(g, b, x))
            &&& (s.loop_id matches Some(h) ==> h < g.len())
            &&& (s.parent matches Some(p) ==> p < g.len())
            &&& (forall|k: int| 0 <= k < s.outgoing@.len() ==> (#[trigger] s.outgoing@[k]) < g.len())
            &&& (s.layout_node matches Some(v) ==> v < nodes)
        }
}

/// No block has been placed in a loop or a layer yet.
pub open spec fn fresh(blocks: Seq<BlockState>) -> bool {
    forall|b: int|
        0 <= b < blocks.len() ==> {
            let s = #[trigger] blocks[b];
            &&& s.loop_id is None
            &&& s.parent is None
            &&& s.outgoing@.len() == 0
            &&& s.layout_node is None
            &&& s.layer == -1
        }
}

/// Layout node `v` names a block, has one link per port (one for a dummy),
/// and its links and sources name layout nodes.
pub open spec fn node_ok(g: Seq<Node>, nodes: Seq<LNode>, v: int) -> bool {
    let x = nodes[v];
    &&& x.block < g.len()
    &&& x.dsts@.len() == if is_dummy(x) {
        1
    } else {
        g[x.block as int].succs@.len()
    }
    &&& forall|p: int| 0 <= p < x.dsts@.len() ==> (#[trigger] x.dsts@[p] == NO_DST || x.dsts@[p] < nodes.len())
    &&& forall|k: int| 0 <= k < x.src@.len() ==> (#[trigger] x.src@[k]) < nodes.len()
}

/// Every layout node is well formed.
pub open spec fn nodes_ok(g: Seq<Node>, nodes: Seq<LNode>) -> bool {
    forall|v: int| 0 <= v < nodes.len() ==> #[trigger] node_ok(g, nodes, v)
}

/// The block that port `p` of layout node `v` leads to: a dummy stands on
/// the way to its own block, and the node of a block leads to the
/// successor at that port.
pub open spec fn heads(g: Seq<Node>, nodes: Seq<LNode>, v: int, p: int) -> int {
    if is_dummy(nodes[v]) {
        nodes[v].block as int
    } else {
        g[nodes[v].block as int].succs@[p].0 as int
    }
}

/// Every connected link ends at a layout node of the block it leads to.
pub open spec fn aimed(g: Seq<Node>, nodes: Seq<LNode>) -> bool {
    forall|v: int, p: int|
        0 <= v < nodes.len() && 0 <= p < nodes[v].dsts@.len() && #[trigger] nodes[v].dsts@[p] != NO_DST
            ==> nodes[nodes[v].dsts@[p] as int].block == heads(g, nodes, v, p)
}

/// Layout node `v` stands in some layer.
pub open spec fn placed(layers: Seq<Vec<usize>>, v: usize) -> bool {
    exists|l: int, k: int| 0 <= l < layers.len() && 0 <= k < layers[l]@.len() && #[trigger] layers[l]@[k] == v
}

/// The layout node of every block stands in a layer.
pub open spec fn blocks_placed(blocks: Seq<BlockState>, layers: Seq<Vec<usize>>) -> bool {
    forall|b: int|
        0 <= b < blocks.len() ==> ((#[trigger] blocks[b]).layout_node matches Some(v) ==> placed(layers, v))
}

/// Every block's node in the layers `ls` stood at the same place in
/// `old_ls`, or is a node of one of `blocks` in layer `layer`.
pub open spec fn block_nodes_from(
    nodes: Seq<LNode>,
    old_ls: Seq<Vec<usize>>,
    ls: Seq<Vec<usize>>,
    layer: int,
    blocks: Seq<usize>,
) -> bool {
    forall|j: int, k: int|
        #![trigger ls[j]@[k]]
        0 <= j < ls.len() && 0 <= k < ls[j]@.len() && !is_dummy(nodes[ls[j]@[k] as int]) ==> (j < old_ls.len() && k
            < old_ls[j]@.len() && ls[j]@[k] == old_ls[j]@[k]) || (j == layer && blocks.contains(
            nodes[ls[j]@[k] as int].block,
        ))
}

/// Block nodes in earlier layers lie in lower block layers, and block nodes
/// in one layer share their block layer.
pub open spec fn levels_ordered(nodes: Seq<LNode>, layers: Seq<Vec<usize>>, blocks: Seq<BlockState>) -> bool {
    forall|l1: int, k1: int, l2: int, k2: int|
        #![trigger layers[l1]@[k1], layers[l2]@[k2]]
        0 <= l1 < layers.len() && 0 <= k1 < layers[l1]@.len() && 0 <= l2 < layers.len() && 0 <= k2 < layers[l2]@.len()
            && !is_dummy(nodes[layers[l1]@[k1] as int]) && !is_dummy(nodes[layers[l2]@[k2] as int]) ==> {
            let b1 = nodes[layers[l1]@[k1] as int].block as int;
            let b2 = nodes[layers[l2]@[k2] as int].block as int;
            &&& l1 < l2 ==> blocks[b1].layer < blocks[b2].layer
            &&& l1 == l2 ==> blocks[b1].layer == blocks[b2].layer
        }
}

/// Each of the first `upto` blocks of `blocks` has a layout node made after
/// the first `base` nodes, standing in layer `layer`.
pub open spec fn laid_out(
    st: Seq<BlockState>,
    ls: Seq<Vec<usize>>,
    layer: int,
    base: nat,
    blocks: Seq<usize>,
    upto: int,
) -> bool {
    forall|k: int|
        #![trigger blocks[k]]
        0 <= k < upto ==> (st[blocks[k] as int].layout_node matches Some(v) && v >= base && ls[layer]@.contains(v))
}

/// Pushing onto a layer keeps what it held.
proof fn lemma_contains_push(a: Seq<usize>, b: Seq<usize>, x: usize)
    requires
        b == a.push(x),
    ensures
        forall|v: usize| #[trigger] a.contains(v) ==> b.contains(v),
        b.contains(x),
{
    assert forall|v: usize| #[trigger] a.contains(v) implies b.contains(v) by {
        let i = choose|i: int| 0 <= i < a.len() && a[i] == v;
        assert(b[i] == v);
    }
    assert(b[a.len() as int] == x);
}

/// Pushing a node that stands nowhere keeps the layers free of repeats.
proof fn lemma_distinct_push(a: Seq<Vec<usize>>, b: Seq<Vec<usize>>, l: int, x: usize)
    requires
        distinct_layers(a),
        0 <= l < a.len(),
        forall|i: int, k: int| 0 <= i < a.len() && 0 <= k < a[i]@.len() ==> (#[trigger] a[i]@[k]) != x,
        b.len() == a.len(),
        forall|j: int| 0 <= j < a.len() && j != l ==> #[trigger] b[j] == a[j],
        b[l]@ == a[l]@.push(x),
    ensures
        distinct_layers(b),
{
    assert forall|l1: int, k1: int, l2: int, k2: int|
        0 <= l1 < b.len() && 0 <= k1 < b[l1]@.len() && 0 <= l2 < b.len() && 0 <= k2 < b[l2]@.len()
            && #[trigger] b[l1]@[k1] == #[trigger] b[l2]@[k2] implies l1 == l2 && k1 == k2 by {
        let last = a[l]@.len() as int;
        let in1 = l1 == l && k1 == last;
        let in2 = l2 == l && k2 == last;
        if !in1 {
            if l1 != l {
                assert(b[l1] == a[l1]);
            }
            assert(b[l1]@[k1] == a[l1]@[k1]);
        }
        if !in2 {
            if l2 != l {
                assert(b[l2] == a[l2]);
            }
            assert(b[l2]@[k2] == a[l2]@[k2]);
        }
        if in1 && !in2 {
            assert(a[l2]@[k2] != x);
        } else if in2 && !in1 {
            assert(a[l1]@[k1] != x);
        }
    }
}

/// Pushing onto one layer keeps every node where it stood.
proof fn lemma_placed_push(a: Seq<Vec<usize>>, b: Seq<Vec<usize>>, l: int)
    requires
        0 <= l < a.len(),
        b.len() == a.len(),
        forall|j: int| 0 <= j < a.len() && j != l ==> #[trigger] b[j] == a[j],
        b[l]@.len() >= a[l]@.len(),
        forall|k: int| 0 <= k < a[l]@.len() ==> #[trigger] b[l]@[k] == a[l]@[k],
    ensures
        forall|v: usize| #[trigger] placed(a, v) ==> placed(b, v),
{
    assert forall|v: usize| #[trigger] placed(a, v) implies placed(b, v) by {
        let (j, k) = choose|j: int, k: int| 0 <= j < a.len() && 0 <= k < a[j]@.len() && #[trigger] a[j]@[k] == v;
        if j == l {
            assert(b[j]@[k] == v);
        } else {
            assert(b[j] == a[j]);
            assert(b[j]@[k] == v);
        }
    }
}

/// The layout node recorded for a block is a node of that block and no
/// dummy.
pub open spec fn layout_ok(blocks: Seq<BlockState>, nodes: Seq<LNode>) -> bool {
    forall|b: int|
        0 <= b < blocks.len() ==> ((#[trigger] blocks[b]).layout_node matches Some(v) ==> (v < nodes.len()
            && nodes[v as int].block == b && !is_dummy(nodes[v as int])))
}

/// Every layer lists layout nodes.
pub open spec fn layers_ok(layers: Seq<Vec<usize>>, nodes: nat) -> bool {
    forall|l: int, k: int|
        0 <= l < layers.len() && 0 <= k < layers[l]@.len() ==> (#[trigger] layers[l]@[k]) < nodes
}

/// No layout node stands at two places in the layers.
pub open spec fn distinct_layers(layers: Seq<Vec<usize>>) -> bool {
    forall|l1: int, k1: int, l2: int, k2: int|
        0 <= l1 < layers.len() && 0 <= k1 < layers[l1]@.len() && 0 <= l2 < layers.len() && 0 <= k2
            < layers[l2]@.len() && #[trigger] layers[l1]@[k1] == #[trigger] layers[l2]@[k2] ==> l1 == l2 && k1 == k2
}

/// Every link of layout node `v` is connected, and every source of `v` has a
/// link to it.
pub open spec fn linked(nodes: Seq<LNode>, v: int) -> bool {
    let x = nodes[v];
    &&& forall|p: int| 0 <= p < x.dsts@.len() ==> (#[trigger] x.dsts@[p]) != NO_DST && x.dsts@[p] < nodes.len()
    &&& forall|j: int|
        0 <= j < x.src@.len() ==> exists|p: int|
            0 <= p < nodes[(#[trigger] x.src@[j]) as int].dsts@.len() && nodes[x.src@[j] as int].dsts@[p]
                == v
    &&& x.flags & NEXT_BACKEDGE != 0 ==> is_dummy(x) && !is_dummy(nodes[x.dsts@[0] as int])
}

/// A finished layered graph over the well-formed graph `g`: every block has
/// its own layout node and loop, placed in a layer; no node stands twice in
/// the layers; every link ends at a node of the block it leads to, and every
/// layout node that is placed in a layer is fully linked.
pub open spec fn plan_ok(g: Seq<Node>, p: Plan) -> bool {
    let nodes = p.nodes@;
    &&& well_formed(g)
    &&& p.blocks@.len() == g.len()
    &&& nodes_ok(g, nodes)
    &&& layers_ok(p.layers@, nodes.len())
    &&& aimed(g, nodes)
    &&& blocks_placed(p.blocks@, p.layers@)
    &&& distinct_layers(p.layers@)
    &&& forall|b: int|
        0 <= b < g.len() ==> {
            let s = #[trigger] p.blocks@[b];
            &&& s.layout_node matches Some(v) && v < nodes.len() && nodes[v as int].block == b
                && !is_dummy(nodes[v as int])
            &&& s.loop_id matches Some(h) && h < g.len()
        }
    &&& forall|l: int, k: int|
        0 <= l < p.layers@.len() && 0 <= k < p.layers@[l]@.len() ==> linked(
            nodes,
            #[trigger] p.layers@[l]@[k] as int,
        )
}

/// Every block has its layout node and its loop, and every node in the
/// layers is fully linked.
pub open spec fn complete(blocks: Seq<BlockState>, nodes: Seq<LNode>, layers: Seq<Vec<usize>>) -> bool {
    &&& forall|b: int| 0 <= b < blocks.len() ==> (#[trigger] blocks[b]).layout_node is Some && blocks[b].loop_id is Some
    &&& forall|l: int, k: int|
        0 <= l < layers.len() && 0 <= k < layers[l]@.len() ==> linked(nodes, #[trigger] layers[l]@[k] as int)
}

/// An edge that still has to reach its destination block: port `port` of
/// layout node `src` leads towards block `dst_block`.
#[derive(Clone, Copy)]
pub struct Edge {
    /// Layout node the edge currently leaves from.
    pub src: usize,
    /// Port of `src`.
    pub port: usize,
    /// Block the edge leads to.
    pub dst_block: usize,
}

/// Some edge of `es` leads to block `d`.
pub open spec fn has_dst(es: Seq<Edge>, d: usize) -> bool {
    exists|k: int| 0 <= k < es.len() && (#[trigger] es[k]).dst_block == d
}

/// Layout node `u` has a link to layout node `w`.
pub open spec fn points_to(nodes: Seq<LNode>, u: int, w: int) -> bool {
    exists|p: int| 0 <= p < nodes[u].dsts@.len() && #[trigger] nodes[u].dsts@[p] == w
}

/// Every source recorded for a layout node has a link to it.
pub open spec fn recip(nodes: Seq<LNode>) -> bool {
    forall|w: int, j: int|
        0 <= w < nodes.len() && 0 <= j < nodes[w].src@.len() ==> points_to(nodes, #[trigger] nodes[w].src@[j] as int, w)
}

/// Some edge of `es` waits on port `p` of layout node `v`.
pub open spec fn waiting(es: Seq<Edge>, v: int, p: int) -> bool {
    exists|k: int| 0 <= k < es.len() && (#[trigger] es[k]).src == v && es[k].port == p
}

/// Port `p` of layout node `v` is connected, or an edge of `es` or `ts`
/// waits on it.
pub open spec fn covered(nodes: Seq<LNode>, es: Seq<Edge>, ts: Seq<Edge>, v: int, p: int) -> bool {
    nodes[v].dsts@[p] != NO_DST || waiting(es, v, p) || waiting(ts, v, p)
}

/// Every port of every layout node is connected or waited on.
pub open spec fn ports_covered(nodes: Seq<LNode>, es: Seq<Edge>, ts: Seq<Edge>) -> bool {
    forall|v: int, p: int| 0 <= v < nodes.len() && 0 <= p < nodes[v].dsts@.len() ==> #[trigger] covered(nodes, es, ts, v, p)
}

/// Every edge of `es` waits on a port that is not connected yet.
pub open spec fn free_ports(nodes: Seq<LNode>, es: Seq<Edge>) -> bool {
    forall|k: int| 0 <= k < es.len() ==> nodes[(#[trigger] es[k]).src as int].dsts@[es[k].port as int] == NO_DST
}

/// If layout node `v` carries `NEXT_BACKEDGE`, it is a dummy whose link is
/// connected to a node that is no dummy.
pub open spec fn next_at(nodes: Seq<LNode>, v: int) -> bool {
    nodes[v].flags & NEXT_BACKEDGE != 0 ==> {
        &&& is_dummy(nodes[v])
        &&& nodes[v].dsts@.len() > 0
        &&& nodes[v].dsts@[0] != NO_DST
        &&& nodes[v].dsts@[0] < nodes.len()
        &&& !is_dummy(nodes[nodes[v].dsts@[0] as int])
    }
}

/// Every layout node that carries `NEXT_BACKEDGE` is a dummy linked to a
/// node that is no dummy.
pub open spec fn next_ok(nodes: Seq<LNode>) -> bool {
    forall|v: int| 0 <= v < nodes.len() ==> #[trigger] next_at(nodes, v)
}

/// Connecting a port keeps `next_ok`, when the node connected from either
/// already satisfied it with a free port or the same target, or is a dummy
/// whose only link now goes to a node that is no dummy.
proof fn lemma_connect_next(n0: Seq<LNode>, n1: Seq<LNode>, from: int, port: int, to: int)
    requires
        n0.len() == n1.len(),
        n0.len() <= NO_DST,
        0 <= from < n0.len(),
        0 <= to < n0.len(),
        0 <= port < n0[from].dsts@.len(),
        n1[from].dsts@ == n0[from].dsts@.update(port, to as usize),
        forall|v: int| 0 <= v < n1.len() && v != from ==> (#[trigger] n1[v]).dsts@ == n0[v].dsts@,
        forall|v: int| 0 <= v < n1.len() ==> (#[trigger] n1[v]).flags == n0[v].flags && is_dummy(n1[v]) == is_dummy(n0[v]),
        forall|v: int| 0 <= v < n0.len() && v != from ==> #[trigger] next_at(n0, v),
        (next_at(n0, from) && (n0[from].dsts@[port] == NO_DST || n0[from].dsts@[port] == to)) || (port == 0 && is_dummy(n0[from])
            && !is_dummy(n0[to])),
    ensures
        next_ok(n1),
{
    assert forall|v: int| 0 <= v < n1.len() implies #[trigger] next_at(n1, v) by {
        if n1[v].flags & NEXT_BACKEDGE != 0 {
            assert(n0[v].flags & NEXT_BACKEDGE != 0);
            if v != from {
                assert(next_at(n0, v));
                let w = n0[v].dsts@[0] as int;
                assert(n1[v].dsts@[0] == n0[v].dsts@[0]);
                assert(is_dummy(n1[w]) == is_dummy(n0[w]));
            } else if next_at(n0, from) && (n0[from].dsts@[port] == NO_DST || n0[from].dsts@[port] == to) {
                if port == 0 {
                    assert(n1[from].dsts@[0] == to);
                    assert(is_dummy(n1[to]) == is_dummy(n0[to]));
                } else {
                    let w = n0[v].dsts@[0] as int;
                    assert(n1[v].dsts@[0] == n0[v].dsts@[0]);
                    assert(is_dummy(n1[w]) == is_dummy(n0[w]));
                }
            } else {
                assert(n1[from].dsts@[0] == to);
                assert(is_dummy(n1[to]) == is_dummy(n0[to]));
            }
        }
    }
}

/// Adding a node without `NEXT_BACKEDGE` keeps `next_ok`.
proof fn lemma_push_next(n0: Seq<LNode>, n1: Seq<LNode>)
    requires
        next_ok(n0),
        n1.len() == n0.len() + 1,
        forall|v: int| 0 <= v < n0.len() ==> #[trigger] n1[v] == n0[v],
        n1[n0.len() as int].flags & NEXT_BACKEDGE == 0,
    ensures
        next_ok(n1),
{
    assert forall|v: int| 0 <= v < n1.len() implies #[trigger] next_at(n1, v) by {
        if v < n0.len() {
            assert(next_at(n0, v));
            assert(n1[v] == n0[v]);
            if n0[v].flags & NEXT_BACKEDGE != 0 {
                let w = n0[v].dsts@[0] as int;
                assert(n1[w] == n0[w]);
            }
        }
    }
}

/// The links of the layout nodes while a graph without loops is laid out:
/// every source links back, every port is connected or waited on by a
/// pending edge on a free port, and no node is a backedge dummy.
pub open spec fn wiring(nodes: Seq<LNode>, es: Seq<Edge>) -> bool {
    &&& recip(nodes)
    &&& ports_covered(nodes, es, Seq::empty())
    &&& free_ports(nodes, es)
    &&& next_ok(nodes)
}

/// Where the links stand while the pending edges of a layer are continued
/// through dummies: the edges from index `i` on leave old nodes on ports
/// that are free or already lead to the dummy of their block; the earlier
/// ones now leave a new dummy on its free port; each block has one dummy;
/// and the edges that end in this layer still wait on free ports of old
/// nodes.
pub open spec fn threading(
    nodes: Seq<LNode>,
    base: int,
    act: Seq<Edge>,
    i: int,
    dummies: Seq<(usize, usize)>,
    term: Seq<Edge>,
) -> bool {
    &&& forall|j: int|
        i <= j < act.len() ==> (#[trigger] act[j]).src < base && (nodes[act[j].src as int].dsts@[act[j].port as int] == NO_DST
            || exists|k: int|
            0 <= k < dummies.len() && (#[trigger] dummies[k]).0 == act[j].dst_block && nodes[act[j].src as int].dsts@[act[j].port as int]
                == dummies[k].1)
    &&& forall|j: int|
        0 <= j < i ==> (#[trigger] act[j]).src >= base && nodes[act[j].src as int].dsts@[act[j].port as int] == NO_DST
    &&& forall|k1: int, k2: int|
        0 <= k1 < dummies.len() && 0 <= k2 < dummies.len() && (#[trigger] dummies[k1]).0 == (#[trigger] dummies[k2]).0 ==> k1 == k2
    &&& forall|k: int|
        0 <= k < dummies.len() ==> (#[trigger] dummies[k]).1 >= base && nodes[dummies[k].1 as int].dsts@[0] == NO_DST
    &&& forall|k: int|
        0 <= k < term.len() ==> (#[trigger] term[k]).src < base && nodes[term[k].src as int].dsts@[term[k].port as int] == NO_DST
}

/// Where the links stand while the blocks of a layer get their nodes:
/// every pending edge waits on a free port of a node made in this layer;
/// an edge that ends in this layer waits on a free port of an older node
/// until its block is among `done`, and is connected after; and every port
/// of a node other than `skip` is connected or waited on.
pub open spec fn laying(nodes: Seq<LNode>, base: int, act: Seq<Edge>, term: Seq<Edge>, done: Seq<usize>, skip: int) -> bool {
    &&& recip(nodes)
    &&& next_ok(nodes)
    &&& forall|j: int|
        0 <= j < act.len() ==> (#[trigger] act[j]).src >= base && nodes[act[j].src as int].dsts@[act[j].port as int] == NO_DST
    &&& forall|k: int|
        0 <= k < term.len() ==> (#[trigger] term[k]).src < base && (done.contains(term[k].dst_block) <==> nodes[term[k].src as int].dsts@[term[k].port as int]
            != NO_DST)
    &&& forall|v: int, p: int|
        0 <= v < nodes.len() && v != skip && 0 <= p < nodes[v].dsts@.len() ==> #[trigger] covered(nodes, act, term, v, p)
}

/// Adding a node with no sources keeps every source linked back.
proof fn lemma_push_recip(n0: Seq<LNode>, n1: Seq<LNode>)
    requires
        recip(n0),
        forall|w: int, j: int| 0 <= w < n0.len() && 0 <= j < n0[w].src@.len() ==> (#[trigger] n0[w].src@[j]) < n0.len(),
        n1.len() == n0.len() + 1,
        forall|v: int| 0 <= v < n0.len() ==> #[trigger] n1[v] == n0[v],
        n1[n0.len() as int].src@.len() == 0,
    ensures
        recip(n1),
{
    assert forall|w: int, j: int| 0 <= w < n1.len() && 0 <= j < n1[w].src@.len() implies points_to(
        n1,
        #[trigger] n1[w].src@[j] as int,
        w,
    ) by {
        assert(w < n0.len());
        assert(n1[w] == n0[w]);
        let u = n0[w].src@[j] as int;
        assert(points_to(n0, u, w));
        let p = choose|p: int| 0 <= p < n0[u].dsts@.len() && #[trigger] n0[u].dsts@[p] == w;
        assert(n1[u] == n0[u]);
        assert(n1[u].dsts@[p] == w);
    }
}

/// Connecting a free port, or one that already leads to the same node,
/// keeps every source linked back.
proof fn lemma_connect_recip(n0: Seq<LNode>, n1: Seq<LNode>, from: int, port: int, to: int)
    requires
        recip(n0),
        forall|w: int, j: int| 0 <= w < n0.len() && 0 <= j < n0[w].src@.len() ==> (#[trigger] n0[w].src@[j]) < n0.len(),
        n0.len() == n1.len(),
        n0.len() <= NO_DST,
        0 <= from < n0.len(),
        0 <= to < n0.len(),
        0 <= port < n0[from].dsts@.len(),
        n0[from].dsts@[port] == NO_DST || n0[from].dsts@[port] == to,
        n1[from].dsts@ == n0[from].dsts@.update(port, to as usize),
        forall|v: int| 0 <= v < n1.len() && v != from ==> (#[trigger] n1[v]).dsts@ == n0[v].dsts@,
        n1[to].src@ == if n0[to].src@.contains(from as usize) {
            n0[to].src@
        } else {
            n0[to].src@.push(from as usize)
        },
        forall|v: int| 0 <= v < n1.len() && v != to ==> (#[trigger] n1[v]).src@ == n0[v].src@,
    ensures
        recip(n1),
{
    assert forall|w: int, j: int| 0 <= w < n1.len() && 0 <= j < n1[w].src@.len() implies points_to(
        n1,
        #[trigger] n1[w].src@[j] as int,
        w,
    ) by {
        let u = n1[w].src@[j] as int;
        if w == to && u == from {
            assert(n1[u].dsts@[port] == w);
            assert(points_to(n1, u, w));
        } else {
            if w == to && !n0[to].src@.contains(from as usize) && j == n0[to].src@.len() {
                assert(false);
            }
            assert(n1[w].src@[j] == n0[w].src@[j]);
            assert(points_to(n0, n0[w].src@[j] as int, w));
            let p = choose|p: int| 0 <= p < n0[u].dsts@.len() && #[trigger] n0[u].dsts@[p] == w;
            if u == from {
                if p == port {
                    assert(w == to);
                    assert(n1[u].dsts@[port] == w);
                } else {
                    assert(n1[u].dsts@[p] == n0[u].dsts@.update(port, to as usize)[p]);
                    assert(n1[u].dsts@[p] == w);
                }
            } else {
                assert(n1[u].dsts@[p] == w);
            }
            assert(points_to(n1, u, w));
        }
    }
}

/// An edge left after placing the layer of `blocks` either was pending
/// before and leads elsewhere, or leaves one of `blocks` along a plain edge.
pub open spec fn carried(g: Seq<Node>, old_es: Seq<Edge>, blocks: Seq<usize>, d: usize) -> bool {
    ||| has_dst(old_es, d) && !blocks.contains(d)
    ||| exists|k: int, p: int|
        0 <= k < blocks.len() && #[trigger] plain_edge(g, blocks[k] as int, p) && g[blocks[k] as int].succs@[p].0 == d
}

/// An edge from block `a` through its port `p` that neither leaves nor
/// enters a backedge block.
pub open spec fn plain_edge(g: Seq<Node>, a: int, p: int) -> bool {
    &&& 0 <= a < g.len()
    &&& 0 <= p < g[a].succs@.len()
    &&& !backedge_flag(g[a])
    &&& !backedge_flag(g[g[a].succs@[p].0 as int])
}

proof fn lemma_has_dst_push(es: Seq<Edge>, e: Edge)
    ensures
        forall|d: usize| #[trigger] has_dst(es, d) ==> has_dst(es.push(e), d),
        has_dst(es.push(e), e.dst_block),
{
    assert forall|d: usize| #[trigger] has_dst(es, d) implies has_dst(es.push(e), d) by {
        let k = choose|k: int| 0 <= k < es.len() && (#[trigger] es[k]).dst_block == d;
        assert(es.push(e)[k] == es[k]);
    }
    assert(es.push(e)[es.len() as int] == e);
}

/// The edge leaves from an existing port that leads to its block.
pub open spec fn edge_ok(g: Seq<Node>, nodes: Seq<LNode>, e: Edge) -> bool {
    &&& e.src < nodes.len()
    &&& e.port < nodes[e.src as int].dsts@.len()
    &&& e.dst_block < g.len()
    &&& heads(g, nodes, e.src as int, e.port as int) == e.dst_block
}

/// Every edge leaves from an existing port that leads to its block.
pub open spec fn edges_ok(g: Seq<Node>, nodes: Seq<LNode>, es: Seq<Edge>) -> bool {
    forall|k: int| 0 <= k < es.len() ==> edge_ok(g, nodes, #[trigger] es[k])
}

/// Every pair is a block and a layout node.
pub open spec fn pairs_ok(ps: Seq<(usize, usize)>, blocks: nat, nodes: nat) -> bool {
    forall|k: int| 0 <= k < ps.len() ==> (#[trigger] ps[k]).0 < blocks && ps[k].1 < nodes
}

/// Layout nodes only grow, and existing ones keep their number of ports.
pub open spec fn grows(old_nodes: Seq<LNode>, new_nodes: Seq<LNode>) -> bool {
    &&& new_nodes.len() >= old_nodes.len()
    &&& forall|v: int|
        0 <= v < old_nodes.len() ==> (#[trigger] new_nodes[v]).dsts@.len() == old_nodes[v].dsts@.len()
            && new_nodes[v].block == old_nodes[v].block && is_dummy(new_nodes[v]) == is_dummy(old_nodes[v])
}

/// Setting an end bit leaves `NEXT_BACKEDGE` as it was.
pub proof fn lemma_next_bit()
    ensures
        forall|f: u8| #![trigger f | LEFT_DUMMY] (f | LEFT_DUMMY) & NEXT_BACKEDGE == f & NEXT_BACKEDGE,
        forall|f: u8| #![trigger f | RIGHT_DUMMY] (f | RIGHT_DUMMY) & NEXT_BACKEDGE == f & NEXT_BACKEDGE,
{
    assert(forall|f: u8| #![trigger f | 1u8] (f | 1u8) & 4u8 == f & 4u8) by (bit_vector);
    assert(forall|f: u8| #![trigger f | 2u8] (f | 2u8) & 4u8 == f & 4u8) by (bit_vector);
}

/// The `DUMMY` flag marks a dummy.
pub proof fn lemma_dummy_bit()
    ensures
        DUMMY & DUMMY != 0,
        0u8 & DUMMY == 0,
        forall|f: u8| #![trigger f | NEXT_BACKEDGE] (f | NEXT_BACKEDGE) & DUMMY == f & DUMMY,
        forall|f: u8| #![trigger f | LEFT_DUMMY] (f | LEFT_DUMMY) & DUMMY == f & DUMMY,
        forall|f: u8| #![trigger f | RIGHT_DUMMY] (f | RIGHT_DUMMY) & DUMMY == f & DUMMY,
{
    assert(8u8 & 8u8 != 0u8) by (bit_vector);
    assert(0u8 & 8u8 == 0u8) by (bit_vector);
    assert(forall|f: u8| #![trigger f | 4u8] (f | 4u8) & 8u8 == f & 8u8) by (bit_vector);
    assert(forall|f: u8| #![trigger f | 1u8] (f | 1u8) & 8u8 == f & 8u8) by (bit_vector);
    assert(forall|f: u8| #![trigger f | 2u8] (f | 2u8) & 8u8 == f & 8u8) by (bit_vector);
}

/// No layout node carries `LEFT_DUMMY` or `RIGHT_DUMMY` yet.
pub open spec fn no_end_bits(nodes: Seq<LNode>) -> bool {
    forall|v: int| 0 <= v < nodes.len() ==> (#[trigger] nodes[v]).flags & (LEFT_DUMMY | RIGHT_DUMMY) == 0
}

/// Setting `NEXT_BACKEDGE`, `LEFT_DUMMY` or `RIGHT_DUMMY` leaves the other
/// bits as they were.
pub proof fn lemma_end_bits()
    ensures
        0u8 & (LEFT_DUMMY | RIGHT_DUMMY) == 0,
        DUMMY & (LEFT_DUMMY | RIGHT_DUMMY) == 0,
        forall|f: u8| #![trigger f | NEXT_BACKEDGE] (f | NEXT_BACKEDGE) & (LEFT_DUMMY | RIGHT_DUMMY) == f & (LEFT_DUMMY | RIGHT_DUMMY),
        forall|f: u8|
            #![trigger f & (LEFT_DUMMY | RIGHT_DUMMY)]
            f & (LEFT_DUMMY | RIGHT_DUMMY) == 0 ==> f & LEFT_DUMMY == 0 && f & RIGHT_DUMMY == 0,
        forall|f: u8| #![trigger f | LEFT_DUMMY] (f | LEFT_DUMMY) & LEFT_DUMMY != 0 && (f | LEFT_DUMMY) & RIGHT_DUMMY == f & RIGHT_DUMMY,
        forall|f: u8| #![trigger f | RIGHT_DUMMY] (f | RIGHT_DUMMY) & RIGHT_DUMMY != 0 && (f | RIGHT_DUMMY) & LEFT_DUMMY == f & LEFT_DUMMY,
{
    assert(0u8 & (1u8 | 2u8) == 0u8) by (bit_vector);
    assert(8u8 & (1u8 | 2u8) == 0u8) by (bit_vector);
    assert(forall|f: u8| #![trigger f | 4u8] (f | 4u8) & (1u8 | 2u8) == f & (1u8 | 2u8)) by (bit_vector);
    assert(forall|f: u8| #![trigger f & (1u8 | 2u8)] f & (1u8 | 2u8) == 0u8 ==> f & 1u8 == 0u8 && f & 2u8 == 0u8) by (bit_vector);
    assert(forall|f: u8| #![trigger f | 1u8] (f | 1u8) & 1u8 != 0u8 && (f | 1u8) & 2u8 == f & 2u8) by (bit_vector);
    assert(forall|f: u8| #![trigger f | 2u8] (f | 2u8) & 2u8 != 0u8 && (f | 2u8) & 1u8 == f & 1u8) by (bit_vector);
}

/// Positions `0..=k` of the layer hold dummies.
pub open spec fn left_run(nodes: Seq<LNode>, row: Seq<usize>, k: int) -> bool {
    forall|j: int| 0 <= j <= k ==> is_dummy(nodes[#[trigger] row[j] as int])
}

/// Positions `k..` of the layer hold dummies.
pub open spec fn right_run(nodes: Seq<LNode>, row: Seq<usize>, k: int) -> bool {
    forall|j: int| k <= j < row.len() ==> is_dummy(nodes[#[trigger] row[j] as int])
}

/// The node at position `k` of the layer carries `LEFT_DUMMY` exactly when it
/// and every node before it are dummies, and `RIGHT_DUMMY` exactly when it and
/// every node after it are.
pub open spec fn end_flags_ok(nodes: Seq<LNode>, row: Seq<usize>, k: int) -> bool {
    let f = nodes[row[k] as int].flags;
    &&& (f & LEFT_DUMMY != 0 <==> left_run(nodes, row, k))
    &&& (f & RIGHT_DUMMY != 0 <==> right_run(nodes, row, k))
}

/// Every layer has its end runs of dummies flagged, and no other node.
pub open spec fn ends_marked(nodes: Seq<LNode>, layers: Seq<Vec<usize>>) -> bool {
    forall|l: int, k: int| 0 <= l < layers.len() && 0 <= k < layers[l]@.len() ==> #[trigger] end_flags_ok(nodes, layers[l]@, k)
}

/// The end bits after setting `LEFT_DUMMY` when `left` and then
/// `RIGHT_DUMMY` when `right` on flags that had neither.
proof fn lemma_end_bits_set(f: u8, left: bool, right: bool)
    requires
        f & (LEFT_DUMMY | RIGHT_DUMMY) == 0,
    ensures
        ({
            let m = if left { f | LEFT_DUMMY } else { f };
            let r = if right { m | RIGHT_DUMMY } else { m };
            &&& (r & LEFT_DUMMY != 0 <==> left)
            &&& (r & RIGHT_DUMMY != 0 <==> right)
        }),
{
    assert(f & 1u8 == 0u8 && f & 2u8 == 0u8) by (bit_vector)
        requires
            f & (1u8 | 2u8) == 0u8,
    ;
    assert((f | 1u8) & 1u8 != 0u8 && (f | 1u8) & 2u8 == 0u8) by (bit_vector)
        requires
            f & 2u8 == 0u8,
    ;
    assert((f | 2u8) & 2u8 != 0u8 && (f | 2u8) & 1u8 == 0u8) by (bit_vector)
        requires
            f & 1u8 == 0u8,
    ;
    assert(((f | 1u8) | 2u8) & 1u8 != 0u8 && ((f | 1u8) | 2u8) & 2u8 != 0u8) by (bit_vector);
}

/// The end flags of a position stay right while its node keeps its flags and
/// every node of the layer stays a dummy or not.
proof fn lemma_end_flags_stable(a: Seq<LNode>, b: Seq<LNode>, row: Seq<usize>, k: int)
    requires
        end_flags_ok(a, row, k),
        0 <= k < row.len(),
        b[row[k] as int].flags == a[row[k] as int].flags,
        forall|j: int| 0 <= j < row.len() ==> is_dummy(b[#[trigger] row[j] as int]) == is_dummy(a[row[j] as int]),
    ensures
        end_flags_ok(b, row, k),
{
    assert(left_run(a, row, k) == left_run(b, row, k));
    assert(right_run(a, row, k) == right_run(b, row, k));
}

/// Layout node `w` is a dummy on the way to a backedge block that no node
/// links to.
pub open spec fn orphan(g: Seq<Node>, nodes: Seq<LNode>, w: int) -> bool {
    &&& is_dummy(nodes[w])
    &&& backedge_flag(g[nodes[w].block as int])
    &&& nodes[w].src@.len() == 0
}

/// Every pair names a dummy layout node of the pair's block.
pub open spec fn dummies_ok(ps: Seq<(usize, usize)>, nodes: Seq<LNode>) -> bool {
    forall|k: int|
        0 <= k < ps.len() ==> is_dummy(nodes[(#[trigger] ps[k]).1 as int]) && nodes[ps[k].1 as int].block
            == ps[k].0
}

proof fn lemma_dummies_grow(ps: Seq<(usize, usize)>, a: Seq<LNode>, b: Seq<LNode>)
    requires
        dummies_ok(ps, a),
        forall|k: int| 0 <= k < ps.len() ==> (#[trigger] ps[k]).1 < a.len(),
        grows(a, b),
    ensures
        dummies_ok(ps, b),
{
    assert forall|k: int| 0 <= k < ps.len() implies is_dummy(b[(#[trigger] ps[k]).1 as int])
        && b[ps[k].1 as int].block == ps[k].0 by {
        let d = ps[k].1 as int;
        assert(is_dummy(b[d]) == is_dummy(a[d]));
        assert(b[d].block == a[d].block);
    }
}

proof fn lemma_edges_grow(g: Seq<Node>, a: Seq<LNode>, b: Seq<LNode>, es: Seq<Edge>)
    requires
        edges_ok(g, a, es),
        grows(a, b),
    ensures
        edges_ok(g, b, es),
{
    assert forall|k: int| 0 <= k < es.len() implies edge_ok(g, b, #[trigger] es[k]) by {
        let e = es[k];
        assert(edge_ok(g, a, e));
        assert(b[e.src as int].dsts@.len() == a[e.src as int].dsts@.len());
        assert(b[e.src as int].block == a[e.src as int].block);
        assert(is_dummy(b[e.src as int]) == is_dummy(a[e.src as int]));
    }
}

/// Where a depth-first layering frame is in its work on a block.
#[derive(Clone, Copy)]
pub enum Phase {
    /// Place the block.
    Enter,
    /// Visit the successor at this port next.
    Succ(usize),
    /// Visit the loop exit at this index next.
    Out(usize),
}

/// A frame of the layering search.
#[derive(Clone, Copy)]
pub struct Frame {
    /// The block.
    pub id: usize,
    /// The layer it is reached at.
    pub layer: isize,
    /// What remains to do.
    pub phase: Phase,
}

/// No block is a loop header or a backedge block.
pub open spec fn loop_free(g: Seq<Node>) -> bool {
    forall|b: int| 0 <= b < g.len() ==> !header_flag(#[trigger] g[b]) && !backedge_flag(g[b])
}

/// The number of successor entries of the first `i` blocks.
pub open spec fn edge_count(g: Seq<Node>, i: int) -> int
    decreases i,
{
    if i <= 0 {
        0
    } else {
        edge_count(g, i - 1) + g[i - 1].succs@.len()
    }
}

/// The deepest layer that block `b` can be given, for a ranking `ord` that
/// falls along every edge.
pub open spec fn cap(g: Seq<Node>, ord: Seq<int>, b: int) -> int {
    g.len() - 1 - ord[b]
}

/// Work that the first `i` blocks can still cause in the layering search:
/// each rise of a block's layer schedules its successors again.
pub open spec fn lift(g: Seq<Node>, bl: Seq<BlockState>, ord: Seq<int>, i: int) -> int
    decreases i,
{
    if i <= 0 {
        0
    } else {
        lift(g, bl, ord, i - 1) + (2 * g[i - 1].succs@.len() + 2) * (cap(g, ord, i - 1) - bl[i - 1].layer)
    }
}

/// Work left in one frame of the layering search.
pub open spec fn frame_cost(g: Seq<Node>, f: Frame) -> int {
    match f.phase {
        Phase::Succ(next) => 2 * (g[f.id as int].succs@.len() - next) + 1,
        _ => 1,
    }
}

/// Work left in the frames of the layering search.
pub open spec fn stack_cost(g: Seq<Node>, s: Seq<Frame>) -> int
    decreases s.len(),
{
    if s.len() == 0 {
        0
    } else {
        stack_cost(g, s.drop_last()) + frame_cost(g, s.last())
    }
}

/// Inputs on which the layering search finishes within its budget: no
/// loops, every block at depth 0 and in the loop of a root, no layers yet,
/// and a graph small enough that all its work fits in `u64`.
pub open spec fn simple_layering(g: Seq<Node>, bl: Seq<BlockState>, roots: Seq<usize>) -> bool {
    &&& loop_free(g)
    &&& bl.len() == g.len()
    &&& forall|b: int|
        0 <= b < bl.len() ==> {
            let s = #[trigger] bl[b];
            &&& s.depth == 0
            &&& s.layer == -1
            &&& s.loop_id matches Some(h) ==> h < bl.len() && is_root(g, h as int) && bl[h as int].pseudo
                && bl[h as int].parent is None
        }
    &&& (2 * edge_count(g, g.len() as int) + 2 * g.len()) * g.len() + roots.len() <= u64::MAX
    &&& g.len() < isize::MAX
}

proof fn lemma_stack_cost_nonneg(g: Seq<Node>, s: Seq<Frame>)
    requires
        forall|f: int|
            0 <= f < s.len() ==> ((#[trigger] s[f]).phase matches Phase::Succ(next) ==> next <= g[s[f].id as int].succs@.len()),
    ensures
        stack_cost(g, s) >= 0,
    decreases s.len(),
{
    if s.len() > 0 {
        let t = s.drop_last();
        assert forall|f: int| 0 <= f < t.len() implies ((#[trigger] t[f]).phase matches Phase::Succ(next) ==> next <= g[t[f].id as int].succs@.len()) by {
            assert(t[f] == s[f]);
        }
        lemma_stack_cost_nonneg(g, t);
        assert(s[s.len() - 1] == s.last());
    }
}

/// The layering search on simple inputs: every layer within its cap, every
/// frame at a layer within its block's cap and not yet at loop exits, and a
/// budget that covers the work left plus one frame per root still to start.
pub open spec fn budget_ok(g: Seq<Node>, bl: Seq<BlockState>, ord: Seq<int>, s: Seq<Frame>, fuel: int, pending: int) -> bool {
    &&& forall|b: int| 0 <= b < g.len() ==> -1 <= (#[trigger] bl[b]).layer <= cap(g, ord, b)
    &&& frames_fine(g, ord, s)
    &&& fuel >= lift(g, bl, ord, g.len() as int) + stack_cost(g, s) + pending
    &&& pending >= 0
}

/// A frame of the layering search on simple inputs.
pub open spec fn frame_fine(g: Seq<Node>, ord: Seq<int>, fr: Frame) -> bool {
    &&& fr.id < g.len()
    &&& 0 <= fr.layer <= cap(g, ord, fr.id as int)
    &&& !(fr.phase is Out)
    &&& fr.phase matches Phase::Succ(next) ==> next <= g[fr.id as int].succs@.len()
}

/// Every frame of `s` is fine.
pub open spec fn frames_fine(g: Seq<Node>, ord: Seq<int>, s: Seq<Frame>) -> bool {
    forall|f: int| 0 <= f < s.len() ==> frame_fine(g, ord, #[trigger] s[f])
}

proof fn lemma_frames_pop(g: Seq<Node>, ord: Seq<int>, s: Seq<Frame>)
    requires
        frames_fine(g, ord, s),
        s.len() > 0,
    ensures
        frames_fine(g, ord, s.drop_last()),
        frame_fine(g, ord, s.last()),
        stack_cost(g, s) == stack_cost(g, s.drop_last()) + frame_cost(g, s.last()),
{
    assert forall|f: int| 0 <= f < s.drop_last().len() implies frame_fine(g, ord, #[trigger] s.drop_last()[f]) by {
        assert(s.drop_last()[f] == s[f]);
    }
    assert(s[s.len() - 1] == s.last());
}

proof fn lemma_frames_push(g: Seq<Node>, ord: Seq<int>, s: Seq<Frame>, fr: Frame)
    requires
        frames_fine(g, ord, s),
        frame_fine(g, ord, fr),
    ensures
        frames_fine(g, ord, s.push(fr)),
        stack_cost(g, s.push(fr)) == stack_cost(g, s) + frame_cost(g, fr),
{
    assert forall|f: int| 0 <= f < s.push(fr).len() implies frame_fine(g, ord, #[trigger] s.push(fr)[f]) by {
        if f < s.len() {
            assert(s.push(fr)[f] == s[f]);
        }
    }
    assert(s.push(fr).drop_last() =~= s);
}

/// Changing one block's layer changes `lift` by that block's weight times
/// the change.
proof fn lemma_lift_update(g: Seq<Node>, b1: Seq<BlockState>, b2: Seq<BlockState>, ord: Seq<int>, i: int, id: int)
    requires
        0 <= i <= b1.len(),
        b1.len() == b2.len(),
        forall|b: int| 0 <= b < b1.len() && b != id ==> (#[trigger] b2[b]).layer == b1[b].layer,
    ensures
        lift(g, b2, ord, i) == lift(g, b1, ord, i) - if 0 <= id < i {
            (2 * g[id].succs@.len() + 2) * (b2[id].layer - b1[id].layer)
        } else {
            0
        },
    decreases i,
{
    if i > 0 {
        lemma_lift_update(g, b1, b2, ord, i - 1, id);
        if id == i - 1 {
            let w = 2 * g[id].succs@.len() + 2;
            let c = cap(g, ord, id);
            let l1 = b1[id].layer as int;
            let l2 = b2[id].layer as int;
            assert(w * (c - l2) == w * (c - l1) - w * (l2 - l1)) by (nonlinear_arith);
        }
    }
}

/// `lift` is never negative while every layer stays within its cap.
proof fn lemma_lift_nonneg(g: Seq<Node>, bl: Seq<BlockState>, ord: Seq<int>, i: int)
    requires
        0 <= i <= bl.len(),
        forall|b: int| 0 <= b < i ==> (#[trigger] bl[b]).layer <= cap(g, ord, b),
    ensures
        lift(g, bl, ord, i) >= 0,
    decreases i,
{
    if i > 0 {
        lemma_lift_nonneg(g, bl, ord, i - 1);
        let w = 2 * g[i - 1].succs@.len() + 2;
        let d = cap(g, ord, i - 1) - bl[i - 1].layer;
        assert(w >= 0 && d >= 0);
        assert(w * d >= 0) by (nonlinear_arith)
            requires
                w >= 0,
                d >= 0,
        ;
    }
}

/// Before any block has a layer, `lift` is bounded by the graph's size.
proof fn lemma_lift_start(g: Seq<Node>, bl: Seq<BlockState>, ord: Seq<int>, i: int)
    requires
        0 <= i <= bl.len(),
        i <= g.len(),
        forall|b: int| 0 <= b < i ==> (#[trigger] bl[b]).layer == -1 && 0 <= ord[b] < g.len(),
    ensures
        lift(g, bl, ord, i) <= (2 * edge_count(g, i) + 2 * i) * g.len(),
    decreases i,
{
    if i > 0 {
        lemma_lift_start(g, bl, ord, i - 1);
        let w = 2 * g[i - 1].succs@.len() + 2;
        let d = cap(g, ord, i - 1) - bl[i - 1].layer;
        let n = g.len() as int;
        let e = edge_count(g, i - 1);
        assert(bl[i - 1].layer == -1 && 0 <= ord[i - 1] < n);
        assert(0 <= d <= n);
        assert(w * d <= w * n) by (nonlinear_arith)
            requires
                w >= 0,
                0 <= d <= n,
        ;
        assert((2 * e + 2 * (i - 1)) * n + w * n == (2 * (e + g[i - 1].succs@.len()) + 2 * i) * n) by (nonlinear_arith)
            requires
                w == 2 * g[i - 1].succs@.len() + 2,
        ;
    }
}

/// Port `p` of block `b` is a forward edge: neither end is a backedge block
/// and the edge does not leave a loop (its target is nested at least as deep).
pub open spec fn forward(g: Seq<Node>, blocks: Seq<BlockState>, b: int, p: int) -> bool {
    let s = g[b].succs@[p].0 as int;
    &&& !backedge_flag(g[b])
    &&& !backedge_flag(g[s])
    &&& blocks[s].depth >= blocks[b].depth
}

/// Every forward edge out of a block that has a layer ends in a lower layer.
pub open spec fn layered(g: Seq<Node>, blocks: Seq<BlockState>) -> bool {
    forall|b: int, p: int|
        0 <= b < g.len() && 0 <= p < g[b].succs@.len() && blocks[b].layer >= 0 && #[trigger] forward(
            g,
            blocks,
            b,
            p,
        ) ==> blocks[g[b].succs@[p].0 as int].layer > blocks[b].layer
}

/// Block state from which the layered graph is sure to be built: no loops,
/// every block in a loop and in a layer that fits in `isize`, every plain
/// edge going down at least one layer, and few enough edges to count in
/// `usize`.
pub open spec fn ready_to_place(g: Seq<Node>, bl: Seq<BlockState>) -> bool {
    &&& loop_free(g)
    &&& bl.len() == g.len()
    &&& forall|b: int| 0 <= b < bl.len() ==> 0 <= (#[trigger] bl[b]).layer < isize::MAX && bl[b].loop_id is Some
    &&& forall|a: int, p: int| #[trigger] plain_edge(g, a, p) ==> bl[g[a].succs@[p].0 as int].layer > bl[a].layer
    &&& edge_count(g, g.len() as int) <= usize::MAX
}

proof fn lemma_edge_count_mono(g: Seq<Node>, i: int, j: int)
    requires
        0 <= i <= j,
    ensures
        edge_count(g, i) <= edge_count(g, j),
    decreases j - i,
{
    if i < j {
        lemma_edge_count_mono(g, i, j - 1);
    }
}

/// Block `a` stands in one of the first `l` buckets.
pub open spec fn placed_before(v: Seq<Vec<usize>>, l: int, a: int) -> bool {
    exists|j: int, k: int| 0 <= j < l && j < v.len() && 0 <= k < v[j]@.len() && #[trigger] v[j]@[k] == a as usize
}

/// No entry of `s` occurs twice.
pub open spec fn no_repeats(s: Seq<usize>) -> bool {
    forall|k1: int, k2: int| 0 <= k1 < s.len() && 0 <= k2 < s.len() && #[trigger] s[k1] == #[trigger] s[k2] ==> k1 == k2
}

/// Block `b` stands in one of the buckets.
pub open spec fn bucketed(v: Seq<Vec<usize>>, b: int) -> bool {
    exists|l: int| 0 <= l < v.len() && (#[trigger] v[l])@.contains(b as usize)
}

/// Both block states give every block the same layer and loop depth, and
/// every block keeps its loop and, if it had a layout node in `a`, still has
/// one in `b`.
pub open spec fn same_levels(a: Seq<BlockState>, b: Seq<BlockState>) -> bool {
    &&& a.len() == b.len()
    &&& forall|i: int|
        0 <= i < a.len() ==> (#[trigger] a[i]).layer == b[i].layer && a[i].depth == b[i].depth && a[i].loop_id
            == b[i].loop_id && (a[i].layout_node is Some ==> b[i].layout_node is Some)
}

/// Layering depends on layers and depths alone.
proof fn lemma_layered_levels(g: Seq<Node>, a: Seq<BlockState>, b: Seq<BlockState>)
    requires
        layered(g, a),
        same_levels(a, b),
        a.len() == g.len(),
        well_formed(g),
    ensures
        layered(g, b),
{
    assert forall|x: int, p: int|
        0 <= x < g.len() && 0 <= p < g[x].succs@.len() && b[x].layer >= 0 && #[trigger] forward(g, b, x, p) implies b[g[x].succs@[p].0 as int].layer
        > b[x].layer by {
        crate::validate::lemma_edges_in_range(g, x, p);
        let s = g[x].succs@[p].0 as int;
        assert(a[x].layer == b[x].layer && a[x].depth == b[x].depth);
        assert(a[s].layer == b[s].layer && a[s].depth == b[s].depth);
        assert(forward(g, a, x, p));
    }
}

/// A frame of the layering search that will settle forward edge `p` of block
/// `b` (whose target is `s`): a pending visit of `b`'s successors from port
/// `p` or earlier at `b`'s current layer, or a pending visit of `s` below
/// `b`'s current layer.
pub open spec fn covers(fr: Frame, blocks: Seq<BlockState>, b: int, p: int, s: int) -> bool {
    ||| fr.id == b && (fr.phase matches Phase::Succ(q) && q <= p) && fr.layer == blocks[b].layer
    ||| fr.id == s && fr.phase is Enter && fr.layer > blocks[b].layer
}

/// Forward edge `p` of block `b` already ends in a lower layer, or a frame on
/// the stack will see to it.
pub open spec fn supported(g: Seq<Node>, blocks: Seq<BlockState>, stack: Seq<Frame>, b: int, p: int) -> bool {
    let s = g[b].succs@[p].0 as int;
    ||| blocks[s].layer > blocks[b].layer
    ||| exists|f: int| 0 <= f < stack.len() && #[trigger] covers(stack[f], blocks, b, p, s)
}

/// A support survives popping the top frame and pushing others, where the
/// edge's source keeps its layer and its target does not rise; unless the
/// popped frame was the one that covered it.
proof fn lemma_support_kept(
    g: Seq<Node>,
    b1: Seq<BlockState>,
    b2: Seq<BlockState>,
    s1: Seq<Frame>,
    s2: Seq<Frame>,
    b: int,
    p: int,
)
    requires
        supported(g, b1, s1, b, p),
        s1.len() > 0,
        s2.len() >= s1.len() - 1,
        forall|f: int| 0 <= f < s1.len() - 1 ==> s2[f] == s1[f],
        b2[b].layer == b1[b].layer,
        b2[g[b].succs@[p].0 as int].layer >= b1[g[b].succs@[p].0 as int].layer,
    ensures
        supported(g, b2, s2, b, p) || covers(s1[s1.len() - 1], b1, b, p, g[b].succs@[p].0 as int),
{
    let s = g[b].succs@[p].0 as int;
    if !(b1[s].layer > b1[b].layer) {
        let f = choose|f: int| 0 <= f < s1.len() && #[trigger] covers(s1[f], b1, b, p, s);
        if f < s1.len() - 1 {
            assert(s2[f] == s1[f]);
            assert(covers(s2[f], b2, b, p, s));
        }
    }
}

/// Block `t` has its loop, or a frame on the loop search's stack visits it.
pub open spec fn reached(blocks: Seq<BlockState>, stack: Seq<(usize, usize, usize)>, t: int) -> bool {
    ||| blocks[t].loop_id is Some
    ||| exists|f: int| 0 <= f < stack.len() && (#[trigger] stack[f]).0 == t
}

/// No block is a loop header.
pub open spec fn headerless(g: Seq<Node>) -> bool {
    forall|b: int| 0 <= b < g.len() ==> !header_flag(#[trigger] g[b])
}

/// From `h`, `d` parent links lead to blocks visited earlier and earlier:
/// `rk` numbers the blocks in the order the search visited them.
pub open spec fn chain(bl: Seq<BlockState>, rk: Seq<int>, h: int, d: int) -> bool
    decreases d,
{
    if d <= 0 {
        true
    } else {
        &&& 0 <= h < bl.len()
        &&& match bl[h].parent {
            Some(p) => p < bl.len() && 0 <= rk[p as int] < rk[h] && chain(bl, rk, p as int, d - 1),
            None => false,
        }
    }
}

/// A frame of the loop search: its loop's chain of parents is in place, and
/// its loop was visited unless the frame is the root's own.
pub open spec fn frame_ok(bl: Seq<BlockState>, rk: Seq<int>, f: (usize, usize, usize), root: usize) -> bool {
    &&& chain(bl, rk, f.1 as int, f.2 as int)
    &&& (rk[f.1 as int] >= 0 || (f.0 == f.1 && f.2 == 0 && f.0 == root))
}

/// A chain survives changes to blocks that were not yet visited.
proof fn lemma_chain_kept(bl1: Seq<BlockState>, bl2: Seq<BlockState>, rk1: Seq<int>, rk2: Seq<int>, h: int, d: int)
    requires
        chain(bl1, rk1, h, d),
        bl1.len() == bl2.len(),
        forall|x: int| 0 <= x < bl1.len() && rk1[x] >= 0 ==> (#[trigger] bl2[x]).parent == bl1[x].parent && rk2[x] == rk1[x],
    ensures
        chain(bl2, rk2, h, d),
    decreases d,
{
    if d > 0 {
        let p = bl1[h].parent->0 as int;
        assert(rk1[h] >= 0);
        assert(bl2[h].parent == bl1[h].parent);
        assert(rk1[p] >= 0);
        assert(bl2[p].parent == bl1[p].parent);
        lemma_chain_kept(bl1, bl2, rk1, rk2, p, d - 1);
    }
}

/// A chain of `d` links starts at a block numbered at least `d`.
proof fn lemma_chain_bound(bl: Seq<BlockState>, rk: Seq<int>, h: int, d: int)
    requires
        chain(bl, rk, h, d),
        d > 0,
    ensures
        d <= rk[h],
    decreases d,
{
    let p = bl[h].parent->0 as int;
    if d > 1 {
        lemma_chain_bound(bl, rk, p, d - 1);
    }
}

/// A block stays reached when the top frame, which visits `id`, is popped
/// with `id` given its loop, other frames are pushed, and no loop is lost.
proof fn lemma_reached_kept(
    b1: Seq<BlockState>,
    b2: Seq<BlockState>,
    s1: Seq<(usize, usize, usize)>,
    s2: Seq<(usize, usize, usize)>,
    t: int,
)
    requires
        reached(b1, s1, t),
        s1.len() > 0,
        b2[s1[s1.len() - 1].0 as int].loop_id is Some,
        s2.len() >= s1.len() - 1,
        forall|f: int| 0 <= f < s1.len() - 1 ==> s2[f] == s1[f],
        b1[t].loop_id is Some ==> b2[t].loop_id is Some,
    ensures
        reached(b2, s2, t),
{
    if b1[t].loop_id is None {
        let f = choose|f: int| 0 <= f < s1.len() && (#[trigger] s1[f]).0 == t;
        if f < s1.len() - 1 {
            assert(s2[f] == s1[f]);
        }
    }
}

/// Whether block `b` is a loop: a header or a root treated as one.
pub open spec fn is_loop(g: Seq<Node>, blocks: Seq<BlockState>, b: int) -> bool {
    header_flag(g[b]) || blocks[b].pseudo
}

/// A block without predecessors.
pub open spec fn is_root(g: Seq<Node>, i: int) -> bool {
    g[i].preds@.len() == 0
}

/// A block that is neither an OSR entry nor a backedge block.
pub open spec fn plain(n: Node) -> bool {
    !backedge_flag(n) && !osr_flag(n)
}

/// Whether the `k`th predecessor of block `x` is plain.
pub open spec fn plain_at(g: Seq<Node>, x: int) -> spec_fn(int) -> bool {
    |k: int| plain(g[g[x].preds@[k].0 as int])
}

/// The first predecessor of block `x` that is plain, if any.
pub open spec fn first_plain(g: Seq<Node>, x: int) -> Option<usize> {
    match first_index(g[x].preds@.len() as int, plain_at(g, x)) {
        Some(k) => Some(g[x].preds@[k].0),
        None => None,
    }
}

/// Where climbing from `x` through first plain predecessors stops, taking
/// at most `fuel` steps.
pub open spec fn climb(g: Seq<Node>, x: int, fuel: nat) -> int
    decreases fuel,
{
    if fuel == 0 {
        x
    } else {
        match first_plain(g, x) {
            Some(p) => climb(g, p as int, (fuel - 1) as nat),
            None => x,
        }
    }
}

/// The root that stands in for OSR entry `o`: the topmost ordinary block
/// above its first successor, or `o` itself when that successor has no
/// plain predecessor.
pub open spec fn osr_root(g: Seq<Node>, o: int) -> int {
    let post = g[o].succs@[0].0 as int;
    let top = climb(g, post, g.len());
    if top == post {
        o
    } else {
        top
    }
}

/// The layout root that block `x` gives: its OSR stand-in for an OSR entry,
/// itself otherwise.
pub open spec fn root_for(g: Seq<Node>, x: int) -> int {
    if osr_flag(g[x]) {
        osr_root(g, x)
    } else {
        x
    }
}

/// The blocks below `i` that have no predecessors, in ascending order.
pub open spec fn pred_free(g: Seq<Node>, i: int) -> Seq<usize>
    decreases i,
{
    if i <= 0 {
        seq![]
    } else if is_root(g, i - 1) {
        pred_free(g, i - 1).push((i - 1) as usize)
    } else {
        pred_free(g, i - 1)
    }
}

/// The layout roots that the blocks of `rs` give, each kept where it first
/// comes.
pub open spec fn stand_ins(g: Seq<Node>, rs: Seq<usize>) -> Seq<usize>
    decreases rs.len(),
{
    if rs.len() == 0 {
        seq![]
    } else {
        let prev = stand_ins(g, rs.drop_last());
        let x = root_for(g, rs.last() as int) as usize;
        if prev.contains(x) {
            prev
        } else {
            prev.push(x)
        }
    }
}

/// Where no block of `rs` is an OSR entry and none repeats, the roots are
/// `rs` itself.
proof fn lemma_stand_ins_plain(g: Seq<Node>, rs: Seq<usize>)
    requires
        forall|k: int| 0 <= k < rs.len() ==> (#[trigger] rs[k]) < g.len() && !osr_flag(g[rs[k] as int]),
        forall|a: int, b: int| 0 <= a < b < rs.len() ==> rs[a] < rs[b],
    ensures
        stand_ins(g, rs) == rs,
    decreases rs.len(),
{
    if rs.len() > 0 {
        let t = rs.drop_last();
        assert forall|k: int| 0 <= k < t.len() implies (#[trigger] t[k]) < g.len() && !osr_flag(g[t[k] as int]) by {
            assert(t[k] == rs[k]);
        }
        lemma_stand_ins_plain(g, t);
        let x = rs.last();
        assert(rs[rs.len() - 1] == x);
        assert(root_for(g, x as int) == x as int);
        if t.contains(x) {
            let k = choose|k: int| 0 <= k < t.len() && t[k] == x;
            assert(rs[k] == t[k]);
        }
        assert(t.push(x) =~= rs);
    }
}

/// Whether `x` is an OSR entry that another root stands in for.
pub open spec fn replaced(g: Seq<Node>, x: int) -> bool {
    osr_flag(g[x]) && osr_root(g, x) != x
}

/// Returns the first predecessor of `x` that is neither an OSR entry nor a
/// backedge block.
fn plain_pred(nodes: &Vec<Node>, x: usize) -> (r: Option<usize>)
    requires
        x < nodes@.len(),
        well_formed(nodes@),
    ensures
        r matches Some(p) ==> p < nodes@.len() && !backedge_flag(nodes@[p as int]) && !osr_flag(
            nodes@[p as int],
        ) && seq_has(nodes@[x as int].preds@, Id(p)),
        r matches Some(p) ==> exists|k: int|
            0 <= k < nodes@[x as int].preds@.len() && nodes@[x as int].preds@[k] == Id(p) && forall|j: int|
                0 <= j < k ==> !plain(nodes@[(#[trigger] nodes@[x as int].preds@[j]).0 as int]),
        r is None <==> forall|k: int|
            0 <= k < nodes@[x as int].preds@.len() ==> !plain(nodes@[(#[trigger] nodes@[x as int].preds@[k]).0 as int]),
        r == first_plain(nodes@, x as int),
{
    let node = &nodes[x];
    let mut k: usize = 0;
    while k < node.preds.len()
        invariant
            x < nodes@.len(),
            well_formed(nodes@),
            *node == nodes@[x as int],
            k <= node.preds@.len(),
            forall|j: int| 0 <= j < k ==> !plain(nodes@[(#[trigger] node.preds@[j]).0 as int]),
        decreases node.preds@.len() - k,
    {
        let p = node.preds[k];
        proof {
            crate::validate::lemma_edges_in_range(nodes@, x as int, k as int);
        }
        let f = nodes[p.0].flags;
        let bits = f.0;
        if !f.intersects(Flags::osr() | Flags::backedge()) {
            assert((bits & 2u8) != 2u8 && (bits & 4u8) != 4u8) by (bit_vector)
                requires
                    bits & (4u8 | 2u8) == 0u8,
            ;
            assert(node.preds@[k as int] == Id(p.0));
            proof {
                let f = plain_at(nodes@, x as int);
                assert forall|j: int| 0 <= j < k implies !#[trigger] f(j) by {}
                assert(f(k as int));
                lemma_first_index(node.preds@.len() as int, f, k as int);
            }
            return Some(p.0);
        }
        assert((bits & 2u8) == 2u8 || (bits & 4u8) == 4u8) by (bit_vector)
            requires
                bits & (4u8 | 2u8) != 0u8,
        ;
        assert(!plain(nodes@[node.preds@[k as int].0 as int]));
        k = k + 1;
    }
    proof {
        let f = plain_at(nodes@, x as int);
        assert forall|j: int| 0 <= j < k implies !#[trigger] f(j) by {}
        lemma_first_index(node.preds@.len() as int, f, k as int);
    }
    None
}

impl<'a> Engine<'a> {
    /// The input graph.
    pub(crate) open spec fn g(&self) -> Seq<Node> {
        self.graph@
    }

    /// The invariant of the engine between phases.
    pub(crate) open spec fn inv(&self) -> bool {
        &&& well_formed(self.graph@)
        &&& blocks_ok(self.graph@, self.blocks@, self.nodes@.len())
        &&& nodes_ok(self.graph@, self.nodes@)
        &&& layers_ok(self.layers@, self.nodes@.len())
        &&& aimed(self.graph@, self.nodes@)
        &&& layout_ok(self.blocks@, self.nodes@)
        &&& blocks_placed(self.blocks@, self.layers@)
        &&& distinct_layers(self.layers@)
    }

    /// Starts the engine on a well-formed graph.
    pub(crate) fn new(graph: &'a Graph) -> (e: Engine<'a>)
        requires
            well_formed(graph@),
        ensures
            e.inv(),
            e.g() == graph@,
            fresh(e.blocks@),
            e.nodes@.len() == 0,
    {
        let ghost g = graph@;
        proof {
            lemma_node_facts(g);
        }
        let nodes = graph.nodes();
        let n = nodes.len();
        let mut blocks: Vec<BlockState> = Vec::new();
        let mut i: usize = 0;
        while i < n
            invariant
                g == graph@,
                nodes@ == g,
                n == g.len(),
                well_formed(g),
                forall|j: int| 0 <= j < g.len() ==> #[trigger] node_facts(g, j),
                i <= n,
                blocks@.len() == i,
                forall|b: int|
                    0 <= b < i ==> {
                        let s = #[trigger] blocks@[b];
                        &&& (s.backedge is Some <==> header_flag(g[b]))
                        &&& (s.backedge matches Some(x) ==> backedge_of(g, b, x))
                        &&& s.loop_id is None
                        &&& s.parent is None
                        &&& s.outgoing@.len() == 0
                        &&& s.layout_node is None
                        &&& s.layer == -1
                    },
            decreases n - i,
        {
            let node = &nodes[i];
            let mut backedge: Option<usize> = None;
            if node.flags.contains(Flags::header()) {
                proof {
                    assert(node_facts(g, i as int));
                    lemma_count_witness(g, node.preds@);
                }
                let mut k: usize = 0;
                while k < node.preds.len()
                    invariant_except_break
                        exists|j: int| k <= j < node.preds@.len() && backedge_flag(g[(#[trigger] node.preds@[j]).0 as int]),
                        backedge is None,
                    invariant
                        g == graph@,
                        nodes@ == g,
                        well_formed(g),
                        i < n,
                        n == g.len(),
                        *node == g[i as int],
                        forall|j: int| 0 <= j < g.len() ==> #[trigger] node_facts(g, j),
                        k <= node.preds@.len(),
                    ensures
                        backedge is Some,
                        backedge matches Some(x) ==> backedge_of(g, i as int, x),
                    decreases node.preds@.len() - k,
                {
                    let p = node.preds[k];
                    assert(p.0 < n) by {
                        crate::validate::lemma_edges_in_range(g, i as int, k as int);
                    }
                    if nodes[p.0].flags.contains(Flags::backedge()) {
                        backedge = Some(p.0);
                        assert(node.preds@[k as int] == Id(p.0));
                        assert(seq_has(g[i as int].preds@, Id(p.0)));
                        break;
                    }
                    k = k + 1;
                }
            }
            blocks.push(
                BlockState {
                    depth: node.depth,
                    layer: -1,
                    loop_id: None,
                    loop_height: 0,
                    parent: None,
                    outgoing: Vec::new(),
                    pseudo: false,
                    backedge,
                    layout_node: None,
                },
            );
            i = i + 1;
        }
        Engine { graph, blocks, nodes: Vec::new(), layers: Vec::new() }
    }

    /// Picks the layout roots: the blocks without predecessors, except that an
    /// OSR entry is replaced by the topmost ordinary block above its successor
    /// and reported separately.
    #[verifier::rlimit(40)]
    pub(crate) fn find_roots(&self) -> (r: Result<(Vec<usize>, Vec<usize>), LayoutErr>)
        requires
            self.inv(),
        ensures
            r is Err <==> forall|i: int| 0 <= i < self.g().len() ==> !is_root(self.g(), i),
            r is Err ==> r == Err::<(Vec<usize>, Vec<usize>), LayoutErr>(LayoutErr::NoRoot),
            r matches Ok((roots, osr)) ==> {
                &&& roots@.len() > 0
                &&& roots@ == stand_ins(self.g(), pred_free(self.g(), self.g().len() as int))
                &&& roots@.no_duplicates()
                &&& forall|k: int| 0 <= k < roots@.len() ==> (#[trigger] roots@[k]) < self.g().len()
                &&& forall|k: int|
                    0 <= k < osr@.len() ==> (#[trigger] osr@[k]) < self.g().len() && osr_flag(
                        self.g()[osr@[k] as int],
                    ) && is_root(self.g(), osr@[k] as int)
                &&& forall|a: int, b: int| 0 <= a < b < osr@.len() ==> osr@[a] < osr@[b]
                &&& forall|x: int|
                    #![trigger is_root(self.g(), x)]
                    0 <= x < self.g().len() && is_root(self.g(), x) ==> roots@.contains(root_for(self.g(), x) as usize) && (
                    osr@.contains(x as usize) <==> replaced(self.g(), x))
                &&& forall|k: int|
                    #![trigger roots@[k]]
                    0 <= k < roots@.len() ==> exists|x: int|
                        #![trigger root_for(self.g(), x)]
                        0 <= x < self.g().len() && is_root(self.g(), x) && roots@[k] as int == root_for(self.g(), x)
                &&& (forall|i: int| 0 <= i < self.g().len() && is_root(self.g(), i) ==> !osr_flag(#[trigger] self.g()[i]))
                    ==> {
                    &&& osr@.len() == 0
                    &&& forall|a: int, b: int| 0 <= a < b < roots@.len() ==> roots@[a] < roots@[b]
                    &&& forall|x: int| 0 <= x < self.g().len() ==> (roots@.contains(x as usize) <==> is_root(self.g(), x))
                }
            },
    {
        let ghost g = self.g();
        proof {
            lemma_node_facts(g);
        }
        let nodes = self.graph.nodes();
        let n = nodes.len();
        let mut roots: Vec<usize> = Vec::new();
        let mut any_osr = false;
        let mut i: usize = 0;
        while i < n
            invariant
                nodes@ == g,
                n == g.len(),
                i <= n,
                forall|k: int| 0 <= k < roots@.len() ==> (#[trigger] roots@[k]) < i,
                forall|a: int, b: int| 0 <= a < b < roots@.len() ==> roots@[a] < roots@[b],
                forall|x: int| 0 <= x < i ==> (roots@.contains(x as usize) <==> is_root(g, x)),
                any_osr <==> exists|x: int| 0 <= x < i && is_root(g, x) && osr_flag(#[trigger] g[x]),
                roots@ == pred_free(g, i as int),
            decreases n - i,
        {
            if nodes[i].preds.len() == 0 {
                if nodes[i].flags.contains(Flags::osr()) {
                    any_osr = true;
                }
                let ghost before = roots@;
                roots.push(i);
                assert(roots@[roots@.len() - 1] == i);
                assert forall|x: int| 0 <= x < i + 1 implies (roots@.contains(x as usize) <==> is_root(g, x)) by {
                    if x == i {
                        assert(roots@[roots@.len() - 1] == x as usize);
                    } else {
                        if roots@.contains(x as usize) {
                            let k = choose|k: int| 0 <= k < roots@.len() && roots@[k] == x as usize;
                            assert(k < before.len());
                            assert(before[k] == x as usize);
                        }
                        if before.contains(x as usize) {
                            let k = choose|k: int| 0 <= k < before.len() && before[k] == x as usize;
                            assert(roots@[k] == x as usize);
                        }
                    }
                }
            }
            i = i + 1;
        }
        if roots.len() == 0 {
            assert forall|x: int| 0 <= x < n implies !is_root(g, x) by {
                if is_root(g, x) {
                    assert(roots@.contains(x as usize));
                }
            }
            return Err(LayoutErr::NoRoot);
        }
        assert(roots@.no_duplicates());
        assert(roots@.contains(roots@[0]));
        assert(is_root(g, roots@[0] as int));
        if !any_osr {
            proof {
                assert forall|x: int| #![trigger is_root(g, x)] 0 <= x < g.len() && is_root(g, x) implies roots@.contains(
                    root_for(g, x) as usize,
                ) && (Seq::<usize>::empty().contains(x as usize) <==> replaced(g, x)) by {
                    assert(!osr_flag(g[x]));
                }
                assert forall|k: int| #![trigger roots@[k]] 0 <= k < roots@.len() implies exists|x: int|
                    #![trigger root_for(g, x)]
                    0 <= x < g.len() && is_root(g, x) && roots@[k] as int == root_for(g, x) by {
                    let x = roots@[k] as int;
                    assert(roots@.contains(x as usize));
                    assert(is_root(g, x));
                    assert(!osr_flag(g[x]));
                    assert(root_for(g, x) == x);
                }
            }
            proof {
                assert forall|k: int| 0 <= k < roots@.len() implies (#[trigger] roots@[k]) < g.len() && !osr_flag(g[roots@[k] as int]) by {
                    assert(roots@.contains(roots@[k]));
                    assert(is_root(g, roots@[k] as int));
                }
                lemma_stand_ins_plain(g, roots@);
            }
            return Ok((roots, Vec::new()));
        }
        let ghost ord = choose|ord: Seq<int>| ranked_within(g, ord);
        let mut new_roots: Vec<usize> = Vec::new();
        let mut osr: Vec<usize> = Vec::new();
        let mut r: usize = 0;
        while r < roots.len()
            invariant
                nodes@ == g,
                n == g.len(),
                well_formed(g),
                ranked_within(g, ord),
                forall|j: int| 0 <= j < g.len() ==> #[trigger] node_facts(g, j),
                forall|k: int| 0 <= k < roots@.len() ==> (#[trigger] roots@[k]) < n,
                forall|x: int| 0 <= x < n ==> (roots@.contains(x as usize) <==> is_root(g, x)),
                forall|a: int, b: int| 0 <= a < b < roots@.len() ==> roots@[a] < roots@[b],
                r <= roots@.len(),
                r > 0 ==> new_roots@.len() > 0,
                new_roots@.no_duplicates(),
                roots@ == pred_free(g, n as int),
                new_roots@ == stand_ins(g, roots@.take(r as int)),
                forall|k: int| 0 <= k < new_roots@.len() ==> (#[trigger] new_roots@[k]) < n,
                forall|k: int|
                    0 <= k < osr@.len() ==> (#[trigger] osr@[k]) < n && osr_flag(g[osr@[k] as int]) && is_root(g, osr@[k] as int),
                forall|k: int| #![trigger osr@[k]] 0 <= k < osr@.len() ==> exists|j: int| #![trigger roots@[j]] 0 <= j < r && osr@[k] == roots@[j],
                forall|a: int, b: int| 0 <= a < b < osr@.len() ==> osr@[a] < osr@[b],
                forall|j: int|
                    #![trigger roots@[j]]
                    0 <= j < r ==> new_roots@.contains(root_for(g, roots@[j] as int) as usize) && (osr@.contains(
                        roots@[j],
                    ) <==> replaced(g, roots@[j] as int)),
                forall|k: int|
                    #![trigger new_roots@[k]]
                    0 <= k < new_roots@.len() ==> exists|j: int|
                        #![trigger roots@[j]]
                        0 <= j < r && new_roots@[k] as int == root_for(g, roots@[j] as int),
            decreases roots@.len() - r,
        {
            let root = roots[r];
            assert(roots@.contains(root));
            assert(is_root(g, root as int));
            let ghost os = osr@;
            let mut new_root = root;
            if nodes[root].flags.contains(Flags::osr()) {
                assert(node_facts(g, root as int));
                assert(nodes@[root as int].succs@.len() > 0);
                proof {
                    crate::validate::lemma_edges_in_range(g, root as int, 0);
                }
                let post_osr = nodes[root].succs[0].0;
                new_root = post_osr;
                let ghost mut steps: int = 0;
                proof {
                    assert(0 <= ord[post_osr as int] < n) by {
                        assert(ranked_within(g, ord));
                    }
                }
                loop
                    invariant
                        nodes@ == g,
                        n == g.len(),
                        well_formed(g),
                        ranked_within(g, ord),
                        forall|j: int| 0 <= j < g.len() ==> #[trigger] node_facts(g, j),
                        new_root < n,
                        post_osr < n,
                        0 <= ord[post_osr as int],
                        0 <= steps,
                        ord[new_root as int] >= ord[post_osr as int] + steps,
                        ord[new_root as int] < n,
                        climb(g, post_osr as int, n as nat) == climb(g, new_root as int, (n - steps) as nat),
                        new_root == post_osr || plain(g[new_root as int]),
                    ensures
                        climb(g, post_osr as int, n as nat) == new_root as int,
                        new_root < n,
                        new_root == post_osr || plain(g[new_root as int]),
                    decreases n - ord[new_root as int],
                {
                    match plain_pred(nodes, new_root) {
                        None => {
                            proof {
                                let f = (n - steps) as nat;
                                if f > 0 {
                                    assert(first_plain(g, new_root as int) is None);
                                }
                            }
                            break;
                        },
                        Some(p) => {
                            proof {
                                assert(node_facts(g, new_root as int));
                                let k = choose|k: int| 0 <= k < g[new_root as int].preds@.len() && g[new_root as int].preds@[k] == Id(p);
                                assert(seq_has(g[(g[new_root as int].preds@[k]).0 as int].succs@, Id(new_root)));
                                let j = choose|j: int| 0 <= j < g[p as int].succs@.len() && g[p as int].succs@[j] == Id(new_root);
                                assert(succ_of(g, p as int, j) == new_root);
                                assert(ord[succ_of(g, p as int, j)] < ord[p as int]);
                                assert(0 <= ord[new_root as int] < n);
                                assert(0 <= ord[p as int] < n);
                                assert(first_plain(g, new_root as int) == Some(p));
                                let f = (n - steps) as nat;
                                assert(f >= 1);
                                assert(climb(g, new_root as int, f) == climb(g, p as int, (f - 1) as nat));
                                steps = steps + 1;
                            }
                            new_root = p;
                        },
                    }
                }
                if new_root == post_osr {
                    new_root = root;
                    proof {
                        assert(osr_root(g, root as int) == root as int);
                    }
                } else {
                    let ghost o0 = osr@;
                    osr.push(root);
                    assert(osr@[osr@.len() - 1] == root);
                    proof {
                        assert(!plain(g[root as int]));
                        assert(osr_root(g, root as int) == new_root as int);
                        assert forall|a: int, b: int| 0 <= a < b < osr@.len() implies osr@[a] < osr@[b] by {
                            if b == osr@.len() - 1 {
                                assert(osr@[a] == o0[a]);
                                let j = choose|j: int| #![trigger roots@[j]] 0 <= j < r && o0[a] == roots@[j];
                                assert(roots@[j] < roots@[r as int]);
                            } else {
                                assert(osr@[a] == o0[a] && osr@[b] == o0[b]);
                            }
                        }
                        assert forall|k: int| #![trigger osr@[k]] 0 <= k < osr@.len() implies exists|j: int| #![trigger roots@[j]] 0 <= j < r + 1 && osr@[k] == roots@[j] by {
                            if k < o0.len() {
                                assert(osr@[k] == o0[k]);
                                let j = choose|j: int| #![trigger roots@[j]] 0 <= j < r && o0[k] == roots@[j];
                                assert(osr@[k] == roots@[j]);
                            } else {
                                assert(osr@[k] == roots@[r as int]);
                            }
                        }
                    }
                }
            }
            proof {
                assert(new_root as int == root_for(g, root as int));
                assert(osr@ == if replaced(g, root as int) {
                    os.push(root)
                } else {
                    os
                });
                assert(!os.contains(root)) by {
                    if os.contains(root) {
                        let i = choose|i: int| 0 <= i < os.len() && os[i] == root;
                        let j = choose|j: int| #![trigger roots@[j]] 0 <= j < r && os[i] == roots@[j];
                        assert(roots@[j] < roots@[r as int]);
                    }
                }
            }
            let ghost nr0 = new_roots@;
            proof {
                let t = roots@.take(r + 1);
                assert(t.drop_last() =~= roots@.take(r as int));
                assert(t.last() == root);
            }
            let mut seen = false;
            let mut k: usize = 0;
            while k < new_roots.len()
                invariant
                    k <= new_roots@.len(),
                    !seen ==> forall|j: int| 0 <= j < k ==> new_roots@[j] != new_root,
                    seen ==> new_roots@.contains(new_root),
                decreases new_roots@.len() - k,
            {
                if new_roots[k] == new_root {
                    seen = true;
                    assert(new_roots@[k as int] == new_root);
                }
                k = k + 1;
            }
            if !seen {
                new_roots.push(new_root);
                assert(new_roots@[new_roots@.len() - 1] == new_root);
            }
            proof {
                assert(new_roots@.contains(new_root));
                assert forall|k: int| #![trigger new_roots@[k]] 0 <= k < new_roots@.len() implies exists|j: int|
                    #![trigger roots@[j]]
                    0 <= j < r + 1 && new_roots@[k] as int == root_for(g, roots@[j] as int) by {
                    if k < nr0.len() {
                        assert(new_roots@[k] == nr0[k]);
                        let j = choose|j: int| #![trigger roots@[j]] 0 <= j < r && nr0[k] as int == root_for(g, roots@[j] as int);
                        assert(new_roots@[k] as int == root_for(g, roots@[j] as int));
                    } else {
                        assert(new_roots@[k] == new_root);
                        assert(new_roots@[k] as int == root_for(g, roots@[r as int] as int));
                    }
                }
                assert forall|j: int|
                    #![trigger roots@[j]]
                    0 <= j < r + 1 implies new_roots@.contains(root_for(g, roots@[j] as int) as usize) && (osr@.contains(
                        roots@[j],
                    ) <==> replaced(g, roots@[j] as int)) by {
                    if j < r {
                        let x = root_for(g, roots@[j] as int) as usize;
                        assert(nr0.contains(x));
                        let i = choose|i: int| 0 <= i < nr0.len() && nr0[i] == x;
                        assert(new_roots@[i] == x);
                        assert(roots@[j] < roots@[r as int]);
                        assert(os.contains(roots@[j]) <==> replaced(g, roots@[j] as int));
                        if replaced(g, root as int) {
                            if osr@.contains(roots@[j]) {
                                let i2 = choose|i2: int| 0 <= i2 < osr@.len() && osr@[i2] == roots@[j];
                                if i2 < os.len() {
                                    assert(os[i2] == roots@[j]);
                                }
                            }
                            if os.contains(roots@[j]) {
                                let i2 = choose|i2: int| 0 <= i2 < os.len() && os[i2] == roots@[j];
                                assert(osr@[i2] == roots@[j]);
                            }
                        }
                    } else {
                        assert(root_for(g, roots@[j] as int) as usize == new_root);
                        if replaced(g, root as int) {
                            assert(osr@[os.len() as int] == root);
                        }
                    }
                }
            }
            r = r + 1;
        }
        proof {
            assert forall|x: int|
                #![trigger is_root(g, x)]
                0 <= x < g.len() && is_root(g, x) implies new_roots@.contains(root_for(g, x) as usize) && (
                osr@.contains(x as usize) <==> replaced(g, x)) by {
                assert(roots@.contains(x as usize));
                let j = choose|j: int| 0 <= j < roots@.len() && roots@[j] == x as usize;
                assert(roots@[j] == x as usize);
            }
            assert forall|k: int| #![trigger new_roots@[k]] 0 <= k < new_roots@.len() implies exists|x: int|
                #![trigger root_for(g, x)]
                0 <= x < g.len() && is_root(g, x) && new_roots@[k] as int == root_for(g, x) by {
                let j = choose|j: int| #![trigger roots@[j]] 0 <= j < roots@.len() && new_roots@[k] as int == root_for(g, roots@[j] as int);
                assert(roots@.contains(roots@[j]));
            }
        }
        proof {
            assert(roots@.take(roots@.len() as int) =~= roots@);
        }
        Ok((new_roots, osr))
    }

    /// Returns whether block `b` is a loop.
    fn is_loop(&self, b: usize) -> (r: bool)
        requires
            self.inv(),
            b < self.g().len(),
        ensures
            r == is_loop(self.g(), self.blocks@, b as int),
    {
        self.graph.node(Id(b)).flags.contains(Flags::header()) || self.blocks[b].pseudo
    }

    /// Marks a root or an OSR entry as a pseudo loop.
    pub(crate) fn mark_pseudo(&mut self, b: usize)
        requires
            old(self).inv(),
            b < old(self).g().len(),
        ensures
            final(self).inv(),
            final(self).g() == old(self).g(),
            fresh(old(self).blocks@) ==> fresh(final(self).blocks@),
            final(self).nodes@.len() == old(self).nodes@.len(),
            final(self).blocks@ == old(self).blocks@.update(
                b as int,
                BlockState { pseudo: true, ..old(self).blocks@[b as int] },
            ),
            final(self).nodes@ == old(self).nodes@,
            final(self).layers@ == old(self).layers@,
    {
        self.blocks[b].pseudo = true;
        proof {
            assert forall|x: int| 0 <= x < self.blocks@.len() implies #[trigger] self.blocks@[x] == if x == b {
                self.blocks@[x]
            } else {
                old(self).blocks@[x]
            } by {}
        }
    }

    /// Assigns every block reachable from the roots to its innermost loop,
    /// and every header to its enclosing loop, by depth-first search.
    #[verifier::rlimit(80)]
    pub(crate) fn find_loops(&mut self, roots: &Vec<usize>) -> (r: Result<(), LayoutErr>)
        requires
            old(self).inv(),
            fresh(old(self).blocks@),
            forall|k: int| 0 <= k < roots@.len() ==> (#[trigger] roots@[k]) < old(self).g().len(),
        ensures
            r matches Err(e) ==> !(e is NoRoot),
            final(self).inv(),
            final(self).g() == old(self).g(),
            final(self).nodes@.len() == old(self).nodes@.len(),
            forall|b: int|
                0 <= b < final(self).blocks@.len() ==> {
                    let s = #[trigger] final(self).blocks@[b];
                    &&& s.outgoing@.len() == 0
                    &&& s.layout_node is None
                    &&& s.layer == -1
                },
            r is Ok ==> forall|k: int| 0 <= k < roots@.len() ==> (#[trigger] final(self).blocks@[roots@[k] as int]).loop_id is Some,
            r is Ok ==> forall|b: int, p: int|
                0 <= b < final(self).g().len() && 0 <= p < final(self).g()[b].succs@.len() && final(self).blocks@[b].loop_id is Some
                    && !backedge_flag(final(self).g()[b]) ==> (#[trigger] final(self).blocks@[final(self).g()[b].succs@[p].0 as int]).loop_id is Some,
            r is Ok ==> forall|b: int|
                0 <= b < final(self).blocks@.len() && (#[trigger] final(self).blocks@[b]).loop_id is Some && header_flag(
                    final(self).g()[b],
                ) ==> (final(self).blocks@[b].parent matches Some(p) && p != b),
            forall|b: int|
                0 <= b < final(self).blocks@.len() ==> (#[trigger] final(self).blocks@[b]).depth <= old(self).blocks@[b].depth,
            final(self).blocks@.len() == old(self).blocks@.len(),
            (forall|b: int| 0 <= b < final(self).g().len() ==> !header_flag(#[trigger] final(self).g()[b])) ==> r is Ok,
            (forall|k: int| 0 <= k < roots@.len() ==> !header_flag(#[trigger] old(self).g()[roots@[k] as int])) ==> r is Ok,
            forall|b: int|
                0 <= b < final(self).blocks@.len() ==> (#[trigger] final(self).blocks@[b]).pseudo == old(self).blocks@[b].pseudo
                    && (headerless(final(self).g()) ==> final(self).blocks@[b].parent == old(self).blocks@[b].parent && (
                final(self).blocks@[b].loop_id matches Some(h) ==> roots@.contains(h) && final(self).blocks@[b].depth == 0)),
    {
        let ghost g = self.g();
        let n = self.graph.len();
        assert(old(self).blocks@.len() == n);
        let ghost mut done: Set<int> = Set::empty();
        let ghost mut rk: Seq<int> = Seq::new(n as nat, |i: int| -1int);
        let mut stack: Vec<(usize, usize, usize)> = Vec::new();
        let mut r: usize = 0;
        while r < roots.len()
            invariant
                g == self.g(),
                self.g() == old(self).g(),
                n == g.len(),
                self.inv(),
                self.nodes@.len() == old(self).nodes@.len(),
                forall|k: int| 0 <= k < roots@.len() ==> (#[trigger] roots@[k]) < n,
                r <= roots@.len(),
                stack@.len() == 0,
                self.blocks@.len() == n,
                old(self).blocks@.len() == n,
                forall|b: int|
                    0 <= b < n && (#[trigger] self.blocks@[b]).loop_id is Some && header_flag(g[b]) ==> (
                    self.blocks@[b].parent matches Some(p) && p != b),
                forall|b: int| 0 <= b < n ==> (#[trigger] self.blocks@[b]).depth <= old(self).blocks@[b].depth,
                forall|b: int|
                    0 <= b < n ==> (#[trigger] self.blocks@[b]).pseudo == old(self).blocks@[b].pseudo && (headerless(g) ==> self.blocks@[b].parent
                        == old(self).blocks@[b].parent && (self.blocks@[b].loop_id matches Some(h) ==> roots@.contains(h) && self.blocks@[b].depth
                        == 0)),
                forall|k: int| 0 <= k < r ==> (#[trigger] self.blocks@[roots@[k] as int]).loop_id is Some,
                forall|b: int, p: int|
                    0 <= b < n && 0 <= p < g[b].succs@.len() && self.blocks@[b].loop_id is Some && !backedge_flag(g[b])
                        ==> (#[trigger] self.blocks@[g[b].succs@[p].0 as int]).loop_id is Some,
                done.finite(),
                done.len() <= n,
                forall|b: int| 0 <= b < n ==> (done.contains(b) <==> (#[trigger] self.blocks@[b]).loop_id is Some),
                forall|b: int| done.contains(b) ==> 0 <= b < n,
                forall|b: int|
                    0 <= b < n ==> {
                        let s = #[trigger] self.blocks@[b];
                        &&& s.outgoing@.len() == 0
                        &&& s.layout_node is None
                        &&& s.layer == -1
                    },
                rk.len() == n,
                forall|b: int| 0 <= b < n ==> (#[trigger] rk[b] >= 0 <==> self.blocks@[b].loop_id is Some) && rk[b] < done.len(),
            decreases roots@.len() - r,
        {
            stack.push((roots[r], roots[r], 0));
            while stack.len() > 0
                invariant
                    g == self.g(),
                    self.g() == old(self).g(),
                    n == g.len(),
                    self.inv(),
                    self.nodes@.len() == old(self).nodes@.len(),
                    forall|k: int| 0 <= k < roots@.len() ==> (#[trigger] roots@[k]) < n,
                    r < roots@.len(),
                    forall|f: int| 0 <= f < stack@.len() ==> (#[trigger] stack@[f]).0 < n && stack@[f].1 < n,
                    self.blocks@.len() == n,
                    old(self).blocks@.len() == n,
                    forall|b: int|
                        0 <= b < n && (#[trigger] self.blocks@[b]).loop_id is Some && header_flag(g[b]) ==> (
                        self.blocks@[b].parent matches Some(p) && p != b),
                    forall|b: int| 0 <= b < n ==> (#[trigger] self.blocks@[b]).depth <= old(self).blocks@[b].depth,
                    forall|b: int|
                        0 <= b < n ==> (#[trigger] self.blocks@[b]).pseudo == old(self).blocks@[b].pseudo && (headerless(g) ==> self.blocks@[b].parent
                            == old(self).blocks@[b].parent && (self.blocks@[b].loop_id matches Some(h) ==> roots@.contains(h) && self.blocks@[b].depth
                            == 0)),
                    (forall|b: int| 0 <= b < n ==> !header_flag(#[trigger] g[b])) ==> forall|f: int|
                        0 <= f < stack@.len() ==> (#[trigger] stack@[f]).2 == 0,
                    forall|k: int| 0 <= k < r ==> (#[trigger] self.blocks@[roots@[k] as int]).loop_id is Some,
                    self.blocks@[roots@[r as int] as int].loop_id is Some || (stack@.len() > 0 && stack@[0].0 == roots@[r as int]),
                    forall|b: int, p: int|
                        0 <= b < n && 0 <= p < g[b].succs@.len() && self.blocks@[b].loop_id is Some && !backedge_flag(g[b])
                            ==> #[trigger] reached(self.blocks@, stack@, g[b].succs@[p].0 as int),
                    done.finite(),
                    done.len() <= n,
                    forall|b: int| 0 <= b < n ==> (done.contains(b) <==> (#[trigger] self.blocks@[b]).loop_id is Some),
                    forall|b: int| done.contains(b) ==> 0 <= b < n,
                    forall|b: int|
                        0 <= b < n ==> {
                            let s = #[trigger] self.blocks@[b];
                            &&& s.outgoing@.len() == 0
                            &&& s.layout_node is None
                            &&& s.layer == -1
                        },
                    rk.len() == n,
                    forall|b: int| 0 <= b < n ==> (#[trigger] rk[b] >= 0 <==> self.blocks@[b].loop_id is Some) && rk[b] < done.len(),
                    forall|f: int| 0 <= f < stack@.len() ==> #[trigger] frame_ok(self.blocks@, rk, stack@[f], roots@[r as int]),
                    headerless(g) ==> forall|f: int| 0 <= f < stack@.len() ==> roots@.contains((#[trigger] stack@[f]).1),
                decreases n - done.len(), stack@.len(),
            {
                let ghost before = stack@;
                let (id, sid0, sdepth0) = stack.pop().unwrap();
                assert(before[before.len() - 1] == (id, sid0, sdepth0));
                let ghost popped = stack@;
                assert(popped =~= before.drop_last());
                let mut sid = sid0;
                let mut sdepth = sdepth0;
                let ghost bp = self.blocks@;
                let ghost rk0 = rk;
                proof {
                    if headerless(g) {
                        assert(roots@.contains(before[before.len() - 1].1));
                        assert forall|f: int| 0 <= f < popped.len() implies roots@.contains((#[trigger] popped[f]).1) by {
                            assert(popped[f] == before[f]);
                        }
                    }
                }
                proof {
                    assert(frame_ok(bp, rk0, before[before.len() - 1], roots@[r as int]));
                    assert forall|f: int| 0 <= f < popped.len() implies #[trigger] frame_ok(bp, rk0, popped[f], roots@[r as int]) by {
                        assert(popped[f] == before[f]);
                    }
                }
                if self.blocks[id].loop_id.is_some() {
                    proof {
                        assert forall|b: int, p: int|
                            0 <= b < n && 0 <= p < g[b].succs@.len() && self.blocks@[b].loop_id is Some && !backedge_flag(
                                g[b],
                            ) implies #[trigger] reached(self.blocks@, stack@, g[b].succs@[p].0 as int) by {
                            lemma_reached_kept(bp, self.blocks@, before, stack@, g[b].succs@[p].0 as int);
                        }
                        if before.len() > 1 {
                            assert(stack@[0] == before[0]);
                        }
                        assert forall|f: int| 0 <= f < stack@.len() implies #[trigger] frame_ok(self.blocks@, rk, stack@[f], roots@[r as int]) by {
                            assert(stack@[f] == popped[f]);
                        }
                    }
                    continue;
                }
                let ghost b0 = self.blocks@;
                proof {
                    assert(rk0[id as int] < 0);
                    rk = rk0.update(id as int, done.len() as int);
                    assert forall|x: int| 0 <= x < n && rk0[x] >= 0 implies (#[trigger] b0[x]).parent == bp[x].parent && rk[x]
                        == rk0[x] by {}
                    lemma_chain_kept(bp, b0, rk0, rk, sid as int, sdepth as int);
                    if rk0[sid as int] < 0 {
                        assert(sid == id && sdepth == 0 && id == roots@[r as int]);
                    }
                }
                if self.graph.node(Id(id)).flags.contains(Flags::header()) {
                    if sid == id {
                        return Err(LayoutErr::MalformedHeader(Id(id)));
                    }
                    proof {
                        assert(rk0[sid as int] >= 0);
                        if sdepth > 0 {
                            lemma_chain_bound(b0, rk, sid as int, sdepth as int);
                        }
                        assert(sdepth < n);
                    }
                    let ghost bh = self.blocks@;
                    self.blocks[id].parent = Some(sid);
                    proof {
                        assert(bh == bp);
                        assert forall|x: int| 0 <= x < n && rk0[x] >= 0 implies (#[trigger] self.blocks@[x]).parent == bp[x].parent
                            && rk[x] == rk0[x] by {
                            assert(x != id as int);
                        }
                        lemma_chain_kept(bp, self.blocks@, rk0, rk, sid as int, sdepth as int);
                        assert(chain(self.blocks@, rk, id as int, sdepth + 1));
                    }
                    sdepth = match sdepth.checked_add(1) {
                        Some(d) => d,
                        None => return Err(LayoutErr::Overflow),
                    };
                    sid = id;
                }
                let ghost bd = self.blocks@;
                if self.blocks[id].depth > sdepth {
                    self.blocks[id].depth = sdepth;
                }
                proof {
                    assert forall|x: int| 0 <= x < n && rk[x] >= 0 implies (#[trigger] self.blocks@[x]).parent == bd[x].parent
                        && rk[x] == rk[x] by {}
                    lemma_chain_kept(bd, self.blocks@, rk, rk, sid as int, sdepth as int);
                }
                let ghost bm = self.blocks@;
                while self.blocks[id].depth < sdepth
                    invariant
                        self.blocks@ == bm,
                        stack@ == popped,
                        self.blocks@.len() == n,
                        old(self).blocks@.len() == n,
                        forall|b: int| 0 <= b < n ==> (#[trigger] self.blocks@[b]).depth <= old(self).blocks@[b].depth,
                        forall|b: int|
                            0 <= b < n ==> (#[trigger] self.blocks@[b]).pseudo == old(self).blocks@[b].pseudo && (headerless(g) ==> self.blocks@[b].parent
                                == old(self).blocks@[b].parent && (self.blocks@[b].loop_id matches Some(h) ==> roots@.contains(h) && self.blocks@[b].depth
                                == 0)),
                        (forall|b: int| 0 <= b < n ==> !header_flag(#[trigger] g[b])) ==> sdepth == 0,
                        chain(bm, rk, sid as int, sdepth as int),
                        rk[sid as int] >= 0 || sid == id,
                        headerless(g) ==> roots@.contains(sid) && sid == sid0,
                        rk.len() == n,
                        g == self.g(),
                        self.g() == old(self).g(),
                        self.nodes@.len() == old(self).nodes@.len(),
                        n == g.len(),
                        self.inv(),
                        id < n,
                        sid < n,
                        forall|b: int|
                            0 <= b < n ==> {
                                let s = #[trigger] self.blocks@[b];
                                &&& s.outgoing@.len() == 0
                                &&& s.layout_node is None
                                &&& s.layer == -1
                            },
                    decreases sdepth,
                {
                    proof {
                        assert(sdepth > 0);
                        assert(chain(bm, rk, sid as int, sdepth as int));
                    }
                    match self.blocks[sid].parent {
                        Some(p) => {
                            sid = p;
                        },
                        None => {
                            return Err(LayoutErr::MalformedHeader(Id(sid)));
                        },
                    }
                    sdepth = sdepth - 1;
                }
                assert(!done.contains(id as int));
                proof {
                    if headerless(g) {
                        assert(!header_flag(g[id as int]));
                        assert(sdepth == 0);
                        assert(self.blocks@[id as int].depth == 0);
                    }
                }
                self.blocks[id].loop_id = Some(sid);
                proof {
                    done = done.insert(id as int);
                    vstd::set_lib::lemma_int_range(0, n as int);
                    vstd::set_lib::lemma_len_subset(done, vstd::set_lib::set_int_range(0, n as int));
                }
                let ghost sb = stack@;
                proof {
                    assert(sb == popped);
                    assert forall|x: int| 0 <= x < n && x != id implies (#[trigger] self.blocks@[x]).loop_id == bp[x].loop_id by {
                        assert(done.contains(x) == bp[x].loop_id is Some || x == id);
                    }
                }
                proof {
                    let now = self.blocks@;
                    assert forall|x: int| 0 <= x < n && rk0[x] >= 0 implies (#[trigger] now[x]).parent == bp[x].parent && rk[x]
                        == rk0[x] by {
                        assert(x != id as int);
                    }
                    assert forall|f: int| 0 <= f < sb.len() implies #[trigger] frame_ok(now, rk, sb[f], roots@[r as int]) by {
                        assert(frame_ok(bp, rk0, popped[f], roots@[r as int]));
                        lemma_chain_kept(bp, now, rk0, rk, sb[f].1 as int, sb[f].2 as int);
                    }
                    assert forall|x: int| 0 <= x < n && rk[x] >= 0 implies (#[trigger] now[x]).parent == bm[x].parent && rk[x]
                        == rk[x] by {}
                    lemma_chain_kept(bm, now, rk, rk, sid as int, sdepth as int);
                    assert(rk[sid as int] >= 0);
                    assert forall|b: int| 0 <= b < n implies (#[trigger] rk[b] >= 0 <==> self.blocks@[b].loop_id is Some) && rk[b]
                        < done.len() by {
                        if b != id as int {
                            assert(rk[b] == rk0[b]);
                        }
                    }
                }
                if !self.graph.node(Id(id)).flags.contains(Flags::backedge()) {
                    let node = self.graph.node(Id(id));
                    let mut k = node.succs.len();
                    while k > 0
                        invariant
                            (forall|b: int| 0 <= b < n ==> !header_flag(#[trigger] g[b])) ==> sdepth == 0 && forall|f: int|
                                0 <= f < stack@.len() ==> (#[trigger] stack@[f]).2 == 0,
                            chain(self.blocks@, rk, sid as int, sdepth as int),
                            rk.len() == n,
                            rk[sid as int] >= 0,
                            forall|f: int| 0 <= f < stack@.len() ==> #[trigger] frame_ok(self.blocks@, rk, stack@[f], roots@[r as int]),
                            headerless(g) ==> roots@.contains(sid) && forall|f: int| 0 <= f < stack@.len() ==> roots@.contains((#[trigger] stack@[f]).1),
                            stack@.len() >= sb.len(),
                            forall|f: int| 0 <= f < sb.len() ==> stack@[f] == sb[f],
                            forall|q: int|
                                #![trigger node.succs@[q]]
                                k <= q < node.succs@.len() ==> exists|f: int|
                                    0 <= f < stack@.len() && (#[trigger] stack@[f]).0 == node.succs@[q].0,
                            g == self.g(),
                            self.g() == old(self).g(),
                            self.nodes@.len() == old(self).nodes@.len(),
                            n == g.len(),
                            self.inv(),
                            *node == g[id as int],
                            id < n,
                            sid < n,
                            k <= node.succs@.len(),
                            forall|f: int| 0 <= f < stack@.len() ==> (#[trigger] stack@[f]).0 < n && stack@[f].1 < n,
                        decreases k,
                    {
                        k = k - 1;
                        proof {
                            crate::validate::lemma_edges_in_range(g, id as int, k as int);
                        }
                        let ghost s0 = stack@;
                        stack.push((node.succs[k].0, sid, sdepth));
                        proof {
                            assert(frame_ok(self.blocks@, rk, stack@[s0.len() as int], roots@[r as int]));
                            assert forall|f: int| 0 <= f < stack@.len() implies #[trigger] frame_ok(self.blocks@, rk, stack@[f], roots@[r as int]) by {
                                if f < s0.len() {
                                    assert(stack@[f] == s0[f]);
                                }
                            }
                            assert(stack@[s0.len() as int].0 == node.succs@[k as int].0);
                            assert forall|q: int|
                                #![trigger node.succs@[q]]
                                k <= q < node.succs@.len() implies exists|f: int|
                                    0 <= f < stack@.len() && (#[trigger] stack@[f]).0 == node.succs@[q].0 by {
                                if q > k {
                                    let f = choose|f: int| 0 <= f < s0.len() && (#[trigger] s0[f]).0 == node.succs@[q].0;
                                    assert(stack@[f] == s0[f]);
                                }
                            }
                        }
                    }
                }
                proof {
                    assert(stack@.len() >= before.len() - 1);
                    assert forall|f: int| 0 <= f < before.len() - 1 implies stack@[f] == before[f] by {
                        assert(sb[f] == before.drop_last()[f]);
                        assert(stack@[f] == sb[f]);
                    }
                    assert forall|b: int, p: int|
                        0 <= b < n && 0 <= p < g[b].succs@.len() && self.blocks@[b].loop_id is Some && !backedge_flag(g[b])
                            implies #[trigger] reached(self.blocks@, stack@, g[b].succs@[p].0 as int) by {
                        crate::validate::lemma_edges_in_range(g, b, p);
                        let t = g[b].succs@[p].0 as int;
                        if b == id as int {
                            assert(g[b].succs@[p] == g[id as int].succs@[p]);
                        } else {
                            assert(bp[b].loop_id is Some);
                            assert(reached(bp, before, t));
                            if bp[t].loop_id is Some {
                                assert(t != id as int);
                            }
                            lemma_reached_kept(bp, self.blocks@, before, stack@, t);
                        }
                    }
                    assert forall|k: int| 0 <= k < r implies (#[trigger] self.blocks@[roots@[k] as int]).loop_id is Some by {
                        assert(bp[roots@[k] as int].loop_id is Some);
                    }
                    if before.len() > 1 {
                        assert(stack@[0] == before[0]);
                    }
                }
            }
            proof {
                assert forall|b: int, p: int|
                    0 <= b < n && 0 <= p < g[b].succs@.len() && self.blocks@[b].loop_id is Some && !backedge_flag(g[b])
                        implies (#[trigger] self.blocks@[g[b].succs@[p].0 as int]).loop_id is Some by {
                    assert(reached(self.blocks@, stack@, g[b].succs@[p].0 as int));
                }
            }
            r = r + 1;
        }
        Ok(())
    }

    /// Appends a layout node for `block` with every link unconnected: one per
    /// successor port, or one for a dummy.
    pub(crate) fn add_node(&mut self, block: usize, flags: u8) -> (id: usize)
        requires
            old(self).inv(),
            block < old(self).g().len(),
        ensures
            final(self).inv(),
            final(self).g() == old(self).g(),
            id == old(self).nodes@.len(),
            final(self).nodes@.len() == id + 1,
            forall|v: int| 0 <= v < id ==> #[trigger] final(self).nodes@[v] == old(self).nodes@[v],
            final(self).nodes@[id as int].block == block,
            final(self).nodes@[id as int].flags == flags,
            final(self).nodes@[id as int].src@.len() == 0,
            forall|p: int|
                0 <= p < final(self).nodes@[id as int].dsts@.len() ==> #[trigger] final(self).nodes@[id as int].dsts@[p] == NO_DST,
            final(self).blocks@ == old(self).blocks@,
            final(self).layers@ == old(self).layers@,
            no_end_bits(old(self).nodes@) && (flags == 0 || flags == DUMMY) ==> no_end_bits(final(self).nodes@),
    {
        let ghost g = self.g();
        let id = self.nodes.len();
        let node = self.graph.node(Id(block));
        let (src_cap, dst_len) = if flags & DUMMY != 0 {
            (1, 1)
        } else {
            (node.preds.len(), node.succs.len())
        };
        let mut dsts: Vec<usize> = Vec::new();
        let mut k: usize = 0;
        while k < dst_len
            invariant
                k <= dst_len,
                dsts@.len() == k,
                forall|p: int| 0 <= p < k ==> #[trigger] dsts@[p] == NO_DST,
            decreases dst_len - k,
        {
            dsts.push(NO_DST);
            k = k + 1;
        }
        self.nodes.push(LNode { block, src: Srcs::new(src_cap), dsts, flags });
        proof {
            let ns = self.nodes@;
            let os = old(self).nodes@;
            lemma_end_bits();
            if no_end_bits(os) && (flags == 0 || flags == DUMMY) {
                assert forall|v: int| 0 <= v < ns.len() implies (#[trigger] ns[v]).flags & (LEFT_DUMMY | RIGHT_DUMMY) == 0 by {
                    if v < id {
                        assert(ns[v] == os[v]);
                    }
                }
            }
            assert forall|v: int| 0 <= v < ns.len() implies #[trigger] node_ok(g, ns, v) by {
                if v < id {
                    assert(node_ok(g, os, v));
                    assert(ns[v] == os[v]);
                }
            }
            assert forall|v: int, p: int|
                0 <= v < ns.len() && 0 <= p < ns[v].dsts@.len() && #[trigger] ns[v].dsts@[p] != NO_DST implies ns[ns[v].dsts@[p] as int].block
                == heads(g, ns, v, p) by {
                assert(v < id);
                assert(ns[v] == os[v]);
                assert(os[v].dsts@[p] != NO_DST);
                assert(node_ok(g, os, v));
                assert(ns[os[v].dsts@[p] as int] == os[os[v].dsts@[p] as int]);
            }
            assert forall|b: int| 0 <= b < self.blocks@.len() implies ((#[trigger] self.blocks@[b]).layout_node matches Some(v) ==> (v
                < ns.len() && ns[v as int].block == b && !is_dummy(ns[v as int]))) by {
                if let Some(v) = self.blocks@[b].layout_node {
                    assert(ns[v as int] == os[v as int]);
                }
            }
        }
        id
    }

    /// Sets the placement bit `bit` on layout node `v`.
    pub(crate) fn mark(&mut self, v: usize, bit: u8)
        requires
            old(self).inv(),
            v < old(self).nodes@.len(),
            bit == LEFT_DUMMY || bit == RIGHT_DUMMY || bit == NEXT_BACKEDGE,
        ensures
            no_end_bits(old(self).nodes@) && bit == NEXT_BACKEDGE ==> no_end_bits(final(self).nodes@),
            final(self).inv(),
            final(self).g() == old(self).g(),
            grows(old(self).nodes@, final(self).nodes@),
            final(self).nodes@.len() == old(self).nodes@.len(),
            final(self).nodes@[v as int].flags == old(self).nodes@[v as int].flags | bit,
            is_dummy(final(self).nodes@[v as int]) == is_dummy(old(self).nodes@[v as int]),
            forall|w: int|
                0 <= w < final(self).nodes@.len() ==> (#[trigger] final(self).nodes@[w]).dsts@ == old(
                    self,
                ).nodes@[w].dsts@ && final(self).nodes@[w].src@ == old(self).nodes@[w].src@,
            forall|w: int|
                0 <= w < final(self).nodes@.len() && w != v ==> (#[trigger] final(self).nodes@[w]).flags == old(
                    self,
                ).nodes@[w].flags,
            final(self).blocks@ == old(self).blocks@,
            final(self).layers@ == old(self).layers@,
    {
        let ghost g = self.g();
        proof {
            lemma_dummy_bit();
        }
        let f = self.nodes[v].flags;
        self.nodes[v].flags = f | bit;
        proof {
            let ns = self.nodes@;
            let os = old(self).nodes@;
            lemma_end_bits();
            if no_end_bits(os) && bit == NEXT_BACKEDGE {
                assert forall|w: int| 0 <= w < ns.len() implies (#[trigger] ns[w]).flags & (LEFT_DUMMY | RIGHT_DUMMY) == 0 by {
                    assert(os[w].flags & (LEFT_DUMMY | RIGHT_DUMMY) == 0);
                }
            }
            assert forall|w: int| 0 <= w < ns.len() implies #[trigger] node_ok(g, ns, w) by {
                assert(node_ok(g, os, w));
            }
            assert forall|w: int| 0 <= w < ns.len() implies ns[w].block == os[w].block && is_dummy(ns[w]) == is_dummy(
                os[w],
            ) && #[trigger] ns[w].dsts == os[w].dsts by {}
            assert forall|w: int, p: int|
                0 <= w < ns.len() && 0 <= p < ns[w].dsts@.len() && #[trigger] ns[w].dsts@[p] != NO_DST implies ns[ns[w].dsts@[p] as int].block
                == heads(g, ns, w, p) by {
                assert(node_ok(g, os, w));
                assert(ns[w].dsts == os[w].dsts);
                assert(os[w].dsts@[p] != NO_DST);
            }
        }
    }

    /// Links port `port` of layout node `from` to layout node `to`.
    pub(crate) fn connect(&mut self, from: usize, port: usize, to: usize)
        requires
            old(self).inv(),
            from < old(self).nodes@.len(),
            to < old(self).nodes@.len(),
            port < old(self).nodes@[from as int].dsts@.len(),
            old(self).nodes@[to as int].block == heads(old(self).g(), old(self).nodes@, from as int, port as int),
        ensures
            final(self).inv(),
            final(self).g() == old(self).g(),
            final(self).nodes@.len() == old(self).nodes@.len(),
            final(self).nodes@[from as int].dsts@ == old(self).nodes@[from as int].dsts@.update(port as int, to),
            forall|v: int|
                0 <= v < final(self).nodes@.len() && v != from ==> (#[trigger] final(self).nodes@[v]).dsts@
                    == old(self).nodes@[v].dsts@,
            forall|v: int|
                0 <= v < final(self).nodes@.len() ==> (#[trigger] final(self).nodes@[v]).block == old(
                    self,
                ).nodes@[v].block && final(self).nodes@[v].flags == old(self).nodes@[v].flags,
            final(self).nodes@[to as int].src@ == if old(self).nodes@[to as int].src@.contains(from) {
                old(self).nodes@[to as int].src@
            } else {
                old(self).nodes@[to as int].src@.push(from)
            },
            forall|v: int|
                0 <= v < final(self).nodes@.len() && v != to ==> (#[trigger] final(self).nodes@[v]).src@
                    == old(self).nodes@[v].src@,
            final(self).blocks@ == old(self).blocks@,
            final(self).layers@ == old(self).layers@,
    {
        let ghost g = self.g();
        self.nodes[from].dsts.set(port, to);
        self.nodes[to].src.add(from);
        proof {
            let ns = self.nodes@;
            let os = old(self).nodes@;
            assert forall|w: int| 0 <= w < ns.len() implies ns[w].block == os[w].block && #[trigger] is_dummy(ns[w]) == is_dummy(
                os[w],
            ) by {}
            assert forall|w: int, p: int|
                0 <= w < ns.len() && 0 <= p < ns[w].dsts@.len() && #[trigger] ns[w].dsts@[p] != NO_DST implies ns[ns[w].dsts@[p] as int].block
                == heads(g, ns, w, p) by {
                assert(is_dummy(ns[w]) == is_dummy(os[w]));
                if w != from as int || p != port as int {
                    assert(ns[w].dsts@[p] == os[w].dsts@[p]);
                    assert(node_ok(g, os, w));
                    assert(is_dummy(ns[os[w].dsts@[p] as int]) == is_dummy(os[os[w].dsts@[p] as int]));
                }
            }
            assert forall|b: int| 0 <= b < self.blocks@.len() implies ((#[trigger] self.blocks@[b]).layout_node matches Some(v) ==> (v
                < ns.len() && ns[v as int].block == b && !is_dummy(ns[v as int]))) by {
                if let Some(v) = self.blocks@[b].layout_node {
                    assert(is_dummy(ns[v as int]) == is_dummy(os[v as int]));
                }
            }
            assert forall|v: int| 0 <= v < ns.len() implies #[trigger] node_ok(g, ns, v) by {
                assert(node_ok(g, os, v));
                if v == to {
                    assert forall|k: int| 0 <= k < ns[v].src@.len() implies (#[trigger] ns[v].src@[k]) < ns.len() by {
                        if k < os[v].src@.len() {
                            assert(ns[v].src@[k] == os[v].src@[k]);
                        }
                    }
                }
            }
        }
    }

    /// Groups the blocks by layer, dropping empty layers.
    pub(crate) fn bucket_blocks(&self) -> (r: Result<Vec<Vec<usize>>, LayoutErr>)
        requires
            self.inv(),
            self.g().len() > 0,
        ensures
            r matches Err(e) ==> !(e is NoRoot),
            r matches Ok(v) ==> forall|l: int, k: int|
                0 <= l < v@.len() && 0 <= k < v@[l]@.len() ==> (#[trigger] v@[l]@[k]) < self.g().len(),
            r is Ok ==> forall|b: int| 0 <= b < self.blocks@.len() ==> (#[trigger] self.blocks@[b]).layer >= 0,
            r matches Ok(v) ==> forall|l: int| 0 <= l < v@.len() ==> (#[trigger] v@[l])@.len() > 0,
            r matches Ok(v) ==> forall|b: int| 0 <= b < self.blocks@.len() ==> #[trigger] bucketed(v@, b),
            r matches Ok(v) ==> forall|l: int| 0 <= l < v@.len() ==> no_repeats(#[trigger] v@[l]@),
            r matches Ok(v) ==> forall|l1: int, k1: int, l2: int, k2: int|
                0 <= l1 < v@.len() && 0 <= k1 < v@[l1]@.len() && 0 <= l2 < v@.len() && 0 <= k2 < v@[l2]@.len()
                    ==> (l1 < l2 ==> self.blocks@[#[trigger] v@[l1]@[k1] as int].layer < self.blocks@[#[trigger] v@[l2]@[k2] as int].layer)
                    && (l1 == l2 ==> self.blocks@[v@[l1]@[k1] as int].layer == self.blocks@[v@[l2]@[k2] as int].layer),
            (forall|b: int| 0 <= b < self.blocks@.len() ==> 0 <= (#[trigger] self.blocks@[b]).layer < isize::MAX) ==> r is Ok,
    {
        let n = self.blocks.len();
        let mut max_layer: isize = self.blocks[0].layer;
        let ghost mut wit: int = 0;
        let mut i: usize = 1;
        while i < n
            invariant
                self.inv(),
                n == self.blocks@.len(),
                1 <= i <= n,
                0 <= wit < i,
                self.blocks@[wit].layer == max_layer,
                forall|j: int| 0 <= j < i ==> (#[trigger] self.blocks@[j]).layer <= max_layer,
            decreases n - i,
        {
            if self.blocks[i].layer > max_layer {
                max_layer = self.blocks[i].layer;
                proof {
                    wit = i as int;
                }
            }
            i = i + 1;
        }
        if max_layer < 0 {
            return Err(LayoutErr::Unreachable(Id(0)));
        }
        if max_layer == isize::MAX {
            return Err(LayoutErr::Overflow);
        }
        let count = (max_layer + 1) as usize;
        let mut buckets: Vec<Vec<usize>> = Vec::new();
        let mut l: usize = 0;
        while l < count
            invariant
                l <= count,
                buckets@.len() == l,
                forall|j: int| 0 <= j < l ==> (#[trigger] buckets@[j])@.len() == 0,
            decreases count - l,
        {
            buckets.push(Vec::new());
            l = l + 1;
        }
        let mut id: usize = 0;
        while id < n
            invariant
                self.inv(),
                n == self.blocks@.len(),
                n == self.g().len(),
                id <= n,
                forall|j: int| 0 <= j < id ==> (#[trigger] self.blocks@[j]).layer >= 0,
                buckets@.len() == count,
                forall|l: int, k: int|
                    0 <= l < buckets@.len() && 0 <= k < buckets@[l]@.len() ==> (#[trigger] buckets@[l]@[k]) < n
                        && self.blocks@[buckets@[l]@[k] as int].layer == l,
                forall|j: int| 0 <= j < id ==> buckets@[self.blocks@[j].layer as int]@.contains(#[trigger] (j as usize)),
                forall|j: int| 0 <= j < id ==> (#[trigger] self.blocks@[j]).layer < count,
                count == max_layer + 1,
                forall|j: int| 0 <= j < n ==> (#[trigger] self.blocks@[j]).layer <= max_layer,
                forall|l: int, k: int| 0 <= l < buckets@.len() && 0 <= k < buckets@[l]@.len() ==> (#[trigger] buckets@[l]@[k]) < id,
                forall|l: int| 0 <= l < buckets@.len() ==> no_repeats(#[trigger] buckets@[l]@),
            decreases n - id,
        {
            let layer = self.blocks[id].layer;
            if layer < 0 {
                return Err(LayoutErr::Unreachable(Id(id)));
            }
            let layer = layer as usize;
            if layer >= count {
                return Err(LayoutErr::Overflow);
            }
            let ghost before = buckets@;
            buckets[layer].push(id);
            proof {
                assert forall|l: int, k: int| 0 <= l < buckets@.len() && 0 <= k < buckets@[l]@.len() implies (#[trigger] buckets@[l]@[k]) < id + 1 by {
                    if l != layer as int {
                        assert(buckets@[l]@ == before[l]@);
                    } else if k < before[l]@.len() {
                        assert(buckets@[l]@[k] == before[l]@[k]);
                    }
                }
                assert forall|l: int| 0 <= l < buckets@.len() implies no_repeats(#[trigger] buckets@[l]@) by {
                    if l != layer as int {
                        assert(buckets@[l]@ == before[l]@);
                        assert(no_repeats(before[l]@));
                    } else {
                        assert(no_repeats(before[l]@));
                        let last = before[l]@.len() as int;
                        assert forall|k1: int, k2: int| 0 <= k1 < buckets@[l]@.len() && 0 <= k2 < buckets@[l]@.len() && #[trigger] buckets@[l]@[k1]
                            == #[trigger] buckets@[l]@[k2] implies k1 == k2 by {
                            if k1 < last {
                                assert(buckets@[l]@[k1] == before[l]@[k1]);
                                assert(before[l]@[k1] < id);
                            }
                            if k2 < last {
                                assert(buckets@[l]@[k2] == before[l]@[k2]);
                                assert(before[l]@[k2] < id);
                            }
                        }
                    }
                }
                assert forall|j: int| 0 <= j < id + 1 implies buckets@[self.blocks@[j].layer as int]@.contains(#[trigger] (j as usize)) by {
                    let lj = self.blocks@[j].layer as int;
                    if j == id as int {
                        assert(buckets@[lj]@[before[lj]@.len() as int] == id);
                    } else {
                        assert(before[lj]@.contains(j as usize));
                        let k = choose|k: int| 0 <= k < before[lj]@.len() && before[lj]@[k] == j as usize;
                        if lj == layer as int {
                            assert(buckets@[lj]@[k] == before[lj]@[k]);
                        } else {
                            assert(buckets@[lj]@ == before[lj]@);
                        }
                    }
                }
                assert forall|l: int, k: int|
                    0 <= l < buckets@.len() && 0 <= k < buckets@[l]@.len() implies (#[trigger] buckets@[l]@[k]) < n
                    && self.blocks@[buckets@[l]@[k] as int].layer == l by {
                    if l != layer as int {
                        assert(buckets@[l] == before[l]);
                    } else if k < before[l]@.len() {
                        assert(buckets@[l]@[k] == before[l]@[k]);
                    }
                }
            }
            id = id + 1;
        }
        let mut out: Vec<Vec<usize>> = Vec::new();
        let ghost mut idx: Seq<int> = Seq::empty();
        let mut l: usize = 0;
        while l < buckets.len()
            invariant
                l <= buckets@.len(),
                forall|l: int, k: int|
                    0 <= l < buckets@.len() && 0 <= k < buckets@[l]@.len() ==> (#[trigger] buckets@[l]@[k]) < n
                        && self.blocks@[buckets@[l]@[k] as int].layer == l,
                forall|l: int, k: int|
                    0 <= l < out@.len() && 0 <= k < out@[l]@.len() ==> (#[trigger] out@[l]@[k]) < n,
                idx.len() == out@.len(),
                forall|j: int|
                    0 <= j < idx.len() ==> 0 <= #[trigger] idx[j] < l && out@[j]@ == buckets@[idx[j]]@ && out@[j]@.len() > 0,
                forall|a: int, b: int| 0 <= a < b < idx.len() ==> #[trigger] idx[a] < #[trigger] idx[b],
                forall|m: int| 0 <= m < l && buckets@[m]@.len() > 0 ==> exists|j: int| 0 <= j < idx.len() && #[trigger] idx[j] == m,
                forall|j: int| 0 <= j < n ==> buckets@[self.blocks@[j].layer as int]@.contains(#[trigger] (j as usize)),
                forall|j: int| 0 <= j < n ==> 0 <= (#[trigger] self.blocks@[j]).layer < buckets@.len(),
                forall|m: int| 0 <= m < buckets@.len() ==> no_repeats(#[trigger] buckets@[m]@),
            decreases buckets@.len() - l,
        {
            if buckets[l].len() > 0 {
                let ghost before = out@;
                let b = buckets[l].clone();
                assert(b@ == buckets@[l as int]@);
                out.push(b);
                proof {
                    let idx0 = idx;
                    idx = idx.push(l as int);
                    assert forall|m: int| 0 <= m < l + 1 && buckets@[m]@.len() > 0 implies exists|j: int|
                        0 <= j < idx.len() && #[trigger] idx[j] == m by {
                        if m < l {
                            let j = choose|j: int| 0 <= j < idx0.len() && #[trigger] idx0[j] == m;
                            assert(idx[j] == m);
                        } else {
                            assert(idx[idx.len() - 1] == m);
                        }
                    }
                    assert forall|j: int, k: int|
                        0 <= j < out@.len() && 0 <= k < out@[j]@.len() implies (#[trigger] out@[j]@[k]) < n by {
                        if j < before.len() {
                            assert(out@[j] == before[j]);
                        } else {
                            assert(out@[j]@[k] == buckets@[l as int]@[k]);
                        }
                    }
                    assert forall|j: int|
                        0 <= j < idx.len() implies 0 <= #[trigger] idx[j] < l + 1 && out@[j]@ == buckets@[idx[j]]@ && out@[j]@.len() > 0 by {
                        if j < before.len() {
                            assert(out@[j] == before[j]);
                        }
                    }
                    assert(idx[idx.len() - 1] == l as int);
                }
            }
            l = l + 1;
        }
        proof {
            assert forall|l1: int, k1: int, l2: int, k2: int|
                0 <= l1 < out@.len() && 0 <= k1 < out@[l1]@.len() && 0 <= l2 < out@.len() && 0 <= k2 < out@[l2]@.len()
                    implies (l1 < l2 ==> self.blocks@[#[trigger] out@[l1]@[k1] as int].layer < self.blocks@[#[trigger] out@[l2]@[k2] as int].layer)
                    && (l1 == l2 ==> self.blocks@[out@[l1]@[k1] as int].layer == self.blocks@[out@[l2]@[k2] as int].layer) by {
                assert(out@[l1]@[k1] == buckets@[idx[l1]]@[k1]);
                assert(out@[l2]@[k2] == buckets@[idx[l2]]@[k2]);
                if l1 < l2 {
                    assert(idx[l1] < idx[l2]);
                }
            }
            assert forall|j: int| 0 <= j < out@.len() implies (#[trigger] out@[j])@.len() > 0 by {
                assert(0 <= idx[j]);
            }
            assert forall|j: int| 0 <= j < out@.len() implies no_repeats(#[trigger] out@[j]@) by {
                assert(out@[j]@ == buckets@[idx[j]]@);
            }
            assert forall|b: int| 0 <= b < self.blocks@.len() implies #[trigger] bucketed(out@, b) by {
                let m = self.blocks@[b].layer as int;
                assert(buckets@[m]@.contains(b as usize));
                assert(buckets@[m]@.len() > 0);
                let j = choose|j: int| 0 <= j < idx.len() && #[trigger] idx[j] == m;
                assert(out@[j]@ == buckets@[m]@);
                assert(out@[j]@.contains(b as usize));
            }
        }
        Ok(out)
    }

    /// Places one layer: continues every edge that passes it through a dummy,
    /// adds the layer's blocks with the edges that end there, and for every
    /// loop whose rightmost block in this layer is reached, a dummy on the way
    /// back to the loop's backedge block.
    pub(crate) fn place_layer(
        &mut self,
        layer: usize,
        blocks: &Vec<usize>,
        active: &mut Vec<Edge>,
        latest: &mut Vec<(usize, usize)>,
    ) -> (r: Result<(), LayoutErr>)
        requires
            old(self).inv(),
            layer < old(self).layers@.len(),
            forall|k: int| 0 <= k < blocks@.len() ==> (#[trigger] blocks@[k]) < old(self).g().len(),
            edges_ok(old(self).g(), old(self).nodes@, old(active)@),
            pairs_ok(old(latest)@, old(self).g().len(), old(self).nodes@.len()),
            dummies_ok(old(latest)@, old(self).nodes@),
            no_end_bits(old(self).nodes@),
            loop_free(old(self).g()) ==> wiring(old(self).nodes@, old(active)@) && no_repeats(blocks@),
        ensures
            r matches Err(e) ==> !(e is NoRoot),
            loop_free(old(self).g()) && r is Ok ==> wiring(final(self).nodes@, final(active)@),
            final(self).inv(),
            final(self).g() == old(self).g(),
            final(self).layers@.len() == old(self).layers@.len(),
            grows(old(self).nodes@, final(self).nodes@),
            edges_ok(final(self).g(), final(self).nodes@, final(active)@),
            pairs_ok(final(latest)@, final(self).g().len(), final(self).nodes@.len()),
            dummies_ok(final(latest)@, final(self).nodes@),
            same_levels(old(self).blocks@, final(self).blocks@),
            no_end_bits(final(self).nodes@),
            block_nodes_from(final(self).nodes@, old(self).layers@, final(self).layers@, layer as int, blocks@),
            r is Ok ==> laid_out(
                final(self).blocks@,
                final(self).layers@,
                layer as int,
                old(self).nodes@.len(),
                blocks@,
                blocks@.len() as int,
            ),
            loop_free(old(self).g()) && (forall|k: int|
                0 <= k < blocks@.len() ==> (#[trigger] old(self).blocks@[blocks@[k] as int]).loop_id is Some) ==> r is Ok,
            r is Ok ==> forall|d: usize| #[trigger]
                has_dst(old(active)@, d) && !blocks@.contains(d) ==> has_dst(final(active)@, d),
            r is Ok ==> forall|j: int|
                0 <= j < final(active)@.len() ==> carried(old(self).g(), old(active)@, blocks@, (#[trigger] final(active)@[j]).dst_block),
            r is Ok ==> forall|k: int, p: int|
                0 <= k < blocks@.len() && #[trigger] plain_edge(old(self).g(), blocks@[k] as int, p) ==> has_dst(
                    final(active)@,
                    old(self).g()[blocks@[k] as int].succs@[p].0,
                ),
    {
        let ghost g = self.g();
        let ghost nodes0 = self.nodes@;
        proof {
            lemma_node_facts(g);
        }
        let n = self.graph.len();
        // Edges that end in this layer.
        let mut terminating: Vec<Edge> = Vec::new();
        let mut b: usize = 0;
        while b < blocks.len()
            invariant
                self.inv(),
                same_levels(old(self).blocks@, self.blocks@),
                no_end_bits(self.nodes@),
                block_nodes_from(self.nodes@, old(self).layers@, self.layers@, layer as int, blocks@),
                g == self.g(),
                self.g() == old(self).g(),
                nodes0 == old(self).nodes@,
                n == g.len(),
                self.nodes@ == nodes0,
                edges_ok(g, self.nodes@, active@),
                edges_ok(g, self.nodes@, terminating@),
                b <= blocks@.len(),
                forall|d: usize| #[trigger]
                    has_dst(old(active)@, d) && !blocks@.take(b as int).contains(d) ==> has_dst(active@, d),
                self.blocks@ == old(self).blocks@,
                forall|j: int|
                    0 <= j < active@.len() ==> has_dst(old(active)@, (#[trigger] active@[j]).dst_block) && !blocks@.take(
                        b as int,
                    ).contains(active@[j].dst_block),
                loop_free(g) ==> recip(nodes0) && next_ok(nodes0) && free_ports(nodes0, active@) && free_ports(
                    nodes0,
                    terminating@,
                ) && ports_covered(nodes0, active@, terminating@),
                forall|k: int| 0 <= k < terminating@.len() ==> blocks@.contains((#[trigger] terminating@[k]).dst_block),
            decreases blocks@.len() - b,
        {
            let block = blocks[b];
            let mut i = active.len();
            while i > 0
                invariant
                    self.inv(),
                    same_levels(old(self).blocks@, self.blocks@),
                    no_end_bits(self.nodes@),
                    block_nodes_from(self.nodes@, old(self).layers@, self.layers@, layer as int, blocks@),
                    g == self.g(),
                    self.g() == old(self).g(),
                    nodes0 == old(self).nodes@,
                    self.nodes@ == nodes0,
                    i <= active@.len(),
                    edges_ok(g, self.nodes@, active@),
                    edges_ok(g, self.nodes@, terminating@),
                    b < blocks@.len(),
                    block == blocks@[b as int],
                    forall|d: usize| #[trigger]
                        has_dst(old(active)@, d) && !blocks@.take(b as int).contains(d) && d != block ==> has_dst(active@, d),
                    self.blocks@ == old(self).blocks@,
                    forall|j: int|
                        0 <= j < active@.len() ==> has_dst(old(active)@, (#[trigger] active@[j]).dst_block) && !blocks@.take(
                            b as int,
                        ).contains(active@[j].dst_block) && (j >= i ==> active@[j].dst_block != block),
                    loop_free(g) ==> recip(nodes0) && next_ok(nodes0) && free_ports(nodes0, active@) && free_ports(
                        nodes0,
                        terminating@,
                    ) && ports_covered(nodes0, active@, terminating@),
                    forall|k: int| 0 <= k < terminating@.len() ==> blocks@.contains((#[trigger] terminating@[k]).dst_block),
                decreases i,
            {
                i = i - 1;
                if active[i].dst_block == block {
                    let ghost a0 = active@;
                    let ghost t0 = terminating@;
                    let edge = active.remove(i);
                    terminating.push(edge);
                    proof {
                        assert forall|d: usize| #[trigger]
                            has_dst(old(active)@, d) && !blocks@.take(b as int).contains(d) && d != block implies has_dst(active@, d) by {
                            assert(has_dst(a0, d));
                            let k = choose|k: int| 0 <= k < a0.len() && (#[trigger] a0[k]).dst_block == d;
                            assert(k != i);
                            let k1 = if k < i { k } else { k - 1 };
                            assert(active@[k1] == a0[k]);
                        }
                        assert forall|k: int| 0 <= k < terminating@.len() implies blocks@.contains((#[trigger] terminating@[k]).dst_block) by {
                            if k < t0.len() {
                                assert(terminating@[k] == t0[k]);
                            } else {
                                assert(terminating@[k].dst_block == blocks@[b as int]);
                            }
                        }
                        assert forall|j: int| 0 <= j < active@.len() implies has_dst(old(active)@, (#[trigger] active@[j]).dst_block)
                            && !blocks@.take(b as int).contains(active@[j].dst_block) && (j >= i ==> active@[j].dst_block != block) by {
                            let j0 = if j < i { j } else { j + 1 };
                            assert(active@[j] == a0[j0]);
                        }
                        if loop_free(g) {
                            assert forall|k: int| 0 <= k < active@.len() implies nodes0[(#[trigger] active@[k]).src as int].dsts@[active@[k].port as int] == NO_DST by {
                                let k0 = if k < i { k } else { k + 1 };
                                assert(active@[k] == a0[k0]);
                            }
                            assert forall|k: int| 0 <= k < terminating@.len() implies nodes0[(#[trigger] terminating@[k]).src as int].dsts@[terminating@[k].port as int] == NO_DST by {
                                if k < t0.len() {
                                    assert(terminating@[k] == t0[k]);
                                } else {
                                    assert(terminating@[k] == a0[i as int]);
                                }
                            }
                            assert forall|v: int, p: int| 0 <= v < nodes0.len() && 0 <= p < nodes0[v].dsts@.len() implies #[trigger] covered(nodes0, active@, terminating@, v, p) by {
                                assert(covered(nodes0, a0, t0, v, p));
                                if nodes0[v].dsts@[p] == NO_DST {
                                    if waiting(a0, v, p) {
                                        let k = choose|k: int| 0 <= k < a0.len() && (#[trigger] a0[k]).src == v && a0[k].port == p;
                                        if k == i {
                                            assert(terminating@[t0.len() as int] == a0[k]);
                                        } else {
                                            let k1 = if k < i { k } else { k - 1 };
                                            assert(active@[k1] == a0[k]);
                                        }
                                    } else {
                                        let k = choose|k: int| 0 <= k < t0.len() && (#[trigger] t0[k]).src == v && t0[k].port == p;
                                        assert(terminating@[k] == t0[k]);
                                    }
                                }
                            }
                        }
                        assert forall|k: int| 0 <= k < active@.len() implies edge_ok(g, self.nodes@, #[trigger] active@[k]) by {
                            let k0 = if k < i { k } else { k + 1 };
                            assert(active@[k] == a0[k0]);
                        }
                        assert forall|k: int| 0 <= k < terminating@.len() implies edge_ok(g, self.nodes@, #[trigger] terminating@[k]) by {
                            if k < t0.len() {
                                assert(terminating@[k] == t0[k]);
                            } else {
                                assert(terminating@[k] == a0[i as int]);
                            }
                        }
                    }
                }
            }
            proof {
                assert forall|j: int| 0 <= j < active@.len() implies has_dst(old(active)@, (#[trigger] active@[j]).dst_block)
                    && !blocks@.take(b + 1).contains(active@[j].dst_block) by {
                    let d = active@[j].dst_block;
                    if blocks@.take(b + 1).contains(d) {
                        let q = choose|q: int| 0 <= q < b + 1 && #[trigger] blocks@.take(b + 1)[q] == d;
                        if q < b {
                            assert(blocks@.take(b as int)[q] == d);
                        }
                    }
                }
                assert forall|d: usize| #[trigger]
                    has_dst(old(active)@, d) && !blocks@.take(b + 1).contains(d) implies has_dst(active@, d) by {
                    if blocks@.take(b as int).contains(d) {
                        let j = choose|j: int| 0 <= j < b && blocks@.take(b as int)[j] == d;
                        assert(blocks@.take(b + 1)[j] == d);
                    }
                    if d == block {
                        assert(blocks@.take(b + 1)[b as int] == d);
                    }
                }
            }
            b = b + 1;
        }
        proof {
            assert(blocks@.take(blocks@.len() as int) =~= blocks@);
        }
        let ghost a1 = active@;
        // Edges that pass this layer continue through a shared dummy.
        let mut dummies: Vec<(usize, usize)> = Vec::new();
        proof {
            if loop_free(g) {
                assert forall|j: int| 0 <= j < a1.len() implies (#[trigger] a1[j]).src < nodes0.len() by {
                    assert(edge_ok(g, nodes0, a1[j]));
                }
                assert(threading(nodes0, nodes0.len() as int, a1, 0, dummies@, terminating@));
            }
        }
        let mut i: usize = 0;
        while i < active.len()
            invariant
                self.inv(),
                same_levels(old(self).blocks@, self.blocks@),
                no_end_bits(self.nodes@),
                block_nodes_from(self.nodes@, old(self).layers@, self.layers@, layer as int, blocks@),
                g == self.g(),
                self.g() == old(self).g(),
                nodes0 == old(self).nodes@,
                n == g.len(),
                layer < self.layers@.len(),
                self.layers@.len() == old(self).layers@.len(),
                grows(nodes0, self.nodes@),
                i <= active@.len(),
                edges_ok(g, self.nodes@, active@),
                edges_ok(g, self.nodes@, terminating@),
                active@.len() == a1.len(),
                forall|j: int| 0 <= j < a1.len() ==> (#[trigger] active@[j]).dst_block == a1[j].dst_block,
                self.blocks@ == old(self).blocks@,
                pairs_ok(dummies@, n as nat, self.nodes@.len()),
                dummies_ok(dummies@, self.nodes@),
                pairs_ok(latest@, n as nat, self.nodes@.len()),
                dummies_ok(latest@, self.nodes@),
                loop_free(g) ==> recip(self.nodes@) && next_ok(self.nodes@) && threading(
                    self.nodes@,
                    nodes0.len() as int,
                    active@,
                    i as int,
                    dummies@,
                    terminating@,
                ) && ports_covered(self.nodes@, active@, terminating@),
                forall|k: int| 0 <= k < terminating@.len() ==> blocks@.contains((#[trigger] terminating@[k]).dst_block),
                forall|j: int| 0 <= j < a1.len() ==> !blocks@.contains((#[trigger] a1[j]).dst_block),
            decreases active@.len() - i,
        {
            let edge = active[i];
            let mut found: Option<usize> = None;
            let mut k: usize = 0;
            while k < dummies.len()
                invariant
                    k <= dummies@.len(),
                    pairs_ok(dummies@, n as nat, self.nodes@.len()),
                    dummies_ok(dummies@, self.nodes@),
                    found matches Some(id) ==> id < self.nodes@.len() && is_dummy(self.nodes@[id as int])
                        && self.nodes@[id as int].block == edge.dst_block,
                    found matches Some(id) ==> exists|q: int| 0 <= q < dummies@.len() && (#[trigger] dummies@[q]) == (edge.dst_block, id),
                    found is None ==> forall|q: int| 0 <= q < k ==> (#[trigger] dummies@[q]).0 != edge.dst_block,
                ensures
                    found matches Some(id) ==> id < self.nodes@.len() && is_dummy(self.nodes@[id as int])
                        && self.nodes@[id as int].block == edge.dst_block,
                    found matches Some(id) ==> exists|q: int| 0 <= q < dummies@.len() && (#[trigger] dummies@[q]) == (edge.dst_block, id),
                    found is None ==> forall|q: int| 0 <= q < dummies@.len() ==> (#[trigger] dummies@[q]).0 != edge.dst_block,
                decreases dummies@.len() - k,
            {
                if dummies[k].0 == edge.dst_block {
                    found = Some(dummies[k].1);
                    assert(is_dummy(self.nodes@[dummies@[k as int].1 as int]));
                    assert(dummies@[k as int] == (edge.dst_block, dummies@[k as int].1));
                    break;
                }
                k = k + 1;
            }
            let ghost before = self.nodes@;
            let ghost d0 = dummies@;
            proof {
                if loop_free(g) {
                    assert(active@[i as int] == edge);
                    assert(edge.src < nodes0.len());
                    if found is None {
                        assert(forall|q: int| 0 <= q < dummies@.len() ==> (#[trigger] dummies@[q]).0 != edge.dst_block);
                        assert(before[edge.src as int].dsts@[edge.port as int] == NO_DST);
                    }
                    assert(self.nodes.len() == self.nodes@.len());
                    assert forall|w: int, j: int| 0 <= w < before.len() && 0 <= j < before[w].src@.len() implies (#[trigger] before[w].src@[j]) < before.len() by {
                        assert(node_ok(g, before, w));
                    }
                }
            }
            let dummy = match found {
                Some(id) => {
                    proof {
                        if loop_free(g) {
                            let q = choose|q: int| 0 <= q < dummies@.len() && (#[trigger] dummies@[q]) == (edge.dst_block, id);
                            if before[edge.src as int].dsts@[edge.port as int] != NO_DST {
                                let k = choose|k: int|
                                    0 <= k < dummies@.len() && (#[trigger] dummies@[k]).0 == edge.dst_block
                                        && before[edge.src as int].dsts@[edge.port as int] == dummies@[k].1;
                                assert(k == q);
                            }
                        }
                    }
                    self.connect(edge.src, edge.port, id);
                    proof {
                        if loop_free(g) {
                            lemma_connect_recip(before, self.nodes@, edge.src as int, edge.port as int, id as int);
                            assert(next_at(before, edge.src as int));
                            lemma_connect_next(before, self.nodes@, edge.src as int, edge.port as int, id as int);
                        }
                    }
                    id
                },
                None => {
                    let ghost l_pre = self.layers@;
                    let ghost len_pre = self.nodes@.len();
                    let id = self.add_node(edge.dst_block, DUMMY);
                    let ghost mid = self.nodes@;
                    proof {
                        if loop_free(g) {
                            lemma_push_recip(before, mid);
                            assert forall|w: int, j: int| 0 <= w < mid.len() && 0 <= j < mid[w].src@.len() implies (#[trigger] mid[w].src@[j]) < mid.len() by {
                                assert(node_ok(g, mid, w));
                            }
                            assert(self.nodes.len() == self.nodes@.len());
                            assert(mid[edge.src as int] == before[edge.src as int]);
                            lemma_dummy_bit();
                            assert(DUMMY & NEXT_BACKEDGE == 0) by (bit_vector);
                            lemma_push_next(before, mid);
                        }
                    }
                    self.connect(edge.src, edge.port, id);
                    proof {
                        if loop_free(g) {
                            lemma_connect_recip(mid, self.nodes@, edge.src as int, edge.port as int, id as int);
                            assert(next_at(mid, edge.src as int));
                            lemma_connect_next(mid, self.nodes@, edge.src as int, edge.port as int, id as int);
                        }
                    }
                    let ghost lb = self.layers@;
                    self.layers[layer].push(id);
                    proof {
                        assert forall|i: int, k: int| 0 <= i < lb.len() && 0 <= k < lb[i]@.len() implies (#[trigger] lb[i]@[k]) != id by {
                            assert(lb[i]@[k] == l_pre[i]@[k]);
                            assert(l_pre[i]@[k] < len_pre);
                        }
                        lemma_distinct_push(lb, self.layers@, layer as int, id);
                        lemma_placed_push(lb, self.layers@, layer as int);
                        assert forall|l: int, k: int|
                            0 <= l < self.layers@.len() && 0 <= k < self.layers@[l]@.len() implies (#[trigger] self.layers@[l]@[k]) < self.nodes@.len() by {
                            if l != layer as int {
                                assert(self.layers@[l] == lb[l]);
                            } else if k < lb[l]@.len() {
                                assert(self.layers@[l]@[k] == lb[l]@[k]);
                            }
                        }
                    }
                    dummies.push((edge.dst_block, id));
                    id
                },
            };
            proof {
                lemma_edges_grow(g, before, self.nodes@, active@);
                lemma_dummies_grow(latest@, before, self.nodes@);
                lemma_edges_grow(g, before, self.nodes@, terminating@);
                assert(node_ok(g, self.nodes@, dummy as int));
                assert(is_dummy(self.nodes@[dummy as int])) by {
                    if found is None {
                        lemma_dummy_bit();
                    }
                }
                assert forall|k: int| 0 <= k < dummies@.len() implies is_dummy(self.nodes@[(#[trigger] dummies@[k]).1 as int])
                    && self.nodes@[dummies@[k].1 as int].block == dummies@[k].0 by {
                    let d = dummies@[k].1 as int;
                    if d < before.len() {
                        assert(is_dummy(self.nodes@[d]) == is_dummy(before[d]));
                        assert(self.nodes@[d].block == before[d].block);
                    }
                }
            }
            let ghost a0 = active@;
            active.set(i, Edge { src: dummy, port: 0, dst_block: edge.dst_block });
            proof {
                assert forall|j: int| 0 <= j < a1.len() implies (#[trigger] active@[j]).dst_block == a1[j].dst_block by {
                    if j != i {
                        assert(active@[j] == a0[j]);
                    }
                }
                if loop_free(g) {
                    let n1 = self.nodes@;
                    let base = nodes0.len() as int;
                    assert(a0[i as int] == edge);
                    assert(n1[edge.src as int].dsts@ == before[edge.src as int].dsts@.update(edge.port as int, dummy));
                    assert(dummy as int >= base);
                    assert(found is None ==> dummies@ == d0.push((edge.dst_block, dummy)));
                    assert(found is Some ==> dummies@ == d0);
                    assert(exists|q: int| 0 <= q < dummies@.len() && (#[trigger] dummies@[q]) == (edge.dst_block, dummy)) by {
                        if found is None {
                            assert(dummies@[d0.len() as int] == (edge.dst_block, dummy));
                        }
                    }
                    assert forall|v: int| 0 <= v < before.len() && v != edge.src implies (#[trigger] n1[v]).dsts@ == before[v].dsts@ by {}
                    assert(next_ok(n1));
                    // the step of the threading
                    assert forall|j: int| i + 1 <= j < active@.len() implies (#[trigger] active@[j]).src < base && (n1[active@[j].src as int].dsts@[active@[j].port as int] == NO_DST
                        || exists|k: int|
                        0 <= k < dummies@.len() && (#[trigger] dummies@[k]).0 == active@[j].dst_block && n1[active@[j].src as int].dsts@[active@[j].port as int]
                            == dummies@[k].1) by {
                        let e = active@[j];
                        assert(e == a0[j]);
                        if e.src == edge.src && e.port == edge.port {
                            assert(edge_ok(g, before, a0[j]));
                            assert(edge_ok(g, before, a0[i as int]));
                            assert(e.dst_block == edge.dst_block);
                            let q = choose|q: int| 0 <= q < dummies@.len() && (#[trigger] dummies@[q]) == (edge.dst_block, dummy);
                            assert(n1[e.src as int].dsts@[e.port as int] == dummy);
                            assert(dummies@[q].0 == e.dst_block);
                        } else {
                            assert(n1[e.src as int].dsts@[e.port as int] == before[e.src as int].dsts@[e.port as int]);
                            if before[e.src as int].dsts@[e.port as int] != NO_DST {
                                let k = choose|k: int|
                                    0 <= k < d0.len() && (#[trigger] d0[k]).0 == e.dst_block && before[e.src as int].dsts@[e.port as int] == d0[k].1;
                                assert(dummies@[k] == d0[k]);
                            }
                        }
                    }
                    assert forall|j: int| 0 <= j < i + 1 implies (#[trigger] active@[j]).src >= base && n1[active@[j].src as int].dsts@[active@[j].port as int]
                        == NO_DST by {
                        if j < i {
                            assert(active@[j] == a0[j]);
                            assert(a0[j].src != edge.src);
                        } else {
                            assert(active@[j].src == dummy);
                            assert(dummy != edge.src);
                            if found is None {
                                assert(n1[dummy as int].dsts@[0] == NO_DST);
                            } else {
                                let q = choose|q: int| 0 <= q < d0.len() && (#[trigger] d0[q]) == (edge.dst_block, dummy);
                                assert(before[d0[q].1 as int].dsts@[0] == NO_DST);
                            }
                        }
                    }
                    assert forall|k1: int, k2: int|
                        0 <= k1 < dummies@.len() && 0 <= k2 < dummies@.len() && (#[trigger] dummies@[k1]).0 == (#[trigger] dummies@[k2]).0 implies k1 == k2 by {
                        if found is None {
                            if k1 < d0.len() {
                                assert(dummies@[k1] == d0[k1]);
                            }
                            if k2 < d0.len() {
                                assert(dummies@[k2] == d0[k2]);
                            }
                        }
                    }
                    assert forall|k: int| 0 <= k < dummies@.len() implies (#[trigger] dummies@[k]).1 >= base && n1[dummies@[k].1 as int].dsts@[0]
                        == NO_DST by {
                        if k < d0.len() {
                            assert(dummies@[k] == d0[k]);
                            assert(d0[k].1 != edge.src);
                            if d0[k].1 < before.len() {
                                assert(n1[d0[k].1 as int].dsts@ == before[d0[k].1 as int].dsts@);
                            }
                        } else {
                            assert(dummies@[k].1 == dummy);
                        }
                    }
                    assert forall|k: int| 0 <= k < terminating@.len() implies (#[trigger] terminating@[k]).src < base && n1[terminating@[k].src as int].dsts@[terminating@[k].port as int]
                        == NO_DST by {
                        let t = terminating@[k];
                        if t.src == edge.src && t.port == edge.port {
                            assert(edge_ok(g, before, t));
                            assert(edge_ok(g, before, a0[i as int]));
                            assert(t.dst_block == edge.dst_block);
                            assert(blocks@.contains(t.dst_block));
                            assert(a1[i as int].dst_block == edge.dst_block);
                            assert(false);
                        }
                    }
                    assert forall|v: int, p: int| 0 <= v < n1.len() && 0 <= p < n1[v].dsts@.len() implies #[trigger] covered(n1, active@, terminating@, v, p) by {
                        if v < before.len() {
                            assert(covered(before, a0, terminating@, v, p));
                            if v == edge.src && p == edge.port {
                            } else if n1[v].dsts@[p] == NO_DST {
                                assert(n1[v].dsts@[p] == before[v].dsts@[p]);
                                if waiting(a0, v, p) {
                                    let k = choose|k: int| 0 <= k < a0.len() && (#[trigger] a0[k]).src == v && a0[k].port == p;
                                    if k == i {
                                        assert(false);
                                    }
                                    assert(active@[k] == a0[k]);
                                }
                            }
                        } else {
                            assert(v == dummy);
                            assert(p == 0);
                            assert(active@[i as int].src == v && active@[i as int].port == p);
                        }
                    }
                }
                assert forall|k: int| 0 <= k < active@.len() implies edge_ok(g, self.nodes@, #[trigger] active@[k]) by {
                    if k != i {
                        assert(active@[k] == a0[k]);
                    }
                }
            }
            i = i + 1;
        }
        proof {
            assert forall|d: usize| #[trigger] has_dst(a1, d) implies has_dst(active@, d) by {
                let k = choose|k: int| 0 <= k < a1.len() && (#[trigger] a1[k]).dst_block == d;
                assert(active@[k].dst_block == d);
            }
        }
        let ghost a2 = active@;
        proof {
            assert forall|j: int| 0 <= j < a2.len() implies carried(g, old(active)@, blocks@, (#[trigger] a2[j]).dst_block) by {
                assert(a2[j].dst_block == a1[j].dst_block);
                assert(has_dst(old(active)@, a1[j].dst_block) && !blocks@.contains(a1[j].dst_block));
            }
        }
        // Loops whose rightmost block in this layer is each block.
        let mut pending: Vec<(usize, usize)> = Vec::new();
        let mut b: usize = 0;
        while b < blocks.len()
            invariant
                self.inv(),
                same_levels(old(self).blocks@, self.blocks@),
                no_end_bits(self.nodes@),
                block_nodes_from(self.nodes@, old(self).layers@, self.layers@, layer as int, blocks@),
                g == self.g(),
                self.g() == old(self).g(),
                nodes0 == old(self).nodes@,
                n == g.len(),
                forall|k: int| 0 <= k < blocks@.len() ==> (#[trigger] blocks@[k]) < n,
                b <= blocks@.len(),
                pairs_ok(pending@, n as nat, n as nat),
                forall|k: int| 0 <= k < pending@.len() ==> header_flag(g[(#[trigger] pending@[k]).0 as int]),
                self.blocks@ == old(self).blocks@,
                loop_free(g) ==> pending@.len() == 0,
                layer < self.layers@.len(),
                self.layers@.len() == old(self).layers@.len(),
                grows(nodes0, self.nodes@),
                edges_ok(g, self.nodes@, active@),
                edges_ok(g, self.nodes@, terminating@),
                pairs_ok(latest@, n as nat, self.nodes@.len()),
                dummies_ok(latest@, self.nodes@),
            decreases blocks@.len() - b,
        {
            let block = blocks[b];
            let mut header = match self.blocks[block].loop_id {
                Some(h) => h,
                None => return Err(LayoutErr::Unreachable(Id(block))),
            };
            let mut seen: usize = 0;
            while self.graph.node(Id(header)).flags.contains(Flags::header())
                invariant
                    self.inv(),
                    same_levels(old(self).blocks@, self.blocks@),
                    no_end_bits(self.nodes@),
                    block_nodes_from(self.nodes@, old(self).layers@, self.layers@, layer as int, blocks@),
                    g == self.g(),
                    self.g() == old(self).g(),
                    nodes0 == old(self).nodes@,
                    n == g.len(),
                    header < n,
                    block < n,
                    pairs_ok(pending@, n as nat, n as nat),
                    self.blocks@ == old(self).blocks@,
                    loop_free(g) ==> pending@.len() == 0,
                    forall|k: int| 0 <= k < pending@.len() ==> header_flag(g[(#[trigger] pending@[k]).0 as int]),
                    seen <= n,
                    layer < self.layers@.len(),
                    self.layers@.len() == old(self).layers@.len(),
                    grows(nodes0, self.nodes@),
                    edges_ok(g, self.nodes@, active@),
                    edges_ok(g, self.nodes@, terminating@),
                    pairs_ok(latest@, n as nat, self.nodes@.len()),
                    dummies_ok(latest@, self.nodes@),
                decreases n - seen,
            {
                let mut k: usize = 0;
                let mut hit = false;
                while k < pending.len()
                    invariant
                        k <= pending@.len(),
                        header < n,
                        block < n,
                        pairs_ok(pending@, n as nat, n as nat),
                        forall|k: int| 0 <= k < pending@.len() ==> header_flag(g[(#[trigger] pending@[k]).0 as int]),
                    decreases pending@.len() - k,
                {
                    if pending[k].0 == header {
                        let ghost p0 = pending@;
                        pending.set(k, (header, block));
                        proof {
                            assert forall|j: int| 0 <= j < pending@.len() implies (#[trigger] pending@[j]).0 < n && pending@[j].1 < n by {
                                if j != k {
                                    assert(pending@[j] == p0[j]);
                                }
                            }
                            assert forall|j: int| 0 <= j < pending@.len() implies header_flag(g[(#[trigger] pending@[j]).0 as int]) by {
                                if j != k {
                                    assert(pending@[j] == p0[j]);
                                }
                            }
                        }
                        hit = true;
                        break;
                    }
                    k = k + 1;
                }
                if !hit {
                    let ghost p0 = pending@;
                    pending.push((header, block));
                    proof {
                        assert forall|j: int| 0 <= j < pending@.len() implies header_flag(g[(#[trigger] pending@[j]).0 as int]) by {
                            if j < p0.len() {
                                assert(pending@[j] == p0[j]);
                            }
                        }
                    }
                }
                match self.blocks[header].parent {
                    None => break,
                    Some(parent) => {
                        header = parent;
                    },
                }
                if seen >= n {
                    return Err(LayoutErr::MalformedHeader(Id(header)));
                }
                seen = seen + 1;
            }
            b = b + 1;
        }
        proof {
            if loop_free(g) {
                assert(blocks@.take(0) =~= Seq::<usize>::empty());
                assert(laying(self.nodes@, nodes0.len() as int, active@, terminating@, blocks@.take(0), -1));
            }
        }
        // The layer's blocks, each followed by the backedge dummies of the
        // loops it closes.
        let mut back_edges: Vec<Edge> = Vec::new();
        let mut b: usize = 0;
        while b < blocks.len()
            invariant
                laid_out(self.blocks@, self.layers@, layer as int, old(self).nodes@.len(), blocks@, b as int),
                self.inv(),
                same_levels(old(self).blocks@, self.blocks@),
                no_end_bits(self.nodes@),
                block_nodes_from(self.nodes@, old(self).layers@, self.layers@, layer as int, blocks@),
                g == self.g(),
                self.g() == old(self).g(),
                nodes0 == old(self).nodes@,
                n == g.len(),
                forall|j: int| 0 <= j < g.len() ==> #[trigger] node_facts(g, j),
                forall|k: int| 0 <= k < blocks@.len() ==> (#[trigger] blocks@[k]) < n,
                layer < self.layers@.len(),
                self.layers@.len() == old(self).layers@.len(),
                grows(nodes0, self.nodes@),
                b <= blocks@.len(),
                edges_ok(g, self.nodes@, active@),
                edges_ok(g, self.nodes@, terminating@),
                edges_ok(g, self.nodes@, back_edges@),
                forall|d: usize| #[trigger] has_dst(a2, d) ==> has_dst(active@, d),
                forall|k: int, p: int|
                    0 <= k < b && #[trigger] plain_edge(g, blocks@[k] as int, p) ==> has_dst(active@, g[blocks@[k] as int].succs@[p].0),
                loop_free(g) ==> pending@.len() == 0 && back_edges@.len() == 0,
                forall|j: int| 0 <= j < active@.len() ==> carried(g, old(active)@, blocks@, (#[trigger] active@[j]).dst_block),
                loop_free(g) ==> laying(self.nodes@, nodes0.len() as int, active@, terminating@, blocks@.take(b as int), -1)
                    && no_repeats(blocks@),
                forall|k: int| 0 <= k < terminating@.len() ==> blocks@.contains((#[trigger] terminating@[k]).dst_block),
                pairs_ok(pending@, n as nat, n as nat),
                forall|k: int| 0 <= k < pending@.len() ==> header_flag(g[(#[trigger] pending@[k]).0 as int]),
                pairs_ok(latest@, n as nat, self.nodes@.len()),
                dummies_ok(latest@, self.nodes@),
            decreases blocks@.len() - b,
        {
            let block = blocks[b];
            let ghost s0 = self.nodes@;
            let ghost l_pre = self.layers@;
            let node = self.add_node(block, 0);
            proof {
                if loop_free(g) {
                    let n1 = self.nodes@;
                    assert forall|w: int, j: int| 0 <= w < s0.len() && 0 <= j < s0[w].src@.len() implies (#[trigger] s0[w].src@[j]) < s0.len() by {
                        assert(node_ok(g, s0, w));
                    }
                    lemma_push_recip(s0, n1);
                    assert(0u8 & NEXT_BACKEDGE == 0) by (bit_vector);
                    lemma_push_next(s0, n1);
                    assert forall|j: int| 0 <= j < active@.len() implies (#[trigger] active@[j]).src >= nodes0.len() && n1[active@[j].src as int].dsts@[active@[j].port as int]
                        == NO_DST by {
                        assert(edge_ok(g, s0, active@[j]));
                        assert(n1[active@[j].src as int] == s0[active@[j].src as int]);
                    }
                    assert forall|k: int| 0 <= k < terminating@.len() implies (#[trigger] terminating@[k]).src < nodes0.len() && (blocks@.take(b as int).contains(terminating@[k].dst_block) <==> n1[terminating@[k].src as int].dsts@[terminating@[k].port as int]
                        != NO_DST) by {
                        assert(n1[terminating@[k].src as int] == s0[terminating@[k].src as int]);
                    }
                    assert forall|v: int, p: int|
                        0 <= v < n1.len() && v != node && 0 <= p < n1[v].dsts@.len() implies #[trigger] covered(n1, active@, terminating@, v, p) by {
                        assert(n1[v] == s0[v]);
                        assert(covered(s0, active@, terminating@, v, p));
                    }
                    assert(laying(n1, nodes0.len() as int, active@, terminating@, blocks@.take(b as int), node as int));
                    assert(!blocks@.take(b as int).contains(block)) by {
                        if blocks@.take(b as int).contains(block) {
                            let q = choose|q: int| 0 <= q < b && #[trigger] blocks@.take(b as int)[q] == block;
                            assert(blocks@[q] == blocks@[b as int]);
                        }
                    }
                }
            }
            proof {
                lemma_dummy_bit();
                lemma_edges_grow(g, s0, self.nodes@, active@);
                lemma_dummies_grow(latest@, s0, self.nodes@);
                lemma_edges_grow(g, s0, self.nodes@, terminating@);
                lemma_edges_grow(g, s0, self.nodes@, back_edges@);
            }
            let mut t = terminating.len();
            while t > 0
                invariant
                    laid_out(self.blocks@, self.layers@, layer as int, old(self).nodes@.len(), blocks@, b as int),
                    s0.len() >= old(self).nodes@.len(),
                    self.inv(),
                    same_levels(old(self).blocks@, self.blocks@),
                    no_end_bits(self.nodes@),
                    block_nodes_from(self.nodes@, old(self).layers@, self.layers@, layer as int, blocks@),
                    g == self.g(),
                    self.g() == old(self).g(),
                    nodes0 == old(self).nodes@,
                    n == g.len(),
                    layer < self.layers@.len(),
                    self.layers@.len() == old(self).layers@.len(),
                    grows(nodes0, self.nodes@),
                    node < self.nodes@.len(),
                    self.nodes@[node as int].block == block,
                    !is_dummy(self.nodes@[node as int]),
                    self.layers@ == l_pre,
                    node == s0.len(),
                    layers_ok(l_pre, s0.len()),
                    t <= terminating@.len(),
                    edges_ok(g, self.nodes@, active@),
                    edges_ok(g, self.nodes@, terminating@),
                    edges_ok(g, self.nodes@, back_edges@),
                    pairs_ok(latest@, n as nat, self.nodes@.len()),
                    dummies_ok(latest@, self.nodes@),
                    b < blocks@.len(),
                    block == blocks@[b as int],
                    loop_free(g) ==> {
                        let ns = self.nodes@;
                        let base = nodes0.len() as int;
                        let done = blocks@.take(b as int);
                        &&& recip(ns)
                        &&& next_ok(ns)
                        &&& !done.contains(block)
                        &&& node >= base
                        &&& forall|q: int| 0 <= q < ns[node as int].dsts@.len() ==> #[trigger] ns[node as int].dsts@[q] == NO_DST
                        &&& forall|j: int|
                            0 <= j < active@.len() ==> (#[trigger] active@[j]).src >= base && ns[active@[j].src as int].dsts@[active@[j].port as int]
                                == NO_DST
                        &&& forall|k: int|
                            0 <= k < terminating@.len() ==> {
                                let e = #[trigger] terminating@[k];
                                let d = ns[e.src as int].dsts@[e.port as int];
                                &&& e.src < base
                                &&& done.contains(e.dst_block) ==> d != NO_DST
                                &&& !done.contains(e.dst_block) && e.dst_block != block ==> d == NO_DST
                                &&& e.dst_block == block && k >= t ==> d != NO_DST
                                &&& e.dst_block == block && k < t ==> d == NO_DST || d == node
                            }
                        &&& forall|v: int, p: int|
                            0 <= v < ns.len() && v != node && 0 <= p < ns[v].dsts@.len() ==> #[trigger] covered(ns, active@, terminating@, v, p)
                    },
                decreases t,
            {
                t = t - 1;
                let edge = terminating[t];
                if edge.dst_block == block {
                    let ghost s1 = self.nodes@;
                    proof {
                        if loop_free(g) {
                            assert(terminating@[t as int] == edge);
                            assert(self.nodes.len() == self.nodes@.len());
                            assert forall|w: int, j: int| 0 <= w < s1.len() && 0 <= j < s1[w].src@.len() implies (#[trigger] s1[w].src@[j]) < s1.len() by {
                                assert(node_ok(g, s1, w));
                            }
                        }
                    }
                    self.connect(edge.src, edge.port, node);
                    proof {
                        if loop_free(g) {
                            let ns = self.nodes@;
                            let base = nodes0.len() as int;
                            let done = blocks@.take(b as int);
                            lemma_connect_recip(s1, ns, edge.src as int, edge.port as int, node as int);
                            assert(next_at(s1, edge.src as int));
                            lemma_connect_next(s1, ns, edge.src as int, edge.port as int, node as int);
                            assert(edge.src != node);
                            assert forall|j: int| 0 <= j < active@.len() implies (#[trigger] active@[j]).src >= base && ns[active@[j].src as int].dsts@[active@[j].port as int]
                                == NO_DST by {
                                assert(active@[j].src != edge.src);
                            }
                            assert forall|k: int| 0 <= k < terminating@.len() implies {
                                let e = #[trigger] terminating@[k];
                                let d = ns[e.src as int].dsts@[e.port as int];
                                &&& e.src < base
                                &&& done.contains(e.dst_block) ==> d != NO_DST
                                &&& !done.contains(e.dst_block) && e.dst_block != block ==> d == NO_DST
                                &&& e.dst_block == block && k >= t ==> d != NO_DST
                                &&& e.dst_block == block && k < t ==> d == NO_DST || d == node
                            } by {
                                let e = terminating@[k];
                                if e.src == edge.src && e.port == edge.port {
                                    assert(edge_ok(g, s1, e));
                                    assert(edge_ok(g, s1, edge));
                                    assert(e.dst_block == block);
                                    assert(ns[e.src as int].dsts@[e.port as int] == node);
                                } else {
                                    assert(ns[e.src as int].dsts@[e.port as int] == s1[e.src as int].dsts@[e.port as int]);
                                }
                            }
                            assert forall|v: int, p: int|
                                0 <= v < ns.len() && v != node && 0 <= p < ns[v].dsts@.len() implies #[trigger] covered(ns, active@, terminating@, v, p) by {
                                assert(covered(s1, active@, terminating@, v, p));
                                if !(v == edge.src && p == edge.port) {
                                    assert(ns[v].dsts@[p] == s1[v].dsts@[p]);
                                }
                            }
                            assert forall|q: int| 0 <= q < ns[node as int].dsts@.len() implies #[trigger] ns[node as int].dsts@[q] == NO_DST by {
                                assert(ns[node as int].dsts@ == s1[node as int].dsts@);
                            }
                        }
                    }
                    proof {
                        lemma_edges_grow(g, s1, self.nodes@, active@);
                        lemma_dummies_grow(latest@, s1, self.nodes@);
                        lemma_edges_grow(g, s1, self.nodes@, terminating@);
                        lemma_edges_grow(g, s1, self.nodes@, back_edges@);
                    }
                }
            }
            let ghost lb = self.layers@;
            self.layers[layer].push(node);
            proof {
                assert forall|i: int, k: int| 0 <= i < lb.len() && 0 <= k < lb[i]@.len() implies (#[trigger] lb[i]@[k]) != node by {
                    assert(lb[i]@[k] < s0.len());
                }
                lemma_distinct_push(lb, self.layers@, layer as int, node);
                lemma_placed_push(lb, self.layers@, layer as int);
                assert forall|l: int, k: int|
                    0 <= l < self.layers@.len() && 0 <= k < self.layers@[l]@.len() implies (#[trigger] self.layers@[l]@[k]) < self.nodes@.len() by {
                    if l != layer as int {
                        assert(self.layers@[l] == lb[l]);
                    } else if k < lb[l]@.len() {
                        assert(self.layers@[l]@[k] == lb[l]@[k]);
                    }
                }
            }
            proof {
                lemma_contains_push(lb[layer as int]@, self.layers@[layer as int]@, node);
            }
            let ghost bb = self.blocks@;
            assert(self.layers@[layer as int]@[self.layers@[layer as int]@.len() - 1] == node);
            self.blocks[block].layout_node = Some(node);
            proof {
                assert forall|k: int|
                    #![trigger blocks@[k]]
                    0 <= k < b + 1 implies (self.blocks@[blocks@[k] as int].layout_node matches Some(v) && v
                    >= old(self).nodes@.len() && self.layers@[layer as int]@.contains(v)) by {
                    if blocks@[k] != block {
                        assert(self.blocks@[blocks@[k] as int] == bb[blocks@[k] as int]);
                        assert(bb[blocks@[k] as int].layout_node matches Some(v) && lb[layer as int]@.contains(v));
                    }
                }
                assert forall|x: int| 0 <= x < n implies #[trigger] self.blocks@[x] == if x == block {
                    self.blocks@[x]
                } else {
                    bb[x]
                } by {}
                assert forall|x: int| 0 <= x < self.blocks@.len() implies (#[trigger] old(self).blocks@[x]).layer
                    == self.blocks@[x].layer && old(self).blocks@[x].depth == self.blocks@[x].depth by {
                    assert(bb[x].layer == old(self).blocks@[x].layer);
                }
            }
            let ghost nq = self.nodes@;
            proof {
                if loop_free(g) {
                    let done = blocks@.take(b as int);
                    let done1 = blocks@.take(b + 1);
                    assert forall|d: usize| #[trigger] done1.contains(d) <==> done.contains(d) || d == block by {
                        if done1.contains(d) {
                            let q = choose|q: int| 0 <= q < b + 1 && #[trigger] done1[q] == d;
                            if q < b {
                                assert(done[q] == d);
                            }
                        }
                        if done.contains(d) {
                            let q = choose|q: int| 0 <= q < b && #[trigger] done[q] == d;
                            assert(done1[q] == d);
                        }
                        if d == block {
                            assert(done1[b as int] == d);
                        }
                    }
                    assert forall|k: int| 0 <= k < terminating@.len() implies (#[trigger] terminating@[k]).src < nodes0.len() && (done1.contains(terminating@[k].dst_block) <==> nq[terminating@[k].src as int].dsts@[terminating@[k].port as int]
                        != NO_DST) by {
                        assert(done1.contains(terminating@[k].dst_block) <==> done.contains(terminating@[k].dst_block) || terminating@[k].dst_block == block);
                    }
                    assert(recip(nq) && next_ok(nq));
                    assert(node >= nodes0.len() && node < nq.len());
                    assert(node_ok(g, nq, node as int));
                    assert forall|q: int| 0 <= q < nq[node as int].dsts@.len() implies #[trigger] nq[node as int].dsts@[q] == NO_DST by {}
                    assert forall|j: int| 0 <= j < active@.len() implies (#[trigger] active@[j]).src >= nodes0.len() && nq[active@[j].src as int].dsts@[active@[j].port as int]
                        == NO_DST by {}
                    assert forall|v: int, p: int|
                        0 <= v < nq.len() && v != node && 0 <= p < nq[v].dsts@.len() implies #[trigger] covered(nq, active@, terminating@, v, p) by {}
                }
            }
            let mut q: usize = 0;
            while q < pending.len()
                invariant
                    loop_free(g) ==> pending@.len() == 0 && self.nodes@ == nq,
                    laid_out(self.blocks@, self.layers@, layer as int, old(self).nodes@.len(), blocks@, b + 1),
                    self.inv(),
                    same_levels(old(self).blocks@, self.blocks@),
                    no_end_bits(self.nodes@),
                    block_nodes_from(self.nodes@, old(self).layers@, self.layers@, layer as int, blocks@),
                    g == self.g(),
                    self.g() == old(self).g(),
                    nodes0 == old(self).nodes@,
                    n == g.len(),
                    forall|j: int| 0 <= j < g.len() ==> #[trigger] node_facts(g, j),
                    block < n,
                    layer < self.layers@.len(),
                    self.layers@.len() == old(self).layers@.len(),
                    grows(nodes0, self.nodes@),
                    node < self.nodes@.len(),
                    self.nodes@[node as int].block == block,
                    !is_dummy(self.nodes@[node as int]),
                    q <= pending@.len(),
                    pairs_ok(pending@, n as nat, n as nat),
                    forall|k: int| 0 <= k < pending@.len() ==> header_flag(g[(#[trigger] pending@[k]).0 as int]),
                    edges_ok(g, self.nodes@, active@),
                    edges_ok(g, self.nodes@, terminating@),
                    edges_ok(g, self.nodes@, back_edges@),
                    pairs_ok(latest@, n as nat, self.nodes@.len()),
                    dummies_ok(latest@, self.nodes@),
                decreases pending@.len() - q,
            {
                let (loop_id, rightmost) = pending[q];
                if rightmost == block {
                    assert(header_flag(g[loop_id as int]));
                    let backedge = self.blocks[loop_id].backedge.unwrap();
                    let ghost s1 = self.nodes@;
                    let ghost l_pre = self.layers@;
                    let dummy = self.add_node(backedge, DUMMY);
                    proof {
                        lemma_dummy_bit();
                        lemma_edges_grow(g, s1, self.nodes@, active@);
                        lemma_dummies_grow(latest@, s1, self.nodes@);
                        lemma_edges_grow(g, s1, self.nodes@, terminating@);
                        lemma_edges_grow(g, s1, self.nodes@, back_edges@);
                        assert(node_ok(g, self.nodes@, dummy as int));
                    }
                    let mut latest_index: Option<usize> = None;
                    let mut k: usize = 0;
                    while k < latest.len()
                        invariant
                            k <= latest@.len(),
                            latest_index matches Some(x) ==> x < latest@.len() && latest@[x as int].0 == backedge,
                        decreases latest@.len() - k,
                    {
                        if latest[k].0 == backedge {
                            latest_index = Some(k);
                            break;
                        }
                        k = k + 1;
                    }
                    let ghost s2 = self.nodes@;
                    match latest_index {
                        Some(index) => {
                            let prior = latest[index].1;
                            self.connect(dummy, 0, prior);
                        },
                        None => {
                            let dst = match self.blocks[backedge].layout_node {
                                Some(d) => d,
                                None => return Err(LayoutErr::MalformedBackedge(Id(backedge))),
                            };
                            self.mark(dummy, NEXT_BACKEDGE);
                            self.connect(dummy, 0, dst);
                        },
                    }
                    proof {
                        lemma_edges_grow(g, s2, self.nodes@, active@);
                        lemma_dummies_grow(latest@, s2, self.nodes@);
                        lemma_edges_grow(g, s2, self.nodes@, terminating@);
                        lemma_edges_grow(g, s2, self.nodes@, back_edges@);
                    }
                    let ghost lb = self.layers@;
                    self.layers[layer].push(dummy);
                    proof {
                        lemma_contains_push(lb[layer as int]@, self.layers@[layer as int]@, dummy);
                        assert forall|i: int, k: int| 0 <= i < lb.len() && 0 <= k < lb[i]@.len() implies (#[trigger] lb[i]@[k]) != dummy by {
                            assert(lb[i]@[k] == l_pre[i]@[k]);
                            assert(l_pre[i]@[k] < s1.len());
                        }
                        lemma_distinct_push(lb, self.layers@, layer as int, dummy);
                        lemma_placed_push(lb, self.layers@, layer as int);
                        assert forall|l: int, k: int|
                            0 <= l < self.layers@.len() && 0 <= k < self.layers@[l]@.len() implies (#[trigger] self.layers@[l]@[k]) < self.nodes@.len() by {
                            if l != layer as int {
                                assert(self.layers@[l] == lb[l]);
                            } else if k < lb[l]@.len() {
                                assert(self.layers@[l]@[k] == lb[l]@[k]);
                            }
                        }
                    }
                    let ghost l0 = latest@;
                    match latest_index {
                        Some(index) => {
                            latest.set(index, (backedge, dummy));
                        },
                        None => {
                            latest.push((backedge, dummy));
                        },
                    }
                    proof {
                        assert forall|k: int| 0 <= k < latest@.len() implies (#[trigger] latest@[k]).0 < n && latest@[k].1 < self.nodes@.len() by {
                            if k < l0.len() && (latest_index is None || k != latest_index.unwrap()) {
                                assert(latest@[k] == l0[k]);
                            }
                        }
                        assert forall|k: int| 0 <= k < latest@.len() implies is_dummy(self.nodes@[(#[trigger] latest@[k]).1 as int]) by {
                            if k < l0.len() && (latest_index is None || k != latest_index.unwrap()) {
                                assert(latest@[k] == l0[k]);
                                assert(is_dummy(self.nodes@[l0[k].1 as int]) == is_dummy(s1[l0[k].1 as int]));
                            }
                        }
                    }
                }
                q = q + 1;
            }
            let ghost s3 = self.nodes@;
            if self.graph.node(Id(block)).flags.contains(Flags::backedge()) {
                assert(node_facts(g, block as int));
                proof {
                    crate::validate::lemma_edges_in_range(g, block as int, 0);
                }
                let header = self.graph.node(Id(block)).succs[0].0;
                let dst = match self.blocks[header].layout_node {
                    Some(d) => d,
                    None => return Err(LayoutErr::MalformedBackedge(Id(block))),
                };
                assert(node_ok(g, self.nodes@, node as int));
                self.connect(node, 0, dst);
            } else {
                let succs = &self.graph.node(Id(block)).succs;
                let mut port: usize = 0;
                while port < succs.len()
                    invariant
                        laid_out(self.blocks@, self.layers@, layer as int, old(self).nodes@.len(), blocks@, b + 1),
                        self.inv(),
                        same_levels(old(self).blocks@, self.blocks@),
                        no_end_bits(self.nodes@),
                        block_nodes_from(self.nodes@, old(self).layers@, self.layers@, layer as int, blocks@),
                        g == self.g(),
                        n == g.len(),
                        block < n,
                        *succs == g[block as int].succs,
                        node < self.nodes@.len(),
                        self.nodes@[node as int].block == block,
                        !is_dummy(self.nodes@[node as int]),
                        port <= succs@.len(),
                        edges_ok(g, self.nodes@, active@),
                        edges_ok(g, self.nodes@, back_edges@),
                        b < blocks@.len(),
                        block == blocks@[b as int],
                        forall|d: usize| #[trigger] has_dst(a2, d) ==> has_dst(active@, d),
                        forall|k: int, p: int|
                            0 <= k < b && #[trigger] plain_edge(g, blocks@[k] as int, p) ==> has_dst(active@, g[blocks@[k] as int].succs@[p].0),
                        forall|q: int| 0 <= q < port && #[trigger] plain_edge(g, block as int, q) ==> has_dst(active@, g[block as int].succs@[q].0),
                        loop_free(g) ==> back_edges@.len() == 0,
                        forall|j: int| 0 <= j < active@.len() ==> carried(g, old(active)@, blocks@, (#[trigger] active@[j]).dst_block),
                        !backedge_flag(g[block as int]),
                        loop_free(g) ==> self.nodes@ == nq,
                        loop_free(g) ==> recip(nq) && next_ok(nq) && node >= nodes0.len() && node < nq.len() && nq[node as int].dsts@.len()
                            == succs@.len() && (forall|q: int| 0 <= q < nq[node as int].dsts@.len() ==> #[trigger] nq[node as int].dsts@[q] == NO_DST)
                            && (forall|k: int| 0 <= k < terminating@.len() ==> (#[trigger] terminating@[k]).src < nodes0.len() && (blocks@.take(b + 1).contains(terminating@[k].dst_block) <==> nq[terminating@[k].src as int].dsts@[terminating@[k].port as int]
                                != NO_DST)),
                        loop_free(g) ==> forall|j: int|
                            0 <= j < active@.len() ==> (#[trigger] active@[j]).src >= nodes0.len() && nq[active@[j].src as int].dsts@[active@[j].port as int]
                                == NO_DST,
                        loop_free(g) ==> forall|v: int, p: int|
                            0 <= v < nq.len() && v != node && 0 <= p < nq[v].dsts@.len() ==> #[trigger] covered(nq, active@, terminating@, v, p),
                        loop_free(g) ==> forall|q: int| 0 <= q < port ==> #[trigger] waiting(active@, node as int, q),
                    decreases succs@.len() - port,
                {
                    proof {
                        crate::validate::lemma_edges_in_range(g, block as int, port as int);
                        assert(node_ok(g, self.nodes@, node as int));
                    }
                    let succ = succs[port].0;
                    let edge = Edge { src: node, port, dst_block: succ };
                    if self.graph.node(Id(succ)).flags.contains(Flags::backedge()) {
                        proof {
                            if loop_free(g) {
                                assert(!backedge_flag(g[succ as int]));
                            }
                        }
                        let ghost e0 = back_edges@;
                        back_edges.push(edge);
                        proof {
                            assert forall|k: int| 0 <= k < back_edges@.len() implies edge_ok(g, self.nodes@, #[trigger] back_edges@[k]) by {
                                if k < e0.len() {
                                    assert(back_edges@[k] == e0[k]);
                                }
                            }
                        }
                    } else {
                        let ghost e0 = active@;
                        active.push(edge);
                        proof {
                            lemma_has_dst_push(e0, edge);
                            assert(succs@[port as int].0 == succ);
                            if loop_free(g) {
                                assert(active@[e0.len() as int] == edge);
                                assert forall|j: int| 0 <= j < active@.len() implies (#[trigger] active@[j]).src >= nodes0.len() && nq[active@[j].src as int].dsts@[active@[j].port as int]
                                    == NO_DST by {
                                    if j < e0.len() {
                                        assert(active@[j] == e0[j]);
                                    }
                                }
                                assert forall|v: int, p: int|
                                    0 <= v < nq.len() && v != node && 0 <= p < nq[v].dsts@.len() implies #[trigger] covered(nq, active@, terminating@, v, p) by {
                                    assert(covered(nq, e0, terminating@, v, p));
                                    if waiting(e0, v, p) {
                                        let k = choose|k: int| 0 <= k < e0.len() && (#[trigger] e0[k]).src == v && e0[k].port == p;
                                        assert(active@[k] == e0[k]);
                                    }
                                }
                                assert forall|q: int| 0 <= q < port + 1 implies #[trigger] waiting(active@, node as int, q) by {
                                    if q < port {
                                        assert(waiting(e0, node as int, q));
                                        let k = choose|k: int| 0 <= k < e0.len() && (#[trigger] e0[k]).src == node && e0[k].port == q;
                                        assert(active@[k] == e0[k]);
                                    }
                                }
                            }
                            assert(plain_edge(g, blocks@[b as int] as int, port as int));
                            assert forall|j: int| 0 <= j < active@.len() implies carried(g, old(active)@, blocks@, (#[trigger] active@[j]).dst_block) by {
                                if j < e0.len() {
                                    assert(active@[j] == e0[j]);
                                }
                            }
                            assert forall|k: int| 0 <= k < active@.len() implies edge_ok(g, self.nodes@, #[trigger] active@[k]) by {
                                if k < e0.len() {
                                    assert(active@[k] == e0[k]);
                                }
                            }
                        }
                    }
                    port = port + 1;
                }
            }
            proof {
                lemma_edges_grow(g, s3, self.nodes@, active@);
                lemma_dummies_grow(latest@, s3, self.nodes@);
                lemma_edges_grow(g, s3, self.nodes@, terminating@);
                lemma_edges_grow(g, s3, self.nodes@, back_edges@);
                assert forall|k: int, p: int|
                    0 <= k < b + 1 && #[trigger] plain_edge(g, blocks@[k] as int, p) implies has_dst(active@, g[blocks@[k] as int].succs@[p].0) by {
                    if k == b as int {
                        assert(plain_edge(g, block as int, p));
                    }
                }
            }
            b = b + 1;
        }
        let ghost nl = self.nodes@;
        proof {
            if loop_free(g) {
                assert(blocks@.take(blocks@.len() as int) =~= blocks@);
                assert forall|v: int, p: int| 0 <= v < nl.len() && 0 <= p < nl[v].dsts@.len() implies #[trigger] covered(
                    nl,
                    active@,
                    Seq::<Edge>::empty(),
                    v,
                    p,
                ) by {
                    assert(covered(nl, active@, terminating@, v, p));
                    if nl[v].dsts@[p] == NO_DST && !waiting(active@, v, p) {
                        let k = choose|k: int| 0 <= k < terminating@.len() && (#[trigger] terminating@[k]).src == v && terminating@[k].port == p;
                        assert(blocks@.contains(terminating@[k].dst_block));
                    }
                }
                assert(wiring(nl, active@));
            }
        }
        let mut k: usize = 0;
        while k < back_edges.len()
            invariant
                loop_free(g) ==> back_edges@.len() == 0,
                loop_free(g) ==> self.nodes@ == nl && wiring(nl, active@),
                laid_out(self.blocks@, self.layers@, layer as int, old(self).nodes@.len(), blocks@, blocks@.len() as int),
                self.inv(),
                same_levels(old(self).blocks@, self.blocks@),
                no_end_bits(self.nodes@),
                block_nodes_from(self.nodes@, old(self).layers@, self.layers@, layer as int, blocks@),
                g == self.g(),
                self.g() == old(self).g(),
                nodes0 == old(self).nodes@,
                n == g.len(),
                self.layers@.len() == old(self).layers@.len(),
                grows(nodes0, self.nodes@),
                k <= back_edges@.len(),
                edges_ok(g, self.nodes@, active@),
                edges_ok(g, self.nodes@, back_edges@),
                pairs_ok(latest@, n as nat, self.nodes@.len()),
                dummies_ok(latest@, self.nodes@),
            decreases back_edges@.len() - k,
        {
            let edge = back_edges[k];
            let mut dummy: Option<usize> = None;
            let mut j: usize = 0;
            while j < latest.len()
                invariant
                    j <= latest@.len(),
                    pairs_ok(latest@, n as nat, self.nodes@.len()),
                    dummies_ok(latest@, self.nodes@),
                    dummy matches Some(d) ==> d < self.nodes@.len() && self.nodes@[d as int].block == edge.dst_block,
                decreases latest@.len() - j,
            {
                if latest[j].0 == edge.dst_block {
                    assert(self.nodes@[latest@[j as int].1 as int].block == latest@[j as int].0);
                    dummy = Some(latest[j].1);
                    break;
                }
                j = j + 1;
            }
            let dummy = match dummy {
                Some(d) => d,
                None => return Err(LayoutErr::MalformedBackedge(Id(edge.dst_block))),
            };
            let ghost s4 = self.nodes@;
            self.connect(edge.src, edge.port, dummy);
            proof {
                lemma_edges_grow(g, s4, self.nodes@, active@);
                lemma_dummies_grow(latest@, s4, self.nodes@);
                lemma_edges_grow(g, s4, self.nodes@, back_edges@);
            }
            k = k + 1;
        }
        Ok(())
    }

    /// Removes `from` from the sources of layout node `to`.
    pub(crate) fn unlink(&mut self, to: usize, from: usize) -> (found: bool)
        requires
            old(self).inv(),
            to < old(self).nodes@.len(),
        ensures
            final(self).inv(),
            final(self).g() == old(self).g(),
            final(self).nodes@.len() == old(self).nodes@.len(),
            grows(old(self).nodes@, final(self).nodes@),
            final(self).blocks@ == old(self).blocks@,
            final(self).layers@ == old(self).layers@,
            forall|w: int| 0 <= w < final(self).nodes@.len() ==> (#[trigger] final(self).nodes@[w]).flags == old(self).nodes@[w].flags,
            found == old(self).nodes@[to as int].src@.contains(from),
            found ==> exists|p: int|
                0 <= p < old(self).nodes@[to as int].src@.len() && old(self).nodes@[to as int].src@[p] == from
                    && final(self).nodes@[to as int].src@ == old(self).nodes@[to as int].src@.remove(p),
            !found ==> final(self).nodes@[to as int].src@ == old(self).nodes@[to as int].src@,
            final(self).nodes@ == old(self).nodes@.update(
                to as int,
                LNode { src: final(self).nodes@[to as int].src, ..old(self).nodes@[to as int] },
            ),
    {
        let ghost g = self.g();
        let found = self.nodes[to].src.remove(from);
        proof {
            let ns = self.nodes@;
            let os = old(self).nodes@;
            assert forall|w: int| 0 <= w < ns.len() implies ns[w].block == os[w].block && #[trigger] ns[w].dsts == os[w].dsts
                && is_dummy(ns[w]) == is_dummy(os[w]) by {}
            assert forall|w: int, p: int|
                0 <= w < ns.len() && 0 <= p < ns[w].dsts@.len() && #[trigger] ns[w].dsts@[p] != NO_DST implies ns[ns[w].dsts@[p] as int].block
                == heads(g, ns, w, p) by {
                assert(ns[w].dsts == os[w].dsts);
                assert(node_ok(g, os, w));
            }
            assert forall|w: int| 0 <= w < ns.len() implies #[trigger] node_ok(g, ns, w) by {
                assert(node_ok(g, os, w));
                if w == to {
                    assert forall|k: int| 0 <= k < ns[w].src@.len() implies (#[trigger] ns[w].src@[k]) < ns.len() by {
                        if found {
                            let p = choose|p: int|
                                0 <= p < os[w].src@.len() && os[w].src@[p] == from && ns[w].src@
                                    == os[w].src@.remove(p) && forall|j: int| 0 <= j < p ==> os[w].src@[j] != from;
                            let k0 = if k < p { k } else { k + 1 };
                            assert(ns[w].src@[k] == os[w].src@[k0]);
                        }
                    }
                }
            }
        }
        found
    }

    /// The error for an edge that never reached its destination: the loop
    /// header that should have closed around it.
    fn unterminated(&self, dst: usize) -> (e: LayoutErr)
        requires
            self.inv(),
            dst < self.g().len(),
        ensures
            e is MalformedHeader,
    {
        let ghost g = self.g();
        let node = self.graph.node(Id(dst));
        let mut header: Option<usize> = None;
        let mut k: usize = 0;
        while k < node.preds.len()
            invariant
                self.inv(),
                g == self.g(),
                dst < g.len(),
                *node == g[dst as int],
                k <= node.preds@.len(),
            decreases node.preds@.len() - k,
        {
            proof {
                crate::validate::lemma_edges_in_range(g, dst as int, k as int);
            }
            let pred = node.preds[k].0;
            if !self.graph.node(Id(pred)).flags.contains(Flags::backedge())
                && self.blocks[pred].layer >= self.blocks[dst].layer {
                header = self.blocks[pred].loop_id;
                break;
            }
            k = k + 1;
        }
        let header = match header {
            Some(h) => h,
            None => match self.blocks[dst].loop_id {
                Some(h) => h,
                None => dst,
            },
        };
        LayoutErr::MalformedHeader(Id(header))
    }

    /// Drops the chains of backedge dummies that no edge reaches.
    pub(crate) fn prune(&mut self) -> (r: Result<(), LayoutErr>)
        requires
            old(self).inv(),
        ensures
            r matches Err(e) ==> !(e is NoRoot),
            final(self).inv(),
            final(self).g() == old(self).g(),
            grows(old(self).nodes@, final(self).nodes@),
            final(self).blocks@ == old(self).blocks@,
            final(self).nodes@.len() == old(self).nodes@.len(),
            forall|w: int| 0 <= w < final(self).nodes@.len() ==> (#[trigger] final(self).nodes@[w]).flags == old(self).nodes@[w].flags,
            r is Ok ==> final(self).layers@.len() == old(self).layers@.len(),
            r is Ok ==> forall|j: int, k: int|
                0 <= j < final(self).layers@.len() && 0 <= k < final(self).layers@[j]@.len() ==> old(
                    self,
                ).layers@[j]@.contains(#[trigger] final(self).layers@[j]@[k]),
            r is Ok ==> forall|j: int, k: int|
                0 <= j < final(self).layers@.len() && 0 <= k < final(self).layers@[j]@.len() ==> !orphan(
                    final(self).g(),
                    final(self).nodes@,
                    #[trigger] final(self).layers@[j]@[k] as int,
                ),
            loop_free(old(self).g()) ==> r is Ok && final(self).nodes@ == old(self).nodes@ && final(self).layers@ == old(
                self,
            ).layers@,
    {
        let ghost g = self.g();
        let ghost ls = self.layers@;
        let ghost ns0 = self.nodes@;
        let mut roots: Vec<usize> = Vec::new();
        let mut l: usize = 0;
        while l < self.layers.len()
            invariant
                self.inv(),
                g == self.g(),
                ls == self.layers@,
                ls == old(self).layers@,
                ns0 == self.nodes@,
                ns0 == old(self).nodes@,
                l <= self.layers@.len(),
                forall|k: int| 0 <= k < roots@.len() ==> (#[trigger] roots@[k]) < self.nodes@.len(),
                forall|a: int, i: int|
                    0 <= a < l && 0 <= i < ls[a]@.len() && orphan(g, ns0, #[trigger] ls[a]@[i] as int) ==> roots@.contains(
                        ls[a]@[i],
                    ),
                loop_free(g) ==> roots@.len() == 0,
            decreases self.layers@.len() - l,
        {
            let mut k: usize = 0;
            while k < self.layers[l].len()
                invariant
                    self.inv(),
                    g == self.g(),
                    ls == self.layers@,
                    ns0 == self.nodes@,
                    l < self.layers@.len(),
                    k <= self.layers@[l as int]@.len(),
                    forall|k: int| 0 <= k < roots@.len() ==> (#[trigger] roots@[k]) < self.nodes@.len(),
                    forall|a: int, i: int|
                        0 <= a < ls.len() && 0 <= i < ls[a]@.len() && (a < l || (a == l && i < k)) && orphan(
                            g,
                            ns0,
                            #[trigger] ls[a]@[i] as int,
                        ) ==> roots@.contains(ls[a]@[i]),
                    loop_free(g) ==> roots@.len() == 0,
                decreases self.layers@[l as int]@.len() - k,
            {
                let id = self.layers[l][k];
                assert(node_ok(g, self.nodes@, id as int));
                let node = &self.nodes[id];
                let ghost r0 = roots@;
                if node.is_dummy() && self.graph.node(Id(node.block)).flags.contains(Flags::backedge())
                    && node.src.as_slice().len() == 0 {
                    proof {
                        if loop_free(g) {
                            assert(!backedge_flag(g[node.block as int]));
                        }
                    }
                    roots.push(id);
                    proof {
                        assert(roots@[r0.len() as int] == id);
                    }
                }
                proof {
                    assert forall|a: int, i: int|
                        0 <= a < ls.len() && 0 <= i < ls[a]@.len() && (a < l || (a == l && i < k + 1)) && orphan(
                            g,
                            ns0,
                            #[trigger] ls[a]@[i] as int,
                        ) implies roots@.contains(ls[a]@[i]) by {
                        if a == l && i == k {
                            assert(roots@[r0.len() as int] == id);
                        } else {
                            assert(r0.contains(ls[a]@[i]));
                            let q = choose|q: int| 0 <= q < r0.len() && r0[q] == ls[a]@[i];
                            assert(roots@[q] == r0[q]);
                        }
                    }
                }
                k = k + 1;
            }
            l = l + 1;
        }
        if roots.len() == 0 {
            proof {
                assert forall|j: int, k: int|
                    0 <= j < self.layers@.len() && 0 <= k < self.layers@[j]@.len() implies !orphan(
                    g,
                    self.nodes@,
                    #[trigger] self.layers@[j]@[k] as int,
                ) by {
                    if orphan(g, self.nodes@, self.layers@[j]@[k] as int) {
                        assert(roots@.contains(ls[j]@[k]));
                    }
                }
                assert forall|j: int, i: int|
                    0 <= j < self.layers@.len() && 0 <= i < self.layers@[j]@.len() implies old(self).layers@[j]@.contains(
                        #[trigger] self.layers@[j]@[i],
                    ) by {
                    assert(self.layers@[j]@[i] == old(self).layers@[j]@[i]);
                }
            }
            return Ok(());
        }
        let len = self.nodes.len();
        let mut removed: Vec<bool> = Vec::new();
        let mut i: usize = 0;
        while i < len
            invariant
                i <= len,
                removed@.len() == i,
                forall|w: int| 0 <= w < i ==> !#[trigger] removed@[w],
            decreases len - i,
        {
            removed.push(false);
            i = i + 1;
        }
        let ghost s0 = self.nodes@;
        let mut o: usize = 0;
        while o < roots.len()
            invariant
                self.inv(),
                !loop_free(g),
                g == self.g(),
                self.g() == old(self).g(),
                self.blocks@ == old(self).blocks@,
                grows(old(self).nodes@, self.nodes@),
                self.nodes@.len() == old(self).nodes@.len(),
                forall|w: int| 0 <= w < self.nodes@.len() ==> (#[trigger] self.nodes@[w]).flags == old(self).nodes@[w].flags,
                len == self.nodes@.len(),
                removed@.len() == len,
                forall|w: int| 0 <= w < len && #[trigger] removed@[w] ==> is_dummy(self.nodes@[w]),
                self.layers@ == old(self).layers@,
                o <= roots@.len(),
                ls == old(self).layers@,
                forall|k: int| 0 <= k < roots@.len() ==> (#[trigger] roots@[k]) < len,
                forall|a: int, i: int|
                    0 <= a < ls.len() && 0 <= i < ls[a]@.len() && orphan(g, self.nodes@, #[trigger] ls[a]@[i] as int)
                        ==> removed@[ls[a]@[i] as int] || exists|q: int| o <= q < roots@.len() && roots@[q] == ls[a]@[i],
            decreases roots@.len() - o,
        {
            let mut current = roots[o];
            let mut steps: usize = 0;
            while self.nodes[current].is_dummy() && self.nodes[current].src.as_slice().len() == 0
                invariant
                    self.inv(),
                    !loop_free(g),
                    g == self.g(),
                    self.g() == old(self).g(),
                    self.blocks@ == old(self).blocks@,
                    grows(old(self).nodes@, self.nodes@),
                    self.nodes@.len() == old(self).nodes@.len(),
                    forall|w: int| 0 <= w < self.nodes@.len() ==> (#[trigger] self.nodes@[w]).flags == old(self).nodes@[w].flags,
                    len == self.nodes@.len(),
                    removed@.len() == len,
                    forall|w: int| 0 <= w < len && #[trigger] removed@[w] ==> is_dummy(self.nodes@[w]),
                    self.layers@ == old(self).layers@,
                    current < len,
                    steps <= len,
                    o < roots@.len(),
                    ls == old(self).layers@,
                    forall|a: int, i: int|
                        0 <= a < ls.len() && 0 <= i < ls[a]@.len() && orphan(g, self.nodes@, #[trigger] ls[a]@[i] as int)
                            ==> removed@[ls[a]@[i] as int] || ls[a]@[i] == current || exists|q: int|
                            o < q < roots@.len() && roots@[q] == ls[a]@[i],
                decreases len - steps,
            {
                if steps >= len {
                    return Err(LayoutErr::MalformedBackedge(Id(self.nodes[current].block)));
                }
                assert(node_ok(g, self.nodes@, current as int));
                let dst = self.nodes[current].dsts[0];
                if dst == NO_DST {
                    return Err(LayoutErr::MalformedBackedge(Id(self.nodes[current].block)));
                }
                let ghost s1 = self.nodes@;
                let ghost rm1 = removed@;
                if !self.unlink(dst, current) {
                    return Err(LayoutErr::MalformedBackedge(Id(self.nodes[current].block)));
                }
                proof {
                    assert forall|w: int| 0 <= w < len implies #[trigger] is_dummy(self.nodes@[w]) == is_dummy(s1[w]) by {}
                }
                removed.set(current, true);
                proof {
                    assert forall|a: int, i: int|
                        0 <= a < ls.len() && 0 <= i < ls[a]@.len() && orphan(g, self.nodes@, #[trigger] ls[a]@[i] as int)
                            implies removed@[ls[a]@[i] as int] || ls[a]@[i] == dst || exists|q: int|
                            o < q < roots@.len() && roots@[q] == ls[a]@[i] by {
                        let x = ls[a]@[i] as int;
                        assert(self.layers@[a]@[i] == ls[a]@[i]);
                        assert(x < len);
                        if x != dst as int {
                            assert(self.nodes@[x] == s1[x]);
                            assert(orphan(g, s1, x));
                            if x != current as int && rm1[x] {
                                assert(removed@[x]);
                            }
                        }
                    }
                }
                current = dst;
                steps = steps + 1;
            }
            proof {
                assert forall|a: int, i: int|
                    0 <= a < ls.len() && 0 <= i < ls[a]@.len() && orphan(g, self.nodes@, #[trigger] ls[a]@[i] as int)
                        implies removed@[ls[a]@[i] as int] || exists|q: int| o + 1 <= q < roots@.len() && roots@[q] == ls[a]@[i] by {
                    if ls[a]@[i] == current {
                        assert(!orphan(g, self.nodes@, current as int));
                    }
                }
            }
            o = o + 1;
        }
        let ghost ns1 = self.nodes@;
        let mut l: usize = 0;
        while l < self.layers.len()
            invariant
                self.inv(),
                g == self.g(),
                self.g() == old(self).g(),
                self.blocks@ == old(self).blocks@,
                grows(old(self).nodes@, self.nodes@),
                self.nodes@.len() == old(self).nodes@.len(),
                forall|w: int| 0 <= w < self.nodes@.len() ==> (#[trigger] self.nodes@[w]).flags == old(self).nodes@[w].flags,
                l <= self.layers@.len(),
                len == self.nodes@.len(),
                removed@.len() == len,
                forall|w: int| 0 <= w < len && #[trigger] removed@[w] ==> is_dummy(self.nodes@[w]),
                self.layers@.len() == old(self).layers@.len(),
                forall|j: int| l <= j < self.layers@.len() ==> #[trigger] self.layers@[j] == old(self).layers@[j],
                forall|j: int, k: int|
                    0 <= j < l && 0 <= k < self.layers@[j]@.len() ==> old(self).layers@[j]@.contains(
                        #[trigger] self.layers@[j]@[k],
                    ),
                ls == old(self).layers@,
                self.nodes@ == ns1,
                forall|a: int, i: int|
                    0 <= a < ls.len() && 0 <= i < ls[a]@.len() && orphan(g, ns1, #[trigger] ls[a]@[i] as int)
                        ==> removed@[ls[a]@[i] as int],
                forall|j: int, k: int|
                    0 <= j < l && 0 <= k < self.layers@[j]@.len() ==> !removed@[#[trigger] self.layers@[j]@[k] as int],
            decreases self.layers@.len() - l,
        {
            let mut kept: Vec<usize> = Vec::new();
            let mut k: usize = 0;
            while k < self.layers[l].len()
                invariant
                    self.inv(),
                    l < self.layers@.len(),
                    k <= self.layers@[l as int]@.len(),
                    removed@.len() == self.nodes@.len(),
                    forall|j: int| 0 <= j < kept@.len() ==> (#[trigger] kept@[j]) < self.nodes@.len(),
                    forall|j: int|
                        0 <= j < k && !removed@[#[trigger] self.layers@[l as int]@[j] as int] ==> kept@.contains(
                            self.layers@[l as int]@[j],
                        ),
                    kept@.no_duplicates(),
                    forall|j: int| 0 <= j < kept@.len() ==> exists|m: int| 0 <= m < k && #[trigger] kept@[j] == self.layers@[l as int]@[m],
                    forall|j: int| 0 <= j < kept@.len() ==> !removed@[#[trigger] kept@[j] as int],
                decreases self.layers@[l as int]@.len() - k,
            {
                let id = self.layers[l][k];
                let ghost k0 = kept@;
                if !removed[id] {
                    proof {
                        assert forall|j: int| 0 <= j < k0.len() implies #[trigger] k0[j] != id by {
                            let m = choose|m: int| 0 <= m < k && #[trigger] k0[j] == self.layers@[l as int]@[m];
                            assert(self.layers@[l as int]@[m] == k0[j]);
                        }
                    }
                    kept.push(id);
                    proof {
                        assert(kept@[k0.len() as int] == id);
                        assert forall|a: int, c: int| 0 <= a < kept@.len() && 0 <= c < kept@.len() && a != c implies kept@[a] != kept@[c] by {
                            if a < k0.len() && c < k0.len() {
                                assert(kept@[a] == k0[a] && kept@[c] == k0[c]);
                            } else if a < k0.len() {
                                assert(kept@[a] == k0[a]);
                            } else {
                                assert(kept@[c] == k0[c]);
                            }
                        }
                    }
                }
                proof {
                    assert forall|j: int| 0 <= j < kept@.len() implies exists|m: int| 0 <= m < k + 1 && #[trigger] kept@[j] == self.layers@[l as int]@[m] by {
                        if j < k0.len() {
                            assert(kept@[j] == k0[j]);
                            let m = choose|m: int| 0 <= m < k && #[trigger] k0[j] == self.layers@[l as int]@[m];
                            assert(kept@[j] == self.layers@[l as int]@[m]);
                        } else {
                            assert(kept@[j] == self.layers@[l as int]@[k as int]);
                        }
                    }

                    assert forall|j: int|
                        0 <= j < k + 1 && !removed@[#[trigger] self.layers@[l as int]@[j] as int] implies kept@.contains(
                            self.layers@[l as int]@[j],
                        ) by {
                        if j < k {
                            let x = self.layers@[l as int]@[j];
                            let i0 = choose|i0: int| 0 <= i0 < k0.len() && k0[i0] == x;
                            assert(kept@[i0] == x);
                        }
                    }
                }
                k = k + 1;
            }
            let ghost lb = self.layers@;
            self.layers.set(l, kept);
            proof {
                assert(lb[l as int] == old(self).layers@[l as int]);
                assert forall|j: int| l + 1 <= j < self.layers@.len() implies #[trigger] self.layers@[j] == old(self).layers@[j] by {
                    assert(self.layers@[j] == lb[j]);
                }
                let kk = k;
                assert forall|j: int, i: int|
                    0 <= j < l + 1 && 0 <= i < self.layers@[j]@.len() implies old(self).layers@[j]@.contains(
                        #[trigger] self.layers@[j]@[i],
                    ) by {
                    if j < l {
                        assert(self.layers@[j] == lb[j]);
                        assert(lb[j]@[i] == self.layers@[j]@[i]);
                    } else {
                        assert(self.layers@[j]@ == kept@);
                        let x = kept@[i];
                        assert(exists|m: int| 0 <= m < kk && #[trigger] kept@[i] == lb[l as int]@[m]);
                        let m = choose|m: int| 0 <= m < kk && #[trigger] kept@[i] == lb[l as int]@[m];
                        assert(old(self).layers@[j]@[m] == x);
                    }
                }
                assert forall|a: int, k: int|
                    0 <= a < self.layers@.len() && 0 <= k < self.layers@[a]@.len() implies (#[trigger] self.layers@[a]@[k]) < self.nodes@.len() by {
                    if a != l as int {
                        assert(self.layers@[a] == lb[a]);
                    }
                }
                assert forall|l1: int, k1: int, l2: int, k2: int|
                    0 <= l1 < self.layers@.len() && 0 <= k1 < self.layers@[l1]@.len() && 0 <= l2 < self.layers@.len()
                        && 0 <= k2 < self.layers@[l2]@.len() && #[trigger] self.layers@[l1]@[k1]
                        == #[trigger] self.layers@[l2]@[k2] implies l1 == l2 && k1 == k2 by {
                    if l1 == l as int && l2 == l as int {
                        assert(self.layers@[l1]@ == kept@);
                    } else if l1 == l as int {
                        assert(self.layers@[l2] == lb[l2]);
                        let m = choose|m: int| 0 <= m < lb[l1]@.len() && #[trigger] kept@[k1] == lb[l1]@[m];
                        assert(lb[l1]@[m] == lb[l2]@[k2]);
                    } else if l2 == l as int {
                        assert(self.layers@[l1] == lb[l1]);
                        let m = choose|m: int| 0 <= m < lb[l2]@.len() && #[trigger] kept@[k2] == lb[l2]@[m];
                        assert(lb[l2]@[m] == lb[l1]@[k1]);
                    } else {
                        assert(self.layers@[l1] == lb[l1]);
                        assert(self.layers@[l2] == lb[l2]);
                    }
                }
                assert forall|b: int| 0 <= b < self.blocks@.len() implies ((#[trigger] self.blocks@[b]).layout_node matches Some(
                    v,
                ) ==> placed(self.layers@, v)) by {
                    if let Some(v) = self.blocks@[b].layout_node {
                        assert(placed(lb, v));
                        let (a, k) = choose|a: int, k: int| 0 <= a < lb.len() && 0 <= k < lb[a]@.len() && #[trigger] lb[a]@[k] == v;
                        if a == l as int {
                            assert(!is_dummy(self.nodes@[v as int]));
                            assert(!removed@[v as int]);
                            assert(lb[a]@[k] == v);
                            assert(kept@.contains(v));
                            let i = choose|i: int| 0 <= i < kept@.len() && kept@[i] == v;
                            assert(self.layers@[a]@[i] == v);
                        } else {
                            assert(self.layers@[a] == lb[a]);
                            assert(self.layers@[a]@[k] == v);
                        }
                    }
                }
            }
            l = l + 1;
        }
        Ok(())
    }

    /// Flags the runs of dummies at the left and right ends of each layer.
    pub(crate) fn mark_dummies(&mut self)
        requires
            old(self).inv(),
            no_end_bits(old(self).nodes@),
        ensures
            next_ok(old(self).nodes@) ==> next_ok(final(self).nodes@),
            final(self).inv(),
            final(self).g() == old(self).g(),
            grows(old(self).nodes@, final(self).nodes@),
            final(self).nodes@.len() == old(self).nodes@.len(),
            final(self).blocks@ == old(self).blocks@,
            final(self).layers@ == old(self).layers@,
            forall|w: int|
                0 <= w < final(self).nodes@.len() ==> (#[trigger] final(self).nodes@[w]).dsts@ == old(
                    self,
                ).nodes@[w].dsts@ && final(self).nodes@[w].src@ == old(self).nodes@[w].src@,
            ends_marked(final(self).nodes@, final(self).layers@),
    {
        let ghost g = self.g();
        let ghost n0 = self.nodes@;
        proof {
            lemma_end_bits();
        }
        let mut l: usize = 0;
        while l < self.layers.len()
            invariant
                self.inv(),
                next_ok(old(self).nodes@) ==> next_ok(self.nodes@),
                g == self.g(),
                self.g() == old(self).g(),
                n0 == old(self).nodes@,
                no_end_bits(n0),
                grows(old(self).nodes@, self.nodes@),
                self.nodes@.len() == old(self).nodes@.len(),
                self.blocks@ == old(self).blocks@,
                self.layers@ == old(self).layers@,
                forall|w: int|
                    0 <= w < self.nodes@.len() ==> (#[trigger] self.nodes@[w]).dsts@ == old(self).nodes@[w].dsts@
                        && self.nodes@[w].src@ == old(self).nodes@[w].src@,
                l <= self.layers@.len(),
                forall|a: int, k: int|
                    0 <= a < l && 0 <= k < self.layers@[a]@.len() ==> #[trigger] end_flags_ok(
                        self.nodes@,
                        self.layers@[a]@,
                        k,
                    ),
                forall|a: int, k: int|
                    l <= a < self.layers@.len() && 0 <= k < self.layers@[a]@.len() ==> self.nodes@[#[trigger] self.layers@[a]@[k] as int].flags
                        == n0[self.layers@[a]@[k] as int].flags,
            decreases self.layers@.len() - l,
        {
            let count = self.layers[l].len();
            let ghost row = self.layers@[l as int]@;
            let ghost f0 = self.nodes@;
            let mut k: usize = 0;
            while k < count
                invariant
                    self.inv(),
                    next_ok(old(self).nodes@) ==> next_ok(self.nodes@),
                    g == self.g(),
                    self.g() == old(self).g(),
                    grows(old(self).nodes@, self.nodes@),
                    self.nodes@.len() == old(self).nodes@.len(),
                    self.blocks@ == old(self).blocks@,
                    self.layers@ == old(self).layers@,
                    forall|w: int|
                        0 <= w < self.nodes@.len() ==> (#[trigger] self.nodes@[w]).dsts@ == old(self).nodes@[w].dsts@
                            && self.nodes@[w].src@ == old(self).nodes@[w].src@,
                    l < self.layers@.len(),
                    count == self.layers@[l as int]@.len(),
                    row == self.layers@[l as int]@,
                    f0.len() == self.nodes@.len(),
                    k <= count,
                    forall|j: int| 0 <= j < k ==> is_dummy(self.nodes@[#[trigger] row[j] as int]),
                    forall|j: int|
                        0 <= j < count ==> self.nodes@[#[trigger] row[j] as int].flags == if j < k {
                            f0[row[j] as int].flags | LEFT_DUMMY
                        } else {
                            f0[row[j] as int].flags
                        },
                    forall|a: int, i: int|
                        0 <= a < self.layers@.len() && a != l && 0 <= i < self.layers@[a]@.len() ==> self.nodes@[#[trigger] self.layers@[a]@[i] as int].flags
                            == f0[self.layers@[a]@[i] as int].flags,
                ensures
                    k <= count,
                    k == count || !is_dummy(self.nodes@[row[k as int] as int]),
                    forall|j: int| 0 <= j < k ==> is_dummy(self.nodes@[#[trigger] row[j] as int]),
                    forall|j: int|
                        0 <= j < count ==> self.nodes@[#[trigger] row[j] as int].flags == if j < k {
                            f0[row[j] as int].flags | LEFT_DUMMY
                        } else {
                            f0[row[j] as int].flags
                        },
                    forall|a: int, i: int|
                        0 <= a < self.layers@.len() && a != l && 0 <= i < self.layers@[a]@.len() ==> self.nodes@[#[trigger] self.layers@[a]@[i] as int].flags
                            == f0[self.layers@[a]@[i] as int].flags,
                decreases count - k,
            {
                let id = self.layers[l][k];
                if !self.nodes[id].is_dummy() {
                    break;
                }
                let ghost before = self.nodes@;
                self.mark(id, LEFT_DUMMY);
                proof {
                    if next_ok(old(self).nodes@) {
                        lemma_next_bit();
                        assert forall|w: int| 0 <= w < self.nodes@.len() implies #[trigger] next_at(self.nodes@, w) by {
                            assert(next_at(before, w));
                            assert(self.nodes@[w].flags & NEXT_BACKEDGE == before[w].flags & NEXT_BACKEDGE);
                            if before[w].flags & NEXT_BACKEDGE != 0 {
                                let x = before[w].dsts@[0] as int;
                                assert(is_dummy(self.nodes@[x]) == is_dummy(before[x]));
                            }
                        }
                    }
                    assert forall|j: int| 0 <= j < count && j != k implies #[trigger] row[j] != id by {
                        assert(self.layers@[l as int]@[j] == row[j]);
                        assert(self.layers@[l as int]@[k as int] == id);
                    }
                    assert forall|a: int, i: int|
                        0 <= a < self.layers@.len() && a != l && 0 <= i < self.layers@[a]@.len() implies #[trigger] self.layers@[a]@[i]
                        != id by {
                        assert(self.layers@[l as int]@[k as int] == id);
                    }
                    assert forall|j: int| 0 <= j < k + 1 implies is_dummy(self.nodes@[#[trigger] row[j] as int]) by {
                        assert(is_dummy(self.nodes@[row[j] as int]) == is_dummy(before[row[j] as int]));
                    }
                }
                k = k + 1;
            }
            let ghost kl = k as int;
            let ghost f1 = self.nodes@;
            let mut k: usize = count;
            while k > 0
                invariant
                    self.inv(),
                    next_ok(old(self).nodes@) ==> next_ok(self.nodes@),
                    g == self.g(),
                    self.g() == old(self).g(),
                    grows(old(self).nodes@, self.nodes@),
                    self.nodes@.len() == old(self).nodes@.len(),
                    self.blocks@ == old(self).blocks@,
                    self.layers@ == old(self).layers@,
                    forall|w: int|
                        0 <= w < self.nodes@.len() ==> (#[trigger] self.nodes@[w]).dsts@ == old(self).nodes@[w].dsts@
                            && self.nodes@[w].src@ == old(self).nodes@[w].src@,
                    l < self.layers@.len(),
                    count == self.layers@[l as int]@.len(),
                    row == self.layers@[l as int]@,
                    f1.len() == self.nodes@.len(),
                    k <= count,
                    forall|j: int| k <= j < count ==> is_dummy(self.nodes@[#[trigger] row[j] as int]),
                    forall|j: int|
                        0 <= j < count ==> self.nodes@[#[trigger] row[j] as int].flags == if j >= k {
                            f1[row[j] as int].flags | RIGHT_DUMMY
                        } else {
                            f1[row[j] as int].flags
                        },
                    forall|a: int, i: int|
                        0 <= a < self.layers@.len() && a != l && 0 <= i < self.layers@[a]@.len() ==> self.nodes@[#[trigger] self.layers@[a]@[i] as int].flags
                            == f1[self.layers@[a]@[i] as int].flags,
                ensures
                    k <= count,
                    k == 0 || !is_dummy(self.nodes@[row[k - 1] as int]),
                    forall|j: int| k <= j < count ==> is_dummy(self.nodes@[#[trigger] row[j] as int]),
                    forall|j: int|
                        0 <= j < count ==> self.nodes@[#[trigger] row[j] as int].flags == if j >= k {
                            f1[row[j] as int].flags | RIGHT_DUMMY
                        } else {
                            f1[row[j] as int].flags
                        },
                    forall|a: int, i: int|
                        0 <= a < self.layers@.len() && a != l && 0 <= i < self.layers@[a]@.len() ==> self.nodes@[#[trigger] self.layers@[a]@[i] as int].flags
                            == f1[self.layers@[a]@[i] as int].flags,
                decreases k,
            {
                let id = self.layers[l][k - 1];
                if !self.nodes[id].is_dummy() {
                    break;
                }
                let ghost before = self.nodes@;
                self.mark(id, RIGHT_DUMMY);
                proof {
                    if next_ok(old(self).nodes@) {
                        lemma_next_bit();
                        assert forall|w: int| 0 <= w < self.nodes@.len() implies #[trigger] next_at(self.nodes@, w) by {
                            assert(next_at(before, w));
                            assert(self.nodes@[w].flags & NEXT_BACKEDGE == before[w].flags & NEXT_BACKEDGE);
                            if before[w].flags & NEXT_BACKEDGE != 0 {
                                let x = before[w].dsts@[0] as int;
                                assert(is_dummy(self.nodes@[x]) == is_dummy(before[x]));
                            }
                        }
                    }
                    assert forall|j: int| 0 <= j < count && j != k - 1 implies #[trigger] row[j] != id by {
                        assert(self.layers@[l as int]@[j] == row[j]);
                        assert(self.layers@[l as int]@[k - 1] == id);
                    }
                    assert forall|a: int, i: int|
                        0 <= a < self.layers@.len() && a != l && 0 <= i < self.layers@[a]@.len() implies #[trigger] self.layers@[a]@[i]
                        != id by {
                        assert(self.layers@[l as int]@[k - 1] == id);
                    }
                    assert forall|j: int| k - 1 <= j < count implies is_dummy(self.nodes@[#[trigger] row[j] as int]) by {
                        assert(is_dummy(self.nodes@[row[j] as int]) == is_dummy(before[row[j] as int]));
                    }
                }
                k = k - 1;
            }
            proof {
                let kr = k as int;
                let ns = self.nodes@;
                assert forall|j: int| 0 <= j < count implies #[trigger] end_flags_ok(ns, row, j) by {
                    let x = row[j] as int;
                    assert(self.layers@[l as int]@[j] == row[j]);
                    assert(f0[x].flags == n0[x].flags);
                    assert(n0[x].flags & (LEFT_DUMMY | RIGHT_DUMMY) == 0);
                    assert(f1[x].flags == if j < kl {
                        f0[x].flags | LEFT_DUMMY
                    } else {
                        f0[x].flags
                    });
                    if j < kl {
                        assert forall|i: int| 0 <= i <= j implies is_dummy(ns[#[trigger] row[i] as int]) by {
                            assert(is_dummy(ns[row[i] as int]) == is_dummy(f1[row[i] as int]));
                        }
                        assert(left_run(ns, row, j));
                    } else {
                        assert(is_dummy(ns[row[kl] as int]) == is_dummy(f1[row[kl] as int]));
                        assert(!is_dummy(ns[row[kl] as int]));
                        assert(!left_run(ns, row, j));
                    }
                    if j >= kr {
                        assert(right_run(ns, row, j));
                    } else {
                        assert(!is_dummy(ns[row[kr - 1] as int]));
                        assert(!right_run(ns, row, j));
                    }
                    let f = ns[x].flags;
                    assert(f == if j >= kr {
                        f1[x].flags | RIGHT_DUMMY
                    } else {
                        f1[x].flags
                    });
                    lemma_end_bits_set(f0[x].flags, j < kl, j >= kr);
                    assert(f & LEFT_DUMMY != 0 <==> j < kl);
                    assert(f & RIGHT_DUMMY != 0 <==> j >= kr);
                }
                assert forall|a: int, i: int|
                    0 <= a < l + 1 && 0 <= i < self.layers@[a]@.len() implies #[trigger] end_flags_ok(
                    self.nodes@,
                    self.layers@[a]@,
                    i,
                ) by {
                    if a < l {
                        assert(end_flags_ok(f0, self.layers@[a]@, i));
                        lemma_end_flags_stable(f0, ns, self.layers@[a]@, i);
                    } else {
                        assert(self.layers@[a]@ == row);
                    }
                }
            }
            l = l + 1;
        }
    }

    /// Builds the layered graph: groups blocks by layer, places each layer,
    /// then drops unreachable backedge dummies, flags the dummies at the
    /// ends of each layer and checks that every node in the layers is fully
    /// linked. It fails when an edge that neither leaves nor enters a
    /// backedge block does not go down a layer; from a layering without
    /// loops (`ready_to_place`) it always succeeds.
    #[verifier::rlimit(100)]
    pub(crate) fn make_nodes(&mut self) -> (r: Result<(), LayoutErr>)
        requires
            old(self).inv(),
            old(self).g().len() > 0,
            old(self).nodes@.len() == 0,
        ensures
            r matches Err(e) ==> !(e is NoRoot),
            final(self).inv(),
            final(self).g() == old(self).g(),
            same_levels(old(self).blocks@, final(self).blocks@),
            r is Ok ==> forall|b: int| 0 <= b < final(self).blocks@.len() ==> (#[trigger] final(self).blocks@[b]).layer >= 0,
            r is Ok ==> ends_marked(final(self).nodes@, final(self).layers@),
            r is Ok ==> levels_ordered(final(self).nodes@, final(self).layers@, final(self).blocks@),
            r is Ok ==> forall|a: int, p: int|
                #[trigger] plain_edge(final(self).g(), a, p) ==> final(self).blocks@[final(self).g()[a].succs@[p].0 as int].layer
                    > final(self).blocks@[a].layer,
            ready_to_place(old(self).g(), old(self).blocks@) ==> r is Ok,
            r is Ok ==> complete(final(self).blocks@, final(self).nodes@, final(self).layers@),
            r is Ok ==> plan_ok(
                final(self).g(),
                (Plan { blocks: final(self).blocks, nodes: final(self).nodes, layers: final(self).layers }),
            ),
            r is Ok ==> forall|b: int|
                0 <= b < final(self).blocks@.len() ==> ((#[trigger] final(self).blocks@[b]).layout_node matches Some(v) && v
                    < final(self).nodes@.len() && final(self).nodes@[v as int].block == b && !is_dummy(
                    final(self).nodes@[v as int],
                )),
    {
        let ghost g = self.g();
        let n = self.graph.len();
        let mut links: usize = 0;
        let mut b: usize = 0;
        let ghost easy = ready_to_place(g, self.blocks@);
        while b < n
            invariant
                self.inv(),
                g == self.g(),
                n == g.len(),
                b <= n,
                links == edge_count(g, b as int),
                self.blocks@ == old(self).blocks@,
                easy == ready_to_place(g, old(self).blocks@),
            decreases n - b,
        {
            proof {
                if easy {
                    lemma_edge_count_mono(g, b + 1, n as int);
                }
            }
            links = match links.checked_add(self.graph.node(Id(b)).succs.len()) {
                Some(x) => x,
                None => return Err(LayoutErr::Overflow),
            };
            b = b + 1;
        }
        let buckets = self.bucket_blocks()?;
        let mut layers: Vec<Vec<usize>> = Vec::new();
        let mut l: usize = 0;
        while l < buckets.len()
            invariant
                l <= buckets@.len(),
                layers@.len() == l,
                forall|j: int| 0 <= j < l ==> (#[trigger] layers@[j])@.len() == 0,
            decreases buckets@.len() - l,
        {
            layers.push(Vec::new());
            l = l + 1;
        }
        self.layers = layers;
        let mut active: Vec<Edge> = Vec::new();
        proof {
            assert(wiring(self.nodes@, active@));
        }
        let mut latest: Vec<(usize, usize)> = Vec::new();
        let mut layer: usize = 0;
        while layer < buckets.len()
            invariant
                self.inv(),
                g == self.g(),
                self.g() == old(self).g(),
                n == g.len(),
                self.layers@.len() == buckets@.len(),
                layer <= buckets@.len(),
                forall|l: int, k: int|
                    0 <= l < buckets@.len() && 0 <= k < buckets@[l]@.len() ==> (#[trigger] buckets@[l]@[k]) < n,
                edges_ok(g, self.nodes@, active@),
                pairs_ok(latest@, n as nat, self.nodes@.len()),
                dummies_ok(latest@, self.nodes@),
                same_levels(old(self).blocks@, self.blocks@),
                forall|b: int| 0 <= b < old(self).blocks@.len() ==> (#[trigger] old(self).blocks@[b]).layer >= 0,
                no_end_bits(self.nodes@),
                forall|l: int| 0 <= l < buckets@.len() ==> (#[trigger] buckets@[l])@.len() > 0,
                forall|b: int| 0 <= b < n ==> #[trigger] bucketed(buckets@, b),
                easy == ready_to_place(g, old(self).blocks@),
                loop_free(g) ==> wiring(self.nodes@, active@),
                forall|l: int| 0 <= l < buckets@.len() ==> no_repeats(#[trigger] buckets@[l]@),
                easy ==> forall|j: int|
                    0 <= j < active@.len() ==> !placed_before(buckets@, layer as int, (#[trigger] active@[j]).dst_block as int),
                forall|a: int, p: int|
                    #[trigger] plain_edge(g, a, p) && placed_before(buckets@, layer as int, a) ==> has_dst(
                        active@,
                        g[a].succs@[p].0,
                    ) || old(self).blocks@[g[a].succs@[p].0 as int].layer > old(self).blocks@[a].layer,
                forall|j: int, k: int|
                    0 <= j < layer && 0 <= k < buckets@[j]@.len() ==> (#[trigger] self.blocks@[buckets@[j]@[k] as int]).layout_node
                        is Some,
                forall|l1: int, k1: int, l2: int, k2: int|
                    0 <= l1 < buckets@.len() && 0 <= k1 < buckets@[l1]@.len() && 0 <= l2 < buckets@.len() && 0 <= k2
                        < buckets@[l2]@.len() ==> (l1 < l2 ==> old(self).blocks@[#[trigger] buckets@[l1]@[k1] as int].layer
                        < old(self).blocks@[#[trigger] buckets@[l2]@[k2] as int].layer) && (l1 == l2 ==> old(
                        self,
                    ).blocks@[buckets@[l1]@[k1] as int].layer == old(self).blocks@[buckets@[l2]@[k2] as int].layer),
                forall|j: int, k: int|
                    #![trigger self.layers@[j]@[k]]
                    0 <= j < self.layers@.len() && 0 <= k < self.layers@[j]@.len() && !is_dummy(
                        self.nodes@[self.layers@[j]@[k] as int],
                    ) ==> j < layer && old(self).blocks@[self.nodes@[self.layers@[j]@[k] as int].block as int].layer == old(
                        self,
                    ).blocks@[buckets@[j]@[0] as int].layer,
            decreases buckets@.len() - layer,
        {
            let blocks = &buckets[layer];
            let ghost n1 = self.nodes@;
            let ghost l1 = self.layers@;
            let ghost bl1 = self.blocks@;
            let ghost act0 = active@;
            assert(no_repeats(buckets@[layer as int]@));
            self.place_layer(layer, blocks, &mut active, &mut latest)?;
            proof {
                if easy {
                    assert forall|j: int| 0 <= j < active@.len() implies !placed_before(
                        buckets@,
                        layer + 1,
                        (#[trigger] active@[j]).dst_block as int,
                    ) by {
                        let d = active@[j].dst_block;
                        assert(carried(g, act0, blocks@, d));
                        if placed_before(buckets@, layer + 1, d as int) {
                            let (j2, k2) = choose|j2: int, k2: int|
                                0 <= j2 < layer + 1 && j2 < buckets@.len() && 0 <= k2 < buckets@[j2]@.len() && #[trigger] buckets@[j2]@[k2]
                                    == d;
                            if has_dst(act0, d) && !blocks@.contains(d) {
                                let q = choose|q: int| 0 <= q < act0.len() && (#[trigger] act0[q]).dst_block == d;
                                assert(!placed_before(buckets@, layer as int, act0[q].dst_block as int));
                                if j2 < layer {
                                    assert(placed_before(buckets@, layer as int, d as int));
                                } else {
                                    assert(blocks@[k2] == d);
                                }
                            } else {
                                let (k, p) = choose|k: int, p: int|
                                    0 <= k < blocks@.len() && #[trigger] plain_edge(g, blocks@[k] as int, p)
                                        && g[blocks@[k] as int].succs@[p].0 == d;
                                let a = blocks@[k] as int;
                                assert(old(self).blocks@[d as int].layer > old(self).blocks@[a].layer);
                                assert(buckets@[layer as int]@[k] == blocks@[k]);
                                assert(old(self).blocks@[buckets@[j2]@[k2] as int].layer <= old(self).blocks@[buckets@[layer as int]@[k] as int].layer);
                            }
                        }
                    }
                }
                assert forall|a: int, p: int|
                    #[trigger] plain_edge(g, a, p) && placed_before(buckets@, layer + 1, a) implies has_dst(
                        active@,
                        g[a].succs@[p].0,
                    ) || old(self).blocks@[g[a].succs@[p].0 as int].layer > old(self).blocks@[a].layer by {
                    let s = g[a].succs@[p].0;
                    let (j, k) = choose|j: int, k: int|
                        0 <= j < layer + 1 && j < buckets@.len() && 0 <= k < buckets@[j]@.len() && #[trigger] buckets@[j]@[k] == a as usize;
                    if j == layer as int {
                        assert(blocks@[k] == a as usize);
                        assert(plain_edge(g, blocks@[k] as int, p));
                    } else {
                        assert(placed_before(buckets@, layer as int, a));
                        if !(old(self).blocks@[s as int].layer > old(self).blocks@[a].layer) {
                            assert(has_dst(act0, s));
                            if blocks@.contains(s) {
                                let k2 = choose|k2: int| 0 <= k2 < blocks@.len() && blocks@[k2] == s;
                                assert(buckets@[layer as int]@[k2] == s);
                                assert(old(self).blocks@[buckets@[j]@[k] as int].layer < old(self).blocks@[buckets@[layer as int]@[k2] as int].layer);
                            }
                        }
                    }
                }
                assert forall|j: int, k: int|
                    0 <= j < layer + 1 && 0 <= k < buckets@[j]@.len() implies (#[trigger] self.blocks@[buckets@[j]@[k] as int]).layout_node
                        is Some by {
                    let x = buckets@[j]@[k] as int;
                    if j < layer {
                        assert(bl1[x].layout_node is Some);
                        assert(same_levels(bl1, self.blocks@) ==> (bl1[x].layout_node is Some ==> self.blocks@[x].layout_node is Some));
                    } else {
                        assert(blocks@[k] == buckets@[j]@[k]);
                    }
                }
                assert forall|j: int, k: int|
                    #![trigger self.layers@[j]@[k]]
                    0 <= j < self.layers@.len() && 0 <= k < self.layers@[j]@.len() && !is_dummy(
                        self.nodes@[self.layers@[j]@[k] as int],
                    ) implies j < layer + 1 && old(self).blocks@[self.nodes@[self.layers@[j]@[k] as int].block as int].layer
                    == old(self).blocks@[buckets@[j]@[0] as int].layer by {
                    let x = self.layers@[j]@[k];
                    if j < l1.len() && k < l1[j]@.len() && x == l1[j]@[k] {
                        assert(x < n1.len());
                        assert(self.nodes@[x as int].block == n1[x as int].block);
                        assert(is_dummy(self.nodes@[x as int]) == is_dummy(n1[x as int]));
                    } else {
                        assert(j == layer);
                        let c = self.nodes@[x as int].block;
                        assert(blocks@.contains(c));
                        let i = choose|i: int| 0 <= i < blocks@.len() && blocks@[i] == c;
                        assert(buckets@[j]@[i] == c);
                        assert(buckets@[j]@.len() > 0);
                        assert(old(self).blocks@[buckets@[j]@[i] as int].layer == old(self).blocks@[buckets@[j]@[0] as int].layer);
                    }
                }
            }
            layer = layer + 1;
        }
        proof {
            assert forall|a: int, p: int| #[trigger] plain_edge(g, a, p) && active@.len() == 0 implies old(
                self,
            ).blocks@[g[a].succs@[p].0 as int].layer > old(self).blocks@[a].layer by {
                assert(bucketed(buckets@, a));
                let j = choose|j: int| 0 <= j < buckets@.len() && (#[trigger] buckets@[j])@.contains(a as usize);
                let k = choose|k: int| 0 <= k < buckets@[j]@.len() && buckets@[j]@[k] == a as usize;
                assert(buckets@[j]@[k] == a as usize);
                assert(placed_before(buckets@, layer as int, a));
            }
            assert forall|b: int| 0 <= b < n implies (#[trigger] self.blocks@[b]).layout_node is Some by {
                assert(bucketed(buckets@, b));
                let j = choose|j: int| 0 <= j < buckets@.len() && (#[trigger] buckets@[j])@.contains(b as usize);
                let k = choose|k: int| 0 <= k < buckets@[j]@.len() && buckets@[j]@[k] == b as usize;
                assert(self.blocks@[buckets@[j]@[k] as int].layout_node is Some);
            }
        }
        proof {
            if easy && active@.len() > 0 {
                let d = active@[0].dst_block;
                assert(edge_ok(g, self.nodes@, active@[0]));
                assert(bucketed(buckets@, d as int));
                let j = choose|j: int| 0 <= j < buckets@.len() && (#[trigger] buckets@[j])@.contains(d);
                let k = choose|k: int| 0 <= k < buckets@[j]@.len() && buckets@[j]@[k] == d;
                assert(buckets@[j]@[k] == d);
                assert(placed_before(buckets@, layer as int, d as int));
            }
        }
        if active.len() > 0 {
            return Err(self.unterminated(active[0].dst_block));
        }
        let ghost before_prune = self.nodes@;
        let ghost before_layers = self.layers@;
        self.prune()?;
        proof {
            assert forall|v: int| 0 <= v < self.nodes@.len() implies (#[trigger] self.nodes@[v]).flags & (LEFT_DUMMY | RIGHT_DUMMY)
                == 0 by {
                assert(before_prune[v].flags & (LEFT_DUMMY | RIGHT_DUMMY) == 0);
            }
        }
        let ghost n2 = self.nodes@;
        let ghost l2 = self.layers@;
        let ghost wired = loop_free(g) && active@.len() == 0;
        proof {
            if wired {
                assert(n2 == before_prune);
                assert forall|v: int, p: int| 0 <= v < n2.len() && 0 <= p < n2[v].dsts@.len() implies #[trigger] n2[v].dsts@[p] != NO_DST by {
                    assert(covered(n2, active@, Seq::<Edge>::empty(), v, p));
                }
            }
        }
        self.mark_dummies();
        proof {
            if wired {
                let ns = self.nodes@;
                assert forall|l: int, k: int|
                    0 <= l < self.layers@.len() && 0 <= k < self.layers@[l]@.len() implies linked(ns, #[trigger] self.layers@[l]@[k] as int) by {
                    let v = self.layers@[l]@[k] as int;
                    assert(node_ok(g, ns, v));
                    assert forall|p: int| 0 <= p < ns[v].dsts@.len() implies (#[trigger] ns[v].dsts@[p]) != NO_DST && ns[v].dsts@[p] < ns.len() by {
                        assert(ns[v].dsts@ == n2[v].dsts@);
                        assert(n2[v].dsts@[p] != NO_DST);
                    }
                    assert forall|j: int| 0 <= j < ns[v].src@.len() implies exists|p: int|
                        0 <= p < ns[(#[trigger] ns[v].src@[j]) as int].dsts@.len() && ns[ns[v].src@[j] as int].dsts@[p] == v by {
                        assert(ns[v].src@ == n2[v].src@);
                        assert(recip(n2));
                        assert(points_to(n2, n2[v].src@[j] as int, v));
                        let u = n2[v].src@[j] as int;
                        assert(node_ok(g, n2, v));
                        assert(ns[u].dsts@ == n2[u].dsts@);
                        let p = choose|p: int| 0 <= p < n2[u].dsts@.len() && #[trigger] n2[u].dsts@[p] == v;
                        assert(ns[u].dsts@[p] == v);
                    }
                    assert(next_at(ns, v));
                }
            }
        }
        proof {
            assert forall|b: int| 0 <= b < self.blocks@.len() implies (#[trigger] self.blocks@[b]).layer >= 0 by {
                assert(old(self).blocks@[b].layer >= 0);
                assert(old(self).blocks@[b].layer == self.blocks@[b].layer);
            }
            let ns = self.nodes@;
            let ls = self.layers@;
            assert forall|j: int, k: int|
                #![trigger ls[j]@[k]]
                0 <= j < ls.len() && 0 <= k < ls[j]@.len() && !is_dummy(ns[ls[j]@[k] as int]) implies old(
                    self,
                ).blocks@[ns[ls[j]@[k] as int].block as int].layer == old(self).blocks@[buckets@[j]@[0] as int].layer by {
                let x = ls[j]@[k];
                assert(l2[j]@.contains(x));
                let m = choose|m: int| 0 <= m < before_layers[j]@.len() && before_layers[j]@[m] == x;
                assert(x < before_prune.len());
                assert(ns[x as int].block == before_prune[x as int].block);
                assert(is_dummy(ns[x as int]) == is_dummy(before_prune[x as int]));
                assert(before_layers[j]@[m] == x);
            }
            assert forall|a1: int, k1: int, a2: int, k2: int|
                #![trigger ls[a1]@[k1], ls[a2]@[k2]]
                0 <= a1 < ls.len() && 0 <= k1 < ls[a1]@.len() && 0 <= a2 < ls.len() && 0 <= k2 < ls[a2]@.len()
                    && !is_dummy(ns[ls[a1]@[k1] as int]) && !is_dummy(ns[ls[a2]@[k2] as int]) implies {
                let b1 = ns[ls[a1]@[k1] as int].block as int;
                let b2 = ns[ls[a2]@[k2] as int].block as int;
                &&& a1 < a2 ==> self.blocks@[b1].layer < self.blocks@[b2].layer
                &&& a1 == a2 ==> self.blocks@[b1].layer == self.blocks@[b2].layer
            } by {
                let b1 = ns[ls[a1]@[k1] as int].block as int;
                let b2 = ns[ls[a2]@[k2] as int].block as int;
                assert(node_ok(g, ns, ls[a1]@[k1] as int));
                assert(node_ok(g, ns, ls[a2]@[k2] as int));
                assert(b1 < self.blocks@.len() && b2 < self.blocks@.len());
                assert(old(self).blocks@[b1].layer == old(self).blocks@[buckets@[a1]@[0] as int].layer);
                assert(old(self).blocks@[b2].layer == old(self).blocks@[buckets@[a2]@[0] as int].layer);
                assert(buckets@[a1]@.len() > 0 && buckets@[a2]@.len() > 0);
                assert(old(self).blocks@[b1].layer == self.blocks@[b1].layer);
                assert(old(self).blocks@[b2].layer == self.blocks@[b2].layer);
                if a1 < a2 {
                    assert(old(self).blocks@[buckets@[a1]@[0] as int].layer < old(self).blocks@[buckets@[a2]@[0] as int].layer);
                }
            }
        }
        self.check_plan()
    }

    /// Checks that the layered graph is complete; placement and routing rely
    /// on every fact that `plan_ok` states.
    pub(crate) fn check_plan(&self) -> (r: Result<(), LayoutErr>)
        requires
            self.inv(),
        ensures
            r matches Err(e) ==> !(e is NoRoot),
            r is Ok <==> complete(self.blocks@, self.nodes@, self.layers@),
            r is Ok ==> plan_ok(
                self.g(),
                Plan { blocks: self.blocks, nodes: self.nodes, layers: self.layers },
            ),
    {
        let ghost g = self.g();
        let n = self.blocks.len();
        let len = self.nodes.len();
        let mut b: usize = 0;
        while b < n
            invariant
                self.inv(),
                g == self.g(),
                n == g.len(),
                len == self.nodes@.len(),
                b <= n,
                forall|c: int|
                    0 <= c < b ==> {
                        let s = #[trigger] self.blocks@[c];
                        &&& s.layout_node matches Some(v) && v < len && self.nodes@[v as int].block == c
                            && !is_dummy(self.nodes@[v as int])
                        &&& s.loop_id matches Some(h) && h < n
                    },
            decreases n - b,
        {
            match self.blocks[b].layout_node {
                None => return Err(LayoutErr::Unreachable(Id(b))),
                Some(v) => {
                    if self.nodes[v].block != b || self.nodes[v].is_dummy() {
                        return Err(LayoutErr::Unreachable(Id(b)));
                    }
                },
            }
            if self.blocks[b].loop_id.is_none() {
                return Err(LayoutErr::Unreachable(Id(b)));
            }
            b = b + 1;
        }
        let mut l: usize = 0;
        while l < self.layers.len()
            invariant
                self.inv(),
                g == self.g(),
                len == self.nodes@.len(),
                l <= self.layers@.len(),
                forall|a: int, k: int|
                    0 <= a < l && 0 <= k < self.layers@[a]@.len() ==> linked(
                        self.nodes@,
                        #[trigger] self.layers@[a]@[k] as int,
                    ),
            decreases self.layers@.len() - l,
        {
            let mut k: usize = 0;
            while k < self.layers[l].len()
                invariant
                    self.inv(),
                    g == self.g(),
                    len == self.nodes@.len(),
                    l < self.layers@.len(),
                    k <= self.layers@[l as int]@.len(),
                    forall|a: int, k: int|
                        0 <= a < l && 0 <= k < self.layers@[a]@.len() ==> linked(
                            self.nodes@,
                            #[trigger] self.layers@[a]@[k] as int,
                        ),
                    forall|j: int| 0 <= j < k ==> linked(self.nodes@, #[trigger] self.layers@[l as int]@[j] as int),
                decreases self.layers@[l as int]@.len() - k,
            {
                let v = self.layers[l][k];
                if !self.node_linked(v) {
                    return Err(LayoutErr::Unreachable(Id(self.nodes[v].block)));
                }
                k = k + 1;
            }
            l = l + 1;
        }
        Ok(())
    }

    /// Returns whether layout node `v` is fully linked.
    fn node_linked(&self, v: usize) -> (r: bool)
        requires
            self.inv(),
            v < self.nodes@.len(),
        ensures
            r == linked(self.nodes@, v as int),
    {
        let ghost g = self.g();
        let len = self.nodes.len();
        let x = &self.nodes[v];
        assert(node_ok(g, self.nodes@, v as int));
        let mut p: usize = 0;
        while p < x.dsts.len()
            invariant
                *x == self.nodes@[v as int],
                len == self.nodes@.len(),
                p <= x.dsts@.len(),
                forall|q: int| 0 <= q < p ==> (#[trigger] x.dsts@[q]) < len,
            decreases x.dsts@.len() - p,
        {
            if x.dsts[p] >= len {
                return false;
            }
            p = p + 1;
        }
        let srcs = x.src.as_slice();
        let mut j: usize = 0;
        while j < srcs.len()
            invariant
                self.inv(),
                g == self.g(),
                *x == self.nodes@[v as int],
                srcs@ == x.src@,
                len == self.nodes@.len(),
                v < len,
                forall|j: int| 0 <= j < srcs@.len() ==> (#[trigger] srcs@[j]) < len,
                j <= srcs@.len(),
                forall|i: int|
                    0 <= i < j ==> exists|p: int|
                        0 <= p < self.nodes@[(#[trigger] srcs@[i]) as int].dsts@.len() && self.nodes@[srcs@[i] as int].dsts@[p]
                            == v,
            decreases srcs@.len() - j,
        {
            let src = srcs[j];
            let dsts = &self.nodes[src].dsts;
            let mut found = false;
            let mut p: usize = 0;
            while p < dsts.len()
                invariant
                    p <= dsts@.len(),
                    !found ==> forall|q: int| 0 <= q < p ==> dsts@[q] != v,
                    found ==> exists|q: int| 0 <= q < dsts@.len() && dsts@[q] == v,
                decreases dsts@.len() - p,
            {
                if dsts[p] == v {
                    found = true;
                }
                p = p + 1;
            }
            if !found {
                return false;
            }
            j = j + 1;
        }
        if x.flags & NEXT_BACKEDGE != 0 {
            if !x.is_dummy() {
                return false;
            }
            if self.nodes[x.dsts[0]].is_dummy() {
                return false;
            }
        }
        true
    }

    /// Places an OSR entry in the first layer as its own loop; each of its
    /// successors must lie below it.
    pub(crate) fn place_osr(&mut self, id: usize) -> (r: Result<(), LayoutErr>)
        requires
            old(self).inv(),
            id < old(self).g().len(),
            is_root(old(self).g(), id as int),
        ensures
            r matches Err(e) ==> !(e is NoRoot),
            final(self).inv(),
            final(self).g() == old(self).g(),
            final(self).nodes@.len() == old(self).nodes@.len(),
            forall|b: int|
                0 <= b < final(self).blocks@.len() ==> (#[trigger] final(self).blocks@[b]).depth == old(
                    self,
                ).blocks@[b].depth,
            r is Ok && layered(old(self).g(), old(self).blocks@) ==> layered(final(self).g(), final(self).blocks@),
            r is Ok <==> forall|k: int|
                0 <= k < old(self).g()[id as int].succs@.len() ==> old(self).blocks@[(#[trigger] old(
                    self,
                ).g()[id as int].succs@[k]).0 as int].layer > 0,
            final(self).blocks@.len() == old(self).blocks@.len(),
            final(self).blocks@[id as int].layer == 0,
            final(self).blocks@[id as int].loop_id == Some(id),
            forall|b: int|
                0 <= b < final(self).blocks@.len() && b != id ==> (#[trigger] final(self).blocks@[b]).layer == old(
                    self,
                ).blocks@[b].layer,
    {
        let ghost g = self.g();
        proof {
            lemma_node_facts(g);
        }
        self.blocks[id].layer = 0;
        self.blocks[id].loop_id = Some(id);
        proof {
            assert forall|b: int| 0 <= b < self.blocks@.len() implies (#[trigger] self.blocks@[b]).depth == old(
                self,
            ).blocks@[b].depth by {}
        }
        let succs = &self.graph.node(Id(id)).succs;
        let mut k: usize = 0;
        while k < succs.len()
            invariant
                self.inv(),
                g == self.g(),
                id < g.len(),
                *succs == g[id as int].succs,
                k <= succs@.len(),
                self.g() == old(self).g(),
                self.nodes@.len() == old(self).nodes@.len(),
                forall|j: int| 0 <= j < k ==> self.blocks@[(#[trigger] succs@[j]).0 as int].layer > 0,
                forall|j: int| 0 <= j < k ==> old(self).blocks@[(#[trigger] succs@[j]).0 as int].layer > 0,
                forall|j: int| 0 <= j < g.len() ==> #[trigger] node_facts(g, j),
                is_root(g, id as int),
                self.blocks@[id as int].loop_id == Some(id),
                forall|b: int| 0 <= b < self.blocks@.len() ==> (#[trigger] self.blocks@[b]).depth == old(
                    self,
                ).blocks@[b].depth,
                self.blocks@.len() == old(self).blocks@.len(),
                self.blocks@[id as int].layer == 0,
                forall|b: int|
                    0 <= b < self.blocks@.len() && b != id ==> (#[trigger] self.blocks@[b]).layer == old(
                        self,
                    ).blocks@[b].layer,
            decreases succs@.len() - k,
        {
            proof {
                crate::validate::lemma_edges_in_range(g, id as int, k as int);
            }
            proof {
                assert(node_facts(g, id as int));
                assert(succs@[k as int] == g[id as int].succs@[k as int]);
                assert(seq_has(g[succs@[k as int].0 as int].preds@, Id(id)));
                assert(succs@[k as int].0 != id);
            }
            if self.blocks[succs[k].0].layer <= 0 {
                return Err(LayoutErr::MalformedOsr(Id(id)));
            }
            k = k + 1;
        }
        proof {
            let nb = self.blocks@;
            let ob = old(self).blocks@;
            assert forall|b: int| 0 <= b < nb.len() implies (#[trigger] nb[b]).depth == ob[b].depth && (b != id ==> nb[b].layer
                == ob[b].layer) by {}
            if layered(g, ob) {
                assert forall|b: int, p: int|
                    0 <= b < g.len() && 0 <= p < g[b].succs@.len() && nb[b].layer >= 0 && #[trigger] forward(g, nb, b, p) implies nb[g[b].succs@[p].0 as int].layer
                    > nb[b].layer by {
                    crate::validate::lemma_edges_in_range(g, b, p);
                    let x = g[b].succs@[p].0 as int;
                    assert(node_facts(g, b));
                    if x == id as int {
                        assert(seq_has(g[x].preds@, Id(b as usize)));
                        assert(g[x].preds@.len() > 0);
                    }
                    if b == id as int {
                        assert(self.blocks@[(succs@[p]).0 as int].layer > 0);
                    } else {
                        assert(nb[b] == ob[b] || nb[b].layer == ob[b].layer);
                        assert(forward(g, ob, b, p));
                    }
                }
            }
        }
        Ok(())
    }

    /// Assigns layers by depth-first search from the roots: a successor goes
    /// one layer below its predecessor, a loop exit below the whole loop, and
    /// a backedge block shares its header's layer. Loop heights are the
    /// number of layers their members span.
    ///
    /// The search gives up with `Overflow` after `u64::MAX` steps; on inputs
    /// without loops whose work fits in `u64` (`simple_layering`) it always
    /// finishes first.
    #[verifier::rlimit(60)]
    pub(crate) fn set_layers(&mut self, roots: &Vec<usize>) -> (r: Result<(), LayoutErr>)
        requires
            old(self).inv(),
            forall|k: int| 0 <= k < roots@.len() ==> (#[trigger] roots@[k]) < old(self).g().len(),
            forall|b: int| 0 <= b < old(self).blocks@.len() ==> (#[trigger] old(self).blocks@[b]).layer < 0,
            forall|b: int| 0 <= b < old(self).blocks@.len() ==> (#[trigger] old(self).blocks@[b]).outgoing@.len() == 0,
        ensures
            r matches Err(e) ==> !(e is NoRoot),
            final(self).inv(),
            final(self).g() == old(self).g(),
            final(self).nodes@.len() == old(self).nodes@.len(),
            forall|b: int|
                0 <= b < final(self).blocks@.len() ==> (#[trigger] final(self).blocks@[b]).layout_node == old(self).blocks@[b].layout_node
                    && final(self).blocks@[b].loop_id == old(self).blocks@[b].loop_id && final(self).blocks@[b].depth
                    == old(self).blocks@[b].depth,
            r is Ok ==> layered(final(self).g(), final(self).blocks@),
            r is Ok ==> forall|b: int|
                0 <= b < final(self).blocks@.len() && is_root(final(self).g(), b) && !backedge_flag(final(self).g()[b])
                    && (#[trigger] final(self).blocks@[b]).layer >= 0 ==> final(self).blocks@[b].layer == 0,
            r is Ok ==> forall|k: int|
                0 <= k < roots@.len() && !backedge_flag(final(self).g()[roots@[k] as int])
                    ==> (#[trigger] final(self).blocks@[roots@[k] as int]).layer >= 0,
            simple_layering(old(self).g(), old(self).blocks@, roots@) ==> r is Ok && forall|b: int|
                0 <= b < final(self).blocks@.len() ==> (#[trigger] final(self).blocks@[b]).layer < final(self).g().len(),
            r is Ok && loops_nested(old(self).g(), old(self).blocks@, roots@) ==> heights_cover(
                final(self).g(),
                old(self).blocks@,
                final(self).blocks@,
            ) && exits_all_listed(final(self).g(), old(self).blocks@, final(self).blocks@) && forall|h: int|
                0 <= h < final(self).g().len() && header_flag(final(self).g()[h]) && #[trigger] final(self).blocks@[h].layer >= 0
                    ==> exits_below(final(self).g(), final(self).blocks@, h),
    {
        let ghost g = self.g();
        let ghost d0 = self.blocks@;
        proof {
            lemma_node_facts(g);
        }
        let ghost easy = simple_layering(g, d0, roots@);
        let ghost ord = choose|ord: Seq<int>| ranked_within(g, ord);
        let ghost nest = loops_nested(g, d0, roots@);
        let ghost ord2 = choose|o: Seq<int>| nested(g, d0, o);
        let n = self.graph.len();
        let mut fuel: u64 = 0xffff_ffff_ffff_ffffu64;
        proof {
            if nest {
                assert(nested(g, d0, ord2));
                lemma_exits_start(g, d0, ord2, self.blocks@);
            }
        }
        proof {
            assert(ranked_within(g, ord));
            if easy {
                lemma_lift_start(g, d0, ord, n as int);
                assert(budget_ok(g, self.blocks@, ord, Seq::empty(), fuel as int, roots@.len() as int));
            }
        }
        let mut stack: Vec<Frame> = Vec::new();
        let mut r: usize = 0;
        while r < roots.len()
            invariant
                g == self.g(),
                self.g() == old(self).g(),
                d0 == old(self).blocks@,
                n == g.len(),
                self.inv(),
                forall|j: int| 0 <= j < g.len() ==> #[trigger] node_facts(g, j),
                self.nodes@.len() == old(self).nodes@.len(),
                forall|b: int|
                    0 <= b < n ==> (#[trigger] self.blocks@[b]).layout_node == old(self).blocks@[b].layout_node
                        && self.blocks@[b].loop_id == old(self).blocks@[b].loop_id && self.blocks@[b].depth
                        == d0[b].depth,
                forall|k: int| 0 <= k < roots@.len() ==> (#[trigger] roots@[k]) < n,
                r <= roots@.len(),
                stack@.len() == 0,
                easy == simple_layering(g, d0, roots@),
                self.blocks@.len() == n,
                d0.len() == n,
                nest == loops_nested(g, d0, roots@),
                nest ==> nested(g, d0, ord2),
                nest ==> exits_ok(g, d0, ord2, self.blocks@, stack@),
                ranked_within(g, ord),
                easy ==> n < isize::MAX,
                forall|b: int| 0 <= b < n ==> (#[trigger] self.blocks@[b]).parent == d0[b].parent && self.blocks@[b].pseudo == d0[b].pseudo,
                easy ==> budget_ok(g, self.blocks@, ord, stack@, fuel as int, roots@.len() - r),
                forall|k: int|
                    0 <= k < r && !backedge_flag(g[roots@[k] as int]) ==> (#[trigger] self.blocks@[roots@[k] as int]).layer >= 0,
                forall|b: int, k: int|
                    0 <= b < n && 0 <= k < self.blocks@[b].outgoing@.len() ==> !is_root(
                        g,
                        #[trigger] self.blocks@[b].outgoing@[k] as int,
                    ),
                forall|b: int|
                    0 <= b < n && is_root(g, b) && !backedge_flag(g[b]) && (#[trigger] self.blocks@[b]).layer >= 0
                        ==> self.blocks@[b].layer == 0,
                forall|b: int, p: int|
                    0 <= b < n && 0 <= p < g[b].succs@.len() && self.blocks@[b].layer >= 0 && #[trigger] forward(
                        g,
                        d0,
                        b,
                        p,
                    ) ==> self.blocks@[g[b].succs@[p].0 as int].layer > self.blocks@[b].layer,
            decreases roots@.len() - r,
        {
            proof {
                if nest {
                    assert(stack@ =~= Seq::<Frame>::empty());
                    assert(exits_ok(g, d0, ord2, self.blocks@, Seq::<Frame>::empty()));
                }
            }
            stack.push(Frame { id: roots[r], layer: 0, phase: Phase::Enter });
            proof {
                if nest {
                    assert(stack@ =~= seq![Frame { id: roots@[r as int], layer: 0, phase: Phase::Enter }]);
                    assert(outside(d0, roots@[r as int] as int));
                    lemma_exits_root(g, d0, ord2, self.blocks@, Frame { id: roots@[r as int], layer: 0, phase: Phase::Enter });
                }
                if easy {
                    assert(stack@.drop_last() =~= Seq::<Frame>::empty());
                    assert(stack@[0] == Frame { id: roots@[r as int], layer: 0, phase: Phase::Enter });
                    assert(0 <= ord[roots@[r as int] as int] < n);
                    assert(stack@.last() == stack@[0]);
                    assert(stack_cost(g, stack@) == stack_cost(g, stack@.drop_last()) + frame_cost(g, stack@.last()));
                    assert(stack_cost(g, Seq::<Frame>::empty()) == 0);
                    assert(stack_cost(g, stack@) == 1);
                    assert(budget_ok(g, self.blocks@, ord, stack@, fuel as int, roots@.len() - r - 1));
                }
            }
            while stack.len() > 0
                invariant
                    g == self.g(),
                    self.g() == old(self).g(),
                    d0 == old(self).blocks@,
                    n == g.len(),
                    self.inv(),
                    forall|j: int| 0 <= j < g.len() ==> #[trigger] node_facts(g, j),
                    self.nodes@.len() == old(self).nodes@.len(),
                    forall|b: int|
                        0 <= b < n ==> (#[trigger] self.blocks@[b]).layout_node == old(self).blocks@[b].layout_node
                            && self.blocks@[b].loop_id == old(self).blocks@[b].loop_id && self.blocks@[b].depth
                            == d0[b].depth,
                    forall|k: int| 0 <= k < roots@.len() ==> (#[trigger] roots@[k]) < n,
                    r < roots@.len(),
                    forall|f: int| 0 <= f < stack@.len() ==> (#[trigger] stack@[f]).id < n,
                    self.blocks@.len() == n,
                    d0.len() == n,
                    nest == loops_nested(g, d0, roots@),
                    nest ==> nested(g, d0, ord2),
                    nest ==> exits_ok(g, d0, ord2, self.blocks@, stack@),
                    easy == simple_layering(g, d0, roots@),
                    ranked_within(g, ord),
                    easy ==> n < isize::MAX,
                    forall|b: int| 0 <= b < n ==> (#[trigger] self.blocks@[b]).parent == d0[b].parent && self.blocks@[b].pseudo == d0[b].pseudo,
                    easy ==> budget_ok(g, self.blocks@, ord, stack@, fuel as int, roots@.len() - r - 1),
                    forall|k: int|
                        0 <= k < r && !backedge_flag(g[roots@[k] as int]) ==> (#[trigger] self.blocks@[roots@[k] as int]).layer >= 0,
                    !backedge_flag(g[roots@[r as int] as int]) ==> (self.blocks@[roots@[r as int] as int].layer >= 0 || (
                    stack@.len() > 0 && stack@[0] == Frame { id: roots@[r as int], layer: 0, phase: Phase::Enter })),
                    forall|f: int|
                        0 <= f < stack@.len() && (#[trigger] stack@[f]).phase is Enter && is_root(g, stack@[f].id as int)
                            ==> stack@[f].layer == 0,
                    forall|b: int, k: int|
                        0 <= b < n && 0 <= k < self.blocks@[b].outgoing@.len() ==> !is_root(
                            g,
                            #[trigger] self.blocks@[b].outgoing@[k] as int,
                        ),
                    forall|b: int|
                        0 <= b < n && is_root(g, b) && !backedge_flag(g[b]) && (#[trigger] self.blocks@[b]).layer >= 0
                            ==> self.blocks@[b].layer == 0,
                    forall|b: int, p: int|
                        0 <= b < n && 0 <= p < g[b].succs@.len() && self.blocks@[b].layer >= 0 && #[trigger] forward(
                            g,
                            d0,
                            b,
                            p,
                        ) ==> supported(g, self.blocks@, stack@, b, p),
                decreases fuel,
            {
                proof {
                    if easy {
                        lemma_frames_pop(g, ord, stack@);
                        lemma_stack_cost_nonneg(g, stack@.drop_last());
                        lemma_lift_nonneg(g, self.blocks@, ord, n as int);
                        assert(stack_cost(g, stack@) >= 1);
                    }
                }
                if fuel == 0 {
                    return Err(LayoutErr::Overflow);
                }
                fuel = fuel - 1;
                let ghost before = stack@;
                let ghost b0 = self.blocks@;
                let frame = stack.pop().unwrap();
                assert(before[before.len() - 1] == frame);
                let id = frame.id;
                proof {
                    if easy {
                        assert(budget_ok(g, b0, ord, before, (fuel + 1) as int, roots@.len() - r - 1));
                        lemma_frames_pop(g, ord, before);
                        assert(stack@ == before.drop_last());
                        assert(frame_fine(g, ord, frame));
                        assert(0 <= ord[id as int] < n);
                        assert(loop_free(g));
                        assert(!backedge_flag(g[id as int]) && !header_flag(g[id as int]));
                    }
                }
                match frame.phase {
                    Phase::Enter => {
                        if self.graph.node(Id(id)).flags.contains(Flags::backedge()) {
                            assert(node_facts(g, id as int));
                            proof {
                                crate::validate::lemma_edges_in_range(g, id as int, 0);
                            }
                            let header = self.graph.node(Id(id)).succs[0].0;
                            let layer = self.blocks[header].layer;
                            self.blocks[id].layer = layer;
                            proof {
                                if nest {
                                    assert(before.last() == frame);
                                    lemma_exits_enter_done(g, d0, ord2, b0, before, self.blocks@);
                                    assert(stack@ == before.drop_last());
                                }
                                assert forall|b: int, p: int|
                                    0 <= b < n && 0 <= p < g[b].succs@.len() && self.blocks@[b].layer >= 0
                                        && #[trigger] forward(g, d0, b, p) implies supported(
                                    g,
                                    self.blocks@,
                                    stack@,
                                    b,
                                    p,
                                ) by {
                                    crate::validate::lemma_edges_in_range(g, b, p);
                                    assert(b != id as int);
                                    lemma_support_kept(g, b0, self.blocks@, before, stack@, b, p);
                                }
                            }
                            continue;
                        }
                        if frame.layer <= self.blocks[id].layer {
                            proof {
                                if nest {
                                    assert(before.last() == frame);
                                    lemma_exits_enter_done(g, d0, ord2, b0, before, self.blocks@);
                                    assert(stack@ == before.drop_last());
                                }
                                if easy {
                                    assert(budget_ok(g, self.blocks@, ord, stack@, fuel as int, roots@.len() - r - 1));
                                }
                                assert forall|b: int, p: int|
                                    0 <= b < n && 0 <= p < g[b].succs@.len() && self.blocks@[b].layer >= 0
                                        && #[trigger] forward(g, d0, b, p) implies supported(
                                    g,
                                    self.blocks@,
                                    stack@,
                                    b,
                                    p,
                                ) by {
                                    crate::validate::lemma_edges_in_range(g, b, p);
                                    lemma_support_kept(g, b0, self.blocks@, before, stack@, b, p);
                                }
                            }
                            continue;
                        }
                        self.blocks[id].layer = frame.layer;
                        let ghost b1 = self.blocks@;
                        proof {
                            if easy {
                                assert(budget_ok(g, b0, ord, before, (fuel + 1) as int, roots@.len() - r - 1));
                                assert(0 <= frame.layer <= cap(g, ord, id as int));
                                assert forall|b: int| 0 <= b < n && b != id && is_root(g, b) implies -1 <= (#[trigger] b1[b]).layer
                                    <= 0 by {
                                    assert(b1[b].layer == b0[b].layer);
                                    assert(loop_free(g));
                                    assert(!backedge_flag(g[b]));
                                }
                            }
                        }
                        let mut loop_id = self.blocks[id].loop_id;
                        let mut seen: usize = 0;
                        while loop_id.is_some()
                            invariant
                                g == self.g(),
                                self.g() == old(self).g(),
                                n == g.len(),
                                self.inv(),
                                self.nodes@.len() == old(self).nodes@.len(),
                                forall|b: int|
                                    0 <= b < n ==> (#[trigger] self.blocks@[b]).layout_node == old(self).blocks@[b].layout_node
                                        && self.blocks@[b].loop_id == old(self).blocks@[b].loop_id
                                        && self.blocks@[b].layer == b1[b].layer && self.blocks@[b].depth == b1[b].depth
                                        && self.blocks@[b].depth == old(self).blocks@[b].depth
                                        && self.blocks@[b].outgoing == b1[b].outgoing
                                        && self.blocks@[b].parent == b1[b].parent && self.blocks@[b].pseudo == b1[b].pseudo,
                                self.blocks@.len() == n,
                                loop_id matches Some(h) ==> h < n,
                                seen <= n + 1,
                                easy == simple_layering(g, d0, roots@),
                                d0 == old(self).blocks@,
                                id < n,
                                b1.len() == n,
                                forall|b: int| 0 <= b < n ==> (#[trigger] b1[b]).parent == d0[b].parent && b1[b].pseudo == d0[b].pseudo,
                                b1[id as int].layer == frame.layer,
                                easy ==> loop_id is None || (seen == 0 && loop_id == d0[id as int].loop_id),
                                easy ==> 0 <= frame.layer < n && n < isize::MAX,
                                easy ==> forall|b: int| 0 <= b < n && b != id && is_root(g, b) ==> -1 <= (#[trigger] b1[b]).layer <= 0,
                                d0.len() == n,
                                forall|b: int|
                                    0 <= b < n ==> (#[trigger] self.blocks@[b]).loop_height >= b1[b].loop_height && (
                                    self.blocks@[b].loop_height != b1[b].loop_height ==> (d0[id as int].loop_id matches Some(l)
                                        && chain_has(d0, l as int, b, d0.len()))),
                                seen <= n ==> (loop_id matches Some(cur) ==> forall|h: int|
                                    #[trigger] chain_has(d0, cur as int, h, (n - seen) as nat) ==> (d0[id as int].loop_id matches Some(
                                        l,
                                    ) && chain_has(d0, l as int, h, d0.len()))),
                                seen == 0 ==> loop_id == d0[id as int].loop_id,
                                seen > 0 ==> (d0[id as int].loop_id matches Some(h0) && h0 < n && self.blocks@[h0 as int].loop_height
                                    >= frame.layer - b1[h0 as int].layer + 1),
                            decreases n + 1 - seen,
                        {
                            let header = loop_id.unwrap();
                            proof {
                                if easy {
                                    assert(seen == 0 && loop_id == d0[id as int].loop_id);
                                    let h = header as int;
                                    assert(d0[id as int].loop_id == Some(header));
                                    assert(h < n && is_root(g, h) && d0[h].pseudo && d0[h].parent is None);
                                    assert(self.blocks@[h].layer == b1[h].layer);
                                    assert(self.blocks@[h].pseudo && self.blocks@[h].parent is None);
                                    if h != id as int {
                                        assert(-1 <= b1[h].layer <= 0);
                                    }
                                    assert(-1 <= self.blocks@[h].layer <= frame.layer);
                                }
                            }
                            if !self.is_loop(header) || seen > n {
                                return Err(LayoutErr::MalformedHeader(Id(header)));
                            }
                            let diff = match frame.layer.checked_sub(self.blocks[header].layer) {
                                Some(d) => d,
                                None => return Err(LayoutErr::Overflow),
                            };
                            let height = match diff.checked_add(1) {
                                Some(h) => h,
                                None => return Err(LayoutErr::Overflow),
                            };
                            if height < 0 {
                                return Err(LayoutErr::MalformedHeader(Id(header)));
                            }
                            let height = height as usize;
                            let ghost lb = self.blocks@;
                            proof {
                                assert(chain_has(d0, header as int, header as int, (n - seen) as nat));
                            }
                            if self.blocks[header].loop_height < height {
                                self.blocks[header].loop_height = height;
                            }
                            loop_id = self.blocks[header].parent;
                            proof {
                                assert(forall|b: int| 0 <= b < n && b != header ==> #[trigger] self.blocks@[b] == lb[b]);
                                assert(loop_id == d0[header as int].parent);
                                if seen + 1 <= n {
                                    if let Some(p) = loop_id {
                                        assert forall|h: int|
                                            #[trigger] chain_has(d0, p as int, h, (n - (seen + 1)) as nat) implies (
                                        d0[id as int].loop_id matches Some(l) && chain_has(d0, l as int, h, d0.len())) by {
                                            assert(chain_has(d0, header as int, h, (n - seen) as nat));
                                        }
                                    }
                                }
                            }
                            seen = match seen.checked_add(1) {
                                Some(x) => x,
                                None => return Err(LayoutErr::Overflow),
                            };
                        }
                        stack.push(Frame { id, layer: frame.layer, phase: Phase::Succ(0) });
                        proof {
                            if nest {
                                assert(before.last() == frame);
                                assert(d0[id as int].loop_id is Some ==> seen > 0);
                                assert(stack@ == before.drop_last().push(Frame { id, layer: frame.layer, phase: Phase::Succ(0) }));
                                lemma_exits_enter_raise(g, d0, ord2, b0, before, b1, self.blocks@);
                            }
                            if easy {
                                let w = 2 * g[id as int].succs@.len() + 2;
                                let dl = frame.layer - b0[id as int].layer;
                                assert(dl >= 1);
                                assert(w * dl >= w) by (nonlinear_arith)
                                    requires
                                        w >= 0,
                                        dl >= 1,
                                ;
                                assert forall|b: int| 0 <= b < b0.len() && b != id implies (#[trigger] self.blocks@[b]).layer == b0[b].layer by {
                                    assert(b1[b].layer == b0[b].layer);
                                }
                                lemma_lift_update(g, b0, self.blocks@, ord, n as int, id as int);
                                let fr = Frame { id, layer: frame.layer, phase: Phase::Succ(0) };
                                assert(frame_fine(g, ord, fr));
                                lemma_frames_push(g, ord, before.drop_last(), fr);
                                assert(stack@ == before.drop_last().push(fr));
                                assert forall|b: int| 0 <= b < g.len() implies -1 <= (#[trigger] self.blocks@[b]).layer <= cap(g, ord, b) by {
                                    if b != id as int {
                                        assert(self.blocks@[b].layer == b0[b].layer);
                                    }
                                }
                                assert(budget_ok(g, self.blocks@, ord, stack@, fuel as int, roots@.len() - r - 1));
                            }
                            let top = (stack@.len() - 1) as int;
                            assert(stack@[top] == Frame { id, layer: frame.layer, phase: Phase::Succ(0) });
                            assert forall|b: int, p: int|
                                0 <= b < n && 0 <= p < g[b].succs@.len() && self.blocks@[b].layer >= 0
                                    && #[trigger] forward(g, d0, b, p) implies supported(
                                g,
                                self.blocks@,
                                stack@,
                                b,
                                p,
                            ) by {
                                crate::validate::lemma_edges_in_range(g, b, p);
                                let s = g[b].succs@[p].0 as int;
                                if b == id as int {
                                    assert(covers(stack@[top], self.blocks@, b, p, s));
                                } else {
                                    assert(self.blocks@[b].layer == b0[b].layer);
                                    lemma_support_kept(g, b0, self.blocks@, before, stack@, b, p);
                                }
                            }
                        }
                    },
                    Phase::Succ(next) => {
                        let node = self.graph.node(Id(id));
                        if next < node.succs.len() {
                            proof {
                                crate::validate::lemma_edges_in_range(g, id as int, next as int);
                            }
                            let succ = node.succs[next].0;
                            proof {
                                assert(node_facts(g, id as int));
                                assert(node.succs@[next as int] == Id(succ));
                                assert(seq_has(g[succ as int].preds@, Id(id)));
                                assert(!is_root(g, succ as int));
                            }
                            stack.push(Frame { id, layer: frame.layer, phase: Phase::Succ(next + 1) });
                            let ghost mid = (stack@.len() - 1) as int;
                            assert(stack@[mid] == Frame { id, layer: frame.layer, phase: Phase::Succ((next + 1) as usize) });
                            proof {
                                if easy {
                                    assert(self.blocks@[succ as int].depth == d0[succ as int].depth);
                                    assert(self.blocks@[id as int].depth == d0[id as int].depth);
                                    assert(d0[succ as int].depth == 0 && d0[id as int].depth == 0);
                                }
                            }
                            if self.blocks[succ].depth < self.blocks[id].depth {
                                let header = match self.blocks[id].loop_id {
                                    Some(h) => h,
                                    None => return Err(LayoutErr::Unreachable(Id(id))),
                                };
                                if !self.is_loop(header) {
                                    return Err(LayoutErr::MalformedHeader(Id(header)));
                                }
                                let ghost ob = self.blocks@;
                                self.blocks[header].outgoing.push(succ);
                                proof {
                                    if nest {
                                        assert(before.last() == frame);
                                        assert(succ_of(g, id as int, next as int) == succ as int);
                                        assert(ob == b0);
                                        assert(stack@ == before.drop_last().push(
                                            Frame { id, layer: frame.layer, phase: Phase::Succ((next + 1) as usize) },
                                        ));
                                        lemma_exits_succ_exit(g, d0, ord2, b0, before, self.blocks@, next, header);
                                    }
                                    assert forall|b: int, k: int|
                                        0 <= b < n && 0 <= k < self.blocks@[b].outgoing@.len() implies !is_root(
                                        g,
                                        #[trigger] self.blocks@[b].outgoing@[k] as int,
                                    ) by {
                                        if b != header as int || k < ob[b].outgoing@.len() {
                                            assert(self.blocks@[b].outgoing@[k] == ob[b].outgoing@[k]);
                                        }
                                    }
                                    let s2 = self.blocks@[header as int];
                                    assert(forall|k: int| 0 <= k < s2.outgoing@.len() ==> (#[trigger] s2.outgoing@[k]) < n);
                                    assert forall|b: int, p: int|
                                        0 <= b < n && 0 <= p < g[b].succs@.len() && self.blocks@[b].layer >= 0
                                            && #[trigger] forward(g, d0, b, p) implies supported(
                                        g,
                                        self.blocks@,
                                        stack@,
                                        b,
                                        p,
                                    ) by {
                                        crate::validate::lemma_edges_in_range(g, b, p);
                                        let s = g[b].succs@[p].0 as int;
                                        assert(self.blocks@[b].layer == b0[b].layer);
                                        lemma_support_kept(g, b0, self.blocks@, before, stack@, b, p);
                                        if covers(frame, b0, b, p, s) && p > next {
                                            assert(covers(stack@[mid], self.blocks@, b, p, s));
                                        }
                                    }
                                }
                            } else {
                                let layer = match frame.layer.checked_add(1) {
                                    Some(l) => l,
                                    None => return Err(LayoutErr::Overflow),
                                };
                                stack.push(Frame { id: succ, layer, phase: Phase::Enter });
                                proof {
                                    if nest {
                                        assert(before.last() == frame);
                                        assert(succ_of(g, id as int, next as int) == succ as int);
                                        assert(self.blocks@ == b0);
                                        assert(!(d0[succ as int].depth < d0[id as int].depth));
                                        assert(stack@ == before.drop_last().push(
                                            Frame { id, layer: frame.layer, phase: Phase::Succ((next + 1) as usize) },
                                        ).push(Frame { id: succ, layer, phase: Phase::Enter }));
                                        lemma_exits_succ_next(g, d0, ord2, b0, before, next, layer);
                                    }
                                    if easy {
                                        let fr1 = Frame { id, layer: frame.layer, phase: Phase::Succ((next + 1) as usize) };
                                        let fr2 = Frame { id: succ, layer, phase: Phase::Enter };
                                        assert(frame_fine(g, ord, fr1));
                                        assert(succ_of(g, id as int, next as int) == succ as int);
                                        assert(ord[succ as int] < ord[id as int]);
                                        assert(frame_fine(g, ord, fr2));
                                        lemma_frames_push(g, ord, before.drop_last(), fr1);
                                        lemma_frames_push(g, ord, before.drop_last().push(fr1), fr2);
                                        assert(stack@ == before.drop_last().push(fr1).push(fr2));
                                        assert(budget_ok(g, self.blocks@, ord, stack@, fuel as int, roots@.len() - r - 1));
                                    }
                                    let top = (stack@.len() - 1) as int;
                                    assert(stack@[top] == Frame { id: succ, layer, phase: Phase::Enter });
                                    assert(stack@[mid] == Frame { id, layer: frame.layer, phase: Phase::Succ((next + 1) as usize) });
                                    assert forall|b: int, p: int|
                                        0 <= b < n && 0 <= p < g[b].succs@.len() && self.blocks@[b].layer >= 0
                                            && #[trigger] forward(g, d0, b, p) implies supported(
                                        g,
                                        self.blocks@,
                                        stack@,
                                        b,
                                        p,
                                    ) by {
                                        crate::validate::lemma_edges_in_range(g, b, p);
                                        let s = g[b].succs@[p].0 as int;
                                        lemma_support_kept(g, b0, self.blocks@, before, stack@, b, p);
                                        if covers(frame, b0, b, p, s) {
                                            if p > next {
                                                assert(covers(stack@[mid], self.blocks@, b, p, s));
                                            } else {
                                                assert(covers(stack@[top], self.blocks@, b, p, s));
                                            }
                                        }
                                    }
                                }
                            }
                        } else if node.flags.contains(Flags::header()) {
                            stack.push(Frame { id, layer: frame.layer, phase: Phase::Out(0) });
                            proof {
                                if nest {
                                    assert(before.last() == frame);
                                    assert(self.blocks@ == b0);
                                    assert(header_flag(g[id as int]));
                                    assert(stack@ == before.drop_last().push(Frame { id, layer: frame.layer, phase: Phase::Out(0) }));
                                    lemma_exits_succ_end(g, d0, ord2, b0, before, next);
                                }
                                assert forall|b: int, p: int|
                                    0 <= b < n && 0 <= p < g[b].succs@.len() && self.blocks@[b].layer >= 0
                                        && #[trigger] forward(g, d0, b, p) implies supported(
                                    g,
                                    self.blocks@,
                                    stack@,
                                    b,
                                    p,
                                ) by {
                                    crate::validate::lemma_edges_in_range(g, b, p);
                                    lemma_support_kept(g, b0, self.blocks@, before, stack@, b, p);
                                }
                            }
                        } else {
                            proof {
                                if nest {
                                    assert(before.last() == frame);
                                    assert(self.blocks@ == b0);
                                    assert(!header_flag(g[id as int]));
                                    assert(stack@ == before.drop_last());
                                    lemma_exits_succ_end(g, d0, ord2, b0, before, next);
                                }
                                if easy {
                                    assert(frame_cost(g, frame) == 1);
                                    assert(budget_ok(g, self.blocks@, ord, stack@, fuel as int, roots@.len() - r - 1));
                                }
                                assert forall|b: int, p: int|
                                    0 <= b < n && 0 <= p < g[b].succs@.len() && self.blocks@[b].layer >= 0
                                        && #[trigger] forward(g, d0, b, p) implies supported(
                                    g,
                                    self.blocks@,
                                    stack@,
                                    b,
                                    p,
                                ) by {
                                    crate::validate::lemma_edges_in_range(g, b, p);
                                    lemma_support_kept(g, b0, self.blocks@, before, stack@, b, p);
                                }
                            }
                        }
                    },
                    Phase::Out(next) => {
                        if next < self.blocks[id].outgoing.len() {
                            let succ = self.blocks[id].outgoing[next];
                            let loop_height = self.blocks[id].loop_height;
                            if loop_height > 0x7fff_ffffusize && loop_height > isize::MAX as usize {
                                return Err(LayoutErr::Overflow);
                            }
                            let height = loop_height as isize;
                            let layer = match frame.layer.checked_add(height) {
                                Some(l) => l,
                                None => return Err(LayoutErr::Overflow),
                            };
                            stack.push(Frame { id, layer: frame.layer, phase: Phase::Out(next + 1) });
                            stack.push(Frame { id: succ, layer, phase: Phase::Enter });
                            proof {
                                if nest {
                                    assert(before.last() == frame);
                                    assert(self.blocks@ == b0);
                                    assert(height as int == loop_height as int);
                                    assert(stack@ == before.drop_last().push(
                                        Frame { id, layer: frame.layer, phase: Phase::Out((next + 1) as usize) },
                                    ).push(
                                        Frame {
                                            id: b0[id as int].outgoing@[next as int],
                                            layer: (frame.layer + b0[id as int].loop_height) as isize,
                                            phase: Phase::Enter,
                                        },
                                    ));
                                    lemma_exits_out_next(g, d0, ord2, b0, before, next);
                                }
                            }
                        } else {
                            proof {
                                if nest {
                                    assert(before.last() == frame);
                                    assert(stack@ == before.drop_last());
                                    lemma_exits_out_end(g, d0, ord2, b0, before, next);
                                }
                            }
                        }
                        proof {
                            assert forall|b: int, p: int|
                                0 <= b < n && 0 <= p < g[b].succs@.len() && self.blocks@[b].layer >= 0
                                    && #[trigger] forward(g, d0, b, p) implies supported(
                                g,
                                self.blocks@,
                                stack@,
                                b,
                                p,
                            ) by {
                                crate::validate::lemma_edges_in_range(g, b, p);
                                lemma_support_kept(g, b0, self.blocks@, before, stack@, b, p);
                            }
                        }
                    },
                }
            }
            proof {
                assert forall|b: int, p: int|
                    0 <= b < n && 0 <= p < g[b].succs@.len() && self.blocks@[b].layer >= 0 && #[trigger] forward(
                        g,
                        d0,
                        b,
                        p,
                    ) implies self.blocks@[g[b].succs@[p].0 as int].layer > self.blocks@[b].layer by {
                    assert(supported(g, self.blocks@, stack@, b, p));
                }
            }
            r = r + 1;
        }
        proof {
            assert forall|b: int, p: int|
                0 <= b < n && 0 <= p < g[b].succs@.len() && self.blocks@[b].layer >= 0 && #[trigger] forward(
                    g,
                    self.blocks@,
                    b,
                    p,
                ) implies self.blocks@[g[b].succs@[p].0 as int].layer > self.blocks@[b].layer by {
                crate::validate::lemma_edges_in_range(g, b, p);
                let s = g[b].succs@[p].0 as int;
                assert(self.blocks@[b].depth == d0[b].depth);
                assert(self.blocks@[s].depth == d0[s].depth);
                assert(forward(g, d0, b, p));
            }
        }
        proof {
            if easy {
                assert forall|b: int| 0 <= b < self.blocks@.len() implies (#[trigger] self.blocks@[b]).layer < g.len() by {
                    assert(-1 <= self.blocks@[b].layer <= cap(g, ord, b));
                }
            }
            if nest {
                assert(stack@ =~= Seq::<Frame>::empty());
                lemma_exits_done(g, d0, ord2, self.blocks@);
            }
        }
        Ok(())
    }
}

/// In a finished plan, the layout node of every block links each of its
/// ports to a layout node of the successor at that port: the successor's own
/// node, or a dummy on the way to it.
pub proof fn lemma_plan_follows_edges(g: Seq<Node>, p: Plan, b: int, port: int)
    requires
        plan_ok(g, p),
        0 <= b < g.len(),
        0 <= port < g[b].succs@.len(),
    ensures
        p.blocks@[b].layout_node matches Some(v) && v < p.nodes@.len() && port < p.nodes@[v as int].dsts@.len()
            && p.nodes@[v as int].dsts@[port] < p.nodes@.len() && p.nodes@[p.nodes@[v as int].dsts@[port] as int].block
            == g[b].succs@[port].0,
{
    let v = p.blocks@[b].layout_node.unwrap();
    assert(placed(p.layers@, v));
    let (l, k) = choose|l: int, k: int|
        0 <= l < p.layers@.len() && 0 <= k < p.layers@[l]@.len() && #[trigger] p.layers@[l]@[k] == v;
    assert(linked(p.nodes@, p.layers@[l]@[k] as int));
    assert(node_ok(g, p.nodes@, v as int));
    assert(p.nodes@[v as int].dsts@[port] != NO_DST);
}

/// In a finished plan, the node of the target of a forward edge stands in a
/// later layer than the node of its source.
pub proof fn lemma_plan_edges_go_down(
    g: Seq<Node>,
    p: Plan,
    b: int,
    port: int,
    l1: int,
    k1: int,
    l2: int,
    k2: int,
)
    requires
        plan_ok(g, p),
        layered(g, p.blocks@),
        levels_ordered(p.nodes@, p.layers@, p.blocks@),
        forall|x: int| 0 <= x < p.blocks@.len() ==> (#[trigger] p.blocks@[x]).layer >= 0,
        0 <= b < g.len(),
        0 <= port < g[b].succs@.len(),
        forward(g, p.blocks@, b, port),
        0 <= l1 < p.layers@.len(),
        0 <= k1 < p.layers@[l1]@.len(),
        p.blocks@[b].layout_node == Some(p.layers@[l1]@[k1]),
        0 <= l2 < p.layers@.len(),
        0 <= k2 < p.layers@[l2]@.len(),
        p.blocks@[g[b].succs@[port].0 as int].layout_node == Some(p.layers@[l2]@[k2]),
    ensures
        l1 < l2,
{
    let s = g[b].succs@[port].0 as int;
    assert(0 <= s < g.len()) by {
        crate::validate::lemma_edges_in_range(g, b, port);
    }
    assert(p.blocks@[b].layout_node matches Some(v) && p.nodes@[v as int].block == b);
    assert(p.blocks@[s].layout_node matches Some(v) && p.nodes@[v as int].block == s);
    assert(p.blocks@[s].layer > p.blocks@[b].layer);
    let x = p.layers@[l1]@[k1];
    let y = p.layers@[l2]@[k2];
    assert(!is_dummy(p.nodes@[x as int]) && !is_dummy(p.nodes@[y as int]));
    if l2 < l1 {
        assert(p.blocks@[p.nodes@[y as int].block as int].layer < p.blocks@[p.nodes@[x as int].block as int].layer);
    } else if l1 == l2 {
        assert(p.blocks@[p.nodes@[x as int].block as int].layer == p.blocks@[p.nodes@[y as int].block as int].layer);
    }
}

/// In a finished plan, a dummy placed in a layer links on to a layout node of
/// the block it stands for.
pub proof fn lemma_plan_dummy_continues(g: Seq<Node>, p: Plan, l: int, k: int)
    requires
        plan_ok(g, p),
        0 <= l < p.layers@.len(),
        0 <= k < p.layers@[l]@.len(),
        is_dummy(p.nodes@[p.layers@[l]@[k] as int]),
    ensures
        ({
            let v = p.layers@[l]@[k] as int;
            let d = p.nodes@[v].dsts@[0];
            &&& p.nodes@[v].dsts@.len() == 1
            &&& d < p.nodes@.len()
            &&& p.nodes@[d as int].block == p.nodes@[v].block
        }),
{
    let v = p.layers@[l]@[k];
    assert(linked(p.nodes@, v as int));
    assert(node_ok(g, p.nodes@, v as int));
    assert(p.nodes@[v as int].dsts@[0] != NO_DST);
}

/// `p` is a walk along successor edges.
pub open spec fn is_walk(g: Seq<Node>, p: Seq<int>) -> bool {
    &&& p.len() >= 1
    &&& forall|i: int| 0 <= i < p.len() ==> 0 <= #[trigger] p[i] < g.len()
    &&& forall|i: int| 0 <= i < p.len() - 1 ==> #[trigger] walk_step(g, p, i)
}

/// Step `i` of `p` follows an edge.
pub open spec fn walk_step(g: Seq<Node>, p: Seq<int>, i: int) -> bool {
    exists|k: int| 0 <= k < g[p[i]].succs@.len() && #[trigger] succ_of(g, p[i], k) == p[i + 1]
}

/// Block `x` can be reached along successor edges from a block without
/// predecessors.
pub open spec fn reachable(g: Seq<Node>, x: int) -> bool {
    exists|p: Seq<int>| #[trigger] is_walk(g, p) && is_root(g, p[0]) && p.last() == x
}

/// Inputs that `plan` is sure to lay out: they pass validation, no block is
/// a loop header, a backedge block or an OSR entry, every block can be
/// reached from one without predecessors, and the graph is small enough
/// that the layering work, the edge count and the layers fit in machine
/// integers.
pub open spec fn simple_input(g: Seq<Node>, o: Opts) -> bool {
    &&& valid_input(g, o)
    &&& forall|b: int|
        0 <= b < g.len() ==> !header_flag(#[trigger] g[b]) && !backedge_flag(g[b]) && !osr_flag(g[b])
    &&& forall|x: int| 0 <= x < g.len() ==> #[trigger] reachable(g, x)
    &&& (2 * edge_count(g, g.len() as int) + 2 * g.len()) * g.len() + g.len() <= u64::MAX
    &&& edge_count(g, g.len() as int) <= usize::MAX
    &&& g.len() < isize::MAX
}

/// A property that every block without predecessors has and that every
/// edge carries on holds of every reachable block.
proof fn lemma_reach(g: Seq<Node>, q: spec_fn(int) -> bool, x: int)
    requires
        reachable(g, x),
        forall|r: int| 0 <= r < g.len() && is_root(g, r) ==> #[trigger] q(r),
        forall|b: int, k: int| 0 <= b < g.len() && 0 <= k < g[b].succs@.len() && q(b) ==> #[trigger] q(succ_of(g, b, k)),
    ensures
        q(x),
{
    let p = choose|p: Seq<int>| #[trigger] is_walk(g, p) && is_root(g, p[0]) && p.last() == x;
    lemma_walk_holds(g, q, p, p.len() - 1);
}

proof fn lemma_walk_holds(g: Seq<Node>, q: spec_fn(int) -> bool, p: Seq<int>, i: int)
    requires
        is_walk(g, p),
        is_root(g, p[0]),
        0 <= i < p.len(),
        forall|r: int| 0 <= r < g.len() && is_root(g, r) ==> #[trigger] q(r),
        forall|b: int, k: int| 0 <= b < g.len() && 0 <= k < g[b].succs@.len() && q(b) ==> #[trigger] q(succ_of(g, b, k)),
    ensures
        q(p[i]),
    decreases i,
{
    if i > 0 {
        lemma_walk_holds(g, q, p, i - 1);
        assert(walk_step(g, p, i - 1));
        let k = choose|k: int| 0 <= k < g[p[i - 1]].succs@.len() && #[trigger] succ_of(g, p[i - 1], k) == p[i];
        assert(q(succ_of(g, p[i - 1], k)));
    } else {
        assert(0 <= p[0] < g.len());
    }
}

/// A strictly ascending list of block numbers is no longer than the graph.
proof fn lemma_ascending_len(s: Seq<usize>, n: int)
    requires
        forall|a: int, b: int| 0 <= a < b < s.len() ==> s[a] < s[b],
        forall|k: int| 0 <= k < s.len() ==> (#[trigger] s[k]) < n,
        n >= 0,
    ensures
        s.len() <= n,
{
    if s.len() > 0 {
        assert forall|k: int| 0 <= k < s.len() implies (#[trigger] s[k]) >= k by {
            lemma_ascending_from(s, k);
        }
        assert(s[s.len() - 1] >= s.len() - 1);
        assert(s[s.len() - 1] < n);
    }
}

proof fn lemma_ascending_from(s: Seq<usize>, k: int)
    requires
        forall|a: int, b: int| 0 <= a < b < s.len() ==> s[a] < s[b],
        0 <= k < s.len(),
    ensures
        s[k] >= k,
    decreases k,
{
    if k > 0 {
        lemma_ascending_from(s, k - 1);
    }
}

/// The input passes validation: valid options, a structurally sound graph
/// and no cycle that avoids the backedge blocks.
pub open spec fn valid_input(g: Seq<Node>, o: Opts) -> bool {
    opts_error(o) is None && graph_error(g) is None && acyclic(g)
}

/// Validates `graph` and `opts`, then builds the layered graph that placement
/// and edge routing work on: roots, loops, layers, and a layout node per block
/// plus dummies for the edges that cross layers.
///
/// In the plan every block has a layer, blocks without predecessors are in
/// layer 0, every edge that neither leaves nor enters a backedge block goes
/// down at least one layer, the layers hold the blocks' nodes in the order
/// of their layers, every link ends at a node of the block it leads to, and
/// the dummies at the ends of each layer carry `LEFT_DUMMY` and
/// `RIGHT_DUMMY`. A valid graph without loops or OSR entries in which every
/// block can be reached from one without predecessors is always planned
/// (`simple_input`).
#[verifier::rlimit(100)]
pub fn plan(graph: &Graph, opts: &Opts) -> (r: Result<Plan, LayoutErr>)
    ensures
        opts_error(*opts) matches Some(e) ==> r == Err::<Plan, LayoutErr>(e),
        opts_error(*opts) is None ==> (graph_error(graph@) matches Some(e) ==> r == Err::<
            Plan,
            LayoutErr,
        >(e)),
        opts_error(*opts) is None && graph_error(graph@) is None && !acyclic(graph@) ==> (r matches Err(e)
            && e matches LayoutErr::UnmarkedCycle(d) && d.0 < graph@.len() && on_cycle(graph@, d.0 as int)),
        opts_error(*opts) is None && graph_error(graph@) is None ==> (first_cycle(graph@) matches Some(d) ==> r
            == Err::<Plan, LayoutErr>(LayoutErr::UnmarkedCycle(Id(d as usize)))),
        valid_input(graph@, *opts) && graph@.len() == 0 ==> (r matches Ok(p) && p.blocks@.len() == 0
            && p.nodes@.len() == 0 && p.layers@.len() == 0),
        valid_input(graph@, *opts) && graph@.len() > 0 ==> (r == Err::<Plan, LayoutErr>(LayoutErr::NoRoot)
            <==> forall|i: int| 0 <= i < graph@.len() ==> !is_root(graph@, i)),
        r is Ok ==> valid_input(graph@, *opts),
        r matches Ok(p) ==> plan_ok(graph@, p),
        r matches Ok(p) ==> layered(graph@, p.blocks@) && forall|b: int|
            0 <= b < p.blocks@.len() ==> (#[trigger] p.blocks@[b]).layer >= 0,
        r matches Ok(p) ==> ends_marked(p.nodes@, p.layers@),
        simple_input(graph@, *opts) ==> r is Ok,
        r matches Ok(p) ==> levels_ordered(p.nodes@, p.layers@, p.blocks@),
        r matches Ok(p) ==> forall|a: int, q: int|
            #[trigger] plain_edge(graph@, a, q) ==> p.blocks@[graph@[a].succs@[q].0 as int].layer > p.blocks@[a].layer,
        r matches Ok(p) ==> forall|b: int|
            0 <= b < p.blocks@.len() && is_root(graph@, b) && !backedge_flag(graph@[b]) ==> (#[trigger] p.blocks@[b]).layer
                == 0,
{
    validate(graph, opts)?;
    assert(first_cycle(graph@) is None);
    if graph.is_empty() {
        return Ok(Plan { blocks: Vec::new(), nodes: Vec::new(), layers: Vec::new() });
    }
    let ghost simple = simple_input(graph@, *opts);
    proof {
        if simple {
            assert(reachable(graph@, 0));
            let p = choose|p: Seq<int>| #[trigger] is_walk(graph@, p) && is_root(graph@, p[0]) && p.last() == 0;
            assert(0 <= p[0] < graph@.len());
        }
    }
    let mut e = Engine::new(graph);
    let (roots, osr) = e.find_roots()?;
    assert(valid_input(graph@, *opts));
    proof {
        if simple {
            assert forall|i: int| 0 <= i < graph@.len() && is_root(graph@, i) implies !osr_flag(#[trigger] graph@[i]) by {}
            assert(osr@.len() == 0);
            lemma_ascending_len(roots@, graph@.len() as int);
        }
    }
    let mut k: usize = 0;
    while k < roots.len()
        invariant
            e.inv(),
            e.g() == graph@,
            valid_input(graph@, *opts),
            first_cycle(graph@) is None,
            exists|x: int| 0 <= x < graph@.len() && is_root(graph@, x),
            fresh(e.blocks@),
            e.nodes@.len() == 0,
            forall|j: int| 0 <= j < roots@.len() ==> (#[trigger] roots@[j]) < graph@.len(),
            k <= roots@.len(),
            simple == simple_input(graph@, *opts),
            simple ==> osr@.len() == 0 && roots@.len() <= graph@.len() && forall|x: int|
                0 <= x < graph@.len() ==> (roots@.contains(x as usize) <==> #[trigger] is_root(graph@, x)),
            forall|j: int| 0 <= j < k ==> (#[trigger] e.blocks@[roots@[j] as int]).pseudo,
        decreases roots@.len() - k,
    {
        let ghost b0 = e.blocks@;
        e.mark_pseudo(roots[k]);
        proof {
            assert forall|j: int| 0 <= j < k + 1 implies (#[trigger] e.blocks@[roots@[j] as int]).pseudo by {
                if roots@[j] != roots@[k as int] {
                    assert(e.blocks@[roots@[j] as int] == b0[roots@[j] as int]);
                }
            }
        }
        k = k + 1;
    }
    let mut k: usize = 0;
    while k < osr.len()
        invariant
            e.inv(),
            e.g() == graph@,
            valid_input(graph@, *opts),
            first_cycle(graph@) is None,
            exists|x: int| 0 <= x < graph@.len() && is_root(graph@, x),
            fresh(e.blocks@),
            e.nodes@.len() == 0,
            forall|j: int| 0 <= j < osr@.len() ==> (#[trigger] osr@[j]) < graph@.len(),
            k <= osr@.len(),
            simple == simple_input(graph@, *opts),
            simple ==> osr@.len() == 0 && roots@.len() <= graph@.len() && forall|x: int|
                0 <= x < graph@.len() ==> (roots@.contains(x as usize) <==> #[trigger] is_root(graph@, x)),
            forall|j: int| 0 <= j < roots@.len() ==> (#[trigger] roots@[j]) < graph@.len(),
            forall|j: int| 0 <= j < roots@.len() ==> (#[trigger] e.blocks@[roots@[j] as int]).pseudo,
        decreases osr@.len() - k,
    {
        e.mark_pseudo(osr[k]);
        k = k + 1;
    }
    let ghost f0 = e.blocks@;
    proof {
        if simple {
            assert forall|k: int| 0 <= k < roots@.len() implies !header_flag(#[trigger] graph@[roots@[k] as int]) by {}
        }
    }
    e.find_loops(&roots)?;
    let ghost eb = e.blocks@;
    proof {
        if simple {
            let g = graph@;
            assert(headerless(g));
            let q = |b: int| eb[b].loop_id is Some;
            assert forall|r: int| 0 <= r < g.len() && is_root(g, r) implies #[trigger] q(r) by {
                assert(roots@.contains(r as usize));
                let j = choose|j: int| 0 <= j < roots@.len() && roots@[j] == r as usize;
                assert(eb[roots@[j] as int].loop_id is Some);
            }
            assert forall|b: int, k: int| 0 <= b < g.len() && 0 <= k < g[b].succs@.len() && q(b) implies #[trigger] q(succ_of(g, b, k)) by {
                assert(!backedge_flag(g[b]));
                assert(eb[g[b].succs@[k].0 as int].loop_id is Some);
            }
            assert forall|x: int| 0 <= x < g.len() implies (#[trigger] eb[x]).loop_id is Some by {
                lemma_reach(g, q, x);
            }
        }
    }
    let n = graph.len();
    let mut i: usize = 0;
    while i < n
        invariant
            e.inv(),
            e.g() == graph@,
            valid_input(graph@, *opts),
            first_cycle(graph@) is None,
            exists|x: int| 0 <= x < graph@.len() && is_root(graph@, x),
            n == graph@.len(),
            e.nodes@.len() == 0,
            i <= n,
            e.blocks@ == eb,
            simple == simple_input(graph@, *opts),
            simple ==> forall|x: int| 0 <= x < graph@.len() ==> (#[trigger] eb[x]).loop_id is Some,
        decreases n - i,
    {
        if e.blocks[i].loop_id.is_none() {
            let mut is_osr = false;
            let mut k: usize = 0;
            while k < osr.len()
                invariant
                    k <= osr@.len(),
                decreases osr@.len() - k,
            {
                if osr[k] == i {
                    is_osr = true;
                }
                k = k + 1;
            }
            if !is_osr {
                return Err(LayoutErr::Unreachable(Id(i)));
            }
        }
        i = i + 1;
    }
    proof {
        if simple {
            let g = graph@;
            assert forall|b: int| 0 <= b < eb.len() implies {
                let s = #[trigger] eb[b];
                &&& s.depth == 0
                &&& s.layer == -1
                &&& s.loop_id matches Some(h) ==> h < eb.len() && is_root(g, h as int) && eb[h as int].pseudo
                    && eb[h as int].parent is None
            } by {
                let h = eb[b].loop_id->0;
                assert(roots@.contains(h));
                let j = choose|j: int| 0 <= j < roots@.len() && roots@[j] == h;
                assert(eb[roots@[j] as int].pseudo == f0[roots@[j] as int].pseudo);
                assert(f0[h as int].parent is None);
            }
            assert(loop_free(g));
            assert(simple_layering(g, eb, roots@));
        }
    }
    e.set_layers(&roots)?;
    let ghost sl = e.blocks@;
    proof {
        if simple {
            let g = graph@;
            let q = |b: int| sl[b].layer >= 0;
            assert forall|r: int| 0 <= r < g.len() && is_root(g, r) implies #[trigger] q(r) by {
                assert(roots@.contains(r as usize));
                let j = choose|j: int| 0 <= j < roots@.len() && roots@[j] == r as usize;
                assert(!backedge_flag(g[roots@[j] as int]));
            }
            assert forall|b: int, k: int| 0 <= b < g.len() && 0 <= k < g[b].succs@.len() && q(b) implies #[trigger] q(succ_of(g, b, k)) by {
                crate::validate::lemma_edges_in_range(g, b, k);
                let s = g[b].succs@[k].0 as int;
                assert(sl[b].depth == eb[b].depth && sl[s].depth == eb[s].depth);
                assert(forward(g, sl, b, k));
            }
            assert forall|x: int| 0 <= x < g.len() implies (#[trigger] sl[x]).layer >= 0 by {
                lemma_reach(g, q, x);
            }
        }
    }
    let mut k: usize = 0;
    while k < osr.len()
        invariant
            e.inv(),
            e.g() == graph@,
            valid_input(graph@, *opts),
            first_cycle(graph@) is None,
            exists|x: int| 0 <= x < graph@.len() && is_root(graph@, x),
            e.nodes@.len() == 0,
            forall|j: int| 0 <= j < osr@.len() ==> (#[trigger] osr@[j]) < graph@.len() && is_root(graph@, osr@[j] as int),
            k <= osr@.len(),
            layered(graph@, e.blocks@),
            forall|b: int|
                0 <= b < e.blocks@.len() && is_root(graph@, b) && !backedge_flag(graph@[b]) && (#[trigger] e.blocks@[b]).layer
                    >= 0 ==> e.blocks@[b].layer == 0,
            simple == simple_input(graph@, *opts),
            simple ==> osr@.len() == 0 && e.blocks@ == sl,
        decreases osr@.len() - k,
    {
        e.place_osr(osr[k])?;
        k = k + 1;
    }
    let ghost levels = e.blocks@;
    proof {
        if simple {
            let g = graph@;
            assert forall|b: int| 0 <= b < sl.len() implies 0 <= (#[trigger] sl[b]).layer < isize::MAX && sl[b].loop_id is Some by {
                assert(sl[b].loop_id == eb[b].loop_id);
            }
            assert forall|a: int, p: int| #[trigger] plain_edge(g, a, p) implies sl[g[a].succs@[p].0 as int].layer > sl[a].layer by {
                crate::validate::lemma_edges_in_range(g, a, p);
                let s = g[a].succs@[p].0 as int;
                assert(sl[a].depth == eb[a].depth && sl[s].depth == eb[s].depth);
                assert(forward(g, sl, a, p));
            }
            assert(ready_to_place(g, levels));
        }
    }
    e.make_nodes()?;
    proof {
        lemma_layered_levels(graph@, levels, e.blocks@);
        assert forall|b: int| 0 <= b < e.blocks@.len() && is_root(graph@, b) && !backedge_flag(graph@[b]) implies (#[trigger] e.blocks@[b]).layer
            == 0 by {
            assert(levels[b].layer == e.blocks@[b].layer);
        }
    }
    Ok(Plan { blocks: e.blocks, nodes: e.nodes, layers: e.layers })
}

} // verus!
