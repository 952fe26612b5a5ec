//! Checking options and graph structure before layout.

use vstd::prelude::*;

use crate::cycles::{acyclic, cycle_verdict, detect_cycles, on_cycle, ranked_within};
use crate::err::{LayoutErr, OptErr, OptField};
use crate::first::{first_index, lemma_first_index, lemma_first_index_none};
use crate::graph::{seq_has, vec_has, Flags, Graph, Id, Node};
use crate::opts::{
    default_opts, finite, is_finite, is_negative, lemma_default_order, lemma_default_value, magnitude, negative,
    unsigned, Opts,
};

verus! {

/// The node is a loop header.
pub open spec fn header_flag(n: Node) -> bool {
    n.flags.has(Flags(1))
}

/// The node is a backedge block.
pub open spec fn backedge_flag(n: Node) -> bool {
    n.flags.has(Flags(2))
}

/// The node is an on-stack-replacement entry.
pub open spec fn osr_flag(n: Node) -> bool {
    n.flags.has(Flags(4))
}

// ---------------------------------------------------------------- options

/// What is wrong with one `f64` option, if anything.
pub open spec fn num_err(b: u64) -> Option<OptErr> {
    if !is_finite(b) {
        Some(OptErr::NonFinite)
    } else if is_negative(b) {
        Some(OptErr::Negative)
    } else {
        None
    }
}

/// The floating-point options, in the order they are checked.
pub open spec fn opt_values(o: Opts) -> Seq<(OptField, u64)> {
    seq![
        (OptField::Padding, o.padding),
        (OptField::BlockGap, o.block_gap),
        (OptField::FirstPort, o.first_port),
        (OptField::PortGap, o.port_gap),
        (OptField::BendRadius, o.bend_radius),
        (OptField::TrackPadding, o.track_padding),
        (OptField::JointGap, o.joint_gap),
        (OptField::HeaderDrop, o.header_drop),
        (OptField::NearStraight, o.near_straight),
        (OptField::LineWidth, o.line_width),
        (OptField::ArrowSize, o.arrow_size),
    ]
}

/// The `i`th checked option is not finite or is negative.
pub open spec fn bad_opt(o: Opts, i: int) -> bool {
    num_err(opt_values(o)[i].1) is Some
}

/// The first option error: a non-finite or negative value in check order,
/// then a track padding that does not exceed the bend radius.
pub open spec fn opts_error(o: Opts) -> Option<LayoutErr> {
    match first_index(11, |i: int| bad_opt(o, i)) {
        Some(i) => Some(
            LayoutErr::InvalidOpt {
                field: opt_values(o)[i].0,
                err: match num_err(opt_values(o)[i].1) {
                    Some(e) => e,
                    None => OptErr::NonFinite,
                },
            },
        ),
        None => if magnitude(o.track_padding) <= magnitude(o.bend_radius) {
            Some(
                LayoutErr::InvalidOpt {
                    field: OptField::TrackPadding,
                    err: OptErr::NotGreaterThan(OptField::BendRadius),
                },
            )
        } else {
            None
        },
    }
}

/// The default options pass validation.
pub proof fn lemma_default_opts_valid()
    ensures
        opts_error(default_opts()) is None,
{
    let o = default_opts();
    lemma_default_order();
    let bad = |i: int| bad_opt(o, i);
    let v = opt_values(o);
    assert forall|i: int| 0 <= i < 11 implies !#[trigger] bad(i) by {
        let b = v[i].1;
        assert(b == 0x4034000000000000u64 || b == 0x4046000000000000u64 || b
            == 0x4030000000000000u64 || b == 0x404e000000000000u64 || b == 0x4028000000000000u64
            || b == 0x4042000000000000u64 || b == 0x403e000000000000u64 || b
            == 0x3ff0000000000000u64 || b == 0x4014000000000000u64);
        lemma_default_value(b);
    }
    assert(!exists|i: int| crate::first::is_first(11, bad, i));
}

// ---------------------------------------------------------------- graph

/// The node's size is not finite or is negative.
pub open spec fn geom_bad(n: Node) -> bool {
    !is_finite(n.size.w) || !is_finite(n.size.h) || is_negative(n.size.w) || is_negative(
        n.size.h,
    )
}

/// Predecessors followed by successors.
pub open spec fn edge_list(n: Node) -> Seq<Id> {
    n.preds@ + n.succs@
}

/// The `k`th entry of the node's edge list is out of range.
pub open spec fn bad_edge(g: Seq<Node>, i: int, k: int) -> bool {
    edge_list(g[i])[k].0 >= g.len()
}

/// First check of a node: size, then edge range, then flag combinations.
pub open spec fn node_err1(g: Seq<Node>, i: int) -> Option<LayoutErr> {
    let n = g[i];
    if geom_bad(n) {
        Some(LayoutErr::InvalidGeom(Id(i as usize)))
    } else {
        match first_index(edge_list(n).len() as int, |k: int| bad_edge(g, i, k)) {
            Some(k) => Some(LayoutErr::InvalidId { node: Id(i as usize), edge: edge_list(n)[k] }),
            None => if header_flag(n) && backedge_flag(n) {
                Some(LayoutErr::MalformedHeader(Id(i as usize)))
            } else if osr_flag(n) && n.preds@.len() == 0 && n.succs@.len() == 0 {
                Some(LayoutErr::MalformedOsr(Id(i as usize)))
            } else {
                None
            },
        }
    }
}

/// Successor `k` of node `i` does not list `i` as a predecessor.
pub open spec fn bad_succ(g: Seq<Node>, i: int, k: int) -> bool {
    !seq_has(g[g[i].succs@[k].0 as int].preds@, Id(i as usize))
}

/// Predecessor `k` of node `i` does not list `i` as a successor.
pub open spec fn bad_pred(g: Seq<Node>, i: int, k: int) -> bool {
    !seq_has(g[g[i].preds@[k].0 as int].succs@, Id(i as usize))
}

/// Second check of a node: every edge is listed at both of its ends.
pub open spec fn node_err2(g: Seq<Node>, i: int) -> Option<LayoutErr> {
    let n = g[i];
    match first_index(n.succs@.len() as int, |k: int| bad_succ(g, i, k)) {
        Some(k) => Some(LayoutErr::NonReciprocal { from: Id(i as usize), to: n.succs@[k] }),
        None => match first_index(n.preds@.len() as int, |k: int| bad_pred(g, i, k)) {
            Some(k) => Some(LayoutErr::NonReciprocal { from: n.preds@[k], to: Id(i as usize) }),
            None => None,
        },
    }
}

/// How many entries of `s` name backedge blocks.
pub open spec fn backedge_count(g: Seq<Node>, s: Seq<Id>) -> nat
    decreases s.len(),
{
    if s.len() == 0 {
        0
    } else {
        backedge_count(g, s.drop_last()) + if backedge_flag(g[s.last().0 as int]) {
            1nat
        } else {
            0nat
        }
    }
}

/// Third check of a node: a header has exactly one backedge predecessor, and
/// a backedge has exactly one successor, a header.
pub open spec fn node_err3(g: Seq<Node>, i: int) -> Option<LayoutErr> {
    let n = g[i];
    if header_flag(n) && backedge_count(g, n.preds@) != 1 {
        Some(LayoutErr::MalformedHeader(Id(i as usize)))
    } else if backedge_flag(n) && (n.succs@.len() != 1 || !header_flag(g[n.succs@[0].0 as int])) {
        Some(LayoutErr::MalformedBackedge(Id(i as usize)))
    } else {
        None
    }
}

/// The error of node `i` in pass `pass` (1, 2 or 3).
pub open spec fn node_err(g: Seq<Node>, pass: int, i: int) -> Option<LayoutErr> {
    if pass == 1 {
        node_err1(g, i)
    } else if pass == 2 {
        node_err2(g, i)
    } else {
        node_err3(g, i)
    }
}

/// The first node error of one pass, in node order.
pub open spec fn pass_error(g: Seq<Node>, pass: int) -> Option<LayoutErr> {
    match first_index(g.len() as int, |i: int| node_err(g, pass, i) is Some) {
        Some(i) => node_err(g, pass, i),
        None => None,
    }
}

/// The first structural error: the three passes run in order over all nodes.
pub open spec fn graph_error(g: Seq<Node>) -> Option<LayoutErr> {
    if pass_error(g, 1) is Some {
        pass_error(g, 1)
    } else if pass_error(g, 2) is Some {
        pass_error(g, 2)
    } else {
        pass_error(g, 3)
    }
}

// ---------------------------------------------------------------- exec

fn opts_check(opts: &Opts) -> (r: Result<(), LayoutErr>)
    ensures
        match opts_error(*opts) {
            Some(e) => r == Err::<(), LayoutErr>(e),
            None => r is Ok,
        },
{
    let nums: [(OptField, u64); 11] = [
        (OptField::Padding, opts.padding),
        (OptField::BlockGap, opts.block_gap),
        (OptField::FirstPort, opts.first_port),
        (OptField::PortGap, opts.port_gap),
        (OptField::BendRadius, opts.bend_radius),
        (OptField::TrackPadding, opts.track_padding),
        (OptField::JointGap, opts.joint_gap),
        (OptField::HeaderDrop, opts.header_drop),
        (OptField::NearStraight, opts.near_straight),
        (OptField::LineWidth, opts.line_width),
        (OptField::ArrowSize, opts.arrow_size),
    ];
    assert(nums@ =~= opt_values(*opts));
    let ghost bad = |i: int| bad_opt(*opts, i);
    let mut idx: usize = 0;
    while idx < 11
        invariant
            idx <= 11,
            nums@ == opt_values(*opts),
            bad == (|i: int| bad_opt(*opts, i)),
            forall|j: int| 0 <= j < idx ==> !#[trigger] bad(j),
        decreases 11 - idx,
    {
        let (field, value) = nums[idx];
        let err = if !finite(value) {
            Some(OptErr::NonFinite)
        } else if negative(value) {
            Some(OptErr::Negative)
        } else {
            None
        };
        if let Some(err) = err {
            proof {
                lemma_first_index(11, bad, idx as int);
            }
            return Err(LayoutErr::InvalidOpt { field, err });
        }
        idx = idx + 1;
    }
    proof {
        lemma_first_index(11, bad, 11);
    }
    if unsigned(opts.track_padding) <= unsigned(opts.bend_radius) {
        return Err(
            LayoutErr::InvalidOpt {
                field: OptField::TrackPadding,
                err: OptErr::NotGreaterThan(OptField::BendRadius),
            },
        );
    }
    Ok(())
}

/// Every adjacency entry names a node of the graph.
pub open spec fn edges_in_range(g: Seq<Node>) -> bool {
    &&& forall|i: int, k: int|
        0 <= i < g.len() && 0 <= k < g[i].preds@.len() ==> (#[trigger] g[i].preds@[k]).0 < g.len()
    &&& forall|i: int, k: int|
        0 <= i < g.len() && 0 <= k < g[i].succs@.len() ==> (#[trigger] g[i].succs@[k]).0 < g.len()
}

/// Every successor index is in range.
pub open spec fn succs_in_range(g: Seq<Node>) -> bool {
    forall|i: int, k: int| 0 <= i < g.len() && 0 <= k < g[i].succs@.len() ==> (#[trigger] g[i].succs@[k]).0 < g.len()
}

/// Every node has a finite, non-negative size.
pub open spec fn sizes_ok(g: Seq<Node>) -> bool {
    forall|i: int| 0 <= i < g.len() ==> !geom_bad(#[trigger] g[i])
}

proof fn lemma_pass1_ok(g: Seq<Node>)
    requires
        pass_error(g, 1) is None,
    ensures
        edges_in_range(g),
        sizes_ok(g),
        forall|i: int| 0 <= i < g.len() ==> node_err1(g, i) is None,
{
    let bad = |i: int| node_err(g, 1, i) is Some;
    lemma_first_index_none(g.len() as int, bad);
    assert forall|i: int| 0 <= i < g.len() implies node_err1(g, i) is None by {
        assert(!bad(i));
    }
    assert forall|i: int, k: int|
        0 <= i < g.len() && 0 <= k < g[i].preds@.len() implies (#[trigger] g[i].preds@[k]).0 < g.len() by {
        assert(!bad(i));
        let be = |k: int| bad_edge(g, i, k);
        lemma_first_index_none(edge_list(g[i]).len() as int, be);
        assert(!be(k));
        assert(edge_list(g[i])[k] == g[i].preds@[k]);
    }
    assert forall|i: int, k: int|
        0 <= i < g.len() && 0 <= k < g[i].succs@.len() implies (#[trigger] g[i].succs@[k]).0 < g.len() by {
        assert(!bad(i));
        let p = g[i].preds@.len() as int;
        let be = |k: int| bad_edge(g, i, k);
        lemma_first_index_none(edge_list(g[i]).len() as int, be);
        assert(!be(p + k));
        assert(edge_list(g[i])[p + k] == g[i].succs@[k]);
    }
    assert forall|i: int| 0 <= i < g.len() implies !geom_bad(#[trigger] g[i]) by {
        assert(!bad(i));
    }
}

fn node_check1(graph: &Graph, i: usize) -> (r: Option<LayoutErr>)
    requires
        i < graph@.len(),
    ensures
        r == node_err1(graph@, i as int),
{
    let ghost g = graph@;
    let nodes = graph.nodes();
    let len = nodes.len();
    let node = &nodes[i];
    let id = Id(i);
    if !finite(node.size.w) || !finite(node.size.h) || negative(node.size.w) || negative(
        node.size.h,
    ) {
        return Some(LayoutErr::InvalidGeom(id));
    }
    let ghost bad = |k: int| bad_edge(g, i as int, k);
    let ghost edges = edge_list(g[i as int]);
    let np = node.preds.len();
    let ns = node.succs.len();
    let mut k: usize = 0;
    while k < np
        invariant
            g == graph@,
            nodes@ == g,
            len == g.len(),
            i < len,
            *node == g[i as int],
            np == node.preds@.len(),
            ns == node.succs@.len(),
            edges == node.preds@ + node.succs@,
            bad == (|k: int| bad_edge(g, i as int, k)),
            !geom_bad(g[i as int]),
            id == Id(i),
            k <= np,
            forall|j: int| 0 <= j < k ==> !#[trigger] bad(j),
        decreases np - k,
    {
        let edge = node.preds[k];
        assert(edges[k as int] == edge);
        if edge.0 >= len {
            proof {
                lemma_first_index(edges.len() as int, bad, k as int);
            }
            return Some(LayoutErr::InvalidId { node: id, edge });
        }
        k = k + 1;
    }
    let mut k: usize = 0;
    while k < ns
        invariant
            g == graph@,
            nodes@ == g,
            len == g.len(),
            i < len,
            *node == g[i as int],
            np == node.preds@.len(),
            ns == node.succs@.len(),
            edges == node.preds@ + node.succs@,
            bad == (|k: int| bad_edge(g, i as int, k)),
            !geom_bad(g[i as int]),
            id == Id(i),
            k <= ns,
            forall|j: int| 0 <= j < np + k ==> !#[trigger] bad(j),
        decreases ns - k,
    {
        let edge = node.succs[k];
        assert(edges[np + k] == edge);
        if edge.0 >= len {
            proof {
                lemma_first_index(edges.len() as int, bad, np + k);
            }
            return Some(LayoutErr::InvalidId { node: id, edge });
        }
        k = k + 1;
    }
    proof {
        lemma_first_index(edges.len() as int, bad, edges.len() as int);
    }
    if node.flags.contains(Flags::header()) && node.flags.contains(Flags::backedge()) {
        return Some(LayoutErr::MalformedHeader(id));
    }
    if node.flags.contains(Flags::osr()) && node.preds.len() == 0 && node.succs.len() == 0 {
        return Some(LayoutErr::MalformedOsr(id));
    }
    None
}

fn node_check2(graph: &Graph, i: usize) -> (r: Option<LayoutErr>)
    requires
        i < graph@.len(),
        edges_in_range(graph@),
    ensures
        r == node_err2(graph@, i as int),
{
    let ghost g = graph@;
    let nodes = graph.nodes();
    let node = &nodes[i];
    let id = Id(i);
    let ghost bads = |k: int| bad_succ(g, i as int, k);
    let ns = node.succs.len();
    let mut k: usize = 0;
    while k < ns
        invariant
            g == graph@,
            nodes@ == g,
            edges_in_range(g),
            i < g.len(),
            *node == g[i as int],
            ns == node.succs@.len(),
            id == Id(i),
            bads == (|k: int| bad_succ(g, i as int, k)),
            k <= ns,
            forall|j: int| 0 <= j < k ==> !#[trigger] bads(j),
        decreases ns - k,
    {
        let to = node.succs[k];
        assert(to == g[i as int].succs@[k as int]);
        if !vec_has(&nodes[to.0].preds, id) {
            proof {
                lemma_first_index(ns as int, bads, k as int);
            }
            return Some(LayoutErr::NonReciprocal { from: id, to });
        }
        k = k + 1;
    }
    proof {
        lemma_first_index(ns as int, bads, ns as int);
    }
    let ghost badp = |k: int| bad_pred(g, i as int, k);
    let np = node.preds.len();
    let mut k: usize = 0;
    while k < np
        invariant
            g == graph@,
            nodes@ == g,
            edges_in_range(g),
            i < g.len(),
            *node == g[i as int],
            np == node.preds@.len(),
            id == Id(i),
            badp == (|k: int| bad_pred(g, i as int, k)),
            first_index(ns as int, bads) is None,
            bads == (|k: int| bad_succ(g, i as int, k)),
            ns == node.succs@.len(),
            k <= np,
            forall|j: int| 0 <= j < k ==> !#[trigger] badp(j),
        decreases np - k,
    {
        let from = node.preds[k];
        assert(from == g[i as int].preds@[k as int]);
        if !vec_has(&nodes[from.0].succs, id) {
            proof {
                lemma_first_index(np as int, badp, k as int);
            }
            return Some(LayoutErr::NonReciprocal { from, to: id });
        }
        k = k + 1;
    }
    proof {
        lemma_first_index(np as int, badp, np as int);
    }
    None
}

fn count_backedges(graph: &Graph, preds: &Vec<Id>) -> (c: usize)
    requires
        forall|k: int| 0 <= k < preds@.len() ==> (#[trigger] preds@[k]).0 < graph@.len(),
    ensures
        c == backedge_count(graph@, preds@),
{
    let ghost g = graph@;
    let nodes = graph.nodes();
    let mut c: usize = 0;
    let mut k: usize = 0;
    while k < preds.len()
        invariant
            g == graph@,
            nodes@ == g,
            forall|k: int| 0 <= k < preds@.len() ==> (#[trigger] preds@[k]).0 < g.len(),
            k <= preds@.len(),
            c <= k,
            c == backedge_count(g, preds@.subrange(0, k as int)),
        decreases preds@.len() - k,
    {
        let p = preds[k];
        assert(preds@.subrange(0, k + 1).drop_last() =~= preds@.subrange(0, k as int));
        assert(preds@.subrange(0, k + 1).last() == p);
        if nodes[p.0].flags.contains(Flags::backedge()) {
            c = c + 1;
        }
        k = k + 1;
    }
    assert(preds@.subrange(0, preds@.len() as int) =~= preds@);
    c
}

fn node_check3(graph: &Graph, i: usize) -> (r: Option<LayoutErr>)
    requires
        i < graph@.len(),
        edges_in_range(graph@),
    ensures
        r == node_err3(graph@, i as int),
{
    let ghost g = graph@;
    let nodes = graph.nodes();
    let node = &nodes[i];
    let id = Id(i);
    if node.flags.contains(Flags::header()) {
        let backs = count_backedges(graph, &node.preds);
        if backs != 1 {
            return Some(LayoutErr::MalformedHeader(id));
        }
    }
    if node.flags.contains(Flags::backedge()) && (node.succs.len() != 1
        || !nodes[node.succs[0].0].flags.contains(Flags::header())) {
        return Some(LayoutErr::MalformedBackedge(id));
    }
    None
}

fn node_check(graph: &Graph, pass: usize, i: usize) -> (r: Option<LayoutErr>)
    requires
        i < graph@.len(),
        1 <= pass <= 3,
        pass > 1 ==> edges_in_range(graph@),
    ensures
        r == node_err(graph@, pass as int, i as int),
{
    if pass == 1 {
        node_check1(graph, i)
    } else if pass == 2 {
        node_check2(graph, i)
    } else {
        node_check3(graph, i)
    }
}

fn pass_check(graph: &Graph, pass: usize) -> (r: Option<LayoutErr>)
    requires
        1 <= pass <= 3,
        pass > 1 ==> edges_in_range(graph@),
    ensures
        r == pass_error(graph@, pass as int),
{
    let ghost g = graph@;
    let ghost bad = |i: int| node_err(g, pass as int, i) is Some;
    let len = graph.len();
    let mut i: usize = 0;
    while i < len
        invariant
            g == graph@,
            len == g.len(),
            1 <= pass <= 3,
            pass > 1 ==> edges_in_range(g),
            bad == (|i: int| node_err(g, pass as int, i) is Some),
            i <= len,
            forall|j: int| 0 <= j < i ==> !#[trigger] bad(j),
        decreases len - i,
    {
        let r = node_check(graph, pass, i);
        if r.is_some() {
            proof {
                lemma_first_index(len as int, bad, i as int);
            }
            return r;
        }
        i = i + 1;
    }
    proof {
        lemma_first_index(len as int, bad, len as int);
    }
    None
}

fn graph_check(graph: &Graph) -> (r: Result<(), LayoutErr>)
    ensures
        match graph_error(graph@) {
            Some(e) => r == Err::<(), LayoutErr>(e),
            None => r is Ok,
        },
        r is Ok ==> edges_in_range(graph@) && sizes_ok(graph@),
{
    if let Some(e) = pass_check(graph, 1) {
        return Err(e);
    }
    proof {
        lemma_pass1_ok(graph@);
    }
    if let Some(e) = pass_check(graph, 2) {
        return Err(e);
    }
    if let Some(e) = pass_check(graph, 3) {
        return Err(e);
    }
    Ok(())
}

/// Checks the options, then the graph's structure, then that every cycle
/// passes through a backedge block.
///
/// Each check reports the first failure in a fixed order: options in field
/// order, then sizes, edge ranges and flag combinations node by node, then
/// reciprocity node by node, then loop headers and backedges node by node.
pub fn validate(graph: &Graph, opts: &Opts) -> (r: Result<(), LayoutErr>)
    ensures
        opts_error(*opts) matches Some(e) ==> r == Err::<(), LayoutErr>(e),
        opts_error(*opts) is None ==> (graph_error(graph@) matches Some(e) ==> r == Err::<
            (),
            LayoutErr,
        >(e)),
        opts_error(*opts) is None && graph_error(graph@) is None ==> r == cycle_verdict(graph@),
        opts_error(*opts) is None && graph_error(graph@) is None ==> (r is Ok <==> acyclic(
            graph@,
        )),
        opts_error(*opts) is None && graph_error(graph@) is None ==> (r matches Err(e) ==> e matches LayoutErr::UnmarkedCycle(d)
            && d.0 < graph@.len() && on_cycle(graph@, d.0 as int)),
        r is Ok ==> well_formed(graph@),
{
    opts_check(opts)?;
    graph_check(graph)?;
    detect_cycles(graph)?;
    Ok(())
}

/// Every node of a graph that passes validation has a width and a height
/// that are finite `f64` values and not below zero: the exponent bits are
/// not all set, and the sign bit is clear unless the value is `-0.0`.
pub proof fn lemma_valid_sizes(g: Seq<Node>)
    requires
        well_formed(g),
    ensures
        forall|i: int|
            0 <= i < g.len() ==> {
                let s = (#[trigger] g[i]).size;
                &&& s.w & 0x7ff0_0000_0000_0000u64 != 0x7ff0_0000_0000_0000u64
                &&& s.h & 0x7ff0_0000_0000_0000u64 != 0x7ff0_0000_0000_0000u64
                &&& s.w < 0x8000_0000_0000_0000u64 || s.w == 0x8000_0000_0000_0000u64
                &&& s.h < 0x8000_0000_0000_0000u64 || s.h == 0x8000_0000_0000_0000u64
            },
{
    assert forall|i: int| 0 <= i < g.len() implies {
        let s = (#[trigger] g[i]).size;
        &&& s.w & 0x7ff0_0000_0000_0000u64 != 0x7ff0_0000_0000_0000u64
        &&& s.h & 0x7ff0_0000_0000_0000u64 != 0x7ff0_0000_0000_0000u64
        &&& s.w < 0x8000_0000_0000_0000u64 || s.w == 0x8000_0000_0000_0000u64
        &&& s.h < 0x8000_0000_0000_0000u64 || s.h == 0x8000_0000_0000_0000u64
    } by {
        assert(!geom_bad(g[i]));
        let w = g[i].size.w;
        let h = g[i].size.h;
        assert(is_finite(w) && is_finite(h) && !is_negative(w) && !is_negative(h));
        assert(((w >> 52u64) & 0x7ffu64 != 0x7ffu64) ==> w & 0x7ff0_0000_0000_0000u64 != 0x7ff0_0000_0000_0000u64)
            by (bit_vector);
        assert(((h >> 52u64) & 0x7ffu64 != 0x7ffu64) ==> h & 0x7ff0_0000_0000_0000u64 != 0x7ff0_0000_0000_0000u64)
            by (bit_vector);
        assert(!((w >> 63u64) == 1u64 && (w & 0x7fff_ffff_ffff_ffffu64) != 0u64) ==> (w < 0x8000_0000_0000_0000u64
            || w == 0x8000_0000_0000_0000u64)) by (bit_vector);
        assert(!((h >> 63u64) == 1u64 && (h & 0x7fff_ffff_ffff_ffffu64) != 0u64) ==> (h < 0x8000_0000_0000_0000u64
            || h == 0x8000_0000_0000_0000u64)) by (bit_vector);
    }
}

/// A graph that passes every structural check and whose unmarked edges are
/// ranked within `0..len`.
pub open spec fn well_formed(g: Seq<Node>) -> bool {
    &&& graph_error(g) is None
    &&& edges_in_range(g)
    &&& sizes_ok(g)
    &&& exists|ord: Seq<int>| ranked_within(g, ord)
}

/// An adjacency entry of a well-formed graph names one of its nodes.
pub proof fn lemma_edges_in_range(g: Seq<Node>, i: int, k: int)
    requires
        well_formed(g),
        0 <= i < g.len(),
    ensures
        0 <= k < g[i].preds@.len() ==> g[i].preds@[k].0 < g.len(),
        0 <= k < g[i].succs@.len() ==> g[i].succs@[k].0 < g.len(),
{
    if 0 <= k < g[i].preds@.len() {
        assert(g[i].preds@[k].0 < g.len());
    }
    if 0 <= k < g[i].succs@.len() {
        assert(g[i].succs@[k].0 < g.len());
    }
}

/// The per-node facts that a well-formed graph guarantees.
pub open spec fn node_facts(g: Seq<Node>, i: int) -> bool {
    let n = g[i];
    &&& !(header_flag(n) && backedge_flag(n))
    &&& osr_flag(n) ==> !(n.preds@.len() == 0 && n.succs@.len() == 0)
    &&& forall|k: int| 0 <= k < n.succs@.len() ==> seq_has(g[(#[trigger] n.succs@[k]).0 as int].preds@, Id(i as usize))
    &&& forall|k: int| 0 <= k < n.preds@.len() ==> seq_has(g[(#[trigger] n.preds@[k]).0 as int].succs@, Id(i as usize))
    &&& header_flag(n) ==> backedge_count(g, n.preds@) == 1
    &&& backedge_flag(n) ==> n.succs@.len() == 1 && header_flag(g[n.succs@[0].0 as int])
}

/// A well-formed graph satisfies every per-node check.
pub proof fn lemma_node_facts(g: Seq<Node>)
    requires
        well_formed(g),
    ensures
        forall|i: int| 0 <= i < g.len() ==> #[trigger] node_facts(g, i),
{
    let b1 = |i: int| node_err(g, 1, i) is Some;
    let b2 = |i: int| node_err(g, 2, i) is Some;
    let b3 = |i: int| node_err(g, 3, i) is Some;
    lemma_first_index_none(g.len() as int, b1);
    lemma_first_index_none(g.len() as int, b2);
    lemma_first_index_none(g.len() as int, b3);
    assert forall|i: int| 0 <= i < g.len() implies #[trigger] node_facts(g, i) by {
        assert(!b1(i) && !b2(i) && !b3(i));
        let bs = |k: int| bad_succ(g, i, k);
        let bp = |k: int| bad_pred(g, i, k);
        lemma_first_index_none(g[i].succs@.len() as int, bs);
        lemma_first_index_none(g[i].preds@.len() as int, bp);
        assert forall|k: int| 0 <= k < g[i].succs@.len() implies seq_has(g[(#[trigger] g[i].succs@[k]).0 as int].preds@, Id(i as usize)) by {
            assert(!bs(k));
        }
        assert forall|k: int| 0 <= k < g[i].preds@.len() implies seq_has(g[(#[trigger] g[i].preds@[k]).0 as int].succs@, Id(i as usize)) by {
            assert(!bp(k));
        }
    }
}

/// A list with a positive backedge count names a backedge block.
pub proof fn lemma_count_witness(g: Seq<Node>, s: Seq<Id>)
    requires
        backedge_count(g, s) > 0,
    ensures
        exists|k: int| 0 <= k < s.len() && backedge_flag(g[(#[trigger] s[k]).0 as int]),
    decreases s.len(),
{
    if backedge_flag(g[s.last().0 as int]) {
        assert(s[s.len() - 1] == s.last());
    } else {
        lemma_count_witness(g, s.drop_last());
        let k = choose|k: int| 0 <= k < s.drop_last().len() && backedge_flag(g[(#[trigger] s.drop_last()[k]).0 as int]);
        assert(s[k] == s.drop_last()[k]);
    }
}

} // verus!
