//! Cycles that do not pass through a backedge block.

use vstd::prelude::*;

use crate::err::LayoutErr;
use crate::graph::{Flags, Graph, Id, Node};
use crate::validate::{backedge_flag, succs_in_range};

verus! {

/// The `k`th successor of node `u`, as an index.
pub open spec fn succ_of(g: Seq<Node>, u: int, k: int) -> int {
    g[u].succs@[k].0 as int
}

/// An edge `u -> v` that does not leave a backedge block.
pub open spec fn unmarked_edge(g: Seq<Node>, u: int, v: int) -> bool {
    &&& 0 <= u < g.len()
    &&& !backedge_flag(g[u])
    &&& exists|k: int| 0 <= k < g[u].succs@.len() && #[trigger] succ_of(g, u, k) == v
}

/// `ord` strictly decreases along every unmarked edge.
pub open spec fn ranked_by(g: Seq<Node>, ord: Seq<int>) -> bool {
    &&& ord.len() == g.len()
    &&& forall|u: int, k: int|
        0 <= u < g.len() && !backedge_flag(g[u]) && 0 <= k < g[u].succs@.len() ==> ord[#[trigger] succ_of(g, u, k)] < ord[u]
}

/// The unmarked edges form no cycle: some ranking decreases along all of them.
pub open spec fn acyclic(g: Seq<Node>) -> bool {
    exists|ord: Seq<int>| ranked_by(g, ord)
}

/// A ranking whose values lie in `0..g.len()`.
pub open spec fn ranked_within(g: Seq<Node>, ord: Seq<int>) -> bool {
    &&& ranked_by(g, ord)
    &&& forall|i: int| 0 <= i < g.len() ==> 0 <= #[trigger] ord[i] < g.len()
}

/// Step `x` of `p` follows an unmarked edge.
pub open spec fn path_step(g: Seq<Node>, p: Seq<int>, x: int) -> bool {
    unmarked_edge(g, p[x], p[x + 1])
}

/// `p` is a closed walk through `d` along unmarked edges.
pub open spec fn is_cycle(g: Seq<Node>, p: Seq<int>, d: int) -> bool {
    &&& p.len() >= 2
    &&& p[0] == d
    &&& p.last() == d
    &&& forall|x: int| 0 <= x < p.len() - 1 ==> #[trigger] path_step(g, p, x)
}

/// Node `d` lies on a cycle of unmarked edges.
pub open spec fn on_cycle(g: Seq<Node>, d: int) -> bool {
    exists|p: Seq<int>| is_cycle(g, p, d)
}

/// A graph with a cycle of unmarked edges has no ranking: the two notions of
/// acyclicity agree.
pub proof fn lemma_cycle_unranked(g: Seq<Node>, d: int)
    requires
        on_cycle(g, d),
    ensures
        !acyclic(g),
{
    let p = choose|p: Seq<int>| is_cycle(g, p, d);
    assert forall|ord: Seq<int>| !ranked_by(g, ord) by {
        if ranked_by(g, ord) {
            lemma_walk_descends(g, p, d, ord, p.len() - 1);
        }
    }
}

proof fn lemma_walk_descends(g: Seq<Node>, p: Seq<int>, d: int, ord: Seq<int>, m: int)
    requires
        is_cycle(g, p, d),
        ranked_by(g, ord),
        1 <= m < p.len(),
    ensures
        ord[p[m]] < ord[p[0]],
    decreases m,
{
    assert(path_step(g, p, m - 1));
    let u = p[m - 1];
    let k = choose|k: int| 0 <= k < g[u].succs@.len() && #[trigger] succ_of(g, u, k) == p[m];
    assert(ord[succ_of(g, u, k)] < ord[u]);
    if m > 1 {
        lemma_walk_descends(g, p, d, ord, m - 1);
    }
}

/// Remaining work of the frames on a depth-first stack.
pub open spec fn stack_weight(g: Seq<Node>, s: Seq<(usize, usize)>) -> int
    decreases s.len(),
{
    if s.len() == 0 {
        0
    } else {
        stack_weight(g, s.drop_last()) + (g[s.last().0 as int].succs@.len() - s.last().1 + 1)
    }
}

proof fn lemma_weight_nonneg(g: Seq<Node>, s: Seq<(usize, usize)>)
    requires
        forall|f: int|
            0 <= f < s.len() ==> (#[trigger] s[f]).1 <= g[s[f].0 as int].succs@.len(),
    ensures
        stack_weight(g, s) >= 0,
    decreases s.len(),
{
    if s.len() > 0 {
        let t = s.drop_last();
        assert forall|f: int| 0 <= f < t.len() implies (#[trigger] t[f]).1 <= g[t[f].0 as int].succs@.len() by {
            assert(t[f] == s[f]);
        }
        lemma_weight_nonneg(g, t);
    }
}

/// How many entries of `c` are still white (zero).
pub open spec fn whites(c: Seq<u8>) -> nat
    decreases c.len(),
{
    if c.len() == 0 {
        0
    } else {
        whites(c.drop_last()) + if c.last() == 0 {
            1nat
        } else {
            0nat
        }
    }
}

pub proof fn lemma_whites_update(c: Seq<u8>, i: int, v: u8)
    requires
        0 <= i < c.len(),
        v != 0,
    ensures
        c[i] == 0 ==> whites(c.update(i, v)) + 1 == whites(c),
        c[i] != 0 ==> whites(c.update(i, v)) == whites(c),
    decreases c.len(),
{
    let d = c.update(i, v);
    if i == c.len() - 1 {
        assert(d.drop_last() =~= c.drop_last());
    } else {
        assert(d.drop_last() =~= c.drop_last().update(i, v));
        lemma_whites_update(c.drop_last(), i, v);
    }
}

/// Every frame names a node and a successor position within its list.
pub open spec fn frames_ok(g: Seq<Node>, s: Seq<(usize, usize)>) -> bool {
    forall|f: int| 0 <= f < s.len() ==> (#[trigger] s[f]).0 < g.len() && s[f].1 <= g[s[f].0 as int].succs@.len()
}

pub proof fn lemma_frames_weight(g: Seq<Node>, s: Seq<(usize, usize)>)
    requires
        frames_ok(g, s),
    ensures
        stack_weight(g, s) >= 0,
{
    lemma_weight_nonneg(g, s);
}

/// The depth-first search from a colouring (0 white, 1 on the stack, 2
/// done), a stack of `(node, next successor)` frames and the next root to
/// try: the node it first meets that is still on the stack, or `None` once
/// every root is done.
pub open spec fn dfs_from(g: Seq<Node>, c: Seq<u8>, s: Seq<(usize, usize)>, root: int) -> Option<int>
    decreases whites(c), g.len() - root, stack_weight(g, s),
    when c.len() == g.len() && succs_in_range(g) && frames_ok(g, s) && 0 <= root <= g.len()
{
    if s.len() == 0 {
        if root >= g.len() {
            None
        } else if c[root] != 0 {
            dfs_from(g, c, s, root + 1)
        } else {
            proof {
                lemma_whites_update(c, root, 1);
                let s2 = seq![(root as usize, 0usize)];
                assert(s2[0] == (root as usize, 0usize));
                lemma_frames_weight(g, s2);
            }
            dfs_from(g, c.update(root, 1), seq![(root as usize, 0usize)], root)
        }
    } else {
        let node = s.last().0 as int;
        let next = s.last().1 as int;
        let t = s.drop_last();
        proof {
            assert(s[s.len() - 1] == s.last());
            assert forall|f: int| 0 <= f < t.len() implies (#[trigger] t[f]).0 < g.len() && t[f].1 <= g[t[f].0 as int].succs@.len() by {
                assert(t[f] == s[f]);
            }
            lemma_frames_weight(g, t);
        }
        if backedge_flag(g[node]) || next == g[node].succs@.len() {
            proof {
                lemma_whites_update(c, node, 2);
            }
            dfs_from(g, c.update(node, 2), t, root)
        } else {
            let dst = succ_of(g, node, next);
            let t2 = t.push((node as usize, (next + 1) as usize));
            proof {
                assert(0 <= dst < g.len());
                assert forall|f: int| 0 <= f < t2.len() implies (#[trigger] t2[f]).0 < g.len() && t2[f].1 <= g[t2[f].0 as int].succs@.len() by {
                    if f < t.len() {
                        assert(t2[f] == t[f]);
                    }
                }
                lemma_frames_weight(g, t2);
                assert(t2.drop_last() =~= t);
            }
            if c[dst] == 0 {
                proof {
                    lemma_whites_update(c, dst, 1);
                    let t3 = t2.push((dst as usize, 0usize));
                    assert forall|f: int| 0 <= f < t3.len() implies (#[trigger] t3[f]).0 < g.len() && t3[f].1 <= g[t3[f].0 as int].succs@.len() by {
                        if f < t2.len() {
                            assert(t3[f] == t2[f]);
                        }
                    }
                    lemma_frames_weight(g, t3);
                }
                dfs_from(g, c.update(dst, 1), t2.push((dst as usize, 0usize)), root)
            } else if c[dst] == 1 {
                Some(dst)
            } else {
                proof {
                    assert(t2.last() == (node as usize, (next + 1) as usize));
                    assert(t2.drop_last() =~= t);
                    assert(0 <= node < g.len() && next < g[node].succs@.len());
                    assert(g[node].succs@.len() == g[node].succs.len());
                    assert(t2.last().1 == next + 1);
                    assert(stack_weight(g, t2) == stack_weight(g, t2.drop_last()) + (g[t2.last().0 as int].succs@.len() - t2.last().1 + 1));
                    assert(stack_weight(g, t2) == stack_weight(g, t) + g[node].succs@.len() - next);
                    assert(stack_weight(g, s) == stack_weight(g, t) + g[node].succs@.len() - next + 1);
                }
                dfs_from(g, c, t2, root)
            }
        }
    }
}

/// The node that the depth-first search over all roots in index order first
/// finds still on its stack, if any.
pub open spec fn first_cycle(g: Seq<Node>) -> Option<int> {
    dfs_from(g, Seq::new(g.len(), |i: int| 0u8), Seq::empty(), 0)
}

/// What `detect_cycles` answers for `g`.
pub open spec fn cycle_verdict(g: Seq<Node>) -> Result<(), LayoutErr> {
    match first_cycle(g) {
        Some(d) => Err(LayoutErr::UnmarkedCycle(Id(d as usize))),
        None => Ok(()),
    }
}

/// The state of the depth-first search shared by both of its loops.
pub open spec fn dfs_inv(
    g: Seq<Node>,
    color: Seq<u8>,
    stack: Seq<(usize, usize)>,
    visited: Set<int>,
    ord: Seq<int>,
    counter: int,
) -> bool {
    let n = g.len();
    &&& color.len() == n
    &&& ord.len() == n
    &&& visited.finite()
    &&& visited.len() <= n
    &&& forall|x: int| visited.contains(x) ==> 0 <= x < n
    &&& forall|i: int| 0 <= i < n ==> (#[trigger] color[i] <= 2 && (color[i] != 0 <==> visited.contains(i)))
    &&& forall|f: int|
        0 <= f < stack.len() ==> {
            &&& (#[trigger] stack[f]).0 < n
            &&& stack[f].1 <= g[stack[f].0 as int].succs@.len()
            &&& color[stack[f].0 as int] == 1
        }
    &&& forall|a: int, b: int| 0 <= a < b < stack.len() ==> (#[trigger] stack[a]).0 != (#[trigger] stack[b]).0
    &&& forall|x: int| 0 <= x < n && #[trigger] color[x] == 1 ==> exists|f: int| 0 <= f < stack.len() && (#[trigger] stack[f]).0 == x
    &&& forall|f: int|
        0 <= f < stack.len() - 1 ==> {
            &&& (#[trigger] stack[f]).1 >= 1
            &&& !backedge_flag(g[stack[f].0 as int])
            &&& succ_of(g, stack[f].0 as int, stack[f].1 - 1) == stack[f + 1].0
        }
    &&& forall|f: int, k: int|
        0 <= f < stack.len() && 0 <= k < stack[f].1 ==> color[#[trigger] succ_of(g, stack[f].0 as int, k)] == 2 || (k == stack[f].1 - 1 && f + 1 < stack.len() && stack[f + 1].0 == succ_of(g, stack[f].0 as int, k))
    &&& counter >= 0
    &&& counter + stack.len() == visited.len()
    &&& forall|u: int|
        0 <= u < n && #[trigger] color[u] == 2 ==> {
            &&& 0 <= ord[u] < counter
            &&& !backedge_flag(g[u]) ==> forall|k: int|
                0 <= k < g[u].succs@.len() ==> color[#[trigger] succ_of(g, u, k)] == 2 && ord[succ_of(g, u, k)] < ord[u]
        }
}

proof fn lemma_start(g: Seq<Node>, c: Seq<u8>, v: Set<int>, ord: Seq<int>, cnt: int, root: usize)
    requires
        dfs_inv(g, c, Seq::empty(), v, ord, cnt),
        succs_in_range(g),
        root < g.len(),
        c[root as int] == 0,
    ensures
        dfs_inv(g, c.update(root as int, 1), seq![(root, 0usize)], v.insert(root as int), ord, cnt),
{
    let c2 = c.update(root as int, 1);
    let s2 = seq![(root, 0usize)];
    let v2 = v.insert(root as int);
    assert forall|i: int| 0 <= i < g.len() implies (#[trigger] c2[i] <= 2 && (c2[i] != 0 <==> v2.contains(i))) by {
        if i != root {
            assert(c[i] <= 2 && (c[i] != 0 <==> v.contains(i)));
        }
    }
    vstd::set_lib::lemma_int_range(0, g.len() as int);
    vstd::set_lib::lemma_len_subset(v2, vstd::set_lib::set_int_range(0, g.len() as int));
    assert forall|x: int| 0 <= x < g.len() && #[trigger] c2[x] == 1 implies exists|f: int| 0 <= f < s2.len() && (#[trigger] s2[f]).0 == x by {
        if x != root {
            assert(c[x] == 1);
            assert(false);
        }
        assert(s2[0] == (root, 0usize));
        assert(s2[0].0 == x);
    }
    assert forall|u: int| 0 <= u < g.len() && #[trigger] c2[u] == 2 implies {
        &&& 0 <= ord[u] < cnt
        &&& !backedge_flag(g[u]) ==> forall|k: int|
            0 <= k < g[u].succs@.len() ==> c2[#[trigger] succ_of(g, u, k)] == 2 && ord[succ_of(g, u, k)] < ord[u]
    } by {
        assert(c[u] == 2);
        if !backedge_flag(g[u]) {
            assert forall|k: int| 0 <= k < g[u].succs@.len() implies c2[#[trigger] succ_of(g, u, k)] == 2 && ord[succ_of(g, u, k)] < ord[u] by {
                assert(c[succ_of(g, u, k)] == 2);
            }
        }
    }
}

proof fn lemma_finish(
    g: Seq<Node>,
    c: Seq<u8>,
    s: Seq<(usize, usize)>,
    v: Set<int>,
    ord: Seq<int>,
    cnt: int,
    node: usize,
    next: usize,
)
    requires
        dfs_inv(g, c, s, v, ord, cnt),
        succs_in_range(g),
        s.len() > 0,
        s.last() == (node, next),
        backedge_flag(g[node as int]) || next == g[node as int].succs@.len(),
    ensures
        dfs_inv(g, c.update(node as int, 2), s.drop_last(), v, ord.update(node as int, cnt), cnt + 1),
{
    let n = g.len();
    let c2 = c.update(node as int, 2);
    let s2 = s.drop_last();
    let o2 = ord.update(node as int, cnt);
    let top = s.len() - 1;
    assert(s[top] == (node, next));
    assert(0 <= node < n);
    assert forall|f: int| 0 <= f < s2.len() implies {
        &&& (#[trigger] s2[f]).0 < n
        &&& s2[f].1 <= g[s2[f].0 as int].succs@.len()
        &&& c2[s2[f].0 as int] == 1
    } by {
        assert(s2[f] == s[f]);
        assert(s[f].0 != s[top].0);
    }
    assert forall|a: int, b: int| 0 <= a < b < s2.len() implies (#[trigger] s2[a]).0 != (#[trigger] s2[b]).0 by {
        assert(s2[a] == s[a] && s2[b] == s[b]);
        assert(s[a].0 != s[b].0);
    }
    assert forall|x: int| 0 <= x < n && #[trigger] c2[x] == 1 implies exists|f: int| 0 <= f < s2.len() && (#[trigger] s2[f]).0 == x by {
        assert(x != node);
        assert(c[x] == 1);
        let f = choose|f: int| 0 <= f < s.len() && (#[trigger] s[f]).0 == x;
        assert(f != top);
        assert(s2[f].0 == x);
    }
    assert forall|f: int| 0 <= f < s2.len() - 1 implies {
        &&& (#[trigger] s2[f]).1 >= 1
        &&& !backedge_flag(g[s2[f].0 as int])
        &&& succ_of(g, s2[f].0 as int, s2[f].1 - 1) == s2[f + 1].0
    } by {
        assert(s2[f] == s[f]);
        assert(s2[f + 1] == s[f + 1]);
        assert(s[f].1 >= 1);
    }
    assert forall|f: int, k: int|
        0 <= f < s2.len() && 0 <= k < s2[f].1 implies c2[#[trigger] succ_of(g, s2[f].0 as int, k)] == 2 || (k == s2[f].1 - 1 && f + 1 < s2.len() && s2[f + 1].0 == succ_of(g, s2[f].0 as int, k)) by {
        assert(s2[f] == s[f]);
        if f + 1 < s2.len() {
            assert(s2[f + 1] == s[f + 1]);
        }
        let t = succ_of(g, s[f].0 as int, k);
        if c[t] != 2 {
            assert(k == s[f].1 - 1 && f + 1 < s.len() && s[f + 1].0 == t);
            if f + 1 == top {
                assert(t == node);
            }
        }
    }
    assert forall|u: int| 0 <= u < n && #[trigger] c2[u] == 2 implies {
        &&& 0 <= o2[u] < cnt + 1
        &&& !backedge_flag(g[u]) ==> forall|k: int|
            0 <= k < g[u].succs@.len() ==> c2[#[trigger] succ_of(g, u, k)] == 2 && o2[succ_of(g, u, k)] < o2[u]
    } by {
        if u == node {
            if !backedge_flag(g[u]) {
                assert forall|k: int| 0 <= k < g[u].succs@.len() implies c2[#[trigger] succ_of(g, u, k)] == 2 && o2[succ_of(g, u, k)] < o2[u] by {
                    let t = succ_of(g, u, k);
                    assert(s[top].1 == next);
                    assert(c[succ_of(g, s[top].0 as int, k)] == 2 || (k == s[top].1 - 1 && top + 1 < s.len()));
                    assert(c[t] == 2);
                    assert(t != node);
                }
            }
        } else {
            assert(c[u] == 2);
            if !backedge_flag(g[u]) {
                assert forall|k: int| 0 <= k < g[u].succs@.len() implies c2[#[trigger] succ_of(g, u, k)] == 2 && o2[succ_of(g, u, k)] < o2[u] by {
                    let t = succ_of(g, u, k);
                    assert(c[succ_of(g, u, k)] == 2);
                    assert(t != node);
                }
            }
        }
    }
}

proof fn lemma_advance(
    g: Seq<Node>,
    c: Seq<u8>,
    s: Seq<(usize, usize)>,
    v: Set<int>,
    ord: Seq<int>,
    cnt: int,
    node: usize,
    next: usize,
)
    requires
        dfs_inv(g, c, s, v, ord, cnt),
        succs_in_range(g),
        s.len() > 0,
        s.last() == (node, next),
        !backedge_flag(g[node as int]),
        next < g[node as int].succs@.len(),
        next + 1 <= usize::MAX,
        c[succ_of(g, node as int, next as int)] == 2,
    ensures
        dfs_inv(g, c, s.drop_last().push((node, (next + 1) as usize)), v, ord, cnt),
{
    let n = g.len();
    let s2 = s.drop_last().push((node, (next + 1) as usize));
    let top = s.len() - 1;
    assert(s[top] == (node, next));
    assert forall|f: int| 0 <= f < s2.len() && f != top implies s2[f] == s[f] by {}
    assert(s2[top].0 == s[top].0);
    assert forall|f: int| 0 <= f < s2.len() implies {
        &&& (#[trigger] s2[f]).0 < n
        &&& s2[f].1 <= g[s2[f].0 as int].succs@.len()
        &&& c[s2[f].0 as int] == 1
    } by {
        assert(s[f].0 == s2[f].0);
    }
    assert forall|a: int, b: int| 0 <= a < b < s2.len() implies (#[trigger] s2[a]).0 != (#[trigger] s2[b]).0 by {
        assert(s[a].0 == s2[a].0 && s[b].0 == s2[b].0);
        assert(s[a].0 != s[b].0);
    }
    assert forall|x: int| 0 <= x < n && #[trigger] c[x] == 1 implies exists|f: int| 0 <= f < s2.len() && (#[trigger] s2[f]).0 == x by {
        let f = choose|f: int| 0 <= f < s.len() && (#[trigger] s[f]).0 == x;
        assert(s2[f].0 == x);
    }
    assert forall|f: int| 0 <= f < s2.len() - 1 implies {
        &&& (#[trigger] s2[f]).1 >= 1
        &&& !backedge_flag(g[s2[f].0 as int])
        &&& succ_of(g, s2[f].0 as int, s2[f].1 - 1) == s2[f + 1].0
    } by {
        assert(s2[f] == s[f]);
        assert(s[f + 1].0 == s2[f + 1].0);
        assert(s[f].1 >= 1);
    }
    assert forall|f: int, k: int|
        0 <= f < s2.len() && 0 <= k < s2[f].1 implies c[#[trigger] succ_of(g, s2[f].0 as int, k)] == 2 || (k == s2[f].1 - 1 && f + 1 < s2.len() && s2[f + 1].0 == succ_of(g, s2[f].0 as int, k)) by {
        if f == top {
            if k < next {
                assert(c[succ_of(g, s[top].0 as int, k)] == 2 || (k == s[top].1 - 1 && top + 1 < s.len()));
            }
        } else {
            assert(s2[f] == s[f]);
            assert(s[f + 1].0 == s2[f + 1].0);
            assert(c[succ_of(g, s[f].0 as int, k)] == 2 || (k == s[f].1 - 1 && f + 1 < s.len() && s[f + 1].0 == succ_of(g, s[f].0 as int, k)));
        }
    }
}

proof fn lemma_descend(
    g: Seq<Node>,
    c: Seq<u8>,
    s: Seq<(usize, usize)>,
    v: Set<int>,
    ord: Seq<int>,
    cnt: int,
    node: usize,
    next: usize,
    dst: usize,
)
    requires
        dfs_inv(g, c, s, v, ord, cnt),
        succs_in_range(g),
        s.len() > 0,
        s.last() == (node, next),
        !backedge_flag(g[node as int]),
        next < g[node as int].succs@.len(),
        next + 1 <= usize::MAX,
        dst == succ_of(g, node as int, next as int),
        c[dst as int] == 0,
    ensures
        dfs_inv(
            g,
            c.update(dst as int, 1),
            s.drop_last().push((node, (next + 1) as usize)).push((dst, 0usize)),
            v.insert(dst as int),
            ord,
            cnt,
        ),
        v.insert(dst as int).len() == v.len() + 1,
{
    let n = g.len();
    let c2 = c.update(dst as int, 1);
    let s2 = s.drop_last().push((node, (next + 1) as usize)).push((dst, 0usize));
    let v2 = v.insert(dst as int);
    assert(!v.contains(dst as int));
    let top = s.len() - 1;
    assert(s[top] == (node, next));
    assert(g[node as int].succs@[next as int].0 < n);
    assert(dst < n);
    assert forall|f: int| 0 <= f < top implies s2[f] == s[f] by {}
    assert(s2[top] == (node, (next + 1) as usize));
    assert(s2[top + 1] == (dst, 0usize));
    assert forall|i: int| 0 <= i < n implies (#[trigger] c2[i] <= 2 && (c2[i] != 0 <==> v2.contains(i))) by {
        if i != dst {
            assert(c[i] <= 2 && (c[i] != 0 <==> v.contains(i)));
        }
    }
    assert forall|f: int| 0 <= f < s2.len() implies {
        &&& (#[trigger] s2[f]).0 < n
        &&& s2[f].1 <= g[s2[f].0 as int].succs@.len()
        &&& c2[s2[f].0 as int] == 1
    } by {
        if f < s.len() {
            assert(s[f].0 == s2[f].0);
            assert(c[s[f].0 as int] == 1);
        }
    }
    assert forall|a: int, b: int| 0 <= a < b < s2.len() implies (#[trigger] s2[a]).0 != (#[trigger] s2[b]).0 by {
        assert(s[a].0 == s2[a].0);
        if b < s.len() {
            assert(s[b].0 == s2[b].0);
            assert(s[a].0 != s[b].0);
        } else {
            assert(c[s[a].0 as int] == 1);
        }
    }
    assert forall|x: int| 0 <= x < n && #[trigger] c2[x] == 1 implies exists|f: int| 0 <= f < s2.len() && (#[trigger] s2[f]).0 == x by {
        if x == dst {
            assert(s2[top + 1].0 == x);
        } else {
            assert(c[x] == 1);
            let f = choose|f: int| 0 <= f < s.len() && (#[trigger] s[f]).0 == x;
            assert(s2[f].0 == x);
        }
    }
    assert forall|f: int| 0 <= f < s2.len() - 1 implies {
        &&& (#[trigger] s2[f]).1 >= 1
        &&& !backedge_flag(g[s2[f].0 as int])
        &&& succ_of(g, s2[f].0 as int, s2[f].1 - 1) == s2[f + 1].0
    } by {
        if f < top {
            assert(s2[f] == s[f]);
            assert(s[f + 1].0 == s2[f + 1].0);
            assert(s[f].1 >= 1);
        } else {
            assert(f == top);
            assert(s2[f] == (node, (next + 1) as usize));
            assert(s2[f + 1].0 == dst);
        }
    }
    assert forall|f: int, k: int|
        0 <= f < s2.len() && 0 <= k < s2[f].1 implies c2[#[trigger] succ_of(g, s2[f].0 as int, k)] == 2 || (k == s2[f].1 - 1 && f + 1 < s2.len() && s2[f + 1].0 == succ_of(g, s2[f].0 as int, k)) by {
        if f == top {
            if k < next {
                assert(c[succ_of(g, s[top].0 as int, k)] == 2 || (k == s[top].1 - 1 && top + 1 < s.len()));
                assert(succ_of(g, s[top].0 as int, k) != dst);
            }
        } else if f < top {
            assert(s2[f] == s[f]);
            assert(s[f + 1].0 == s2[f + 1].0);
            let t = succ_of(g, s[f].0 as int, k);
            assert(c[t] == 2 || (k == s[f].1 - 1 && f + 1 < s.len() && s[f + 1].0 == t));
            if c[t] == 2 {
                assert(t != dst);
            }
        }
    }
    assert forall|u: int| 0 <= u < n && #[trigger] c2[u] == 2 implies {
        &&& 0 <= ord[u] < cnt
        &&& !backedge_flag(g[u]) ==> forall|k: int|
            0 <= k < g[u].succs@.len() ==> c2[#[trigger] succ_of(g, u, k)] == 2 && ord[succ_of(g, u, k)] < ord[u]
    } by {
        assert(u != dst);
        assert(c[u] == 2);
        if !backedge_flag(g[u]) {
            assert forall|k: int| 0 <= k < g[u].succs@.len() implies c2[#[trigger] succ_of(g, u, k)] == 2 && ord[succ_of(g, u, k)] < ord[u] by {
                assert(c[succ_of(g, u, k)] == 2);
            }
        }
    }
    vstd::set_lib::lemma_int_range(0, n as int);
    vstd::set_lib::lemma_len_subset(v2, vstd::set_lib::set_int_range(0, n as int));
}

/// Looks for a cycle that does not leave through a backedge block.
///
/// Returns `Ok` exactly when the unmarked edges are acyclic; otherwise the
/// error names a node on such a cycle.
pub fn detect_cycles(graph: &Graph) -> (r: Result<(), LayoutErr>)
    requires
        succs_in_range(graph@),
    ensures
        r == cycle_verdict(graph@),
        r is Ok <==> acyclic(graph@),
        r is Ok ==> exists|ord: Seq<int>| ranked_within(graph@, ord),
        r matches Err(e) ==> e matches LayoutErr::UnmarkedCycle(d) && d.0 < graph@.len() && on_cycle(graph@, d.0 as int),
{
    let ghost g = graph@;
    let nodes = graph.nodes();
    let n = nodes.len();
    let mut color: Vec<u8> = Vec::new();
    let mut i: usize = 0;
    while i < n
        invariant
            i <= n,
            color@.len() == i,
            forall|j: int| 0 <= j < i ==> color@[j] == 0,
        decreases n - i,
    {
        color.push(0);
        i = i + 1;
    }
    let mut stack: Vec<(usize, usize)> = Vec::new();
    assert(color@ =~= Seq::new(n as nat, |j: int| 0u8));
    assert(frames_ok(g, stack@));
    let ghost mut ord: Seq<int> = Seq::new(n as nat, |j: int| 0);
    let ghost mut counter: int = 0;
    let ghost mut visited: Set<int> = Set::empty();
    let mut root: usize = 0;
    while root < n
        invariant
            g == graph@,
            nodes@ == g,
            n == g.len(),
            succs_in_range(g),
            root <= n,
            stack@.len() == 0,
            dfs_inv(g, color@, stack@, visited, ord, counter),
            forall|j: int| 0 <= j < root ==> #[trigger] color@[j] == 2,
            dfs_from(g, color@, stack@, root as int) == first_cycle(g),
        decreases n - root,
    {
        assert(frames_ok(g, stack@));
        if color[root] != 0 {
            assert(color@[root as int] != 1);
            assert(dfs_from(g, color@, stack@, root as int) == dfs_from(g, color@, stack@, root + 1));
            root = root + 1;
            continue;
        }
        let ghost c0 = color@;
        proof {
            assert(color@[root as int] == 0);
            lemma_start(g, color@, visited, ord, counter, root);
            vstd::set_lib::lemma_int_range(0, n as int);
            vstd::set_lib::lemma_len_subset(visited.insert(root as int), vstd::set_lib::set_int_range(0, n as int));
        }
        color.set(root, 1);
        proof {
            visited = visited.insert(root as int);
        }
        stack.push((root, 0));
        assert(stack@ =~= seq![(root, 0usize)]);
        assert(dfs_from(g, c0, Seq::empty(), root as int) == dfs_from(g, color@, stack@, root as int));
        let ghost start = visited;
        while stack.len() > 0
            invariant
                g == graph@,
                nodes@ == g,
                n == g.len(),
                succs_in_range(g),
                root < n,
                color@[root as int] != 0,
                dfs_inv(g, color@, stack@, visited, ord, counter),
                forall|j: int| 0 <= j < root ==> #[trigger] color@[j] == 2,
                dfs_from(g, color@, stack@, root as int) == first_cycle(g),
            decreases n - visited.len(), stack_weight(g, stack@),
        {
            assert(frames_ok(g, stack@));
            let ghost res = dfs_from(g, color@, stack@, root as int);
            let ghost old_stack = stack@;
            let ghost old_color = color@;
            let ghost old_visited = visited;
            let (node, next) = stack.pop().unwrap();
            assert(old_stack[old_stack.len() - 1] == (node, next));
            assert(stack@ =~= old_stack.drop_last());
            let current = &nodes[node];
            if current.flags.contains(Flags::backedge()) || next == current.succs.len() {
                proof {
                    lemma_finish(g, color@, old_stack, visited, ord, counter, node, next);
                }
                color.set(node, 2);
                assert(res == dfs_from(g, color@, stack@, root as int));
                proof {
                    ord = ord.update(node as int, counter);
                    counter = counter + 1;
                    lemma_weight_nonneg(g, stack@);
                    lemma_weight_nonneg(g, old_stack);
                }
                continue;
            }
            stack.push((node, next + 1));
            let dst = current.succs[next].0;
            assert(dst as int == succ_of(g, node as int, next as int));
            let state = color[dst];
            assert(old_stack.drop_last().push((node, (next + 1) as usize)) =~= stack@);
            if state == 0 {
                proof {
                    lemma_descend(g, color@, old_stack, visited, ord, counter, node, next, dst);
                }
                color.set(dst, 1);
                proof {
                    visited = visited.insert(dst as int);
                }
                stack.push((dst, 0));
                assert(res == dfs_from(g, color@, stack@, root as int));
                assert(n - visited.len() < n - old_visited.len());
            } else if state == 1 {
                proof {
                    let s = old_stack;
                    let len = s.len() as int;
                    assert(color@[dst as int] == 1);
                    let f = choose|f: int| 0 <= f < s.len() && (#[trigger] s[f]).0 == dst;
                    let p = Seq::new((len - f + 1) as nat, |x: int| if x < len - f { s[f + x].0 as int } else { dst as int });
                    assert forall|x: int| 0 <= x < p.len() - 1 implies #[trigger] path_step(g, p, x) by {
                        let u = s[f + x].0 as int;
                        if f + x < len - 1 {
                            let k = s[f + x].1 - 1;
                            assert(s[f + x].1 >= 1);
                            assert(succ_of(g, u, k) == s[f + x + 1].0);
                            assert(p[x + 1] == s[f + x + 1].0);
                        } else {
                            assert(u == node);
                            assert(succ_of(g, u, next as int) == dst);
                        }
                    }
                    assert(is_cycle(g, p, dst as int));
                    lemma_cycle_unranked(g, dst as int);
                    assert(res == Some(dst as int));
                }
                return Err(LayoutErr::UnmarkedCycle(Id(dst)));
            } else {
                proof {
                    lemma_advance(g, color@, old_stack, visited, ord, counter, node, next);
                    lemma_weight_nonneg(g, old_stack);
                    assert(stack@.drop_last() =~= old_stack.drop_last());
                    assert(stack_weight(g, stack@) < stack_weight(g, old_stack));
                    lemma_weight_nonneg(g, stack@);
                    assert(res == dfs_from(g, color@, stack@, root as int));
                }
            }
        }
        assert(frames_ok(g, stack@));
        assert(dfs_from(g, color@, stack@, root as int) == dfs_from(g, color@, stack@, root + 1));
        root = root + 1;
    }
    assert(frames_ok(g, stack@));
    assert(first_cycle(g) is None);
    proof {
        assert forall|u: int, k: int|
            0 <= u < g.len() && !backedge_flag(g[u]) && 0 <= k < g[u].succs@.len() implies ord[#[trigger] succ_of(g, u, k)] < ord[u] by {
            assert(color@[u] == 2);
        }
        assert(ranked_by(g, ord));
        assert forall|i: int| 0 <= i < g.len() implies 0 <= #[trigger] ord[i] < g.len() by {
            assert(color@[i] == 2);
        }
        assert(ranked_within(g, ord));
    }
    Ok(())
}

} // verus!
