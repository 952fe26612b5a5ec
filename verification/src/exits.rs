//! Where the layering search puts the blocks that leave a loop.
//!
//! A loop's exits are placed below the loop: at the header's layer plus the
//! loop's height, which covers every block of the loop. The facts here hold
//! of graphs whose loops are entered through their headers only, and they
//! are carried through the search one step at a time.
use vstd::prelude::*;

use crate::cycles::{ranked_within, succ_of};
use crate::engine::{BlockState, Frame, Phase};
use crate::graph::Node;
use crate::validate::{backedge_flag, header_flag};

verus! {

/// Loop `h` is `l` or is reached from `l` within `fuel` steps up the
/// parent chain.
pub open spec fn chain_has(d: Seq<BlockState>, l: int, h: int, fuel: nat) -> bool
    decreases fuel,
{
    if l == h {
        true
    } else if fuel > 0 && 0 <= l < d.len() {
        match d[l].parent {
            Some(p) => chain_has(d, p as int, h, (fuel - 1) as nat),
            None => false,
        }
    } else {
        false
    }
}

/// Block `x` lies inside loop `h` (directly or in a nested loop) and is not
/// `h` itself.
pub open spec fn under(d: Seq<BlockState>, h: int, x: int) -> bool {
    &&& x != h
    &&& 0 <= x < d.len()
    &&& match d[x].loop_id {
        Some(l) => chain_has(d, l as int, h, d.len()),
        None => false,
    }
}

/// Block `x` lies inside no loop.
pub open spec fn outside(d: Seq<BlockState>, x: int) -> bool {
    forall|h: int| !#[trigger] under(d, h, x)
}

/// The loops of `d` are properly nested and entered through their headers
/// only, and `ord` ranks the blocks along the edges that do not leave a
/// backedge block, with every loop ranked above the blocks inside it.
pub open spec fn nested(g: Seq<Node>, d: Seq<BlockState>, ord: Seq<int>) -> bool {
    &&& d.len() == g.len()
    &&& g.len() <= usize::MAX
    &&& ranked_within(g, ord)
    &&& forall|p: int, k: int| 0 <= p < g.len() && 0 <= k < g[p].succs@.len() ==> 0 <= #[trigger] succ_of(g, p, k) < g.len()
    &&& forall|h: int, x: int| 0 <= h < g.len() && #[trigger] under(d, h, x) ==> ord[x] < ord[h]
    &&& forall|p: int, k: int, h: int|
        0 <= p < g.len() && !backedge_flag(g[p]) && 0 <= k < g[p].succs@.len() && 0 <= h < g.len() && #[trigger] under(
            d,
            h,
            succ_of(g, p, k),
        ) ==> p == h || under(d, h, p)
    &&& forall|y: int, k: int|
        0 <= y < g.len() && !backedge_flag(g[y]) && 0 <= k < g[y].succs@.len() && d[#[trigger] succ_of(g, y, k)].depth
            < d[y].depth ==> (d[y].loop_id matches Some(i) && succ_of(g, y, k) != i && !under(d, i as int, succ_of(g, y, k)))
    &&& forall|h: int| 0 <= h < g.len() && header_flag(#[trigger] g[h]) ==> d[h].loop_id == Some(h as usize) && !backedge_flag(g[h])
    &&& forall|m: int| 0 <= m < g.len() ==> ((#[trigger] d[m]).loop_id matches Some(h) ==> h < g.len() && !backedge_flag(g[h as int]))
}

/// Some ranking makes the loops of `d` nested as `nested` says, and the
/// blocks in `roots` lie inside no loop.
pub open spec fn loops_nested(g: Seq<Node>, d: Seq<BlockState>, roots: Seq<usize>) -> bool {
    &&& exists|ord: Seq<int>| nested(g, d, ord)
    &&& forall|k: int| 0 <= k < roots.len() ==> outside(d, #[trigger] roots[k] as int)
}

/// `b` differs from `a` at most in loop heights, which only grow.
pub open spec fn heights_grow(a: Seq<BlockState>, b: Seq<BlockState>) -> bool {
    &&& b.len() == a.len()
    &&& forall|x: int|
        0 <= x < a.len() ==> {
            &&& (#[trigger] b[x]).layer == a[x].layer
            &&& b[x].outgoing == a[x].outgoing
            &&& b[x].loop_height >= a[x].loop_height
        }
}

/// Block `h` has a frame past its entry on the stack.
pub open spec fn open_at(st: Seq<Frame>, h: int) -> bool {
    exists|j: int| 0 <= j < st.len() && (#[trigger] st[j]).id == h && !(st[j].phase is Enter)
}

/// The frames of the search keep the order, the layers and the loop nesting
/// that the placement of loop exits relies on.
pub open spec fn frames_ok(g: Seq<Node>, d: Seq<BlockState>, ord: Seq<int>, bl: Seq<BlockState>, st: Seq<Frame>) -> bool {
    let n = g.len();
    &&& forall|i: int, j: int|
        #![trigger st[i], st[j]]
        0 <= i < j < st.len() && !(st[j].phase is Enter) ==> ord[st[j].id as int] < ord[st[i].id as int]
    &&& forall|j: int| 0 <= j < st.len() - 1 ==> !(#[trigger] st[j].phase is Enter)
    &&& forall|j: int| 0 <= j < st.len() ==> (#[trigger] st[j]).id < n
    &&& st.len() >= 2 && st.last().phase is Enter && !backedge_flag(g[st.last().id as int]) ==> ord[st.last().id as int]
        < ord[st[st.len() - 2].id as int]
    &&& forall|j: int|
        0 <= j < st.len() && !(#[trigger] st[j].phase is Enter) ==> {
            &&& st[j].layer == bl[st[j].id as int].layer
            &&& !backedge_flag(g[st[j].id as int])
            &&& st[j].phase matches Phase::Out(c) ==> header_flag(g[st[j].id as int]) && c <= bl[st[j].id as int].outgoing@.len()
            &&& st[j].phase matches Phase::Succ(c) ==> c <= g[st[j].id as int].succs@.len()
        }
    &&& forall|j: int, h: int|
        0 <= j < st.len() && !(st[j].phase is Enter) && 0 <= h < n && header_flag(g[h]) && #[trigger] under(
            d,
            h,
            #[trigger] st[j].id as int,
        ) ==> exists|i: int| 0 <= i < j && (#[trigger] st[i]).id == h && st[i].phase is Succ
    &&& st.len() == 1 && st[0].phase is Enter ==> outside(d, st[0].id as int)
    &&& st.len() >= 2 && st.last().phase is Enter ==> {
        let t = st.last();
        let q = st[st.len() - 2];
        ||| q.phase matches Phase::Succ(c) && c >= 1 && c - 1 < g[q.id as int].succs@.len() && succ_of(
            g,
            q.id as int,
            c - 1,
        ) == t.id
        ||| q.phase matches Phase::Out(c) && c >= 1 && c - 1 < bl[q.id as int].outgoing@.len()
            && bl[q.id as int].outgoing@[c - 1] == t.id && t.layer == q.layer + bl[q.id as int].loop_height
    }
}

/// Every recorded exit of a loop is a successor of a block of that loop
/// that leaves it, and ranks below the loop.
pub open spec fn exits_recorded(g: Seq<Node>, d: Seq<BlockState>, ord: Seq<int>, bl: Seq<BlockState>) -> bool {
    let n = g.len();
    forall|h: int, k: int|
        0 <= h < n && 0 <= k < bl[h].outgoing@.len() ==> {
            let s = #[trigger] bl[h].outgoing@[k] as int;
            &&& 0 <= s < n
            &&& !backedge_flag(g[s]) ==> ord[s] < ord[h]
            &&& exists|y: int, p: int|
                0 <= y < n && !backedge_flag(g[y]) && 0 <= p < g[y].succs@.len() && #[trigger] succ_of(g, y, p) == s
                    && d[y].loop_id == Some(h as usize) && d[s].depth < d[y].depth
        }
}

/// Every exit of loop `h` that is not a backedge block lies at least the
/// loop's height below `h`.
pub open spec fn exits_below(g: Seq<Node>, bl: Seq<BlockState>, h: int) -> bool {
    forall|k: int|
        0 <= k < bl[h].outgoing@.len() && !backedge_flag(g[#[trigger] bl[h].outgoing@[k] as int]) ==> bl[bl[h].outgoing@[k] as int].layer
            >= bl[h].layer + bl[h].loop_height
}

/// The height of every loop reaches past each block of the loop that has
/// a layer and is not a backedge block.
pub open spec fn heights_cover(g: Seq<Node>, d: Seq<BlockState>, bl: Seq<BlockState>) -> bool {
    forall|m: int|
        0 <= m < g.len() && !backedge_flag(g[m]) && (#[trigger] bl[m]).layer >= 0 ==> (d[m].loop_id matches Some(h) ==> (h
            < g.len() ==> bl[h as int].loop_height >= bl[m].layer - bl[h as int].layer + 1))
}

/// The edge at port `p` of block `b` is recorded as an exit of the loop of
/// `b`.
pub open spec fn listed(g: Seq<Node>, d: Seq<BlockState>, bl: Seq<BlockState>, b: int, p: int) -> bool {
    d[b].loop_id matches Some(h) && h < g.len() && bl[h as int].outgoing@.contains(succ_of(g, b, p) as usize)
}

/// Every edge that leaves the loop of a block with a layer is recorded as
/// an exit of that loop, unless the block still has that edge to visit.
pub open spec fn exits_listed(g: Seq<Node>, d: Seq<BlockState>, bl: Seq<BlockState>, st: Seq<Frame>) -> bool {
    forall|b: int, p: int|
        #![trigger succ_of(g, b, p)]
        0 <= b < g.len() && !backedge_flag(g[b]) && bl[b].layer >= 0 && 0 <= p < g[b].succs@.len() && d[succ_of(g, b, p)].depth
            < d[b].depth ==> listed(g, d, bl, b, p) || exists|j: int| 0 <= j < st.len() && #[trigger] pending(st[j], b, p)
}

/// Frame `f` is for block `b` and still has port `p` to visit.
pub open spec fn pending(f: Frame, b: int, p: int) -> bool {
    &&& f.id == b
    &&& match f.phase {
        Phase::Succ(c) => c <= p,
        _ => false,
    }
}

/// The placement facts at a point of the search: loops whose exits are
/// being placed have placed the ones before the next, and loops that are
/// done have placed all of theirs.
pub open spec fn exits_ok(g: Seq<Node>, d: Seq<BlockState>, ord: Seq<int>, bl: Seq<BlockState>, st: Seq<Frame>) -> bool {
    &&& frames_ok(g, d, ord, bl, st)
    &&& exits_listed(g, d, bl, st)
    &&& exits_recorded(g, d, ord, bl)
    &&& heights_cover(g, d, bl)
    &&& forall|j: int|
        0 <= j < st.len() ==> ((#[trigger] st[j]).phase matches Phase::Out(c) ==> forall|k: int|
            0 <= k < c && !backedge_flag(g[#[trigger] bl[st[j].id as int].outgoing@[k] as int]) ==> {
                let s = bl[st[j].id as int].outgoing@[k];
                let at = st[j].layer + bl[st[j].id as int].loop_height;
                ||| bl[s as int].layer >= at
                ||| j == st.len() - 2 && st.last().id == s && st.last().phase is Enter && st.last().layer == at
            })
    &&& forall|h: int|
        0 <= h < g.len() && header_flag(g[h]) && bl[h].layer >= 0 && !#[trigger] open_at(st, h) ==> exits_below(g, bl, h)
}

/// Before the search: no layers and no recorded exits.
pub proof fn lemma_exits_start(g: Seq<Node>, d: Seq<BlockState>, ord: Seq<int>, bl: Seq<BlockState>)
    requires
        bl.len() == g.len(),
        forall|b: int| 0 <= b < bl.len() ==> (#[trigger] bl[b]).layer < 0 && bl[b].outgoing@.len() == 0,
    ensures
        exits_ok(g, d, ord, bl, Seq::empty()),
{
}

/// Pushing the entry of a block that lies inside no loop onto an empty
/// stack.
pub proof fn lemma_exits_root(g: Seq<Node>, d: Seq<BlockState>, ord: Seq<int>, bl: Seq<BlockState>, f: Frame)
    requires
        exits_ok(g, d, ord, bl, Seq::empty()),
        f.phase is Enter,
        f.id < g.len(),
        outside(d, f.id as int),
    ensures
        exits_ok(g, d, ord, bl, seq![f]),
{
    let st = seq![f];
    assert(st.last() == f);
    assert forall|h: int| 0 <= h < g.len() && header_flag(g[h]) && bl[h].layer >= 0 && !#[trigger] open_at(st, h) implies exits_below(
        g,
        bl,
        h,
    ) by {
        assert(!open_at(Seq::<Frame>::empty(), h));
    }
}

/// A loop that enters block `x` (the top of `st`) from inside loop `h`
/// has `h` past its entry below it.
proof fn lemma_entry_guarded(
    g: Seq<Node>,
    d: Seq<BlockState>,
    ord: Seq<int>,
    bl: Seq<BlockState>,
    st: Seq<Frame>,
    h: int,
)
    requires
        nested(g, d, ord),
        frames_ok(g, d, ord, bl, st),
        exits_recorded(g, d, ord, bl),
        bl.len() == g.len(),
        st.len() > 0,
        st.last().phase is Enter,
        0 <= h < g.len(),
        header_flag(g[h]),
        under(d, h, st.last().id as int),
    ensures
        exists|i: int| 0 <= i < st.len() - 1 && (#[trigger] st[i]).id == h && st[i].phase is Succ,
{
    let x = st.last().id as int;
    if st.len() == 1 {
        assert(st[0] == st.last());
        assert(outside(d, x));
        assert(!under(d, h, x));
    } else {
        let j = st.len() - 2;
        let q = st[j];
        assert(!(q.phase is Enter));
        if let Phase::Succ(c) = q.phase {
            let p = q.id as int;
            assert(succ_of(g, p, c - 1) == x);
            assert(!backedge_flag(g[p]));
            assert(under(d, h, succ_of(g, p, c - 1)));
            if p == h {
                assert(st[j].id == h && st[j].phase is Succ);
            } else {
                assert(under(d, h, p));
                assert(under(d, h, st[j].id as int));
                let i = choose|i: int| 0 <= i < j && (#[trigger] st[i]).id == h && st[i].phase is Succ;
                assert(st[i].id == h && st[i].phase is Succ);
            }
        } else if let Phase::Out(c) = q.phase {
            let i0 = q.id as int;
            assert(header_flag(g[i0]));
            assert(bl[i0].outgoing@[c - 1] == x);
            let kk = (c - 1) as int;
            assert(0 <= kk < bl[i0].outgoing@.len());
            let s = bl[i0].outgoing@[kk] as int;
            assert(s == x);
            let (y, p) = choose|y: int, p: int|
                0 <= y < g.len() && !backedge_flag(g[y]) && 0 <= p < g[y].succs@.len() && #[trigger] succ_of(g, y, p) == s
                    && d[y].loop_id == Some(i0 as usize) && d[s].depth < d[y].depth;
            assert(under(d, h, succ_of(g, y, p)));
            assert(d[succ_of(g, y, p)].depth < d[y].depth);
            assert(succ_of(g, y, p) != i0 && !under(d, i0, succ_of(g, y, p)));
            assert(d[i0].loop_id == Some(i0 as usize));
            if y == h {
                assert(d[h].loop_id == Some(h as usize));
                assert(i0 == h);
            } else {
                assert(under(d, h, y));
                assert(chain_has(d, i0, h, d.len()));
                assert(i0 != h);
                assert(under(d, h, i0));
                assert(under(d, h, st[j].id as int));
                let i = choose|i: int| 0 <= i < j && (#[trigger] st[i]).id == h && st[i].phase is Succ;
                assert(st[i].id == h && st[i].phase is Succ);
            }
        }
    }
}

/// A block past its entry appears once on the stack.
proof fn lemma_frames_unique(
    g: Seq<Node>,
    d: Seq<BlockState>,
    ord: Seq<int>,
    bl: Seq<BlockState>,
    st: Seq<Frame>,
    i: int,
    j: int,
)
    requires
        frames_ok(g, d, ord, bl, st),
        0 <= i < j < st.len(),
        !(st[i].phase is Enter),
        !(st[j].phase is Enter),
    ensures
        st[i].id != st[j].id,
{
    assert(ord[st[j].id as int] < ord[st[i].id as int]);
}

/// Popping an entry that changes nothing but the layer of a backedge block,
/// or nothing at all because the block already lies as low.
pub proof fn lemma_exits_enter_done(
    g: Seq<Node>,
    d: Seq<BlockState>,
    ord: Seq<int>,
    bl0: Seq<BlockState>,
    st0: Seq<Frame>,
    bl1: Seq<BlockState>,
)
    requires
        nested(g, d, ord),
        exits_ok(g, d, ord, bl0, st0),
        bl0.len() == g.len(),
        st0.len() > 0,
        st0.last().phase is Enter,
        bl1.len() == bl0.len(),
        forall|b: int| 0 <= b < bl0.len() && b != st0.last().id ==> bl1[b] == bl0[b],
        bl1[st0.last().id as int].outgoing == bl0[st0.last().id as int].outgoing,
        bl1[st0.last().id as int].loop_height == bl0[st0.last().id as int].loop_height,
        backedge_flag(g[st0.last().id as int]) || (bl1 == bl0 && st0.last().layer <= bl0[st0.last().id as int].layer),
    ensures
        exits_ok(g, d, ord, bl1, st0.drop_last()),
{
    let x = st0.last().id as int;
    let st1 = st0.drop_last();
    assert forall|j: int| 0 <= j < st1.len() implies #[trigger] st1[j] == st0[j] && !(st1[j].phase is Enter) by {}
    assert forall|j: int| 0 <= j < st1.len() && !(#[trigger] st1[j].phase is Enter) implies st1[j].id != x by {
        assert(!backedge_flag(g[st0[j].id as int]));
        if !backedge_flag(g[x]) {
        }
    }
    assert(frames_ok(g, d, ord, bl1, st1)) by {
        assert forall|j: int, h: int|
            0 <= j < st1.len() && !(st1[j].phase is Enter) && 0 <= h < g.len() && header_flag(g[h]) && #[trigger] under(
                d,
                h,
                #[trigger] st1[j].id as int,
            ) implies exists|i: int| 0 <= i < j && (#[trigger] st1[i]).id == h && st1[i].phase is Succ by {
            assert(st1[j] == st0[j]);
            let i = choose|i: int| 0 <= i < j && (#[trigger] st0[i]).id == h && st0[i].phase is Succ;
            assert(st1[i] == st0[i]);
        }
        assert forall|i: int, j: int|
            #![trigger st1[i], st1[j]]
            0 <= i < j < st1.len() && !(st1[j].phase is Enter) implies ord[st1[j].id as int] < ord[st1[i].id as int] by {
            assert(st1[i] == st0[i] && st1[j] == st0[j]);
            assert(st0[i] == st0[i] && st0[j] == st0[j]);
        }
    }
    assert(heights_cover(g, d, bl1)) by {
        assert forall|m: int|
            0 <= m < g.len() && !backedge_flag(g[m]) && (#[trigger] bl1[m]).layer >= 0 implies (d[m].loop_id matches Some(h)
            ==> (h < g.len() ==> bl1[h as int].loop_height >= bl1[m].layer - bl1[h as int].layer + 1)) by {
            if m != x {
                assert(bl1[m] == bl0[m]);
                assert(bl0[m].layer >= 0);
                if let Some(h) = d[m].loop_id {
                    assert(!backedge_flag(g[h as int]));
                    if h as int != x {
                        assert(bl1[h as int] == bl0[h as int]);
                    }
                }
            }
        }
    }
    assert(exits_recorded(g, d, ord, bl1)) by {
        assert forall|h: int, k: int| 0 <= h < g.len() && 0 <= k < bl1[h].outgoing@.len() implies {
            let s = #[trigger] bl1[h].outgoing@[k] as int;
            &&& 0 <= s < g.len()
            &&& !backedge_flag(g[s]) ==> ord[s] < ord[h]
            &&& exists|y: int, p: int|
                0 <= y < g.len() && !backedge_flag(g[y]) && 0 <= p < g[y].succs@.len() && #[trigger] succ_of(g, y, p) == s
                    && d[y].loop_id == Some(h as usize) && d[s].depth < d[y].depth
        } by {
            assert(bl1[h].outgoing == bl0[h].outgoing);
            assert(bl0[h].outgoing@[k] == bl1[h].outgoing@[k]);
        }
    }
    assert forall|j: int|
        0 <= j < st1.len() implies ((#[trigger] st1[j]).phase matches Phase::Out(c) ==> forall|k: int|
        0 <= k < c && !backedge_flag(g[#[trigger] bl1[st1[j].id as int].outgoing@[k] as int]) ==> {
            let s = bl1[st1[j].id as int].outgoing@[k];
            let at = st1[j].layer + bl1[st1[j].id as int].loop_height;
            ||| bl1[s as int].layer >= at
            ||| j == st1.len() - 2 && st1.last().id == s && st1.last().phase is Enter && st1.last().layer == at
        }) by {
        assert(st1[j] == st0[j]);
        if let Phase::Out(c) = st1[j].phase {
            let i = st1[j].id as int;
            assert(i != x);
            assert(bl1[i] == bl0[i]);
            assert forall|k: int|
                0 <= k < c && !backedge_flag(g[#[trigger] bl1[i].outgoing@[k] as int]) implies bl1[bl1[i].outgoing@[k] as int].layer
                >= st1[j].layer + bl1[i].loop_height by {
                let s = bl0[i].outgoing@[k] as int;
                assert(bl0[i].outgoing@[k] == bl1[i].outgoing@[k]);
                assert(0 <= s < g.len());
                if s != x {
                    assert(bl1[s] == bl0[s]);
                }
            }
        }
    }
    assert forall|h: int| 0 <= h < g.len() && header_flag(g[h]) && bl1[h].layer >= 0 && !#[trigger] open_at(st1, h) implies exits_below(
        g,
        bl1,
        h,
    ) by {
        assert(!backedge_flag(g[h]));
        assert(h != x || backedge_flag(g[x]) == false);
        if open_at(st0, h) {
            let j = choose|j: int| 0 <= j < st0.len() && (#[trigger] st0[j]).id == h && !(st0[j].phase is Enter);
            assert(j < st1.len());
            assert(st1[j] == st0[j]);
        }
        if h != x {
            assert(bl1[h] == bl0[h]);
        } else {
            assert(bl1 == bl0);
        }
        assert forall|k: int|
            0 <= k < bl1[h].outgoing@.len() && !backedge_flag(g[#[trigger] bl1[h].outgoing@[k] as int]) implies bl1[bl1[h].outgoing@[k] as int].layer
            >= bl1[h].layer + bl1[h].loop_height by {
            let s = bl0[h].outgoing@[k] as int;
            assert(bl0[h].outgoing@[k] == bl1[h].outgoing@[k]);
            assert(0 <= s < g.len());
            if s != x {
                assert(bl1[s] == bl0[s]);
            }
        }
    }
    assert forall|b: int, p: int|
        #![trigger succ_of(g, b, p)]
        0 <= b < g.len() && !backedge_flag(g[b]) && bl1[b].layer >= 0 && 0 <= p < g[b].succs@.len() && d[succ_of(g, b, p)].depth
            < d[b].depth implies listed(g, d, bl1, b, p) || exists|j: int| 0 <= j < st1.len() && #[trigger] pending(st1[j], b, p) by {
        if b != x {
            assert(bl1[b] == bl0[b]);
        } else {
            assert(bl1 == bl0);
        }
        if listed(g, d, bl0, b, p) {
            let h = d[b].loop_id.unwrap();
            if h as int != x {
                assert(bl1[h as int] == bl0[h as int]);
            }
            assert(bl1[h as int].outgoing@ == bl0[h as int].outgoing@);
        } else {
            let j = choose|j: int| 0 <= j < st0.len() && #[trigger] pending(st0[j], b, p);
            assert(j < st0.len() - 1);
            assert(st1[j] == st0[j]);
            assert(pending(st1[j], b, p));
        }
    }
}

/// Entering block `x` at a lower layer than it had: its layer is set, the
/// heights of the loops around it grow to cover it, and its successors come
/// next.
#[verifier::rlimit(60)]
pub proof fn lemma_exits_enter_raise(
    g: Seq<Node>,
    d: Seq<BlockState>,
    ord: Seq<int>,
    bl0: Seq<BlockState>,
    st0: Seq<Frame>,
    bl1: Seq<BlockState>,
    bl2: Seq<BlockState>,
)
    requires
        nested(g, d, ord),
        exits_ok(g, d, ord, bl0, st0),
        bl0.len() == g.len(),
        st0.len() > 0,
        st0.last().phase is Enter,
        !backedge_flag(g[st0.last().id as int]),
        st0.last().layer > bl0[st0.last().id as int].layer,
        bl1.len() == bl0.len(),
        forall|b: int| 0 <= b < bl0.len() && b != st0.last().id ==> bl1[b] == bl0[b],
        bl1[st0.last().id as int].layer == st0.last().layer,
        bl1[st0.last().id as int].outgoing == bl0[st0.last().id as int].outgoing,
        bl1[st0.last().id as int].loop_height == bl0[st0.last().id as int].loop_height,
        heights_grow(bl1, bl2),
        forall|b: int|
            0 <= b < bl1.len() && (#[trigger] bl2[b]).loop_height != bl1[b].loop_height ==> (d[st0.last().id as int].loop_id matches Some(
                l,
            ) && chain_has(d, l as int, b, d.len())),
        d[st0.last().id as int].loop_id matches Some(h0) ==> bl2[h0 as int].loop_height >= st0.last().layer - bl1[h0 as int].layer + 1,
    ensures
        exits_ok(
            g,
            d,
            ord,
            bl2,
            st0.drop_last().push(Frame { id: st0.last().id, layer: st0.last().layer, phase: Phase::Succ(0) }),
        ),
{
    let top = st0.last();
    let x = top.id as int;
    let n = g.len();
    let base = st0.drop_last();
    let nf = Frame { id: top.id, layer: top.layer, phase: Phase::Succ(0) };
    let st2 = base.push(nf);
    assert forall|j: int| 0 <= j < base.len() implies #[trigger] st2[j] == st0[j] && !(st2[j].phase is Enter) by {}
    assert(st2.last() == nf);
    assert(st2[st2.len() - 1] == nf);
    // The new frame ranks below every frame under it.
    assert forall|i: int| 0 <= i < base.len() implies ord[x] < ord[#[trigger] st2[i].id as int] by {
        let q = st0.len() - 2;
        assert(st0.len() >= 2);
        assert(ord[x] < ord[st0[q].id as int]);
        if i < q {
            assert(ord[st0[q].id as int] < ord[st0[i].id as int]);
        }
    }
    assert forall|i: int| 0 <= i < base.len() implies (#[trigger] st2[i]).id != x by {
        assert(ord[x] < ord[st2[i].id as int]);
    }
    // Loops that enclose `x` are past their entry on the stack.
    assert forall|h: int| 0 <= h < n && header_flag(g[h]) && #[trigger] under(d, h, x) implies exists|i: int|
        0 <= i < base.len() && (#[trigger] st2[i]).id == h && st2[i].phase is Succ by {
        lemma_entry_guarded(g, d, ord, bl0, st0, h);
        let i = choose|i: int| 0 <= i < st0.len() - 1 && (#[trigger] st0[i]).id == h && st0[i].phase is Succ;
        assert(st2[i] == st0[i]);
    }
    // Only loops around `x` changed height, and those are open.
    assert forall|h: int|
        0 <= h < n && h != x && (bl2[h].loop_height != bl0[h].loop_height) && header_flag(g[h]) implies exists|i: int|
        0 <= i < base.len() && (#[trigger] st2[i]).id == h && st2[i].phase is Succ by {
        assert(bl1[h] == bl0[h]);
        assert(bl2[h].loop_height != bl1[h].loop_height);
        assert(under(d, h, x));
    }
    assert forall|b: int| 0 <= b < n && b != x implies (#[trigger] bl2[b]).layer == bl0[b].layer && bl2[b].outgoing
        == bl0[b].outgoing && bl2[b].loop_height >= bl0[b].loop_height by {
        assert(bl1[b] == bl0[b]);
    }
    assert(bl2[x].layer == top.layer && bl2[x].outgoing == bl0[x].outgoing && bl2[x].loop_height >= bl0[x].loop_height);
    assert(frames_ok(g, d, ord, bl2, st2)) by {
        assert forall|i: int, j: int|
            #![trigger st2[i], st2[j]]
            0 <= i < j < st2.len() && !(st2[j].phase is Enter) implies ord[st2[j].id as int] < ord[st2[i].id as int] by {
            if j < base.len() {
                assert(st0[i] == st0[i] && st0[j] == st0[j]);
            } else {
                assert(ord[x] < ord[st2[i].id as int]);
            }
        }
        assert forall|j: int| 0 <= j < st2.len() && !(#[trigger] st2[j].phase is Enter) implies {
            &&& st2[j].layer == bl2[st2[j].id as int].layer
            &&& !backedge_flag(g[st2[j].id as int])
            &&& st2[j].phase matches Phase::Out(c) ==> header_flag(g[st2[j].id as int]) && c <= bl2[st2[j].id as int].outgoing@.len()
            &&& st2[j].phase matches Phase::Succ(c) ==> c <= g[st2[j].id as int].succs@.len()
        } by {
            if j < base.len() {
                assert(st2[j] == st0[j]);
                assert(st0[j].id < n);
            }
        }
        assert forall|j: int, h: int|
            0 <= j < st2.len() && !(st2[j].phase is Enter) && 0 <= h < n && header_flag(g[h]) && #[trigger] under(
                d,
                h,
                #[trigger] st2[j].id as int,
            ) implies exists|i: int| 0 <= i < j && (#[trigger] st2[i]).id == h && st2[i].phase is Succ by {
            if j < base.len() {
                assert(st2[j] == st0[j]);
                let i = choose|i: int| 0 <= i < j && (#[trigger] st0[i]).id == h && st0[i].phase is Succ;
                assert(st2[i] == st0[i]);
            } else {
                assert(under(d, h, x));
            }
        }
        assert forall|j: int| 0 <= j < st2.len() implies (#[trigger] st2[j]).id < n by {
            if j < base.len() {
                assert(st2[j] == st0[j]);
            }
        }
    }
    assert(exits_recorded(g, d, ord, bl2)) by {
        assert forall|h: int, k: int| 0 <= h < n && 0 <= k < bl2[h].outgoing@.len() implies {
            let s = #[trigger] bl2[h].outgoing@[k] as int;
            &&& 0 <= s < n
            &&& !backedge_flag(g[s]) ==> ord[s] < ord[h]
            &&& exists|y: int, p: int|
                0 <= y < n && !backedge_flag(g[y]) && 0 <= p < g[y].succs@.len() && #[trigger] succ_of(g, y, p) == s
                    && d[y].loop_id == Some(h as usize) && d[s].depth < d[y].depth
        } by {
            assert(bl2[h].outgoing == bl0[h].outgoing);
            assert(bl0[h].outgoing@[k] == bl2[h].outgoing@[k]);
        }
    }
    assert(heights_cover(g, d, bl2)) by {
        assert forall|m: int|
            0 <= m < n && !backedge_flag(g[m]) && (#[trigger] bl2[m]).layer >= 0 implies (d[m].loop_id matches Some(h)
            ==> (h < n ==> bl2[h as int].loop_height >= bl2[m].layer - bl2[h as int].layer + 1)) by {
            if let Some(h) = d[m].loop_id {
                if h < n {
                    if m == x {
                        assert(bl2[h as int].layer == bl1[h as int].layer);
                    } else {
                        assert(bl0[m].layer >= 0);
                        assert(bl0[h as int].loop_height >= bl0[m].layer - bl0[h as int].layer + 1);
                        if h as int == x {
                            assert(bl2[x].layer > bl0[x].layer);
                        }
                    }
                }
            }
        }
    }
    assert forall|j: int|
        0 <= j < st2.len() implies ((#[trigger] st2[j]).phase matches Phase::Out(c) ==> forall|k: int|
        0 <= k < c && !backedge_flag(g[#[trigger] bl2[st2[j].id as int].outgoing@[k] as int]) ==> {
            let s = bl2[st2[j].id as int].outgoing@[k];
            let at = st2[j].layer + bl2[st2[j].id as int].loop_height;
            ||| bl2[s as int].layer >= at
            ||| j == st2.len() - 2 && st2.last().id == s && st2.last().phase is Enter && st2.last().layer == at
        }) by {
        if let Phase::Out(c) = st2[j].phase {
            assert(j < base.len());
            assert(st2[j] == st0[j]);
            let i = st2[j].id as int;
            assert(i != x);
            assert(header_flag(g[i]));
            if bl2[i].loop_height != bl0[i].loop_height {
                let i2 = choose|i2: int| 0 <= i2 < base.len() && (#[trigger] st2[i2]).id == i && st2[i2].phase is Succ;
                assert(st0[i2] == st2[i2]);
                if i2 < j {
                    lemma_frames_unique(g, d, ord, bl0, st0, i2, j);
                } else {
                    lemma_frames_unique(g, d, ord, bl0, st0, j, i2);
                }
            }
            assert forall|k: int|
                0 <= k < c && !backedge_flag(g[#[trigger] bl2[i].outgoing@[k] as int]) implies bl2[bl2[i].outgoing@[k] as int].layer
                >= st2[j].layer + bl2[i].loop_height by {
                let s = bl0[i].outgoing@[k] as int;
                assert(bl0[i].outgoing@[k] == bl2[i].outgoing@[k]);
                assert(0 <= s < n);
                if s != x {
                    assert(bl2[s].layer == bl0[s].layer);
                }
            }
        }
    }
    assert forall|h: int| 0 <= h < n && header_flag(g[h]) && bl2[h].layer >= 0 && !#[trigger] open_at(st2, h) implies exits_below(
        g,
        bl2,
        h,
    ) by {
        assert(st2[base.len() as int] == nf);
        if h == x {
            assert(open_at(st2, h));
        }
        if open_at(st0, h) {
            let j = choose|j: int| 0 <= j < st0.len() && (#[trigger] st0[j]).id == h && !(st0[j].phase is Enter);
            assert(j < base.len());
            assert(st2[j] == st0[j]);
        }
        if bl2[h].loop_height != bl0[h].loop_height {
            let i2 = choose|i2: int| 0 <= i2 < base.len() && (#[trigger] st2[i2]).id == h && st2[i2].phase is Succ;
            assert(open_at(st2, h));
        }
        assert(exits_below(g, bl0, h));
        assert forall|k: int|
            0 <= k < bl2[h].outgoing@.len() && !backedge_flag(g[#[trigger] bl2[h].outgoing@[k] as int]) implies bl2[bl2[h].outgoing@[k] as int].layer
            >= bl2[h].layer + bl2[h].loop_height by {
            let s = bl0[h].outgoing@[k] as int;
            assert(bl0[h].outgoing@[k] == bl2[h].outgoing@[k]);
            assert(0 <= s < n);
            if s != x {
                assert(bl2[s].layer == bl0[s].layer);
            }
        }
    }
    assert forall|b: int, p: int|
        #![trigger succ_of(g, b, p)]
        0 <= b < n && !backedge_flag(g[b]) && bl2[b].layer >= 0 && 0 <= p < g[b].succs@.len() && d[succ_of(g, b, p)].depth
            < d[b].depth implies listed(g, d, bl2, b, p) || exists|j: int| 0 <= j < st2.len() && #[trigger] pending(st2[j], b, p) by {
        if b == x {
            assert(pending(st2[base.len() as int], b, p));
        } else {
            assert(bl2[b].layer == bl0[b].layer);
            if listed(g, d, bl0, b, p) {
                let h = d[b].loop_id.unwrap();
                assert(bl2[h as int].outgoing == bl0[h as int].outgoing);
            } else {
                let j = choose|j: int| 0 <= j < st0.len() && #[trigger] pending(st0[j], b, p);
                assert(j < base.len());
                assert(st2[j] == st0[j]);
                assert(pending(st2[j], b, p));
            }
        }
    }
}

/// Replacing the top frame by one for the same block with another phase
/// keeps the frames in order when the new phase keeps the facts that
/// phase needs.
proof fn lemma_top_replaced(
    g: Seq<Node>,
    d: Seq<BlockState>,
    ord: Seq<int>,
    bl0: Seq<BlockState>,
    bl1: Seq<BlockState>,
    st0: Seq<Frame>,
    nf: Frame,
)
    requires
        nested(g, d, ord),
        frames_ok(g, d, ord, bl0, st0),
        bl0.len() == g.len(),
        bl1.len() == bl0.len(),
        forall|b: int| 0 <= b < bl0.len() ==> (#[trigger] bl1[b]).layer == bl0[b].layer && bl1[b].outgoing@.len() >= bl0[b].outgoing@.len(),
        st0.len() > 0,
        !(st0.last().phase is Enter),
        !(nf.phase is Enter),
        nf.id == st0.last().id,
        nf.layer == st0.last().layer,
        nf.phase matches Phase::Out(c) ==> header_flag(g[nf.id as int]) && c <= bl1[nf.id as int].outgoing@.len(),
        nf.phase matches Phase::Succ(c) ==> c <= g[nf.id as int].succs@.len(),
        nf.phase is Out ==> (forall|h: int|
            0 <= h < g.len() && header_flag(g[h]) && under(d, h, nf.id as int) ==> exists|i: int|
                0 <= i < st0.len() - 1 && (#[trigger] st0[i]).id == h && st0[i].phase is Succ),
    ensures
        frames_ok(g, d, ord, bl1, st0.drop_last().push(nf)),
{
    let st1 = st0.drop_last().push(nf);
    let top = st0.len() - 1;
    assert forall|j: int| 0 <= j < top implies #[trigger] st1[j] == st0[j] by {}
    assert(st1[top] == nf);
    assert forall|i: int, j: int|
        #![trigger st1[i], st1[j]]
        0 <= i < j < st1.len() && !(st1[j].phase is Enter) implies ord[st1[j].id as int] < ord[st1[i].id as int] by {
        assert(st1[i] == st0[i]);
        if j < top {
            assert(st1[j] == st0[j]);
        } else {
            assert(st0[top].id == st1[j].id);
        }
        assert(st0[i] == st0[i] && st0[j] == st0[j]);
    }
    assert forall|j: int| 0 <= j < st1.len() && !(#[trigger] st1[j].phase is Enter) implies {
        &&& st1[j].layer == bl1[st1[j].id as int].layer
        &&& !backedge_flag(g[st1[j].id as int])
        &&& st1[j].phase matches Phase::Out(c) ==> header_flag(g[st1[j].id as int]) && c <= bl1[st1[j].id as int].outgoing@.len()
        &&& st1[j].phase matches Phase::Succ(c) ==> c <= g[st1[j].id as int].succs@.len()
    } by {
        if j < top {
            assert(st1[j] == st0[j]);
            assert(st0[j].id < g.len());
        } else {
            assert(st0[top].id < g.len());
            assert(!(st0[top].phase is Enter));
        }
    }
    assert forall|j: int, h: int|
        0 <= j < st1.len() && !(st1[j].phase is Enter) && 0 <= h < g.len() && header_flag(g[h]) && #[trigger] under(
            d,
            h,
            #[trigger] st1[j].id as int,
        ) implies exists|i: int| 0 <= i < j && (#[trigger] st1[i]).id == h && st1[i].phase is Succ by {
        if j < top {
            assert(st1[j] == st0[j]);
        } else {
            assert(st0[top].id == st1[j].id);
            assert(!(st0[top].phase is Enter));
        }
        let i = choose|i: int| 0 <= i < j && (#[trigger] st0[i]).id == h && st0[i].phase is Succ;
        assert(st1[i] == st0[i]);
    }
    assert forall|j: int| 0 <= j < st1.len() implies (#[trigger] st1[j]).id < g.len() by {
        if j < top {
            assert(st1[j] == st0[j]);
        } else {
            assert(st0[top].id < g.len());
        }
    }
}

/// The successor at port `c` of the top block leaves the loop of that
/// block: it is recorded as an exit of the loop, and the next port comes
/// next.
pub proof fn lemma_exits_succ_exit(
    g: Seq<Node>,
    d: Seq<BlockState>,
    ord: Seq<int>,
    bl0: Seq<BlockState>,
    st0: Seq<Frame>,
    bl1: Seq<BlockState>,
    c: usize,
    h: usize,
)
    requires
        nested(g, d, ord),
        exits_ok(g, d, ord, bl0, st0),
        bl0.len() == g.len(),
        st0.len() > 0,
        st0.last().phase == Phase::Succ(c),
        c < g[st0.last().id as int].succs@.len(),
        c < usize::MAX,
        d[succ_of(g, st0.last().id as int, c as int)].depth < d[st0.last().id as int].depth,
        d[st0.last().id as int].loop_id == Some(h),
        h < g.len(),
        bl1.len() == bl0.len(),
        forall|b: int| 0 <= b < bl0.len() && b != h ==> bl1[b] == bl0[b],
        bl1[h as int].layer == bl0[h as int].layer,
        bl1[h as int].loop_height == bl0[h as int].loop_height,
        bl1[h as int].outgoing@ == bl0[h as int].outgoing@.push(succ_of(g, st0.last().id as int, c as int) as usize),
    ensures
        exits_ok(
            g,
            d,
            ord,
            bl1,
            st0.drop_last().push(Frame { id: st0.last().id, layer: st0.last().layer, phase: Phase::Succ((c + 1) as usize) }),
        ),
{
    let n = g.len();
    let top = st0.len() - 1;
    let x = st0.last().id as int;
    let s = succ_of(g, x, c as int);
    let nf = Frame { id: st0.last().id, layer: st0.last().layer, phase: Phase::Succ((c + 1) as usize) };
    let st1 = st0.drop_last().push(nf);
    assert(st0[top] == st0.last());
    assert(!backedge_flag(g[x]));
    assert forall|b: int| 0 <= b < bl0.len() implies (#[trigger] bl1[b]).layer == bl0[b].layer && bl1[b].outgoing@.len()
        >= bl0[b].outgoing@.len() by {
        if b != h {
            assert(bl1[b] == bl0[b]);
        }
    }
    lemma_top_replaced(g, d, ord, bl0, bl1, st0, nf);
    assert forall|j: int| 0 <= j < top implies #[trigger] st1[j] == st0[j] by {}
    assert(st1[top] == nf);
    // `x` is `h` or inside it, so `h` is open if it is a loop header.
    assert(x == h || under(d, h as int, x)) by {
        if x != h {
            assert(chain_has(d, h as int, h as int, d.len()));
        }
    }
    assert(header_flag(g[h as int]) ==> open_at(st0, h as int)) by {
        if header_flag(g[h as int]) {
            if x == h {
                assert(st0[top].id == h);
            } else {
                assert(under(d, h as int, st0[top].id as int));
                let i = choose|i: int| 0 <= i < top && (#[trigger] st0[i]).id == h && st0[i].phase is Succ;
                assert(st0[i].id == h);
            }
        }
    }
    assert(exits_recorded(g, d, ord, bl1)) by {
        assert forall|b: int, k: int| 0 <= b < n && 0 <= k < bl1[b].outgoing@.len() implies {
            let t = #[trigger] bl1[b].outgoing@[k] as int;
            &&& 0 <= t < n
            &&& !backedge_flag(g[t]) ==> ord[t] < ord[b]
            &&& exists|y: int, p: int|
                0 <= y < n && !backedge_flag(g[y]) && 0 <= p < g[y].succs@.len() && #[trigger] succ_of(g, y, p) == t
                    && d[y].loop_id == Some(b as usize) && d[t].depth < d[y].depth
        } by {
            if b != h {
                assert(bl1[b] == bl0[b]);
            } else if k < bl0[b].outgoing@.len() {
                assert(bl1[b].outgoing@[k] == bl0[b].outgoing@[k]);
            } else {
                assert(bl1[b].outgoing@[k] as int == s);
                assert(0 <= s < n);
                assert(ord[s] < ord[x]);
                if x != h {
                    assert(ord[x] < ord[h as int]);
                }
                assert(succ_of(g, x, c as int) == s);
            }
        }
    }
    assert(heights_cover(g, d, bl1)) by {
        assert forall|m: int|
            0 <= m < n && !backedge_flag(g[m]) && (#[trigger] bl1[m]).layer >= 0 implies (d[m].loop_id matches Some(q)
            ==> (q < n ==> bl1[q as int].loop_height >= bl1[m].layer - bl1[q as int].layer + 1)) by {
            assert(bl1[m].layer == bl0[m].layer);
            assert(bl0[m].layer >= 0);
            if let Some(q) = d[m].loop_id {
                if q < n && q != h {
                    assert(bl1[q as int] == bl0[q as int]);
                }
            }
        }
    }
    assert forall|j: int|
        0 <= j < st1.len() implies ((#[trigger] st1[j]).phase matches Phase::Out(cc) ==> forall|k: int|
        0 <= k < cc && !backedge_flag(g[#[trigger] bl1[st1[j].id as int].outgoing@[k] as int]) ==> {
            let t = bl1[st1[j].id as int].outgoing@[k];
            let at = st1[j].layer + bl1[st1[j].id as int].loop_height;
            ||| bl1[t as int].layer >= at
            ||| j == st1.len() - 2 && st1.last().id == t && st1.last().phase is Enter && st1.last().layer == at
        }) by {
        if let Phase::Out(cc) = st1[j].phase {
            assert(j < top);
            assert(st1[j] == st0[j]);
            let i = st1[j].id as int;
            assert(cc <= bl0[i].outgoing@.len());
            assert forall|k: int|
                0 <= k < cc && !backedge_flag(g[#[trigger] bl1[i].outgoing@[k] as int]) implies bl1[bl1[i].outgoing@[k] as int].layer
                >= st1[j].layer + bl1[i].loop_height by {
                assert(bl1[i].outgoing@[k] == bl0[i].outgoing@[k]);
                let t = bl0[i].outgoing@[k] as int;
                assert(0 <= t < n);
                assert(bl1[t].layer == bl0[t].layer);
                assert(bl1[i].loop_height == bl0[i].loop_height) by {
                    if i != h {
                        assert(bl1[i] == bl0[i]);
                    }
                }
                assert(!(j == st0.len() - 2 && st0.last().phase is Enter));
            }
        }
    }
    assert forall|b: int| 0 <= b < n && header_flag(g[b]) && bl1[b].layer >= 0 && !#[trigger] open_at(st1, b) implies exits_below(
        g,
        bl1,
        b,
    ) by {
        if open_at(st0, b) {
            let j = choose|j: int| 0 <= j < st0.len() && (#[trigger] st0[j]).id == b && !(st0[j].phase is Enter);
            if j < top {
                assert(st1[j] == st0[j]);
            } else {
                assert(st1[top].id == b);
            }
        }
        assert(b != h);
        assert(bl1[b] == bl0[b]);
        assert forall|k: int|
            0 <= k < bl1[b].outgoing@.len() && !backedge_flag(g[#[trigger] bl1[b].outgoing@[k] as int]) implies bl1[bl1[b].outgoing@[k] as int].layer
            >= bl1[b].layer + bl1[b].loop_height by {
            let t = bl0[b].outgoing@[k] as int;
            assert(0 <= t < n);
            assert(bl1[t].layer == bl0[t].layer);
        }
    }
    assert forall|b: int, p: int|
        #![trigger succ_of(g, b, p)]
        0 <= b < n && !backedge_flag(g[b]) && bl1[b].layer >= 0 && 0 <= p < g[b].succs@.len() && d[succ_of(g, b, p)].depth
            < d[b].depth implies listed(g, d, bl1, b, p) || exists|j: int| 0 <= j < st1.len() && #[trigger] pending(st1[j], b, p) by {
        assert(bl1[b].layer == bl0[b].layer);
        if b == x && p == c {
            let q = bl0[h as int].outgoing@.len() as int;
            assert(bl1[h as int].outgoing@[q] == s as usize);
            assert(bl1[h as int].outgoing@.contains(s as usize));
            assert(listed(g, d, bl1, b, p));
        } else if b == x && p > c {
            assert(pending(st1[top], b, p));
        } else if listed(g, d, bl0, b, p) {
            let hb = d[b].loop_id.unwrap();
            let t = succ_of(g, b, p) as usize;
            let w = choose|w: int| 0 <= w < bl0[hb as int].outgoing@.len() && bl0[hb as int].outgoing@[w] == t;
            if hb != h {
                assert(bl1[hb as int] == bl0[hb as int]);
            } else {
                assert(bl1[hb as int].outgoing@[w] == t);
            }
            assert(bl1[hb as int].outgoing@.contains(t));
        } else {
            let j = choose|j: int| 0 <= j < st0.len() && #[trigger] pending(st0[j], b, p);
            if j < top {
                assert(st1[j] == st0[j]);
                assert(pending(st1[j], b, p));
            } else {
                assert(st0[j] == st0[top]);
                assert(b == x);
                assert(st0[top].phase == Phase::Succ(c));
            }
        }
    }
}

/// With the blocks unchanged and the frames still in order, the placement
/// facts carry over to a stack whose frames past entry are those of `st0`
/// for the same blocks, when every loop that had placed some of its exits
/// keeps them placed.
proof fn lemma_same_blocks(
    g: Seq<Node>,
    d: Seq<BlockState>,
    ord: Seq<int>,
    bl: Seq<BlockState>,
    st0: Seq<Frame>,
    st1: Seq<Frame>,
)
    requires
        exits_ok(g, d, ord, bl, st0),
        frames_ok(g, d, ord, bl, st1),
        bl.len() == g.len(),
        forall|h: int| 0 <= h < g.len() && header_flag(g[h]) && bl[h].layer >= 0 && !open_at(st1, h) ==> exits_below(g, bl, h),
        forall|j: int|
            0 <= j < st1.len() ==> ((#[trigger] st1[j]).phase matches Phase::Out(c) ==> forall|k: int|
                0 <= k < c && !backedge_flag(g[#[trigger] bl[st1[j].id as int].outgoing@[k] as int]) ==> {
                    let s = bl[st1[j].id as int].outgoing@[k];
                    let at = st1[j].layer + bl[st1[j].id as int].loop_height;
                    ||| bl[s as int].layer >= at
                    ||| j == st1.len() - 2 && st1.last().id == s && st1.last().phase is Enter && st1.last().layer == at
                }),
        st0.len() > 0,
        st1.len() >= st0.len() - 1,
        forall|j: int| 0 <= j < st0.len() - 1 ==> #[trigger] st1[j] == st0[j],
        forall|b: int, p: int|
            0 <= b < g.len() && 0 <= p < g[b].succs@.len() && pending(st0.last(), b, p) && d[#[trigger] succ_of(g, b, p)].depth
                < d[b].depth ==> exists|j: int| 0 <= j < st1.len() && #[trigger] pending(st1[j], b, p),
    ensures
        exits_ok(g, d, ord, bl, st1),
{
    assert forall|h: int| 0 <= h < g.len() && header_flag(g[h]) && bl[h].layer >= 0 && !#[trigger] open_at(st1, h) implies exits_below(
        g,
        bl,
        h,
    ) by {}
    assert forall|b: int, p: int|
        #![trigger succ_of(g, b, p)]
        0 <= b < g.len() && !backedge_flag(g[b]) && bl[b].layer >= 0 && 0 <= p < g[b].succs@.len() && d[succ_of(g, b, p)].depth
            < d[b].depth implies listed(g, d, bl, b, p) || exists|j: int| 0 <= j < st1.len() && #[trigger] pending(st1[j], b, p) by {
        if !listed(g, d, bl, b, p) {
            let j = choose|j: int| 0 <= j < st0.len() && #[trigger] pending(st0[j], b, p);
            if j < st0.len() - 1 {
                assert(st1[j] == st0[j]);
                assert(pending(st1[j], b, p));
            } else {
                assert(st0[j] == st0.last());
            }
        }
    }
}

/// The successor at port `c` of the top block stays in its loop: it is
/// entered next, one layer down, and the next port comes after it.
pub proof fn lemma_exits_succ_next(
    g: Seq<Node>,
    d: Seq<BlockState>,
    ord: Seq<int>,
    bl: Seq<BlockState>,
    st0: Seq<Frame>,
    c: usize,
    layer: isize,
)
    requires
        nested(g, d, ord),
        exits_ok(g, d, ord, bl, st0),
        bl.len() == g.len(),
        st0.len() > 0,
        st0.last().phase == Phase::Succ(c),
        c < g[st0.last().id as int].succs@.len(),
        c < usize::MAX,
        !(d[succ_of(g, st0.last().id as int, c as int)].depth < d[st0.last().id as int].depth),
    ensures
        exits_ok(
            g,
            d,
            ord,
            bl,
            st0.drop_last().push(Frame { id: st0.last().id, layer: st0.last().layer, phase: Phase::Succ((c + 1) as usize) }).push(
                Frame { id: succ_of(g, st0.last().id as int, c as int) as usize, layer, phase: Phase::Enter },
            ),
        ),
{
    let n = g.len();
    let top = st0.len() - 1;
    let x = st0.last().id as int;
    let s = succ_of(g, x, c as int);
    let nf = Frame { id: st0.last().id, layer: st0.last().layer, phase: Phase::Succ((c + 1) as usize) };
    let ef = Frame { id: s as usize, layer, phase: Phase::Enter };
    let mid = st0.drop_last().push(nf);
    let st1 = mid.push(ef);
    assert(st0[top] == st0.last());
    assert(!backedge_flag(g[x]));
    assert(0 <= s < n);
    lemma_top_replaced(g, d, ord, bl, bl, st0, nf);
    assert forall|j: int| 0 <= j < top implies #[trigger] st1[j] == st0[j] by {}
    assert(st1[top] == nf);
    assert(st1[top + 1] == ef);
    assert(st1.last() == ef);
    assert(st1[st1.len() - 2] == nf);
    assert(!backedge_flag(g[s]) ==> ord[s] < ord[x]);
    assert(frames_ok(g, d, ord, bl, st1)) by {
        assert forall|i: int, j: int|
            #![trigger st1[i], st1[j]]
            0 <= i < j < st1.len() && !(st1[j].phase is Enter) implies ord[st1[j].id as int] < ord[st1[i].id as int] by {
            assert(j <= top);
            assert(mid[i] == st1[i] && mid[j] == st1[j]);
        }
        assert forall|j: int| 0 <= j < st1.len() && !(#[trigger] st1[j].phase is Enter) implies {
            &&& st1[j].layer == bl[st1[j].id as int].layer
            &&& !backedge_flag(g[st1[j].id as int])
            &&& st1[j].phase matches Phase::Out(cc) ==> header_flag(g[st1[j].id as int]) && cc <= bl[st1[j].id as int].outgoing@.len()
            &&& st1[j].phase matches Phase::Succ(cc) ==> cc <= g[st1[j].id as int].succs@.len()
        } by {
            assert(mid[j] == st1[j]);
        }
        assert forall|j: int, h: int|
            0 <= j < st1.len() && !(st1[j].phase is Enter) && 0 <= h < n && header_flag(g[h]) && #[trigger] under(
                d,
                h,
                #[trigger] st1[j].id as int,
            ) implies exists|i: int| 0 <= i < j && (#[trigger] st1[i]).id == h && st1[i].phase is Succ by {
            assert(mid[j] == st1[j]);
            assert(under(d, h, mid[j].id as int));
            let i = choose|i: int| 0 <= i < j && (#[trigger] mid[i]).id == h && mid[i].phase is Succ;
            assert(st1[i] == mid[i]);
        }
        assert forall|j: int| 0 <= j < st1.len() implies (#[trigger] st1[j]).id < n by {
            if j <= top {
                assert(mid[j] == st1[j]);
            }
        }
        assert forall|j: int| 0 <= j < st1.len() - 1 implies !(#[trigger] st1[j].phase is Enter) by {
            assert(mid[j] == st1[j]);
        }
        assert(ef.id as int == s);
        assert(st1.len() >= 2 && st1.last().phase is Enter && !backedge_flag(g[st1.last().id as int]) ==> ord[st1.last().id as int]
            < ord[st1[st1.len() - 2].id as int]);
        assert(nf.phase matches Phase::Succ(cc) && cc >= 1 && cc - 1 < g[nf.id as int].succs@.len() && succ_of(
            g,
            nf.id as int,
            cc - 1,
        ) == ef.id);
    }
    assert forall|j: int|
        0 <= j < st1.len() implies ((#[trigger] st1[j]).phase matches Phase::Out(cc) ==> forall|k: int|
        0 <= k < cc && !backedge_flag(g[#[trigger] bl[st1[j].id as int].outgoing@[k] as int]) ==> {
            let t = bl[st1[j].id as int].outgoing@[k];
            let at = st1[j].layer + bl[st1[j].id as int].loop_height;
            ||| bl[t as int].layer >= at
            ||| j == st1.len() - 2 && st1.last().id == t && st1.last().phase is Enter && st1.last().layer == at
        }) by {
        if let Phase::Out(cc) = st1[j].phase {
            assert(j < top);
            assert(st1[j] == st0[j]);
        }
    }
    assert forall|h: int| 0 <= h < n && header_flag(g[h]) && bl[h].layer >= 0 && !open_at(st1, h) implies exits_below(g, bl, h) by {
        if open_at(st0, h) {
            let j = choose|j: int| 0 <= j < st0.len() && (#[trigger] st0[j]).id == h && !(st0[j].phase is Enter);
            if j < top {
                assert(st1[j] == st0[j]);
            } else {
                assert(st1[top].id == h);
            }
        }
    }
    assert forall|b: int, p: int|
        0 <= b < g.len() && 0 <= p < g[b].succs@.len() && pending(st0.last(), b, p) && d[#[trigger] succ_of(g, b, p)].depth
            < d[b].depth implies exists|j: int| 0 <= j < st1.len() && #[trigger] pending(st1[j], b, p) by {
        assert(b == x);
        assert(p != c);
        assert(pending(st1[top], b, p));
    }
    lemma_same_blocks(g, d, ord, bl, st0, st1);
}

/// The top block has no successors left: a loop header goes on to place
/// its exits, any other block is done.
pub proof fn lemma_exits_succ_end(
    g: Seq<Node>,
    d: Seq<BlockState>,
    ord: Seq<int>,
    bl: Seq<BlockState>,
    st0: Seq<Frame>,
    c: usize,
)
    requires
        nested(g, d, ord),
        exits_ok(g, d, ord, bl, st0),
        bl.len() == g.len(),
        st0.len() > 0,
        st0.last().phase == Phase::Succ(c),
        c >= g[st0.last().id as int].succs@.len(),
    ensures
        header_flag(g[st0.last().id as int]) ==> exits_ok(
            g,
            d,
            ord,
            bl,
            st0.drop_last().push(Frame { id: st0.last().id, layer: st0.last().layer, phase: Phase::Out(0) }),
        ),
        !header_flag(g[st0.last().id as int]) ==> exits_ok(g, d, ord, bl, st0.drop_last()),
{
    let n = g.len();
    let top = st0.len() - 1;
    let x = st0.last().id as int;
    assert(st0[top] == st0.last());
    if header_flag(g[x]) {
        let nf = Frame { id: st0.last().id, layer: st0.last().layer, phase: Phase::Out(0) };
        let st1 = st0.drop_last().push(nf);
        assert forall|h: int| 0 <= h < g.len() && header_flag(g[h]) && under(d, h, nf.id as int) implies exists|i: int|
            0 <= i < st0.len() - 1 && (#[trigger] st0[i]).id == h && st0[i].phase is Succ by {
            assert(under(d, h, st0[top].id as int));
        }
        lemma_top_replaced(g, d, ord, bl, bl, st0, nf);
        assert forall|j: int| 0 <= j < top implies #[trigger] st1[j] == st0[j] by {}
        assert(st1[top] == nf);
        assert forall|j: int|
            0 <= j < st1.len() implies ((#[trigger] st1[j]).phase matches Phase::Out(cc) ==> forall|k: int|
            0 <= k < cc && !backedge_flag(g[#[trigger] bl[st1[j].id as int].outgoing@[k] as int]) ==> {
                let t = bl[st1[j].id as int].outgoing@[k];
                let at = st1[j].layer + bl[st1[j].id as int].loop_height;
                ||| bl[t as int].layer >= at
                ||| j == st1.len() - 2 && st1.last().id == t && st1.last().phase is Enter && st1.last().layer == at
            }) by {
            if let Phase::Out(cc) = st1[j].phase {
                if j < top {
                    assert(st1[j] == st0[j]);
                }
            }
        }
        assert forall|h: int| 0 <= h < n && header_flag(g[h]) && bl[h].layer >= 0 && !open_at(st1, h) implies exits_below(g, bl, h) by {
            if open_at(st0, h) {
                let j = choose|j: int| 0 <= j < st0.len() && (#[trigger] st0[j]).id == h && !(st0[j].phase is Enter);
                if j < top {
                    assert(st1[j] == st0[j]);
                } else {
                    assert(st1[top].id == h);
                }
            }
        }
        lemma_same_blocks(g, d, ord, bl, st0, st1);
    } else {
        let st1 = st0.drop_last();
        assert forall|j: int| 0 <= j < top implies #[trigger] st1[j] == st0[j] by {}
        assert(frames_ok(g, d, ord, bl, st1)) by {
            assert forall|j: int, h: int|
                0 <= j < st1.len() && !(st1[j].phase is Enter) && 0 <= h < n && header_flag(g[h]) && #[trigger] under(
                    d,
                    h,
                    #[trigger] st1[j].id as int,
                ) implies exists|i: int| 0 <= i < j && (#[trigger] st1[i]).id == h && st1[i].phase is Succ by {
                assert(st1[j] == st0[j]);
                let i = choose|i: int| 0 <= i < j && (#[trigger] st0[i]).id == h && st0[i].phase is Succ;
                assert(st1[i] == st0[i]);
            }
            assert forall|i: int, j: int|
                #![trigger st1[i], st1[j]]
                0 <= i < j < st1.len() && !(st1[j].phase is Enter) implies ord[st1[j].id as int] < ord[st1[i].id as int] by {
                assert(st1[i] == st0[i] && st1[j] == st0[j]);
                assert(st0[i] == st0[i] && st0[j] == st0[j]);
            }
        }
        assert forall|j: int|
            0 <= j < st1.len() implies ((#[trigger] st1[j]).phase matches Phase::Out(cc) ==> forall|k: int|
            0 <= k < cc && !backedge_flag(g[#[trigger] bl[st1[j].id as int].outgoing@[k] as int]) ==> {
                let t = bl[st1[j].id as int].outgoing@[k];
                let at = st1[j].layer + bl[st1[j].id as int].loop_height;
                ||| bl[t as int].layer >= at
                ||| j == st1.len() - 2 && st1.last().id == t && st1.last().phase is Enter && st1.last().layer == at
            }) by {
            assert(st1[j] == st0[j]);
        }
        assert forall|h: int| 0 <= h < n && header_flag(g[h]) && bl[h].layer >= 0 && !open_at(st1, h) implies exits_below(g, bl, h) by {
            if open_at(st0, h) {
                let j = choose|j: int| 0 <= j < st0.len() && (#[trigger] st0[j]).id == h && !(st0[j].phase is Enter);
                if j < top {
                    assert(st1[j] == st0[j]);
                }
            }
        }
        lemma_same_blocks(g, d, ord, bl, st0, st1);
    }
}

/// The top loop header places its exit at index `c`: at its own layer plus
/// the loop's height.
pub proof fn lemma_exits_out_next(
    g: Seq<Node>,
    d: Seq<BlockState>,
    ord: Seq<int>,
    bl: Seq<BlockState>,
    st0: Seq<Frame>,
    c: usize,
)
    requires
        nested(g, d, ord),
        exits_ok(g, d, ord, bl, st0),
        bl.len() == g.len(),
        st0.len() > 0,
        st0.last().phase == Phase::Out(c),
        c < bl[st0.last().id as int].outgoing@.len(),
        c < usize::MAX,
        st0.last().layer + bl[st0.last().id as int].loop_height <= isize::MAX,
    ensures
        exits_ok(
            g,
            d,
            ord,
            bl,
            st0.drop_last().push(Frame { id: st0.last().id, layer: st0.last().layer, phase: Phase::Out((c + 1) as usize) }).push(
                Frame {
                    id: bl[st0.last().id as int].outgoing@[c as int],
                    layer: (st0.last().layer + bl[st0.last().id as int].loop_height) as isize,
                    phase: Phase::Enter,
                },
            ),
        ),
{
    let n = g.len();
    let top = st0.len() - 1;
    let x = st0.last().id as int;
    let s = bl[x].outgoing@[c as int];
    let at = st0.last().layer + bl[x].loop_height;
    let nf = Frame { id: st0.last().id, layer: st0.last().layer, phase: Phase::Out((c + 1) as usize) };
    let ef = Frame { id: s, layer: at as isize, phase: Phase::Enter };
    let mid = st0.drop_last().push(nf);
    let st1 = mid.push(ef);
    assert(st0[top] == st0.last());
    assert(header_flag(g[x]));
    assert(0 <= s < n);
    assert forall|h: int| 0 <= h < g.len() && header_flag(g[h]) && under(d, h, nf.id as int) implies exists|i: int|
        0 <= i < st0.len() - 1 && (#[trigger] st0[i]).id == h && st0[i].phase is Succ by {
        assert(under(d, h, st0[top].id as int));
    }
    lemma_top_replaced(g, d, ord, bl, bl, st0, nf);
    assert forall|j: int| 0 <= j < top implies #[trigger] st1[j] == st0[j] by {}
    assert(st1[top] == nf);
    assert(st1.last() == ef);
    assert(st1[st1.len() - 2] == nf);
    assert(frames_ok(g, d, ord, bl, st1)) by {
        assert forall|i: int, j: int|
            #![trigger st1[i], st1[j]]
            0 <= i < j < st1.len() && !(st1[j].phase is Enter) implies ord[st1[j].id as int] < ord[st1[i].id as int] by {
            assert(j <= top);
            assert(mid[i] == st1[i] && mid[j] == st1[j]);
        }
        assert forall|j: int| 0 <= j < st1.len() && !(#[trigger] st1[j].phase is Enter) implies {
            &&& st1[j].layer == bl[st1[j].id as int].layer
            &&& !backedge_flag(g[st1[j].id as int])
            &&& st1[j].phase matches Phase::Out(cc) ==> header_flag(g[st1[j].id as int]) && cc <= bl[st1[j].id as int].outgoing@.len()
            &&& st1[j].phase matches Phase::Succ(cc) ==> cc <= g[st1[j].id as int].succs@.len()
        } by {
            assert(mid[j] == st1[j]);
        }
        assert forall|j: int, h: int|
            0 <= j < st1.len() && !(st1[j].phase is Enter) && 0 <= h < n && header_flag(g[h]) && #[trigger] under(
                d,
                h,
                #[trigger] st1[j].id as int,
            ) implies exists|i: int| 0 <= i < j && (#[trigger] st1[i]).id == h && st1[i].phase is Succ by {
            assert(mid[j] == st1[j]);
            assert(under(d, h, mid[j].id as int));
            let i = choose|i: int| 0 <= i < j && (#[trigger] mid[i]).id == h && mid[i].phase is Succ;
            assert(st1[i] == mid[i]);
        }
        assert forall|j: int| 0 <= j < st1.len() implies (#[trigger] st1[j]).id < n by {
            if j <= top {
                assert(mid[j] == st1[j]);
            }
        }
        assert forall|j: int| 0 <= j < st1.len() - 1 implies !(#[trigger] st1[j].phase is Enter) by {
            assert(mid[j] == st1[j]);
        }
        assert(!backedge_flag(g[s as int]) ==> ord[s as int] < ord[x]);
        assert(nf.phase matches Phase::Out(cc) && cc >= 1 && cc - 1 < bl[nf.id as int].outgoing@.len()
            && bl[nf.id as int].outgoing@[cc - 1] == ef.id && ef.layer == nf.layer + bl[nf.id as int].loop_height);
    }
    assert forall|j: int|
        0 <= j < st1.len() implies ((#[trigger] st1[j]).phase matches Phase::Out(cc) ==> forall|k: int|
        0 <= k < cc && !backedge_flag(g[#[trigger] bl[st1[j].id as int].outgoing@[k] as int]) ==> {
            let t = bl[st1[j].id as int].outgoing@[k];
            let a = st1[j].layer + bl[st1[j].id as int].loop_height;
            ||| bl[t as int].layer >= a
            ||| j == st1.len() - 2 && st1.last().id == t && st1.last().phase is Enter && st1.last().layer == a
        }) by {
        if let Phase::Out(cc) = st1[j].phase {
            if j < top {
                assert(st1[j] == st0[j]);
            } else {
                assert(j == top);
                assert forall|k: int|
                    0 <= k < cc && !backedge_flag(g[#[trigger] bl[x].outgoing@[k] as int]) implies {
                    let t = bl[x].outgoing@[k];
                    ||| bl[t as int].layer >= at
                    ||| j == st1.len() - 2 && st1.last().id == t && st1.last().phase is Enter && st1.last().layer == at
                } by {
                    if k < c {
                        assert(st0[top].phase matches Phase::Out(c0) && k < c0);
                    }
                }
            }
        }
    }
    assert forall|h: int| 0 <= h < n && header_flag(g[h]) && bl[h].layer >= 0 && !open_at(st1, h) implies exits_below(g, bl, h) by {
        if open_at(st0, h) {
            let j = choose|j: int| 0 <= j < st0.len() && (#[trigger] st0[j]).id == h && !(st0[j].phase is Enter);
            if j < top {
                assert(st1[j] == st0[j]);
            } else {
                assert(st1[top].id == h);
            }
        }
    }
    lemma_same_blocks(g, d, ord, bl, st0, st1);
}

/// The top loop header has placed all its exits and is done.
pub proof fn lemma_exits_out_end(
    g: Seq<Node>,
    d: Seq<BlockState>,
    ord: Seq<int>,
    bl: Seq<BlockState>,
    st0: Seq<Frame>,
    c: usize,
)
    requires
        nested(g, d, ord),
        exits_ok(g, d, ord, bl, st0),
        bl.len() == g.len(),
        st0.len() > 0,
        st0.last().phase == Phase::Out(c),
        c >= bl[st0.last().id as int].outgoing@.len(),
    ensures
        exits_ok(g, d, ord, bl, st0.drop_last()),
{
    let n = g.len();
    let top = st0.len() - 1;
    let x = st0.last().id as int;
    let st1 = st0.drop_last();
    assert(st0[top] == st0.last());
    assert forall|j: int| 0 <= j < top implies #[trigger] st1[j] == st0[j] by {}
    assert(frames_ok(g, d, ord, bl, st1)) by {
        assert forall|j: int, h: int|
            0 <= j < st1.len() && !(st1[j].phase is Enter) && 0 <= h < n && header_flag(g[h]) && #[trigger] under(
                d,
                h,
                #[trigger] st1[j].id as int,
            ) implies exists|i: int| 0 <= i < j && (#[trigger] st1[i]).id == h && st1[i].phase is Succ by {
            assert(st1[j] == st0[j]);
            let i = choose|i: int| 0 <= i < j && (#[trigger] st0[i]).id == h && st0[i].phase is Succ;
            assert(st1[i] == st0[i]);
        }
        assert forall|i: int, j: int|
            #![trigger st1[i], st1[j]]
            0 <= i < j < st1.len() && !(st1[j].phase is Enter) implies ord[st1[j].id as int] < ord[st1[i].id as int] by {
            assert(st1[i] == st0[i] && st1[j] == st0[j]);
            assert(st0[i] == st0[i] && st0[j] == st0[j]);
        }
    }
    assert forall|j: int|
        0 <= j < st1.len() implies ((#[trigger] st1[j]).phase matches Phase::Out(cc) ==> forall|k: int|
        0 <= k < cc && !backedge_flag(g[#[trigger] bl[st1[j].id as int].outgoing@[k] as int]) ==> {
            let t = bl[st1[j].id as int].outgoing@[k];
            let at = st1[j].layer + bl[st1[j].id as int].loop_height;
            ||| bl[t as int].layer >= at
            ||| j == st1.len() - 2 && st1.last().id == t && st1.last().phase is Enter && st1.last().layer == at
        }) by {
        assert(st1[j] == st0[j]);
    }
    assert forall|h: int| 0 <= h < n && header_flag(g[h]) && bl[h].layer >= 0 && !open_at(st1, h) implies exits_below(g, bl, h) by {
        if open_at(st0, h) {
            let j = choose|j: int| 0 <= j < st0.len() && (#[trigger] st0[j]).id == h && !(st0[j].phase is Enter);
            if j < top {
                assert(st1[j] == st0[j]);
            } else {
                assert(h == x);
                assert forall|k: int|
                    0 <= k < bl[h].outgoing@.len() && !backedge_flag(g[#[trigger] bl[h].outgoing@[k] as int]) implies bl[bl[h].outgoing@[k] as int].layer
                    >= bl[h].layer + bl[h].loop_height by {
                    assert(st0[top].phase matches Phase::Out(c0) && k < c0);
                }
            }
        }
    }
    lemma_same_blocks(g, d, ord, bl, st0, st1);
}

/// Every edge that leaves the loop of a block with a layer, other than a
/// backedge block, is recorded as an exit of that loop.
pub open spec fn exits_all_listed(g: Seq<Node>, d: Seq<BlockState>, bl: Seq<BlockState>) -> bool {
    forall|b: int, p: int|
        #![trigger succ_of(g, b, p)]
        0 <= b < g.len() && !backedge_flag(g[b]) && bl[b].layer >= 0 && 0 <= p < g[b].succs@.len() && d[succ_of(g, b, p)].depth
            < d[b].depth ==> listed(g, d, bl, b, p)
}

/// When the search is over, every loop header with a layer has placed its
/// exits, and every edge that leaves a loop is recorded.
pub proof fn lemma_exits_done(g: Seq<Node>, d: Seq<BlockState>, ord: Seq<int>, bl: Seq<BlockState>)
    requires
        exits_ok(g, d, ord, bl, Seq::empty()),
    ensures
        forall|h: int| 0 <= h < g.len() && header_flag(g[h]) && #[trigger] bl[h].layer >= 0 ==> exits_below(g, bl, h),
        heights_cover(g, d, bl),
        exits_all_listed(g, d, bl),
{
    assert forall|h: int| 0 <= h < g.len() && header_flag(g[h]) && #[trigger] bl[h].layer >= 0 implies exits_below(g, bl, h) by {
        assert(!open_at(Seq::<Frame>::empty(), h));
    }
}

/// A block recorded as an exit of loop `h` lies in a lower layer than every
/// block whose loop is `h`, backedge blocks aside.
pub proof fn lemma_exit_below_loop(g: Seq<Node>, d: Seq<BlockState>, bl: Seq<BlockState>, h: int, k: int, m: int)
    requires
        exits_below(g, bl, h),
        heights_cover(g, d, bl),
        g.len() <= usize::MAX,
        0 <= h < g.len(),
        0 <= m < g.len(),
        0 <= k < bl[h].outgoing@.len(),
        !backedge_flag(g[bl[h].outgoing@[k] as int]),
        !backedge_flag(g[m]),
        bl[m].layer >= 0,
        d[m].loop_id == Some(h as usize),
    ensures
        bl[bl[h].outgoing@[k] as int].layer > bl[m].layer,
{
    assert(bl[h].loop_height >= bl[m].layer - bl[h].layer + 1);
}


/// A block reached by an edge that leaves loop `h` (the edge goes from a
/// block whose loop is `h` to a block of smaller depth) lies in a lower
/// layer than every block whose loop is `h`, backedge blocks aside.
pub proof fn lemma_exit_edge_below_loop(
    g: Seq<Node>,
    d: Seq<BlockState>,
    bl: Seq<BlockState>,
    b: int,
    p: int,
    h: int,
    m: int,
)
    requires
        exits_all_listed(g, d, bl),
        heights_cover(g, d, bl),
        forall|x: int| 0 <= x < g.len() && header_flag(g[x]) && #[trigger] bl[x].layer >= 0 ==> exits_below(g, bl, x),
        g.len() <= usize::MAX,
        0 <= b < g.len(),
        !backedge_flag(g[b]),
        bl[b].layer >= 0,
        0 <= p < g[b].succs@.len(),
        d[succ_of(g, b, p)].depth < d[b].depth,
        !backedge_flag(g[succ_of(g, b, p)]),
        0 <= succ_of(g, b, p) < g.len(),
        0 <= h < g.len(),
        header_flag(g[h]),
        bl[h].layer >= 0,
        d[b].loop_id == Some(h as usize),
        0 <= m < g.len(),
        !backedge_flag(g[m]),
        bl[m].layer >= 0,
        d[m].loop_id == Some(h as usize),
    ensures
        bl[succ_of(g, b, p)].layer > bl[m].layer,
{
    assert(listed(g, d, bl, b, p));
    let t = succ_of(g, b, p) as usize;
    let k = choose|k: int| 0 <= k < bl[h].outgoing@.len() && bl[h].outgoing@[k] == t;
    assert(exits_below(g, bl, h));
    lemma_exit_below_loop(g, d, bl, h, k, m);
}

} // verus!
