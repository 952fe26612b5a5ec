//! Graph model: node identifiers, role flags, sizes and adjacency.

use vstd::prelude::*;

verus! {

/// Node index assigned by [`Graph::add`].
///
/// An `Id` identifies a position, not a particular graph.
#[derive(Clone, Copy, Debug, PartialEq, Eq, Hash, PartialOrd, Ord, Structural)]
pub struct Id(pub usize);

impl Id {
    /// Wraps a node index.
    pub fn from_index(index: usize) -> (id: Id)
        ensures
            id.0 == index,
    {
        Id(index)
    }

    /// Returns the node index.
    pub fn index(self) -> (i: usize)
        ensures
            i == self.0,
    {
        self.0
    }
}

/// Properties that alter a node's layout role.
#[derive(Clone, Copy, Debug, PartialEq, Eq, Default, Structural)]
pub struct Flags(pub u8);

impl Flags {
    /// No role.
    pub fn none() -> (f: Flags)
        ensures
            f.0 == 0,
    {
        Flags(0)
    }

    /// A loop header.
    pub fn header() -> (f: Flags)
        ensures
            f.0 == 1,
    {
        Flags(1)
    }

    /// A backedge block that returns to a loop header.
    pub fn backedge() -> (f: Flags)
        ensures
            f.0 == 2,
    {
        Flags(2)
    }

    /// An on-stack-replacement entry.
    pub fn osr() -> (f: Flags)
        ensures
            f.0 == 4,
    {
        Flags(4)
    }

    /// Whether all `other` flags are present.
    pub open spec fn has(self, other: Flags) -> bool {
        self.0 & other.0 == other.0
    }

    /// Returns whether all `other` flags are present.
    pub fn contains(self, other: Flags) -> (b: bool)
        ensures
            b == self.has(other),
    {
        self.0 & other.0 == other.0
    }

    /// Returns whether any `other` flag is present.
    pub fn intersects(self, other: Flags) -> (b: bool)
        ensures
            b == (self.0 & other.0 != 0),
    {
        self.0 & other.0 != 0
    }
}

impl core::ops::BitOr for Flags {
    type Output = Flags;

    fn bitor(self, rhs: Flags) -> (r: Flags) {
        Flags(self.0 | rhs.0)
    }
}

impl vstd::std_specs::ops::BitOrSpecImpl for Flags {
    open spec fn obeys_bitor_spec() -> bool {
        true
    }

    open spec fn bitor_req(self, rhs: Flags) -> bool {
        true
    }

    open spec fn bitor_spec(self, rhs: Flags) -> Flags {
        Flags(self.0 | rhs.0)
    }
}

/// The union of two flag sets contains each of them.
pub proof fn lemma_union_contains(a: Flags, b: Flags)
    ensures
        Flags(a.0 | b.0).has(a),
        Flags(a.0 | b.0).has(b),
{
    let (x, y) = (a.0, b.0);
    assert((x | y) & x == x && (x | y) & y == y) by (bit_vector);
}

impl core::ops::BitOrAssign for Flags {
    fn bitor_assign(&mut self, rhs: Flags)
        ensures
            final(self).0 == old(self).0 | rhs.0,
    {
        self.0 = self.0 | rhs.0;
    }
}

impl core::ops::BitAndAssign for Flags {
    fn bitand_assign(&mut self, rhs: Flags)
        ensures
            final(self).0 == old(self).0 & rhs.0,
    {
        self.0 = self.0 & rhs.0;
    }
}

impl core::ops::BitAnd for Flags {
    type Output = Flags;

    fn bitand(self, rhs: Flags) -> (r: Flags) {
        Flags(self.0 & rhs.0)
    }
}

impl vstd::std_specs::ops::BitAndSpecImpl for Flags {
    open spec fn obeys_bitand_spec() -> bool {
        true
    }

    open spec fn bitand_req(self, rhs: Flags) -> bool {
        true
    }

    open spec fn bitand_spec(self, rhs: Flags) -> Flags {
        Flags(self.0 & rhs.0)
    }
}

/// A two-dimensional extent, each side held as the IEEE-754 bit pattern of
/// its `f64` value so that validation can inspect it exactly.
#[derive(Clone, Copy, Debug, PartialEq, Eq, Structural)]
pub struct Size {
    /// Bit pattern of the width.
    pub w: u64,
    /// Bit pattern of the height.
    pub h: u64,
}

impl Size {
    /// Combines the bit patterns of a width and a height.
    pub fn from_bits(w: u64, h: u64) -> (s: Size)
        ensures
            s.w == w,
            s.h == h,
    {
        Size { w, h }
    }
}

impl Default for Size {
    /// The empty extent (`0.0` by `0.0`).
    fn default() -> (s: Size)
        ensures
            s.w == 0 && s.h == 0,
    {
        Size { w: 0, h: 0 }
    }
}

/// A layout node and its graph connections.
#[derive(Debug)]
pub struct Node {
    /// Width and height used by the layout.
    pub size: Size,
    /// Declared loop nesting depth.
    pub depth: usize,
    /// Roles that affect layout.
    pub flags: Flags,
    /// Predecessor blocks in input order; each appears once.
    pub preds: Vec<Id>,
    /// Successor edges in input port order; parallel edges repeat an `Id`.
    pub succs: Vec<Id>,
}

impl Node {
    /// Creates a node without edges.
    pub fn new(size: Size) -> (n: Node)
        ensures
            n.size == size,
            n.depth == 0,
            n.flags.0 == 0,
            n.preds@.len() == 0,
            n.succs@.len() == 0,
    {
        Node { size, depth: 0, flags: Flags(0), preds: Vec::new(), succs: Vec::new() }
    }
}

/// Whether `x` occurs in `s`.
pub open spec fn seq_has(s: Seq<Id>, x: Id) -> bool {
    exists|k: int| 0 <= k < s.len() && s[k] == x
}

/// Whether no element of `s` occurs twice.
pub open spec fn seq_unique(s: Seq<Id>) -> bool {
    forall|a: int, b: int| 0 <= a < b < s.len() ==> s[a] != s[b]
}

/// Returns whether `x` occurs in `v`.
pub fn vec_has(v: &Vec<Id>, x: Id) -> (b: bool)
    ensures
        b == seq_has(v@, x),
{
    let mut k: usize = 0;
    while k < v.len()
        invariant
            k <= v@.len(),
            forall|j: int| 0 <= j < k ==> v@[j] != x,
        decreases v@.len() - k,
    {
        if v[k] == x {
            return true;
        }
        k = k + 1;
    }
    false
}

/// A collection of layout nodes.
#[derive(Debug)]
pub struct Graph {
    nodes: Vec<Node>,
}

impl View for Graph {
    type V = Seq<Node>;

    closed spec fn view(&self) -> Seq<Node> {
        self.nodes@
    }
}

impl Graph {
    /// Every node lists each predecessor once.
    pub open spec fn preds_unique(self) -> bool {
        forall|i: int| 0 <= i < self@.len() ==> seq_unique(#[trigger] self@[i].preds@)
    }

    /// Every edge index is in range and the successor and predecessor lists
    /// agree with each other.
    pub open spec fn reciprocal(self) -> bool {
        forall|i: int, k: int|
            #![trigger self@[i].succs@[k]]
            0 <= i < self@.len() && 0 <= k < self@[i].succs@.len() ==> {
                let t = self@[i].succs@[k].0 as int;
                &&& 0 <= t < self@.len()
                &&& seq_has(self@[t].preds@, Id(i as usize))
            }
    }

    /// Every predecessor index is in range and the predecessor lists the
    /// node among its successors.
    pub open spec fn back_reciprocal(self) -> bool {
        forall|i: int, k: int|
            #![trigger self@[i].preds@[k]]
            0 <= i < self@.len() && 0 <= k < self@[i].preds@.len() ==> {
                let t = self@[i].preds@[k].0 as int;
                &&& 0 <= t < self@.len()
                &&& seq_has(self@[t].succs@, Id(i as usize))
            }
    }

    /// Creates an empty graph.
    pub fn new() -> (g: Graph)
        ensures
            g@.len() == 0,
            g.preds_unique(),
            g.reciprocal(),
            g.back_reciprocal(),
    {
        Graph { nodes: Vec::new() }
    }

    /// Appends a node and returns its index.
    ///
    /// A node without edges keeps the adjacency lists unique and in agreement.
    pub fn add(&mut self, node: Node) -> (id: Id)
        ensures
            id.0 == old(self)@.len(),
            final(self)@ == old(self)@.push(node),
            node.preds@.len() == 0 && node.succs@.len() == 0 ==> {
                &&& old(self).preds_unique() ==> final(self).preds_unique()
                &&& old(self).reciprocal() ==> final(self).reciprocal()
                &&& old(self).back_reciprocal() ==> final(self).back_reciprocal()
            },
    {
        let id = Id(self.nodes.len());
        self.nodes.push(node);
        proof {
            if node.preds@.len() == 0 && node.succs@.len() == 0 {
                lemma_add_keeps(*old(self), *self, node);
            }
        }
        id
    }

    /// Adds an edge from `from` to `to`.
    ///
    /// Successors keep every edge in insertion order; predecessors keep each
    /// source once.
    pub fn connect(&mut self, from: Id, to: Id)
        requires
            from.0 < old(self)@.len(),
            to.0 < old(self)@.len(),
        ensures
            final(self)@.len() == old(self)@.len(),
            final(self)@[from.0 as int].succs@ == old(self)@[from.0 as int].succs@.push(to),
            final(self)@[to.0 as int].preds@ == if seq_has(old(self)@[to.0 as int].preds@, from) {
                old(self)@[to.0 as int].preds@
            } else {
                old(self)@[to.0 as int].preds@.push(from)
            },
            forall|i: int|
                0 <= i < old(self)@.len() && i != from.0 ==> #[trigger] final(self)@[i].succs@
                    == old(self)@[i].succs@,
            forall|i: int|
                0 <= i < old(self)@.len() && i != to.0 ==> #[trigger] final(self)@[i].preds@
                    == old(self)@[i].preds@,
            forall|i: int|
                0 <= i < old(self)@.len() ==> {
                    &&& #[trigger] final(self)@[i].size == old(self)@[i].size
                    &&& final(self)@[i].depth == old(self)@[i].depth
                    &&& final(self)@[i].flags == old(self)@[i].flags
                },
            connect_step(old(self)@, final(self)@, from, to),
            old(self).preds_unique() ==> final(self).preds_unique(),
            old(self).reciprocal() ==> final(self).reciprocal(),
            old(self).back_reciprocal() ==> final(self).back_reciprocal(),
    {
        self.nodes[from.0].succs.push(to);
        let known = vec_has(&self.nodes[to.0].preds, from);
        if !known {
            self.nodes[to.0].preds.push(from);
        }
        proof {
            lemma_connect_keeps(*old(self), *self, from, to);
        }
    }

    /// Returns the node at `id`, if it is in range.
    pub fn get(&self, id: Id) -> (n: Option<&Node>)
        ensures
            id.0 < self@.len() ==> n == Some(&self@[id.0 as int]),
            id.0 >= self@.len() ==> n is None,
    {
        if id.0 < self.nodes.len() {
            Some(&self.nodes[id.0])
        } else {
            None
        }
    }

    /// Returns the node at `id`; it must be in range.
    pub fn node(&self, id: Id) -> (n: &Node)
        requires
            id.0 < self@.len(),
        ensures
            *n == self@[id.0 as int],
    {
        &self.nodes[id.0]
    }

    /// Returns the node at `id` for changing; it must be in range.
    pub fn node_mut(&mut self, id: Id) -> (n: &mut Node)
        requires
            id.0 < old(self)@.len(),
        ensures
            *n == old(self)@[id.0 as int],
            final(self)@ == old(self)@.update(id.0 as int, *final(n)),
    {
        &mut self.nodes[id.0]
    }

    /// Returns the node at `id` for changing, if it is in range.
    pub fn get_mut(&mut self, id: Id) -> (n: Option<&mut Node>)
        ensures
            id.0 < old(self)@.len() ==> (n matches Some(r) && *r == old(self)@[id.0 as int]
                && final(self)@ == old(self)@.update(id.0 as int, *final(r))),
            id.0 >= old(self)@.len() ==> n is None && final(self)@ == old(self)@,
    {
        if id.0 < self.nodes.len() {
            Some(&mut self.nodes[id.0])
        } else {
            None
        }
    }

    /// Returns the number of nodes.
    pub fn len(&self) -> (l: usize)
        ensures
            l == self@.len(),
    {
        self.nodes.len()
    }

    /// Returns whether the graph contains no nodes.
    pub fn is_empty(&self) -> (b: bool)
        ensures
            b == (self@.len() == 0),
    {
        self.nodes.len() == 0
    }

    /// The node identifiers in input order.
    pub fn ids(&self) -> (v: Vec<Id>)
        ensures
            v@.len() == self@.len(),
            forall|i: int| 0 <= i < v@.len() ==> #[trigger] v@[i] == Id(i as usize),
    {
        let mut v: Vec<Id> = Vec::new();
        let n = self.nodes.len();
        let mut i: usize = 0;
        while i < n
            invariant
                n == self@.len(),
                i <= n,
                v@.len() == i,
                forall|j: int| 0 <= j < i ==> #[trigger] v@[j] == Id(j as usize),
            decreases n - i,
        {
            v.push(Id(i));
            i = i + 1;
        }
        v
    }

    /// The nodes in input order.
    pub fn nodes(&self) -> (s: &Vec<Node>)
        ensures
            s@ == self@,
    {
        &self.nodes
    }
}

/// `f` is `o` with an edge added from `from` to `to`: the edge is appended
/// to the successors of `from`, `from` is appended to the predecessors of
/// `to` unless it is there already, and every other list is unchanged.
pub open spec fn connect_step(o: Seq<Node>, f: Seq<Node>, from: Id, to: Id) -> bool {
    &&& from.0 < o.len()
    &&& to.0 < o.len()
    &&& f.len() == o.len()
    &&& f[from.0 as int].succs@ == o[from.0 as int].succs@.push(to)
    &&& f[to.0 as int].preds@ == if seq_has(o[to.0 as int].preds@, from) {
        o[to.0 as int].preds@
    } else {
        o[to.0 as int].preds@.push(from)
    }
    &&& forall|i: int| 0 <= i < o.len() && i != from.0 ==> #[trigger] f[i].succs@ == o[i].succs@
    &&& forall|i: int| 0 <= i < o.len() && i != to.0 ==> #[trigger] f[i].preds@ == o[i].preds@
}

/// `f` is `o` with one node appended that has no edges.
pub open spec fn add_step(o: Seq<Node>, f: Seq<Node>) -> bool {
    &&& f.len() == o.len() + 1
    &&& f.drop_last() == o
    &&& f.last().preds@.len() == 0
    &&& f.last().succs@.len() == 0
}

/// `f` follows from `o` by one call of `Graph::add` with a node without
/// edges or one call of `Graph::connect`.
pub open spec fn build_step(o: Seq<Node>, f: Seq<Node>) -> bool {
    ||| add_step(o, f)
    ||| exists|from: Id, to: Id| #[trigger] connect_step(o, f, from, to)
}

/// `hist` starts at an empty graph and each graph in it follows from the one
/// before by a `build_step`.
pub open spec fn built(hist: Seq<Graph>) -> bool {
    &&& hist.len() > 0
    &&& hist[0]@.len() == 0
    &&& forall|j: int| 0 <= j < hist.len() - 1 ==> #[trigger] build_step(hist[j]@, hist[j + 1]@)
}

/// The three adjacency facts that `Graph::new` establishes.
pub open spec fn consistent(g: Graph) -> bool {
    &&& g.preds_unique()
    &&& g.reciprocal()
    &&& g.back_reciprocal()
}

proof fn lemma_add_keeps(old_g: Graph, new_g: Graph, node: Node)
    requires
        new_g@ == old_g@.push(node),
        node.preds@.len() == 0,
        node.succs@.len() == 0,
    ensures
        old_g.preds_unique() ==> new_g.preds_unique(),
        old_g.reciprocal() ==> new_g.reciprocal(),
        old_g.back_reciprocal() ==> new_g.back_reciprocal(),
{
    let o = old_g@;
    let f = new_g@;
    assert forall|i: int| 0 <= i < f.len() implies seq_unique(#[trigger] f[i].preds@) <== old_g.preds_unique() by {
        if i < o.len() {
            assert(f[i] == o[i]);
        }
    }
    if old_g.reciprocal() {
        assert forall|i: int, k: int|
            #![trigger f[i].succs@[k]]
            0 <= i < f.len() && 0 <= k < f[i].succs@.len() implies {
            let t = f[i].succs@[k].0 as int;
            &&& 0 <= t < f.len()
            &&& seq_has(f[t].preds@, Id(i as usize))
        } by {
            assert(i < o.len());
            assert(f[i] == o[i]);
            let t = o[i].succs@[k].0 as int;
            assert(f[t] == o[t]);
        }
    }
    if old_g.back_reciprocal() {
        assert forall|i: int, k: int|
            #![trigger f[i].preds@[k]]
            0 <= i < f.len() && 0 <= k < f[i].preds@.len() implies {
            let t = f[i].preds@[k].0 as int;
            &&& 0 <= t < f.len()
            &&& seq_has(f[t].succs@, Id(i as usize))
        } by {
            assert(i < o.len());
            assert(f[i] == o[i]);
            let t = o[i].preds@[k].0 as int;
            assert(f[t] == o[t]);
        }
    }
}

proof fn lemma_connect_keeps(old_g: Graph, new_g: Graph, from: Id, to: Id)
    requires
        connect_step(old_g@, new_g@, from, to),
    ensures
        old_g.preds_unique() ==> new_g.preds_unique(),
        old_g.reciprocal() ==> new_g.reciprocal(),
        old_g.back_reciprocal() ==> new_g.back_reciprocal(),
{
    let o = old_g@;
    let f = new_g@;
    let known = seq_has(o[to.0 as int].preds@, from);
    if old_g.reciprocal() {
        assert forall|i: int, k: int|
            0 <= i < f.len() && 0 <= k < f[i].succs@.len() implies {
                let t = #[trigger] f[i].succs@[k].0 as int;
                &&& 0 <= t < f.len()
                &&& seq_has(f[t].preds@, Id(i as usize))
            } by {
            let t = f[i].succs@[k].0 as int;
            if i == from.0 && k == o[i].succs@.len() {
                if known {
                    let w = choose|w: int| 0 <= w < o[t].preds@.len() && o[t].preds@[w] == from;
                    assert(f[t].preds@[w] == from);
                } else {
                    assert(f[t].preds@[o[t].preds@.len() as int] == from);
                }
            } else {
                assert(f[i].succs@[k] == o[i].succs@[k]);
                let w = choose|w: int| 0 <= w < o[t].preds@.len() && o[t].preds@[w] == Id(i as usize);
                if t == to.0 {
                    if !known {
                        assert(f[t].preds@[w] == o[t].preds@[w]);
                    }
                } else {
                    assert(f[t].preds@ == o[t].preds@);
                }
                assert(f[t].preds@[w] == Id(i as usize));
            }
        }
    }
    if old_g.back_reciprocal() {
        assert forall|i: int, k: int|
            #![trigger f[i].preds@[k]]
            0 <= i < f.len() && 0 <= k < f[i].preds@.len() implies {
            let t = f[i].preds@[k].0 as int;
            &&& 0 <= t < f.len()
            &&& seq_has(f[t].succs@, Id(i as usize))
        } by {
            let t = f[i].preds@[k].0 as int;
            if i == to.0 && !known && k == o[i].preds@.len() {
                assert(t == from.0);
                assert(f[t].succs@[o[t].succs@.len() as int] == to);
            } else {
                assert(f[i].preds@[k] == o[i].preds@[k]);
                let w = choose|w: int| 0 <= w < o[t].succs@.len() && o[t].succs@[w] == Id(i as usize);
                if t == from.0 {
                    assert(f[t].succs@[w] == o[t].succs@[w]);
                } else {
                    assert(f[t].succs@ == o[t].succs@);
                }
                assert(f[t].succs@[w] == Id(i as usize));
            }
        }
    }
    if old_g.preds_unique() {
        assert forall|i: int| 0 <= i < f.len() implies seq_unique(#[trigger] f[i].preds@) by {
            assert(seq_unique(o[i].preds@));
            if i == to.0 && !known {
                assert forall|a: int, b: int| 0 <= a < b < f[i].preds@.len() implies f[i].preds@[a] != f[i].preds@[b] by {
                    if b == o[i].preds@.len() {
                        if f[i].preds@[a] == from {
                            assert(o[i].preds@[a] == from);
                        }
                    }
                }
            } else if i != to.0 {
                assert(f[i].preds@ == o[i].preds@);
            }
        }
    }
}

/// A graph built from an empty one by any sequence of `Graph::add` calls with
/// nodes that have no edges and `Graph::connect` calls lists each
/// predecessor once, and its successor and predecessor lists agree: `b` is a
/// successor of `a` exactly when `a` is a predecessor of `b`.
pub proof fn lemma_built_consistent(hist: Seq<Graph>)
    requires
        built(hist),
    ensures
        consistent(hist.last()),
    decreases hist.len(),
{
    if hist.len() == 1 {
        let g = hist[0];
        assert(g@.len() == 0);
    } else {
        let prev = hist.drop_last();
        assert forall|j: int| 0 <= j < prev.len() - 1 implies #[trigger] build_step(prev[j]@, prev[j + 1]@) by {
            assert(prev[j] == hist[j] && prev[j + 1] == hist[j + 1]);
            assert(build_step(hist[j]@, hist[j + 1]@));
        }
        assert(prev[0] == hist[0]);
        lemma_built_consistent(prev);
        let o = prev.last();
        let f = hist.last();
        let j = hist.len() - 2;
        assert(o == hist[j] && f == hist[j + 1]);
        assert(build_step(hist[j]@, hist[j + 1]@));
        if add_step(o@, f@) {
            assert(f@ == o@.push(f@.last()));
            lemma_add_keeps(o, f, f@.last());
        } else {
            let (from, to) = choose|from: Id, to: Id| #[trigger] connect_step(o@, f@, from, to);
            lemma_connect_keeps(o, f, from, to);
        }
    }
}

/// In a graph with those adjacency facts, `b` is a successor of `a` exactly
/// when `a` is a predecessor of `b`.
pub proof fn lemma_consistent_edges(g: Graph, a: usize, b: usize)
    requires
        consistent(g),
        a < g@.len(),
        b < g@.len(),
    ensures
        seq_has(g@[a as int].succs@, Id(b)) <==> seq_has(g@[b as int].preds@, Id(a)),
{
    if seq_has(g@[a as int].succs@, Id(b)) {
        let k = choose|k: int| 0 <= k < g@[a as int].succs@.len() && g@[a as int].succs@[k] == Id(b);
        assert(g@[a as int].succs@[k].0 == b);
    }
    if seq_has(g@[b as int].preds@, Id(a)) {
        let k = choose|k: int| 0 <= k < g@[b as int].preds@.len() && g@[b as int].preds@[k] == Id(a);
        assert(g@[b as int].preds@[k].0 == a);
    }
}

} // verus!
