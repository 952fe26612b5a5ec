//! The distinct sources of a layout node, inline while there is at most one.

use vstd::prelude::*;

verus! {

/// Sources of a layout node in insertion order, each at most once.
///
/// A single source is stored inline; a second one moves the list to the
/// heap, where it stays.
#[derive(Debug)]
pub enum Srcs {
    /// No source, or exactly one.
    Inline(Option<usize>),
    /// Sources on the heap.
    Heap(Vec<usize>),
}

/// A view of a `usize` as a one-element slice.
#[verifier::external_body]
fn one<'a>(x: &'a usize) -> (s: &'a [usize])
    ensures
        s@ == seq![*x],
{
    core::slice::from_ref(x)
}

/// Returns whether `x` occurs in `s`.
fn slice_has(s: &[usize], x: usize) -> (b: bool)
    ensures
        b == s@.contains(x),
{
    let mut k: usize = 0;
    while k < s.len()
        invariant
            k <= s@.len(),
            forall|j: int| 0 <= j < k ==> s@[j] != x,
        decreases s@.len() - k,
    {
        if s[k] == x {
            assert(s@[k as int] == x);
            return true;
        }
        k = k + 1;
    }
    false
}

impl View for Srcs {
    type V = Seq<usize>;

    open spec fn view(&self) -> Seq<usize> {
        match self {
            Srcs::Inline(None) => Seq::empty(),
            Srcs::Inline(Some(x)) => seq![*x],
            Srcs::Heap(v) => v@,
        }
    }
}

impl Srcs {
    /// No source occurs twice.
    pub open spec fn unique(&self) -> bool {
        self@.no_duplicates()
    }

    /// Creates an empty list; a capacity above one starts on the heap.
    pub fn new(cap: usize) -> (s: Srcs)
        ensures
            s@ == Seq::<usize>::empty(),
            s is Heap <==> cap > 1,
    {
        if cap > 1 {
            Srcs::Heap(Vec::with_capacity(cap))
        } else {
            Srcs::Inline(None)
        }
    }

    /// The sources in insertion order.
    pub fn as_slice(&self) -> (s: &[usize])
        ensures
            s@ == self@,
    {
        match self {
            Srcs::Inline(None) => {
                let v: &[usize; 0] = &[];
                assert(v@ =~= Seq::<usize>::empty());
                v
            },
            Srcs::Inline(Some(id)) => one(id),
            Srcs::Heap(srcs) => srcs.as_slice(),
        }
    }

    /// Appends `id` unless it is already present.
    pub fn add(&mut self, id: usize)
        ensures
            final(self)@ == if old(self)@.contains(id) {
                old(self)@
            } else {
                old(self)@.push(id)
            },
            *final(self) is Heap <==> (*old(self) is Heap || (old(self)@.len() >= 1 && !old(self)@.contains(id))),
            old(self).unique() ==> final(self).unique(),
    {
        if slice_has(self.as_slice(), id) {
            return;
        }
        match self {
            Srcs::Inline(slot) => {
                match slot {
                    None => {
                        *slot = Some(id);
                    },
                    Some(first) => {
                        let first = *first;
                        let mut v: Vec<usize> = Vec::new();
                        v.push(first);
                        v.push(id);
                        *self = Srcs::Heap(v);
                        assert(self@ =~= old(self)@.push(id));
                    },
                }
            },
            Srcs::Heap(srcs) => {
                srcs.push(id);
            },
        }
    }

    /// Removes `id` and returns whether it was present.
    pub fn remove(&mut self, id: usize) -> (found: bool)
        ensures
            found == old(self)@.contains(id),
            found ==> exists|p: int|
                0 <= p < old(self)@.len() && old(self)@[p] == id && final(self)@ == old(
                    self,
                )@.remove(p) && forall|j: int| 0 <= j < p ==> old(self)@[j] != id,
            !found ==> final(self)@ == old(self)@,
            *old(self) is Heap <==> *final(self) is Heap,
            old(self).unique() ==> final(self).unique() && !final(self)@.contains(id),
    {
        let ghost before = self@;
        let found = position(self.as_slice(), id);
        match found {
            None => false,
            Some(p) => {
                match self {
                    Srcs::Inline(slot) => {
                        *slot = None;
                    },
                    Srcs::Heap(srcs) => {
                        srcs.remove(p);
                    },
                }
                assert(self@ =~= before.remove(p as int));
                proof {
                    if before.no_duplicates() {
                        let after = self@;
                        assert forall|a: int, b: int|
                            0 <= a < b < after.len() implies after[a] != after[b] by {
                            let a0 = if a < p { a } else { a + 1 };
                            let b0 = if b < p { b } else { b + 1 };
                            assert(after[a] == before[a0] && after[b] == before[b0]);
                        }
                        assert forall|j: int| 0 <= j < after.len() implies after[j] != id by {
                            let j0 = if j < p { j } else { j + 1 };
                            assert(after[j] == before[j0]);
                        }
                    }
                }
                true
            },
        }
    }
}

/// Removing an id that was just added to a list without it gives back the
/// list as it was: the id's first position is the end, where it was pushed.
pub proof fn lemma_add_then_remove(s: Seq<usize>, id: usize)
    requires
        !s.contains(id),
    ensures
        s.push(id).contains(id),
        forall|p: int|
            0 <= p < s.push(id).len() && s.push(id)[p] == id && (forall|j: int|
                0 <= j < p ==> s.push(id)[j] != id) ==> p == s.len() && #[trigger] s.push(
                id,
            ).remove(p) == s,
{
    let t = s.push(id);
    assert(t[s.len() as int] == id);
    assert forall|p: int|
        0 <= p < t.len() && t[p] == id && (forall|j: int| 0 <= j < p ==> t[j] != id) implies p
        == s.len() && #[trigger] t.remove(p) == s by {
        if p < s.len() {
            assert(s[p] == id);
        }
        assert(t.remove(p) =~= s);
    }
}

/// The first index at which `x` occurs in `s`.
fn position(s: &[usize], x: usize) -> (r: Option<usize>)
    ensures
        r is None <==> !s@.contains(x),
        r matches Some(p) ==> p < s@.len() && s@[p as int] == x && forall|j: int|
            0 <= j < p ==> s@[j] != x,
{
    let mut k: usize = 0;
    while k < s.len()
        invariant
            k <= s@.len(),
            forall|j: int| 0 <= j < k ==> s@[j] != x,
        decreases s@.len() - k,
    {
        if s[k] == x {
            return Some(k);
        }
        k = k + 1;
    }
    None
}

} // verus!
