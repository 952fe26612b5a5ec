//! The first index at which a condition holds.

use vstd::prelude::*;

verus! {

/// Whether `i` is the least index below `n` at which `bad` holds.
pub open spec fn is_first(n: int, bad: spec_fn(int) -> bool, i: int) -> bool {
    &&& 0 <= i < n
    &&& bad(i)
    &&& forall|j: int| 0 <= j < i ==> !#[trigger] bad(j)
}

/// The least index below `n` at which `bad` holds, if there is one.
pub open spec fn first_index(n: int, bad: spec_fn(int) -> bool) -> Option<int> {
    if exists|i: int| is_first(n, bad, i) {
        Some(choose|i: int| is_first(n, bad, i))
    } else {
        None
    }
}

/// A scan that has passed `k` indices without a hit, and either stopped at a
/// hit `k < n` or reached `n`, has found `first_index`.
pub proof fn lemma_first_index(n: int, bad: spec_fn(int) -> bool, k: int)
    requires
        0 <= k <= n,
        forall|j: int| 0 <= j < k ==> !#[trigger] bad(j),
        k < n ==> bad(k),
    ensures
        first_index(n, bad) == if k < n {
            Some(k)
        } else {
            None::<int>
        },
{
    if k < n {
        assert(is_first(n, bad, k));
        let i = choose|i: int| is_first(n, bad, i);
        if i < k {
            assert(!bad(i));
        }
        if i > k {
            assert(!bad(k));
        }
    } else {
        assert forall|i: int| !is_first(n, bad, i) by {
            if 0 <= i < n {
                assert(!bad(i));
            }
        }
    }
}

/// When there is no first hit, there is no hit at all.
pub proof fn lemma_first_index_none(n: int, bad: spec_fn(int) -> bool)
    requires
        first_index(n, bad) is None,
    ensures
        forall|i: int| 0 <= i < n ==> !#[trigger] bad(i),
{
    assert forall|i: int| 0 <= i < n implies !#[trigger] bad(i) by {
        lemma_none_below(n, bad, i);
    }
}

proof fn lemma_none_below(n: int, bad: spec_fn(int) -> bool, i: int)
    requires
        first_index(n, bad) is None,
        0 <= i < n,
    ensures
        forall|j: int| 0 <= j <= i ==> !#[trigger] bad(j),
    decreases i,
{
    if i > 0 {
        lemma_none_below(n, bad, i - 1);
    }
    if bad(i) {
        assert(is_first(n, bad, i));
    }
}

/// Conditions that agree below `n` have the same first hit.
pub proof fn lemma_first_index_agree(n: int, f: spec_fn(int) -> bool, g: spec_fn(int) -> bool)
    requires
        0 <= n,
        forall|i: int| #![trigger f(i)] #![trigger g(i)] 0 <= i < n ==> f(i) == g(i),
    ensures
        first_index(n, f) == first_index(n, g),
{
    match first_index(n, f) {
        Some(i) => {
            assert(is_first(n, f, i));
            lemma_first_index(n, g, i);
        },
        None => {
            lemma_first_index_none(n, f);
            lemma_first_index(n, g, n);
        },
    }
}

} // verus!
