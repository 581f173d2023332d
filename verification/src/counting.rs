//! Counting how often a predicate holds on an integer interval, with the
//! lemmas the constraint counters and coverage arguments rest on.

use vstd::prelude::*;

verus! {

/// Number of integers `i` in `[lo, hi)` with `f(i)`.
pub open spec fn count(f: spec_fn(int) -> bool, lo: int, hi: int) -> nat
    decreases hi - lo,
{
    if lo >= hi {
        0
    } else {
        (if f(lo) {
            1nat
        } else {
            0nat
        }) + count(f, lo + 1, hi)
    }
}

/// The count never exceeds the interval's width.
pub proof fn lemma_count_le(f: spec_fn(int) -> bool, lo: int, hi: int)
    requires
        lo <= hi,
    ensures
        count(f, lo, hi) <= hi - lo,
    decreases hi - lo,
{
    if lo < hi {
        lemma_count_le(f, lo + 1, hi);
    }
}

/// A predicate holding everywhere counts the whole interval.
pub proof fn lemma_count_full(f: spec_fn(int) -> bool, lo: int, hi: int)
    requires
        lo <= hi,
        forall|i: int| lo <= i < hi ==> #[trigger] f(i),
    ensures
        count(f, lo, hi) == hi - lo,
    decreases hi - lo,
{
    if lo < hi {
        lemma_count_full(f, lo + 1, hi);
    }
}

/// A point where the predicate holds makes the count positive.
pub proof fn lemma_count_pos(f: spec_fn(int) -> bool, lo: int, hi: int, k: int)
    requires
        lo <= k < hi,
        f(k),
    ensures
        count(f, lo, hi) >= 1,
    decreases hi - lo,
{
    if lo < k {
        lemma_count_pos(f, lo + 1, hi, k);
    }
}

/// A count equal to the interval's width makes the predicate hold at `k`.
pub proof fn lemma_count_all_at(f: spec_fn(int) -> bool, lo: int, hi: int, k: int)
    requires
        lo <= k < hi,
        count(f, lo, hi) == hi - lo,
    ensures
        f(k),
    decreases hi - lo,
{
    lemma_count_le(f, lo + 1, hi);
    if lo < k {
        lemma_count_all_at(f, lo + 1, hi, k);
    }
}

/// Two distinct points where the predicate holds make the count at least two.
pub proof fn lemma_count_ge2(f: spec_fn(int) -> bool, lo: int, hi: int, k1: int, k2: int)
    requires
        lo <= k1 < k2 < hi,
        f(k1),
        f(k2),
    ensures
        count(f, lo, hi) >= 2,
    decreases hi - lo,
{
    if lo < k1 {
        lemma_count_ge2(f, lo + 1, hi, k1, k2);
    } else {
        lemma_count_pos(f, lo + 1, hi, k2);
    }
}

/// A predicate holding at exactly one point counts one.
pub proof fn lemma_count_single(f: spec_fn(int) -> bool, lo: int, hi: int, k: int)
    requires
        lo <= k < hi,
        f(k),
        forall|i: int| lo <= i < hi && i != k ==> !(#[trigger] f(i)),
    ensures
        count(f, lo, hi) == 1,
    decreases hi - lo,
{
    if lo < k {
        lemma_count_single(f, lo + 1, hi, k);
    } else {
        lemma_count_zero(f, lo + 1, hi);
    }
}

/// A predicate holding nowhere counts zero.
pub proof fn lemma_count_zero(f: spec_fn(int) -> bool, lo: int, hi: int)
    requires
        forall|i: int| lo <= i < hi ==> !(#[trigger] f(i)),
    ensures
        count(f, lo, hi) == 0,
    decreases hi - lo,
{
    if lo < hi {
        lemma_count_zero(f, lo + 1, hi);
    }
}

/// Predicates that agree on the interval have the same count.
pub proof fn lemma_count_agree(f: spec_fn(int) -> bool, g: spec_fn(int) -> bool, lo: int, hi: int)
    requires
        forall|i: int| lo <= i < hi ==> #[trigger] f(i) == g(i),
    ensures
        count(f, lo, hi) == count(g, lo, hi),
    decreases hi - lo,
{
    if lo < hi {
        lemma_count_agree(f, g, lo + 1, hi);
    }
}

/// Turning the predicate off at one point where it held lowers the count by one.
pub proof fn lemma_count_drop(
    f: spec_fn(int) -> bool,
    g: spec_fn(int) -> bool,
    k: int,
    lo: int,
    hi: int,
)
    requires
        lo <= k < hi,
        f(k),
        !g(k),
        forall|i: int| lo <= i < hi && i != k ==> #[trigger] f(i) == g(i),
    ensures
        count(g, lo, hi) + 1 == count(f, lo, hi),
    decreases hi - lo,
{
    if lo == k {
        lemma_count_agree(f, g, lo + 1, hi);
    } else {
        lemma_count_drop(f, g, k, lo + 1, hi);
    }
}

/// Counting the union of two disjoint predicates adds their counts.
pub proof fn lemma_count_disjoint_union(
    f: spec_fn(int) -> bool,
    g: spec_fn(int) -> bool,
    h: spec_fn(int) -> bool,
    lo: int,
    hi: int,
)
    requires
        forall|i: int| lo <= i < hi ==> #[trigger] h(i) == (#[trigger] f(i) || g(i)),
        forall|i: int| lo <= i < hi ==> !(#[trigger] f(i) && g(i)),
    ensures
        count(h, lo, hi) == count(f, lo, hi) + count(g, lo, hi),
    decreases hi - lo,
{
    if lo < hi {
        lemma_count_disjoint_union(f, g, h, lo + 1, hi);
    }
}

} // verus!
