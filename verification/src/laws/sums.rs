//! Finite sums of real numbers.
use vstd::prelude::*;
use crate::permutation::{exchange, is_permutation, lemma_exchange_is_permutation};

verus! {

/// The sum of `f(i)` for `lo <= i < hi`.
pub open spec fn sum(f: spec_fn(int) -> real, lo: int, hi: int) -> real
    decreases hi - lo,
{
    if hi <= lo {
        0 as real
    } else {
        sum(f, lo, hi - 1) + f(hi - 1)
    }
}

/// Sums with equal terms are equal.
pub proof fn lemma_sum_congruent(
    f: spec_fn(int) -> real,
    g: spec_fn(int) -> real,
    lo: int,
    hi: int,
)
    requires
        forall|i: int| lo <= i < hi ==> #[trigger] f(i) == g(i),
    ensures
        sum(f, lo, hi) == sum(g, lo, hi),
    decreases hi - lo,
{
    if hi > lo {
        lemma_sum_congruent(f, g, lo, hi - 1);
        assert(f(hi - 1) == g(hi - 1));
    }
}

/// The sum of two sums is the sum of the sums of their terms.
pub proof fn lemma_sum_of_sums(
    f: spec_fn(int) -> real,
    g: spec_fn(int) -> real,
    h: spec_fn(int) -> real,
    lo: int,
    hi: int,
)
    requires
        forall|i: int| lo <= i < hi ==> #[trigger] h(i) == f(i) + g(i),
    ensures
        sum(h, lo, hi) == sum(f, lo, hi) + sum(g, lo, hi),
    decreases hi - lo,
{
    if hi > lo {
        lemma_sum_of_sums(f, g, h, lo, hi - 1);
        assert(h(hi - 1) == f(hi - 1) + g(hi - 1));
    }
}

/// A common factor can be taken out of a sum.
pub proof fn lemma_sum_scaled(
    c: real,
    f: spec_fn(int) -> real,
    h: spec_fn(int) -> real,
    lo: int,
    hi: int,
)
    requires
        forall|i: int| lo <= i < hi ==> #[trigger] h(i) == c * f(i),
    ensures
        sum(h, lo, hi) == c * sum(f, lo, hi),
    decreases hi - lo,
{
    if hi > lo {
        lemma_sum_scaled(c, f, h, lo, hi - 1);
        assert(h(hi - 1) == c * f(hi - 1));
        let s = sum(f, lo, hi - 1);
        let t = f(hi - 1);
        assert(c * s + c * t == c * (s + t)) by (nonlinear_arith);
    } else {
        assert(c * (0 as real) == 0 as real) by (nonlinear_arith);
    }
}

/// A sum whose terms are all zero is zero.
pub proof fn lemma_sum_of_zeros(f: spec_fn(int) -> real, lo: int, hi: int)
    requires
        forall|i: int| lo <= i < hi ==> #[trigger] f(i) == 0 as real,
    ensures
        sum(f, lo, hi) == 0 as real,
    decreases hi - lo,
{
    if hi > lo {
        lemma_sum_of_zeros(f, lo, hi - 1);
        assert(f(hi - 1) == 0 as real);
    }
}

/// A sum is made of the sums over two parts of its range.
pub proof fn lemma_sum_split(f: spec_fn(int) -> real, lo: int, mid: int, hi: int)
    requires
        lo <= mid <= hi,
    ensures
        sum(f, lo, hi) == sum(f, lo, mid) + sum(f, mid, hi),
    decreases hi - mid,
{
    if hi > mid {
        lemma_sum_split(f, lo, mid, hi - 1);
    }
}

/// A sum is made of its first term and the rest.
pub proof fn lemma_sum_first(f: spec_fn(int) -> real, lo: int, hi: int)
    requires
        lo < hi,
    ensures
        sum(f, lo, hi) == f(lo) + sum(f, lo + 1, hi),
{
    lemma_sum_split(f, lo, lo + 1, hi);
    assert(sum(f, lo, lo) == 0 as real);
    assert(sum(f, lo, lo + 1) == sum(f, lo, lo) + f(lo));
}

/// A sum with at most one term that is not zero is that term.
pub proof fn lemma_sum_single(f: spec_fn(int) -> real, lo: int, hi: int, k: int)
    requires
        lo <= k < hi,
        forall|i: int| lo <= i < hi && i != k ==> #[trigger] f(i) == 0 as real,
    ensures
        sum(f, lo, hi) == f(k),
{
    lemma_sum_split(f, lo, k, hi);
    lemma_sum_first(f, k, hi);
    lemma_sum_of_zeros(f, lo, k);
    lemma_sum_of_zeros(f, k + 1, hi);
}

/// Two sums that differ in one term differ by the difference of that term.
pub proof fn lemma_sum_one_changed(
    f: spec_fn(int) -> real,
    g: spec_fn(int) -> real,
    lo: int,
    hi: int,
    k: int,
)
    requires
        lo <= k < hi,
        forall|i: int| lo <= i < hi && i != k ==> #[trigger] f(i) == g(i),
    ensures
        sum(g, lo, hi) == sum(f, lo, hi) - f(k) + g(k),
{
    lemma_sum_split(f, lo, k, hi);
    lemma_sum_first(f, k, hi);
    lemma_sum_split(g, lo, k, hi);
    lemma_sum_first(g, k, hi);
    lemma_sum_congruent(f, g, lo, k);
    lemma_sum_congruent(f, g, k + 1, hi);
}

/// A sum of terms that are not negative is not negative, and not less than any of its terms.
pub proof fn lemma_sum_nonnegative(f: spec_fn(int) -> real, lo: int, hi: int)
    requires
        forall|i: int| lo <= i < hi ==> #[trigger] f(i) >= 0 as real,
    ensures
        sum(f, lo, hi) >= 0 as real,
        forall|i: int| lo <= i < hi ==> #[trigger] f(i) <= sum(f, lo, hi),
    decreases hi - lo,
{
    if hi > lo {
        lemma_sum_nonnegative(f, lo, hi - 1);
        assert(f(hi - 1) >= 0 as real);
    }
}

/// Two sums can be exchanged.
pub proof fn lemma_sum_exchange(
    f: spec_fn(int, int) -> real,
    lo: int,
    hi: int,
    from: int,
    to: int,
)
    ensures
        sum(|i: int| sum(|j: int| f(i, j), from, to), lo, hi) == sum(
            |j: int| sum(|i: int| f(i, j), lo, hi),
            from,
            to,
        ),
    decreases hi - lo,
{
    let rows = |i: int| sum(|j: int| f(i, j), from, to);
    let columns = |j: int| sum(|i: int| f(i, j), lo, hi);
    if hi <= lo {
        lemma_sum_of_zeros(columns, from, to);
    } else {
        lemma_sum_exchange(f, lo, hi - 1, from, to);
        let shorter = |j: int| sum(|i: int| f(i, j), lo, hi - 1);
        let last = |j: int| f(hi - 1, j);
        assert forall|j: int| from <= j < to implies #[trigger] columns(j) == shorter(j) + last(
            j,
        ) by {
            let g = |i: int| f(i, j);
            assert(sum(g, lo, hi) == sum(g, lo, hi - 1) + g(hi - 1));
        }
        lemma_sum_of_sums(shorter, last, columns, from, to);
        assert(rows(hi - 1) == sum(last, from, to));
    }
}

/// The order of the terms does not matter to a sum.
pub proof fn lemma_sum_permuted(f: spec_fn(int) -> real, permutation: Seq<usize>, n: int)
    requires
        is_permutation(permutation, n),
    ensures
        sum(|k: int| f(permutation[k] as int), 0, n) == sum(f, 0, n),
    decreases n,
{
    let g = |k: int| f(permutation[k] as int);
    if n > 0 {
        // bring n - 1 to the last position
        lemma_permutation_is_onto(permutation, n, n - 1);
        let p = choose|p: int| 0 <= p < n && #[trigger] permutation[p] == n - 1;
        let swapped = exchange(permutation, p, n - 1);
        lemma_exchange_is_permutation(permutation, n, p, n - 1);
        let h = |k: int| f(swapped[k] as int);
        assert(sum(g, 0, n) == sum(h, 0, n)) by {
            if p != n - 1 {
                lemma_sum_split(g, 0, p, n - 1);
                lemma_sum_first(g, p, n - 1);
                lemma_sum_split(h, 0, p, n - 1);
                lemma_sum_first(h, p, n - 1);
                lemma_sum_congruent(g, h, 0, p);
                lemma_sum_congruent(g, h, p + 1, n - 1);
                assert(sum(g, 0, n) == sum(g, 0, n - 1) + g(n - 1));
                assert(sum(h, 0, n) == sum(h, 0, n - 1) + h(n - 1));
            } else {
                lemma_sum_congruent(g, h, 0, n);
            }
        }
        let shorter = swapped.subrange(0, n - 1);
        assert(is_permutation(shorter, n - 1)) by {
            assert forall|i: int| 0 <= i < n - 1 implies #[trigger] shorter[i] < n - 1 by {
                assert(swapped[i] < n);
                assert(swapped[i] != swapped[n - 1]);
            }
        }
        lemma_sum_permuted(f, shorter, n - 1);
        let s = |k: int| f(shorter[k] as int);
        lemma_sum_congruent(h, s, 0, n - 1);
        assert(h(n - 1) == f(n - 1));
    }
}

/// A permutation of `0`, ..., `n - 1` takes each of these values.
pub proof fn lemma_permutation_is_onto(permutation: Seq<usize>, n: int, v: int)
    requires
        is_permutation(permutation, n),
        0 <= v < n,
    ensures
        exists|p: int| 0 <= p < n && #[trigger] permutation[p] == v,
    decreases n,
{
    if permutation[n - 1] != v {
        // rename the largest value, so that it is in the last position, and drop it
        let top = permutation[n - 1];
        let shorter = Seq::new(
            (n - 1) as nat,
            |i: int|
                if permutation[i] == n - 1 {
                    top
                } else {
                    permutation[i]
                },
        );
        assert(is_permutation(shorter, n - 1)) by {
            assert forall|i: int| 0 <= i < n - 1 implies #[trigger] shorter[i] < n - 1 by {
                assert(permutation[i] < n);
                assert(permutation[i] != permutation[n - 1]);
                assert(permutation[n - 1] < n);
            }
            assert forall|i: int, j: int| 0 <= i < j < n - 1 implies #[trigger] shorter[i]
                != #[trigger] shorter[j] by {
                assert(permutation[i] != permutation[j]);
                assert(permutation[i] != permutation[n - 1]);
                assert(permutation[j] != permutation[n - 1]);
            }
        }
        if v == n - 1 {
            lemma_permutation_is_onto(shorter, n - 1, top as int);
            let p = choose|p: int| 0 <= p < n - 1 && #[trigger] shorter[p] == top as int;
            assert(shorter[p] == top);
            assert(permutation[p] != permutation[n - 1]);
            assert(permutation[p] == v);
        } else {
            lemma_permutation_is_onto(shorter, n - 1, v);
            let p = choose|p: int| 0 <= p < n - 1 && #[trigger] shorter[p] == v;
            assert(permutation[p] == v);
        }
    }
}

} // verus!
