//! Operations on the rows `lo`, ..., `hi - 1` of vectors.
use vstd::prelude::*;
use crate::scalar::{Arithmetic, Real};

verus! {

/// The sum of the `k` products in the rows `i`, `i + 8`, `i + 16`, ....
pub open spec fn lane_sum<F: Arithmetic>(x: Seq<F>, y: Seq<F>, i: int, k: int) -> F
    decreases k,
{
    if k <= 0 {
        F::zero_spec()
    } else {
        lane_sum(x, y, i, k - 1).plus(x[i + 8 * (k - 1)].times(y[i + 8 * (k - 1)]))
    }
}

/// The sum of the products in the rows `lo`, ..., `lo + 8 * k - 1`. Every eighth row goes to the same
/// one of eight partial sums, and these are added in pairs.
pub open spec fn block_sum<F: Arithmetic>(x: Seq<F>, y: Seq<F>, lo: int, k: int) -> F {
    F::zero_spec().plus(lane_sum(x, y, lo, k).plus(lane_sum(x, y, lo + 4, k))).plus(
        lane_sum(x, y, lo + 1, k).plus(lane_sum(x, y, lo + 5, k)),
    ).plus(lane_sum(x, y, lo + 2, k).plus(lane_sum(x, y, lo + 6, k))).plus(
        lane_sum(x, y, lo + 3, k).plus(lane_sum(x, y, lo + 7, k)),
    )
}

/// The products in the rows `lo`, ..., `hi - 1`, added to `start` one after the other.
pub open spec fn running_sum<F: Arithmetic>(
    x: Seq<F>,
    y: Seq<F>,
    start: F,
    lo: int,
    hi: int,
) -> F
    decreases hi - lo,
{
    if hi <= lo {
        start
    } else {
        running_sum(x, y, start, lo, hi - 1).plus(x[hi - 1].times(y[hi - 1]))
    }
}

/// The number of blocks of eight rows in the rows `lo`, ..., `hi - 1`.
pub open spec fn blocks(lo: int, hi: int) -> int {
    if hi <= lo {
        0
    } else {
        (hi - lo) / 8
    }
}

/// The dot product of the rows `lo`, ..., `hi - 1` of `x` and `y`. The blocks of eight rows come
/// first, then the rows that are left.
#[verifier::opaque]
pub open spec fn dot_spec<F: Arithmetic>(x: Seq<F>, y: Seq<F>, lo: int, hi: int) -> F {
    let k = blocks(lo, hi);
    running_sum(x, y, block_sum(x, y, lo, k), lo + 8 * k, hi)
}

/// The square of the length of the whole of `x`. Four entries are added in pairs.
pub open spec fn norm_squared_spec<F: Arithmetic>(x: Seq<F>) -> F {
    if x.len() == 4 {
        x[0].times(x[0]).plus(x[2].times(x[2])).plus(x[1].times(x[1]).plus(x[3].times(x[3])))
    } else {
        dot_spec(x, x, 0, x.len() as int)
    }
}

/// The Euclidean norm of the rows `lo`, ..., `hi - 1` of `x`.
pub open spec fn norm_spec<F: Arithmetic>(x: Seq<F>, lo: int, hi: int) -> F {
    dot_spec(x, x, lo, hi).root()
}

/// The vector `y` with `a * x` added to its rows `lo`, ..., `hi - 1`.
pub open spec fn axpy_spec<F: Arithmetic>(y: Seq<F>, a: F, x: Seq<F>, lo: int, hi: int) -> Seq<F> {
    Seq::new(
        y.len(),
        |i: int|
            if lo <= i < hi {
                a.times(x[i]).plus(y[i])
            } else {
                y[i]
            },
    )
}

/// The first of the greatest among the rows `lo`, ..., `hi - 1` of `v`. Where some of these
/// cannot be compared, it is the last row that exceeds the one that was found before it.
pub open spec fn argmax_spec<F: Arithmetic>(v: Seq<F>, lo: int, hi: int) -> int
    decreases hi - lo,
{
    if hi <= lo + 1 {
        lo
    } else {
        let best = argmax_spec(v, lo, hi - 1);
        if v[best].below(v[hi - 1]) {
            hi - 1
        } else {
            best
        }
    }
}

/// Computes the dot product of the rows `lo`, ..., `hi - 1` of `x` and `y`.
pub fn dot<F: Real>(x: &Vec<F>, y: &Vec<F>, lo: usize, hi: usize) -> (r: F)
    requires
        lo <= hi,
        hi <= x@.len(),
        hi <= y@.len(),
    ensures
        r == dot_spec(x@, y@, lo as int, hi as int),
{
    let mut acc0: F = F::zero();
    let mut acc1: F = F::zero();
    let mut acc2: F = F::zero();
    let mut acc3: F = F::zero();
    let mut acc4: F = F::zero();
    let mut acc5: F = F::zero();
    let mut acc6: F = F::zero();
    let mut acc7: F = F::zero();
    let mut i: usize = lo;
    let ghost mut k: int = 0;
    while hi - i >= 8
        invariant
            lo <= i <= hi,
            hi <= x@.len(),
            hi <= y@.len(),
            0 <= k,
            i == lo + 8 * k,
            acc0 == lane_sum(x@, y@, lo as int, k),
            acc1 == lane_sum(x@, y@, lo + 1, k),
            acc2 == lane_sum(x@, y@, lo + 2, k),
            acc3 == lane_sum(x@, y@, lo + 3, k),
            acc4 == lane_sum(x@, y@, lo + 4, k),
            acc5 == lane_sum(x@, y@, lo + 5, k),
            acc6 == lane_sum(x@, y@, lo + 6, k),
            acc7 == lane_sum(x@, y@, lo + 7, k),
        decreases hi - i,
    {
        acc0 = acc0.add(x[i].mul(y[i]));
        acc1 = acc1.add(x[i + 1].mul(y[i + 1]));
        acc2 = acc2.add(x[i + 2].mul(y[i + 2]));
        acc3 = acc3.add(x[i + 3].mul(y[i + 3]));
        acc4 = acc4.add(x[i + 4].mul(y[i + 4]));
        acc5 = acc5.add(x[i + 5].mul(y[i + 5]));
        acc6 = acc6.add(x[i + 6].mul(y[i + 6]));
        acc7 = acc7.add(x[i + 7].mul(y[i + 7]));
        i += 8;
        proof {
            k = k + 1;
        }
    }
    assert(k == blocks(lo as int, hi as int));
    proof {
        reveal(dot_spec);
    }
    let mut sum: F = F::zero();
    sum = sum.add(acc0.add(acc4));
    sum = sum.add(acc1.add(acc5));
    sum = sum.add(acc2.add(acc6));
    sum = sum.add(acc3.add(acc7));
    let ghost start = sum;
    while i < hi
        invariant
            lo + 8 * k <= i <= hi,
            hi <= x@.len(),
            hi <= y@.len(),
            sum == running_sum(x@, y@, start, lo + 8 * k, i as int),
        decreases hi - i,
    {
        sum = sum.add(x[i].mul(y[i]));
        i += 1;
    }
    sum
}

/// Computes the square of the length of the whole of `x`.
pub fn norm_squared<F: Real>(x: &Vec<F>) -> (r: F)
    ensures
        r == norm_squared_spec(x@),
{
    if x.len() == 4 {
        x[0].mul(x[0]).add(x[2].mul(x[2])).add(x[1].mul(x[1]).add(x[3].mul(x[3])))
    } else {
        dot(x, x, 0, x.len())
    }
}

/// Computes the Euclidean norm of the rows `lo`, ..., `hi - 1` of `x`.
pub fn norm<F: Real>(x: &Vec<F>, lo: usize, hi: usize) -> (r: F)
    requires
        lo <= hi <= x@.len(),
    ensures
        r == norm_spec(x@, lo as int, hi as int),
{
    dot(x, x, lo, hi).sqrt()
}

/// Adds `a * x` to the rows `lo`, ..., `hi - 1` of `y`.
pub fn axpy<F: Real>(y: &mut Vec<F>, a: F, x: &Vec<F>, lo: usize, hi: usize)
    requires
        lo <= hi,
        hi <= x@.len(),
        hi <= old(y)@.len(),
    ensures
        final(y)@ == axpy_spec(old(y)@, a, x@, lo as int, hi as int),
{
    let mut i: usize = lo;
    while i < hi
        invariant
            lo <= i <= hi,
            hi <= x@.len(),
            hi <= old(y)@.len(),
            y@ == axpy_spec(old(y)@, a, x@, lo as int, i as int),
        decreases hi - i,
    {
        let sum: F = a.mul(x[i]).add(y[i]);
        y[i] = sum;
        i += 1;
    }
}

/// Sets the rows `lo`, ..., `hi - 1` of `v` to `value`.
pub fn fill<F: Copy>(v: &mut Vec<F>, lo: usize, hi: usize, value: F)
    requires
        lo <= hi <= old(v)@.len(),
    ensures
        final(v)@ == Seq::new(
            old(v)@.len(),
            |i: int|
                if lo <= i < hi {
                    value
                } else {
                    old(v)@[i]
                },
        ),
{
    let mut i: usize = lo;
    while i < hi
        invariant
            lo <= i <= hi <= v@.len(),
            v@.len() == old(v)@.len(),
            forall|k: int|
                0 <= k < v@.len() ==> #[trigger] v@[k] == if lo <= k < i {
                    value
                } else {
                    old(v)@[k]
                },
        decreases hi - i,
    {
        v[i] = value;
        i += 1;
    }
}

/// The index of the largest of the rows `lo`, ..., `hi - 1` of `v`.
pub fn argmax<F: Real>(v: &Vec<F>, lo: usize, hi: usize) -> (k: usize)
    requires
        lo < hi <= v@.len(),
    ensures
        lo <= k < hi,
        k == argmax_spec(v@, lo as int, hi as int),
{
    let mut best: usize = lo;
    let mut i: usize = lo + 1;
    while i < hi
        invariant
            lo < i <= hi <= v@.len(),
            lo <= best < i,
            best == argmax_spec(v@, lo as int, i as int),
        decreases hi - i,
    {
        if v[best].lt(v[i]) {
            best = i;
        }
        i += 1;
    }
    best
}

/// A copy of a vector.
pub fn copy<F: Copy>(v: &Vec<F>) -> (r: Vec<F>)
    ensures
        r@ == v@,
{
    let mut r: Vec<F> = Vec::new();
    let mut i: usize = 0;
    while i < v.len()
        invariant
            i <= v@.len(),
            r@ == v@.subrange(0, i as int),
        decreases v@.len() - i,
    {
        r.push(v[i]);
        i += 1;
    }
    r
}

} // verus!
