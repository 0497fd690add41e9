//! Vectors of real numbers, and what vectors of a number type stand for.
use vstd::prelude::*;
use crate::laws::sums::{
    lemma_sum_congruent, lemma_sum_nonnegative, lemma_sum_of_sums, lemma_sum_scaled,
    lemma_sum_split, sum,
};
use crate::scalar::{exact, Arithmetic};
use crate::vector::{
    block_sum, blocks, dot_spec, lane_sum, norm_spec, norm_squared_spec, running_sum,
};

verus! {

/// What the entries of `x` stand for.
pub open spec fn values<F>(val: spec_fn(F) -> real, x: Seq<F>) -> Seq<real> {
    Seq::new(x.len(), |i: int| val(x[i]))
}

/// What the columns of a matrix stand for.
pub open spec fn matrix_values<F>(val: spec_fn(F) -> real, columns: Seq<Seq<F>>) -> Seq<Seq<real>> {
    Seq::new(columns.len(), |j: int| values(val, columns[j]))
}

/// The dot product of the rows `lo`, ..., `hi - 1`.
pub open spec fn inner(x: Seq<real>, y: Seq<real>, lo: int, hi: int) -> real {
    sum(|i: int| x[i] * y[i], lo, hi)
}

/// The vector `A * x` for the matrix with the given columns and `m` rows.
pub open spec fn product(columns: Seq<Seq<real>>, x: Seq<real>, m: int) -> Seq<real> {
    Seq::new(m as nat, |i: int| sum(|j: int| columns[j][i] * x[j], 0, columns.len() as int))
}

/// The sum of the eight partial sums is the sum over all rows of the blocks.
proof fn lemma_block_sum<F: Arithmetic>(
    val: spec_fn(F) -> real,
    x: Seq<F>,
    y: Seq<F>,
    lo: int,
    k: int,
)
    requires
        exact(val),
        0 <= lo,
        0 <= k,
        lo + 8 * k <= x.len(),
        lo + 8 * k <= y.len(),
    ensures
        val(block_sum(x, y, lo, k)) == inner(values(val, x), values(val, y), lo, lo + 8 * k),
    decreases k,
{
    let f = |i: int| values(val, x)[i] * values(val, y)[i];
    if k > 0 {
        lemma_block_sum(val, x, y, lo, k - 1);
        let i = lo + 8 * (k - 1);
        assert(sum(f, lo, i + 8) == sum(f, lo, i) + f(i) + f(i + 1) + f(i + 2) + f(i + 3) + f(
            i + 4,
        ) + f(i + 5) + f(i + 6) + f(i + 7)) by {
            assert(sum(f, lo, i + 8) == sum(f, lo, i + 7) + f(i + 7));
            assert(sum(f, lo, i + 7) == sum(f, lo, i + 6) + f(i + 6));
            assert(sum(f, lo, i + 6) == sum(f, lo, i + 5) + f(i + 5));
            assert(sum(f, lo, i + 5) == sum(f, lo, i + 4) + f(i + 4));
            assert(sum(f, lo, i + 4) == sum(f, lo, i + 3) + f(i + 3));
            assert(sum(f, lo, i + 3) == sum(f, lo, i + 2) + f(i + 2));
            assert(sum(f, lo, i + 2) == sum(f, lo, i + 1) + f(i + 1));
            assert(sum(f, lo, i + 1) == sum(f, lo, i) + f(i));
        }
        assert forall|q: int| 0 <= q < 8 implies val(#[trigger] lane_sum(x, y, lo + q, k)) == val(
            lane_sum(x, y, lo + q, k - 1),
        ) + f(i + q) by {
            assert(lo + q + 8 * (k - 1) == i + q);
        }
        assert(lo + 0 == lo);
        assert(val(lane_sum(x, y, lo + 0, k)) == val(lane_sum(x, y, lo + 0, k - 1)) + f(i));
    } else {
        assert(sum(f, lo, lo) == 0 as real);
    }
}

/// The products are added exactly.
proof fn lemma_running_sum<F: Arithmetic>(
    val: spec_fn(F) -> real,
    x: Seq<F>,
    y: Seq<F>,
    start: F,
    lo: int,
    hi: int,
)
    requires
        exact(val),
        0 <= lo,
        hi <= x.len(),
        hi <= y.len(),
    ensures
        val(running_sum(x, y, start, lo, hi)) == val(start) + inner(
            values(val, x),
            values(val, y),
            lo,
            hi,
        ),
    decreases hi - lo,
{
    if hi > lo {
        lemma_running_sum(val, x, y, start, lo, hi - 1);
    }
}

/// The dot product is computed exactly.
pub proof fn lemma_dot<F: Arithmetic>(
    val: spec_fn(F) -> real,
    x: Seq<F>,
    y: Seq<F>,
    lo: int,
    hi: int,
)
    requires
        exact(val),
        0 <= lo,
        hi <= x.len(),
        hi <= y.len(),
    ensures
        val(dot_spec(x, y, lo, hi)) == inner(values(val, x), values(val, y), lo, hi),
{
    reveal(dot_spec);
    let k = blocks(lo, hi);
    if hi > lo {
        lemma_block_sum(val, x, y, lo, k);
        lemma_running_sum(val, x, y, block_sum(x, y, lo, k), lo + 8 * k, hi);
        lemma_sum_split(
            |i: int| values(val, x)[i] * values(val, y)[i],
            lo,
            lo + 8 * k,
            hi,
        );
    } else {
        let zero = F::zero_spec();
        assert(lane_sum(x, y, lo, 0) == zero);
        assert(val(block_sum(x, y, lo, 0)) == 0 as real);
    }
}

/// The square of the length is computed exactly.
pub proof fn lemma_norm_squared<F: Arithmetic>(val: spec_fn(F) -> real, x: Seq<F>)
    requires
        exact(val),
    ensures
        val(norm_squared_spec(x)) == inner(values(val, x), values(val, x), 0, x.len() as int),
{
    if x.len() == 4 {
        let f = |i: int| values(val, x)[i] * values(val, x)[i];
        assert(sum(f, 0, 4) == sum(f, 0, 3) + f(3));
        assert(sum(f, 0, 3) == sum(f, 0, 2) + f(2));
        assert(sum(f, 0, 2) == sum(f, 0, 1) + f(1));
        assert(sum(f, 0, 1) == sum(f, 0, 0) + f(0));
        assert(sum(f, 0, 0) == 0 as real);
    } else {
        lemma_dot(val, x, x, 0, x.len() as int);
    }
}

/// The norm of the whole of `x` is computed exactly.
pub proof fn lemma_whole_norm<F: Arithmetic>(val: spec_fn(F) -> real, x: Seq<F>)
    requires
        exact(val),
    ensures
        val(norm_squared_spec(x).root()) >= 0 as real,
        val(norm_squared_spec(x).root()) * val(norm_squared_spec(x).root()) == inner(
            values(val, x),
            values(val, x),
            0,
            x.len() as int,
        ),
{
    lemma_norm_squared(val, x);
    lemma_inner_nonnegative(values(val, x), 0, x.len() as int);
}

/// The norm is computed exactly.
pub proof fn lemma_norm<F: Arithmetic>(val: spec_fn(F) -> real, x: Seq<F>, lo: int, hi: int)
    requires
        exact(val),
        0 <= lo,
        hi <= x.len(),
    ensures
        val(norm_spec(x, lo, hi)) >= 0 as real,
        val(norm_spec(x, lo, hi)) * val(norm_spec(x, lo, hi)) == inner(
            values(val, x),
            values(val, x),
            lo,
            hi,
        ),
{
    lemma_dot(val, x, x, lo, hi);
    lemma_inner_nonnegative(values(val, x), lo, hi);
}

/// Dot products of vectors with equal entries in the range are equal.
pub proof fn lemma_inner_congruent(
    x: Seq<real>,
    y: Seq<real>,
    u: Seq<real>,
    v: Seq<real>,
    lo: int,
    hi: int,
)
    requires
        forall|i: int| lo <= i < hi ==> #[trigger] x[i] == u[i],
        forall|i: int| lo <= i < hi ==> #[trigger] y[i] == v[i],
    ensures
        inner(x, y, lo, hi) == inner(u, v, lo, hi),
{
    let f = |i: int| x[i] * y[i];
    let g = |i: int| u[i] * v[i];
    assert forall|i: int| lo <= i < hi implies #[trigger] f(i) == g(i) by {
        assert(x[i] == u[i] && y[i] == v[i]);
    }
    lemma_sum_congruent(f, g, lo, hi);
}

/// The dot product is symmetric.
pub proof fn lemma_inner_symmetric(x: Seq<real>, y: Seq<real>, lo: int, hi: int)
    ensures
        inner(x, y, lo, hi) == inner(y, x, lo, hi),
{
    let f = |i: int| x[i] * y[i];
    let g = |i: int| y[i] * x[i];
    assert forall|i: int| lo <= i < hi implies #[trigger] f(i) == g(i) by {
        assert(x[i] * y[i] == y[i] * x[i]) by (nonlinear_arith);
    }
    lemma_sum_congruent(f, g, lo, hi);
}

/// The dot product is linear: `(x + c * w) . y = x . y + c * (w . y)`.
pub proof fn lemma_inner_linear(
    z: Seq<real>,
    x: Seq<real>,
    c: real,
    w: Seq<real>,
    y: Seq<real>,
    lo: int,
    hi: int,
)
    requires
        forall|i: int| lo <= i < hi ==> #[trigger] z[i] == x[i] + c * w[i],
    ensures
        inner(z, y, lo, hi) == inner(x, y, lo, hi) + c * inner(w, y, lo, hi),
{
    let f = |i: int| x[i] * y[i];
    let g = |i: int| w[i] * y[i];
    let cg = |i: int| c * g(i);
    let h = |i: int| z[i] * y[i];
    lemma_sum_scaled(c, g, cg, lo, hi);
    assert forall|i: int| lo <= i < hi implies #[trigger] h(i) == f(i) + cg(i) by {
        let (a, b, d, e) = (x[i], w[i], y[i], z[i]);
        assert(e == a + c * b);
        assert(e * d == a * d + c * (b * d)) by (nonlinear_arith)
            requires
                e == a + c * b,
        ;
    }
    lemma_sum_of_sums(f, cg, h, lo, hi);
}

/// The dot product of a vector with itself is not negative, and is zero only for the zero vector.
pub proof fn lemma_inner_nonnegative(x: Seq<real>, lo: int, hi: int)
    ensures
        inner(x, x, lo, hi) >= 0 as real,
        inner(x, x, lo, hi) == 0 as real ==> forall|i: int|
            lo <= i < hi ==> #[trigger] x[i] == 0 as real,
        forall|i: int| lo <= i < hi ==> (#[trigger] x[i]) * x[i] <= inner(x, x, lo, hi),
{
    let f = |i: int| x[i] * x[i];
    assert forall|i: int| lo <= i < hi implies #[trigger] f(i) >= 0 as real by {
        assert(x[i] * x[i] >= 0 as real) by (nonlinear_arith);
    }
    lemma_sum_nonnegative(f, lo, hi);
    assert forall|i: int| lo <= i < hi implies (#[trigger] x[i]) * x[i] <= inner(
        x,
        x,
        lo,
        hi,
    ) by {
        assert(f(i) <= sum(f, lo, hi));
    }
    if inner(x, x, lo, hi) == 0 as real {
        assert forall|i: int| lo <= i < hi implies #[trigger] x[i] == 0 as real by {
            let a = x[i];
            assert(f(i) <= sum(f, lo, hi));
            assert(f(i) >= 0 as real);
            assert(a == 0 as real) by (nonlinear_arith)
                requires
                    a * a == 0 as real,
            ;
        }
    }
}

} // verus!
