//! What becomes of a problem that is given in another unit.
//!
//! These laws hold exactly, whatever the rounding is, as long as the change of the unit itself is exact. For
//! binary floating point numbers that is the multiplication by a power of two, where no number gets too
//! large or too small for it.
use vstd::prelude::*;
use crate::cholesky::{lower_product, lower_row_sum, transposed_upper_product};
use crate::givens::rotation_spec;
use crate::scalar::Arithmetic;
use crate::triangular::{
    lower_solution, transposed_lower_solution, transposed_upper_solution, upper_solution,
};
use crate::vector::{
    axpy_spec, block_sum, blocks, dot_spec, lane_sum, norm_spec, norm_squared_spec, running_sum,
};

verus! {

/// Whether `phi` is a change of the unit that is exact.
pub open spec fn scales<F: Arithmetic>(phi: spec_fn(F) -> F) -> bool {
    &&& phi(F::zero_spec()) == F::zero_spec()
    &&& forall|a: F, b: F| #[trigger] phi(a).plus(phi(b)) == phi(a.plus(b))
    &&& forall|a: F, b: F| #[trigger] phi(a).minus(phi(b)) == phi(a.minus(b))
    &&& forall|a: F, b: F| #[trigger] phi(a).times(b) == phi(a.times(b))
    &&& forall|a: F, b: F| #[trigger] a.times(phi(b)) == phi(a.times(b))
    &&& forall|a: F, b: F| #[trigger] phi(a).over(phi(b)) == a.over(b)
    &&& forall|a: F, b: F| #[trigger] phi(a).over(b) == phi(a.over(b))
    &&& forall|a: F| #[trigger] phi(a).negated() == phi(a.negated())
    &&& forall|a: F| #[trigger] phi(a).magnitude() == phi(a.magnitude())
    &&& forall|a: F| #[trigger] phi(phi(a)).root() == phi(a.root())
    &&& forall|a: F| #[trigger] phi(a).vanishes() == a.vanishes()
    &&& forall|a: F| #[trigger] phi(a).has_minus_sign() == a.has_minus_sign()
    &&& forall|a: F| #[trigger] phi(a).undefined() == a.undefined()
    &&& forall|a: F, b: F| #[trigger] phi(a).below(phi(b)) == a.below(b)
}

/// Whether `y` is `x` in the other unit, in the rows `lo`, ..., `hi - 1`.
pub open spec fn in_unit<F>(phi: spec_fn(F) -> F, x: Seq<F>, y: Seq<F>, lo: int, hi: int) -> bool {
    forall|i: int| lo <= i < hi ==> #[trigger] y[i] == phi(x[i])
}

/// One of the eight sums.
proof fn lemma_lane_scaled<F: Arithmetic>(
    phi: spec_fn(F) -> F,
    x: Seq<F>,
    x2: Seq<F>,
    y: Seq<F>,
    i: int,
    k: int,
)
    requires
        scales(phi),
        in_unit(phi, x, x2, i, i + 8 * k - 7),
    ensures
        lane_sum(x2, y, i, k) == phi(lane_sum(x, y, i, k)),
        lane_sum(y, x2, i, k) == phi(lane_sum(y, x, i, k)),
    decreases k,
{
    if k > 0 {
        lemma_lane_scaled(phi, x, x2, y, i, k - 1);
        assert(x2[i + 8 * (k - 1)] == phi(x[i + 8 * (k - 1)]));
    }
}

/// A sum that is added to.
proof fn lemma_running_scaled<F: Arithmetic>(
    phi: spec_fn(F) -> F,
    x: Seq<F>,
    x2: Seq<F>,
    y: Seq<F>,
    start: F,
    lo: int,
    hi: int,
)
    requires
        scales(phi),
        in_unit(phi, x, x2, lo, hi),
    ensures
        running_sum(x2, y, phi(start), lo, hi) == phi(running_sum(x, y, start, lo, hi)),
        running_sum(y, x2, phi(start), lo, hi) == phi(running_sum(y, x, start, lo, hi)),
    decreases hi - lo,
{
    if hi > lo {
        lemma_running_scaled(phi, x, x2, y, start, lo, hi - 1);
    }
}

/// A dot product has the unit of each of the vectors.
pub proof fn law_dot_scaled<F: Arithmetic>(
    phi: spec_fn(F) -> F,
    x: Seq<F>,
    x2: Seq<F>,
    y: Seq<F>,
    lo: int,
    hi: int,
)
    requires
        scales(phi),
        in_unit(phi, x, x2, lo, hi),
    ensures
        dot_spec(x2, y, lo, hi) == phi(dot_spec(x, y, lo, hi)),
        dot_spec(y, x2, lo, hi) == phi(dot_spec(y, x, lo, hi)),
{
    reveal(dot_spec);
    let k = blocks(lo, hi);
    assert(k == 0 || lo + 8 * k <= hi);
    assert forall|q: int| 0 <= q < 8 implies #[trigger] lane_sum(x2, y, lo + q, k) == phi(
        lane_sum(x, y, lo + q, k),
    ) && lane_sum(y, x2, lo + q, k) == phi(lane_sum(y, x, lo + q, k)) by {
        lemma_lane_scaled(phi, x, x2, y, lo + q, k);
    }
    assert(lo + 0 == lo);
    assert(lane_sum(x2, y, lo + 0, k) == phi(lane_sum(x, y, lo + 0, k)));
    let (s, t) = (block_sum(x, y, lo, k), block_sum(y, x, lo, k));
    assert(F::zero_spec() == phi(F::zero_spec()));
    assert(block_sum(x2, y, lo, k) == phi(s));
    assert(lane_sum(x2, y, lo + 0, k) == phi(lane_sum(x, y, lo + 0, k)));
    assert(block_sum(y, x2, lo, k) == phi(t));
    lemma_running_scaled(phi, x, x2, y, s, lo + 8 * k, hi);
    lemma_running_scaled(phi, x, x2, y, t, lo + 8 * k, hi);
}

/// A norm has the unit of the vector.
pub proof fn law_norm_scaled<F: Arithmetic>(
    phi: spec_fn(F) -> F,
    x: Seq<F>,
    x2: Seq<F>,
    lo: int,
    hi: int,
)
    requires
        scales(phi),
        in_unit(phi, x, x2, lo, hi),
    ensures
        norm_spec(x2, lo, hi) == phi(norm_spec(x, lo, hi)),
{
    law_dot_scaled(phi, x, x2, x2, lo, hi);
    law_dot_scaled(phi, x, x2, x, lo, hi);
}

/// The norm of the whole of a vector has its unit.
pub proof fn lemma_whole_norm_scaled<F: Arithmetic>(phi: spec_fn(F) -> F, x: Seq<F>, x2: Seq<F>)
    requires
        scales(phi),
        x2.len() == x.len(),
        in_unit(phi, x, x2, 0, x.len() as int),
    ensures
        norm_squared_spec(x2) == phi(phi(norm_squared_spec(x))),
{
    if x.len() != 4 {
        law_dot_scaled(phi, x, x2, x2, 0, x.len() as int);
        law_dot_scaled(phi, x, x2, x, 0, x.len() as int);
    } else {
        assert(x2[0] == phi(x[0]) && x2[1] == phi(x[1]) && x2[2] == phi(x[2]) && x2[3] == phi(
            x[3],
        ));
    }
}

/// The solution of `R * x = b` is the same for `R` and `b` in another unit.
pub proof fn law_upper_solution_scaled<F: Arithmetic>(
    phi: spec_fn(F) -> F,
    columns: Seq<Seq<F>>,
    columns2: Seq<Seq<F>>,
    b: Seq<F>,
    b2: Seq<F>,
    n: int,
)
    requires
        scales(phi),
        0 <= n <= b.len(),
        b2.len() == b.len(),
        in_unit(phi, b, b2, 0, n),
        forall|i: int| n <= i < b.len() ==> #[trigger] b2[i] == b[i],
        forall|k: int| 0 <= k < n ==> in_unit(phi, columns[k], #[trigger] columns2[k], 0, k + 1),
    ensures
        upper_solution(columns2, b2, n) == upper_solution(columns, b, n),
    decreases n,
{
    if n > 0 {
        assert(in_unit(phi, columns[n - 1], columns2[n - 1], 0, n));
        let (d, d2) = (columns[n - 1][n - 1], columns2[n - 1][n - 1]);
        assert(d2 == phi(d));
        assert(b2[n - 1] == phi(b[n - 1]));
        if d.vanishes() {
            law_upper_solution_scaled(
                phi,
                columns,
                columns2,
                b.update(n - 1, F::zero_spec()),
                b2.update(n - 1, F::zero_spec()),
                n - 1,
            );
        } else {
            let x = b[n - 1].over(d);
            assert(b2[n - 1].over(d2) == x);
            let rest = axpy_spec(b.update(n - 1, x), x.negated(), columns[n - 1], 0, n - 1);
            let rest2 = axpy_spec(b2.update(n - 1, x), x.negated(), columns2[n - 1], 0, n - 1);
            assert forall|i: int| 0 <= i < n - 1 implies #[trigger] rest2[i] == phi(rest[i]) by {
                assert(b2[i] == phi(b[i]));
                assert(columns2[n - 1][i] == phi(columns[n - 1][i]));
            }
            law_upper_solution_scaled(phi, columns, columns2, rest, rest2, n - 1);
        }
    } else {
        assert(b2 =~= b);
    }
}

/// The solution of `L^T * x = b` is the same for `L` and `b` in another unit.
pub proof fn law_transposed_lower_solution_scaled<F: Arithmetic>(
    phi: spec_fn(F) -> F,
    columns: Seq<Seq<F>>,
    columns2: Seq<Seq<F>>,
    diagonal: Seq<F>,
    diagonal2: Seq<F>,
    b: Seq<F>,
    b2: Seq<F>,
    j: int,
    n: int,
)
    requires
        scales(phi),
        0 <= j <= n == b.len(),
        b2.len() == b.len(),
        in_unit(phi, b, b2, 0, n),
        in_unit(phi, diagonal, diagonal2, 0, n),
        forall|k: int| 0 <= k < n ==> in_unit(phi, columns[k], #[trigger] columns2[k], k + 1, n),
    ensures
        ({
            let y = transposed_lower_solution(columns, diagonal, b, j, n);
            let y2 = transposed_lower_solution(columns2, diagonal2, b2, j, n);
            &&& y.len() == n
            &&& y2.len() == n
            &&& in_unit(phi, y, y2, 0, j)
            &&& forall|i: int| j <= i < n ==> #[trigger] y2[i] == y[i]
        }),
    decreases n - j,
{
    if j < n {
        law_transposed_lower_solution_scaled(
            phi,
            columns,
            columns2,
            diagonal,
            diagonal2,
            b,
            b2,
            j + 1,
            n,
        );
        let y = transposed_lower_solution(columns, diagonal, b, j + 1, n);
        let y2 = transposed_lower_solution(columns2, diagonal2, b2, j + 1, n);
        assert(in_unit(phi, columns[j], columns2[j], j + 1, n));
        law_dot_scaled(phi, columns[j], columns2[j], y, j + 1, n);
        lemma_dot_congruent(columns2[j], y, y2, j + 1, n);
        assert(y2[j] == phi(y[j]));
        assert(diagonal2[j] == phi(diagonal[j]));
    }
}

/// A dot product reads only the rows that it is of.
pub proof fn lemma_dot_congruent<F: Arithmetic>(x: Seq<F>, y: Seq<F>, y2: Seq<F>, lo: int, hi: int)
    requires
        forall|i: int| lo <= i < hi ==> #[trigger] y2[i] == y[i],
    ensures
        dot_spec(x, y2, lo, hi) == dot_spec(x, y, lo, hi),
{
    reveal(dot_spec);
    let k = blocks(lo, hi);
    assert(k == 0 || lo + 8 * k <= hi);
    assert forall|q: int| 0 <= q < 8 implies #[trigger] lane_sum(x, y2, lo + q, k) == lane_sum(
        x,
        y,
        lo + q,
        k,
    ) by {
        lemma_lane_congruent(x, y, y2, lo + q, k);
    }
    assert(lane_sum(x, y2, lo + 0, k) == lane_sum(x, y, lo + 0, k));
    assert(block_sum(x, y2, lo, k) == block_sum(x, y, lo, k));
    lemma_running_congruent(x, y, y2, block_sum(x, y, lo, k), lo + 8 * k, hi);
}

/// One of the eight sums.
proof fn lemma_lane_congruent<F: Arithmetic>(x: Seq<F>, y: Seq<F>, y2: Seq<F>, i: int, k: int)
    requires
        forall|r: int| i <= r < i + 8 * k - 7 ==> #[trigger] y2[r] == y[r],
    ensures
        lane_sum(x, y2, i, k) == lane_sum(x, y, i, k),
    decreases k,
{
    if k > 0 {
        lemma_lane_congruent(x, y, y2, i, k - 1);
        assert(y2[i + 8 * (k - 1)] == y[i + 8 * (k - 1)]);
    }
}

/// A sum that is added to.
proof fn lemma_running_congruent<F: Arithmetic>(
    x: Seq<F>,
    y: Seq<F>,
    y2: Seq<F>,
    start: F,
    lo: int,
    hi: int,
)
    requires
        forall|i: int| lo <= i < hi ==> #[trigger] y2[i] == y[i],
    ensures
        running_sum(x, y2, start, lo, hi) == running_sum(x, y, start, lo, hi),
    decreases hi - lo,
{
    if hi > lo {
        lemma_running_congruent(x, y, y2, start, lo, hi - 1);
    }
}

/// A rotation is the same in another unit.
pub proof fn law_rotation_scaled<F: Arithmetic>(phi: spec_fn(F) -> F, r: F, d: F)
    requires
        scales(phi),
    ensures
        rotation_spec(phi(r), phi(d)) == rotation_spec(r, d),
{
    assert(phi(r).magnitude() == phi(r.magnitude()));
    assert(phi(d).magnitude() == phi(d.magnitude()));
    assert(phi(r).over(phi(d)) == r.over(d));
    assert(phi(d).over(phi(r)) == d.over(r));
}

/// The solution of `L * x = b` is the same for `L` and `b` in another unit.
pub proof fn law_lower_solution_scaled<F: Arithmetic>(
    phi: spec_fn(F) -> F,
    columns: Seq<Seq<F>>,
    columns2: Seq<Seq<F>>,
    diagonal: Seq<F>,
    diagonal2: Seq<F>,
    b: Seq<F>,
    b2: Seq<F>,
    j: int,
    n: int,
)
    requires
        scales(phi),
        0 <= j <= n == b.len(),
        b2.len() == b.len(),
        in_unit(phi, b, b2, 0, n),
        in_unit(phi, diagonal, diagonal2, 0, n),
        forall|k: int| 0 <= k < n ==> in_unit(phi, columns[k], #[trigger] columns2[k], k + 1, n),
    ensures
        ({
            let y = lower_solution(columns, diagonal, b, j, n);
            let y2 = lower_solution(columns2, diagonal2, b2, j, n);
            &&& y.len() == n
            &&& y2.len() == n
            &&& in_unit(phi, y, y2, j, n)
            &&& forall|i: int| 0 <= i < j ==> #[trigger] y2[i] == y[i]
        }),
    decreases j,
{
    if j > 0 {
        law_lower_solution_scaled(
            phi,
            columns,
            columns2,
            diagonal,
            diagonal2,
            b,
            b2,
            j - 1,
            n,
        );
        let y = lower_solution(columns, diagonal, b, j - 1, n);
        let y2 = lower_solution(columns2, diagonal2, b2, j - 1, n);
        assert(y2[j - 1] == phi(y[j - 1]));
        assert(diagonal2[j - 1] == phi(diagonal[j - 1]));
        let x = y[j - 1].over(diagonal[j - 1]);
        assert(y2[j - 1].over(diagonal2[j - 1]) == x);
        assert(in_unit(phi, columns[j - 1], columns2[j - 1], j, n));
        let z = lower_solution(columns, diagonal, b, j, n);
        let z2 = lower_solution(columns2, diagonal2, b2, j, n);
        assert forall|i: int| j <= i < n implies #[trigger] z2[i] == phi(z[i]) by {
            assert(y2[i] == phi(y[i]));
            assert(columns2[j - 1][i] == phi(columns[j - 1][i]));
        }
        assert forall|i: int| 0 <= i < j implies #[trigger] z2[i] == z[i] by {
            if i < j - 1 {
                assert(y2[i] == y[i]);
            }
        }
    }
}

/// The solution of `R^T * x = b` is the same for `R` and `b` in another unit, where no entry on the
/// diagonal is zero.
pub proof fn law_transposed_upper_solution_scaled<F: Arithmetic>(
    phi: spec_fn(F) -> F,
    columns: Seq<Seq<F>>,
    columns2: Seq<Seq<F>>,
    b: Seq<F>,
    b2: Seq<F>,
    i: int,
    n: int,
)
    requires
        scales(phi),
        0 <= i <= n == b.len(),
        b2.len() == b.len(),
        in_unit(phi, b, b2, i, n),
        forall|k: int| 0 <= k < i ==> #[trigger] b2[k] == b[k],
        forall|k: int| 0 <= k < n ==> in_unit(phi, columns[k], #[trigger] columns2[k], 0, k + 1),
        forall|k: int| 0 <= k < n ==> !(#[trigger] columns[k])[k].vanishes(),
    ensures
        transposed_upper_solution(columns2, b2, i, n) == transposed_upper_solution(
            columns,
            b,
            i,
            n,
        ),
    decreases n - i,
{
    if i < n {
        assert(!columns[i][i].vanishes());
        assert(in_unit(phi, columns[i], columns2[i], 0, i + 1));
        assert(columns2[i][i] == phi(columns[i][i]));
        assert(b2[i] == phi(b[i]));
        law_dot_scaled(phi, columns[i], columns2[i], b, 0, i);
        lemma_dot_congruent(columns2[i], b, b2, 0, i);
        let rest = b[i].minus(dot_spec(columns[i], b, 0, i));
        assert(b2[i].minus(dot_spec(columns2[i], b2, 0, i)) == phi(rest));
        let x = rest.over(columns[i][i]);
        law_transposed_upper_solution_scaled(
            phi,
            columns,
            columns2,
            b.update(i, x),
            b2.update(i, x),
            i + 1,
            n,
        );
    } else {
        assert(b2 =~= b);
    }
}

/// A row of `L * x`, in another unit.
proof fn lemma_lower_row_scaled<F: Arithmetic>(
    phi: spec_fn(F) -> F,
    columns: Seq<Seq<F>>,
    columns2: Seq<Seq<F>>,
    x: Seq<F>,
    x2: Seq<F>,
    i: int,
    k: int,
    n: int,
)
    requires
        scales(phi),
        k <= i < n,
        in_unit(phi, x, x2, 0, n),
        forall|c: int| 0 <= c < n ==> in_unit(phi, columns[c], #[trigger] columns2[c], c + 1, n),
    ensures
        lower_row_sum(columns2, x2, i, k) == phi(phi(lower_row_sum(columns, x, i, k))),
    decreases k,
{
    if k > 0 {
        lemma_lower_row_scaled(phi, columns, columns2, x, x2, i, k - 1, n);
        assert(in_unit(phi, columns[k - 1], columns2[k - 1], k, n));
        assert(columns2[k - 1][i] == phi(columns[k - 1][i]));
        assert(x2[k - 1] == phi(x[k - 1]));
    }
}

/// `L * x` has the unit of `L` and that of `x`.
pub proof fn law_lower_product_scaled<F: Arithmetic>(
    phi: spec_fn(F) -> F,
    columns: Seq<Seq<F>>,
    columns2: Seq<Seq<F>>,
    diagonal: Seq<F>,
    diagonal2: Seq<F>,
    x: Seq<F>,
    x2: Seq<F>,
    i: int,
)
    requires
        scales(phi),
        0 <= i < x.len(),
        x2.len() == x.len(),
        in_unit(phi, x, x2, 0, x.len() as int),
        in_unit(phi, diagonal, diagonal2, 0, x.len() as int),
        forall|c: int|
            0 <= c < x.len() ==> in_unit(
                phi,
                columns[c],
                #[trigger] columns2[c],
                c + 1,
                x.len() as int,
            ),
    ensures
        lower_product(columns2, diagonal2, x2)[i] == phi(phi(lower_product(columns, diagonal, x)[i])),
{
    reveal(lower_product);
    lemma_lower_row_scaled(phi, columns, columns2, x, x2, i, i, x.len() as int);
    assert(x2[i] == phi(x[i]));
    assert(diagonal2[i] == phi(diagonal[i]));
}

/// `R^T * x` has the unit of `R` and that of `x`.
pub proof fn law_transposed_upper_product_scaled<F: Arithmetic>(
    phi: spec_fn(F) -> F,
    columns: Seq<Seq<F>>,
    columns2: Seq<Seq<F>>,
    x: Seq<F>,
    x2: Seq<F>,
    i: int,
)
    requires
        scales(phi),
        0 <= i < x.len(),
        x2.len() == x.len(),
        in_unit(phi, x, x2, 0, x.len() as int),
        in_unit(phi, columns[i], columns2[i], 0, i + 1),
    ensures
        transposed_upper_product(columns2, x2)[i] == phi(
            phi(transposed_upper_product(columns, x)[i]),
        ),
{
    law_dot_scaled(phi, x, x2, columns2[i], 0, i + 1);
    law_dot_scaled(phi, columns[i], columns2[i], x, 0, i + 1);
}

} // verus!
