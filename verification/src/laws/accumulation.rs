//! The factorization and the least squares problem where the arithmetic is rounded.
use vstd::prelude::*;
use crate::householder::{lemma_reflect_all_len, reflect_all, reflect_spec, reflector, signed_norm};
use crate::laws::factorization::present;
use crate::laws::least_squares::{upper_entry, upper_gram, upper_rhs};
use crate::laws::reduction::{law_norm_rounded, law_reduction_rounded, small};
use crate::laws::rounding::power;
use crate::laws::stability::step_error;
use crate::laws::sums::{lemma_sum_congruent, lemma_sum_first, lemma_sum_of_zeros, lemma_sum_split};
use crate::laws::vectors::{
    inner, lemma_inner_congruent, lemma_inner_nonnegative, lemma_inner_symmetric, values,
};
use crate::lls::LeastSquares;
use crate::matrix::has_rows;
use crate::permutation::{is_permutation, lemma_exchange_is_permutation};
use crate::qr::{factorization, least_squares, pivot, reduce, reduced, Factorization};
use crate::scalar::{absolute, rounded, Arithmetic};
use crate::vector::{argmax_spec, norm_spec};

verus! {

/// Vector `k` of the columns of a factorization after `j` columns are reduced, followed by `b`.
spec fn current<F>(
    val: spec_fn(F) -> real,
    s: Factorization<F>,
    b: Seq<F>,
    j: int,
    k: int,
) -> Seq<real> {
    if k < s.columns.len() {
        present(val, s, j, k)
    } else {
        values(val, b)
    }
}

/// Vector `k` of the columns of `A * P`, followed by `b`.
spec fn original<F>(
    val: spec_fn(F) -> real,
    a: Seq<Seq<F>>,
    permutation: Seq<usize>,
    b: Seq<F>,
    k: int,
) -> Seq<real> {
    if k < a.len() {
        values(val, a[permutation[k] as int])
    } else {
        values(val, b)
    }
}

/// The factor by which errors can have grown after `j` reflections of `m` rows.
pub open spec fn spread(u: real, m: int, j: int) -> real {
    power(1 as real + (120 as real) * step_error(u, m), j as nat)
}

/// Whether the dot product of `x` and `y` is that of `x0` and `y0`, up to the error of `j` reflections.
spec fn kept(
    u: real,
    m: int,
    j: int,
    x: Seq<real>,
    y: Seq<real>,
    x0: Seq<real>,
    y0: Seq<real>,
) -> bool {
    (2 as real) * absolute(inner(x, y, 0, m) - inner(x0, y0, 0, m)) <= (spread(u, m, j)
        - 1 as real) * (inner(x0, x0, 0, m) + inner(y0, y0, 0, m))
}

/// Whether all dot products are kept up to the error of `j` reflections.
spec fn all_kept<F>(
    val: spec_fn(F) -> real,
    u: real,
    a: Seq<Seq<F>>,
    b0: Seq<F>,
    m: int,
    s: Factorization<F>,
    b: Seq<F>,
    j: int,
    i: int,
) -> bool {
    forall|k: int, l: int|
        0 <= k <= a.len() && 0 <= l <= a.len() ==> kept(
            u,
            m,
            i,
            #[trigger] current(val, s, b, j, k),
            #[trigger] current(val, s, b, j, l),
            original(val, a, s.permutation, b0, k),
            original(val, a, s.permutation, b0, l),
        )
}

/// The factor does not decrease.
pub proof fn lemma_spread(u: real, m: int, j: int)
    requires
        step_error(u, m) >= 0 as real,
        0 <= j,
    ensures
        spread(u, m, j) >= 1 as real,
        spread(u, m, j + 1) == (1 as real + (120 as real) * step_error(u, m)) * spread(u, m, j),
        spread(u, m, 0) == 1 as real,
    decreases j,
{
    if j > 0 {
        lemma_spread(u, m, j - 1);
        let (g, p) = (1 as real + (120 as real) * step_error(u, m), spread(u, m, j - 1));
        assert(g * p >= 1 as real) by (nonlinear_arith)
            requires
                g >= 1 as real,
                p >= 1 as real,
        ;
    }
}

/// The numbers of one step.
pub proof fn lemma_kept_constant(
    h: real,
    p: real,
    q: real,
    g: real,
    g0: real,
    g2: real,
    x: real,
    y: real,
    x0: real,
    y0: real,
)
    requires
        h >= 0 as real,
        p >= 1 as real,
        q == (1 as real + (120 as real) * h) * p,
        x0 >= 0 as real,
        y0 >= 0 as real,
        (2 as real) * absolute(g - g0) <= (p - 1 as real) * (x0 + y0),
        absolute(g2 - g) <= ((60 as real) * h) * (x + y),
        x <= p * x0,
        y <= p * y0,
    ensures
        (2 as real) * absolute(g2 - g0) <= (q - 1 as real) * (x0 + y0),
{
    let s = x0 + y0;
    let t = p * s;
    assert(t == p * x0 + p * y0) by (nonlinear_arith)
        requires
            t == p * s,
            s == x0 + y0,
    ;
    let c = (60 as real) * h;
    assert(c * (x + y) <= c * t) by (nonlinear_arith)
        requires
            x + y <= t,
            c >= 0 as real,
    ;
    let d = (120 as real) * h;
    assert(c * t + c * t == d * t) by (nonlinear_arith)
        requires
            d == c + c,
    ;
    assert((q - 1 as real) * s == (p - 1 as real) * s + d * t) by (nonlinear_arith)
        requires
            q == (1 as real + d) * p,
            t == p * s,
    ;
}

/// A length that is kept is at most `spread` times what it was.
proof fn lemma_kept_length(u: real, m: int, j: int, x: Seq<real>, x0: Seq<real>)
    requires
        kept(u, m, j, x, x, x0, x0),
    ensures
        inner(x, x, 0, m) <= spread(u, m, j) * inner(x0, x0, 0, m),
{
    let (p, a, b) = (spread(u, m, j), inner(x, x, 0, m), inner(x0, x0, 0, m));
    assert((p - 1 as real) * (b + b) == (2 as real) * (p * b - b)) by (nonlinear_arith);
}

/// One step keeps the dot products up to the error of one more reflection.
proof fn lemma_kept_step(
    u: real,
    m: int,
    j: int,
    x: Seq<real>,
    y: Seq<real>,
    x2: Seq<real>,
    y2: Seq<real>,
    x0: Seq<real>,
    y0: Seq<real>,
)
    requires
        0 <= j,
        step_error(u, m) >= 0 as real,
        kept(u, m, j, x, y, x0, y0),
        kept(u, m, j, x, x, x0, x0),
        kept(u, m, j, y, y, y0, y0),
        absolute(inner(x2, y2, 0, m) - inner(x, y, 0, m)) <= ((60 as real) * step_error(u, m)) * (
        inner(x, x, 0, m) + inner(y, y, 0, m)),
    ensures
        kept(u, m, j + 1, x2, y2, x0, y0),
{
    lemma_spread(u, m, j);
    lemma_kept_length(u, m, j, x, x0);
    lemma_kept_length(u, m, j, y, y0);
    lemma_inner_nonnegative(x0, 0, m);
    lemma_inner_nonnegative(y0, 0, m);
    lemma_kept_constant(
        step_error(u, m),
        spread(u, m, j),
        spread(u, m, j + 1),
        inner(x, y, 0, m),
        inner(x0, y0, 0, m),
        inner(x2, y2, 0, m),
        inner(x, x, 0, m),
        inner(y, y, 0, m),
        inner(x0, x0, 0, m),
        inner(y0, y0, 0, m),
    );
}

/// Dot products in parts: where the first `j` rows stay, only the others matter.
proof fn lemma_rows_split(
    x: Seq<real>,
    y: Seq<real>,
    x2: Seq<real>,
    y2: Seq<real>,
    j: int,
    m: int,
)
    requires
        0 <= j <= m,
        forall|i: int| 0 <= i < j ==> #[trigger] x2[i] == x[i],
        forall|i: int| 0 <= i < j ==> #[trigger] y2[i] == y[i],
    ensures
        inner(x2, y2, 0, m) - inner(x, y, 0, m) == inner(x2, y2, j, m) - inner(x, y, j, m),
        inner(x, x, j, m) <= inner(x, x, 0, m),
        inner(y, y, j, m) <= inner(y, y, 0, m),
{
    lemma_sum_split(|i: int| x[i] * y[i], 0, j, m);
    lemma_sum_split(|i: int| x2[i] * y2[i], 0, j, m);
    lemma_inner_congruent(x2, y2, x, y, 0, j);
    lemma_sum_split(|i: int| x[i] * x[i], 0, j, m);
    lemma_sum_split(|i: int| y[i] * y[i], 0, j, m);
    lemma_inner_nonnegative(x, 0, j);
    lemma_inner_nonnegative(y, 0, j);
}

/// A bound for some rows is one for all.
proof fn lemma_weaker(c: real, h: real, f: real, x: real, y: real, xx: real, yy: real)
    requires
        h >= 0 as real,
        (0 as real) <= f <= 60 as real,
        (0 as real) <= x <= xx,
        (0 as real) <= y <= yy,
        c <= (f * h) * (x + y),
    ensures
        c <= ((60 as real) * h) * (xx + yy),
{
    let (p, q) = (f * h, (60 as real) * h);
    assert((0 as real) <= p <= q) by (nonlinear_arith)
        requires
            p == f * h,
            q == (60 as real) * h,
            (0 as real) <= f <= 60 as real,
            h >= 0 as real,
    ;
    let (s, t) = (x + y, xx + yy);
    assert(p * s <= q * t) by (nonlinear_arith)
        requires
            (0 as real) <= p <= q,
            (0 as real) <= s <= t,
    {
        assert(p * s <= q * s);
        assert(q * s <= q * t);
    }
}

/// The dot product with a vector that is zero in the rows `j`, ....
proof fn lemma_zero_rows(x: Seq<real>, y: Seq<real>, j: int, m: int)
    requires
        forall|i: int| j <= i < m ==> #[trigger] x[i] == 0 as real,
    ensures
        inner(x, y, j, m) == 0 as real,
{
    let f = |i: int| x[i] * y[i];
    assert forall|i: int| j <= i < m implies #[trigger] f(i) == 0 as real by {
        let (p, q) = (x[i], y[i]);
        assert(p * q == 0 as real) by (nonlinear_arith)
            requires
                p == 0 as real,
        ;
    }
    lemma_sum_of_zeros(f, j, m);
}

/// Whether two dot products differ by no more than one reflection makes them.
spec fn moves(u: real, m: int, x: Seq<real>, y: Seq<real>, x2: Seq<real>, y2: Seq<real>) -> bool {
    absolute(inner(x2, y2, 0, m) - inner(x, y, 0, m)) <= ((60 as real) * step_error(u, m)) * (inner(
        x,
        x,
        0,
        m,
    ) + inner(y, y, 0, m))
}

/// The order of the vectors does not matter.
proof fn lemma_moves_symmetric(
    u: real,
    m: int,
    x: Seq<real>,
    y: Seq<real>,
    x2: Seq<real>,
    y2: Seq<real>,
)
    requires
        moves(u, m, x, y, x2, y2),
    ensures
        moves(u, m, y, x, y2, x2),
{
    lemma_inner_symmetric(x, y, 0, m);
    lemma_inner_symmetric(x2, y2, 0, m);
}

/// Dot products that stay.
proof fn lemma_moves_not(
    u: real,
    m: int,
    x: Seq<real>,
    y: Seq<real>,
    x2: Seq<real>,
    y2: Seq<real>,
)
    requires
        step_error(u, m) >= 0 as real,
        inner(x2, y2, 0, m) == inner(x, y, 0, m),
    ensures
        moves(u, m, x, y, x2, y2),
{
    lemma_inner_nonnegative(x, 0, m);
    lemma_inner_nonnegative(y, 0, m);
    let (c, s) = ((60 as real) * step_error(u, m), inner(x, x, 0, m) + inner(y, y, 0, m));
    assert(c * s >= 0 as real) by (nonlinear_arith)
        requires
            c >= 0 as real,
            s >= 0 as real,
    ;
}

/// What the vector with number `k` becomes, and the vector before it where it is reflected.
spec fn reflected<F>(s: Factorization<F>, b: Seq<F>, k: int) -> Seq<F> {
    if k < s.columns.len() {
        s.columns[k]
    } else {
        b
    }
}

/// The vector `b` after column `j` is reduced.
spec fn next_b<F: Arithmetic>(t: Factorization<F>, b: Seq<F>, j: int) -> Seq<F> {
    if t.columns[j][j].vanishes() {
        b
    } else {
        reflect_spec(t.columns[j], j, b)
    }
}

/// A pair of vectors of which the first is reduced already.
proof fn lemma_pair_reduced<F: Arithmetic>(
    val: spec_fn(F) -> real,
    u: real,
    m: int,
    s: Factorization<F>,
    b: Seq<F>,
    j: int,
    k: int,
    l: int,
)
    requires
        rounded(val, u),
        s.wf(m),
        b.len() == m,
        0 <= j < s.columns.len(),
        0 <= k < j,
        0 <= l <= s.columns.len(),
        small(step_error(u, m)),
        !norm_spec(s.columns[j], j, m).vanishes(),
        val(reduce(s, j).columns[j][j]) != 0 as real,
    ensures
        ({
            let t = reduce(s, j);
            let c = next_b(t, b, j);
            moves(
                u,
                m,
                current(val, s, b, j, k),
                current(val, s, b, j, l),
                current(val, t, c, j + 1, k),
                current(val, t, c, j + 1, l),
            )
        }),
{
    let t = reduce(s, j);
    let c = next_b(t, b, j);
    let (x, y) = (current(val, s, b, j, k), current(val, s, b, j, l));
    let (x2, y2) = (current(val, t, c, j + 1, k), current(val, t, c, j + 1, l));
    assert(s.columns[k].len() == m && s.columns[j].len() == m);
    assert(t.columns[k] == s.columns[k]);
    assert(x2 =~= x);
    if l < s.columns.len() {
        assert(s.columns[l].len() == m);
        if l < j {
            assert(t.columns[l] == s.columns[l]);
        }
    }
    assert forall|i: int| 0 <= i < j implies #[trigger] y2[i] == y[i] by {}
    lemma_rows_split(x, y, x2, y2, j, m);
    assert forall|i: int| j <= i < m implies #[trigger] x[i] == 0 as real by {}
    lemma_zero_rows(x, y, j, m);
    lemma_zero_rows(x2, y2, j, m);
    lemma_moves_not(u, m, x, y, x2, y2);
}

/// A pair of vectors of which the first is the one that is reduced.
proof fn lemma_pair_own<F: Arithmetic>(
    val: spec_fn(F) -> real,
    u: real,
    m: int,
    s: Factorization<F>,
    b: Seq<F>,
    j: int,
    l: int,
)
    requires
        rounded(val, u),
        s.wf(m),
        b.len() == m,
        0 <= j < s.columns.len(),
        j <= l <= s.columns.len(),
        small(step_error(u, m)),
        !norm_spec(s.columns[j], j, m).vanishes(),
        val(reduce(s, j).columns[j][j]) != 0 as real,
    ensures
        ({
            let t = reduce(s, j);
            let c = next_b(t, b, j);
            moves(
                u,
                m,
                current(val, s, b, j, j),
                current(val, s, b, j, l),
                current(val, t, c, j + 1, j),
                current(val, t, c, j + 1, l),
            )
        }),
{
    let t = reduce(s, j);
    let c = next_b(t, b, j);
    let (x, y) = (current(val, s, b, j, j), current(val, s, b, j, l));
    let (x2, y2) = (current(val, t, c, j + 1, j), current(val, t, c, j + 1, l));
    let xf = s.columns[j];
    assert(xf.len() == m);
    let yf = reflected(s, b, l);
    if l < s.columns.len() {
        assert(s.columns[l].len() == m);
    }
    let h = step_error(u, m);
    law_reduction_rounded(val, u, xf, j, yf, yf);
    let sc = val(signed_norm(xf, j));
    assert(t.columns[j] == reflector(xf, j, signed_norm(xf, j)));
    assert(x == values(val, xf));
    assert(y == values(val, yf));
    assert forall|i: int| 0 <= i < j implies #[trigger] x2[i] == x[i] by {}
    assert forall|i: int| 0 <= i < j implies #[trigger] y2[i] == y[i] by {}
    lemma_rows_split(x, y, x2, y2, j, m);
    lemma_inner_nonnegative(x, j, m);
    lemma_inner_nonnegative(y, j, m);
    // only row j of the reduced column is not zero
    let f = |i: int| x2[i] * y2[i];
    assert(x2[j] == -sc);
    lemma_sum_first(f, j, m);
    assert forall|i: int| j + 1 <= i < m implies #[trigger] x2[i] == 0 as real by {}
    lemma_zero_rows(x2, y2, j + 1, m);
    assert(inner(x2, y2, j, m) == (-sc) * y2[j]);
    let (nn, yy) = (inner(x, x, j, m), inner(y, y, j, m));
    if l == j {
        assert((-sc) * (-sc) == sc * sc) by (nonlinear_arith);
        let d = absolute(inner(x2, y2, 0, m) - inner(x, y, 0, m));
        assert(h * nn <= ((5 as real) * h) * (nn + yy)) by (nonlinear_arith)
            requires
                h >= 0 as real,
                nn >= 0 as real,
                yy >= 0 as real,
        ;
        lemma_weaker(d, h, 5 as real, nn, yy, inner(x, x, 0, m), inner(y, y, 0, m));
    } else {
        assert(y2 == values(val, reflect_spec(t.columns[j], j, yf)));
        let d = absolute(inner(x2, y2, 0, m) - inner(x, y, 0, m));
        lemma_weaker(d, h, 5 as real, nn, yy, inner(x, x, 0, m), inner(y, y, 0, m));
    }
}

/// A pair of vectors that are reflected.
proof fn lemma_pair_reflected<F: Arithmetic>(
    val: spec_fn(F) -> real,
    u: real,
    m: int,
    s: Factorization<F>,
    b: Seq<F>,
    j: int,
    k: int,
    l: int,
)
    requires
        rounded(val, u),
        s.wf(m),
        b.len() == m,
        0 <= j < s.columns.len(),
        j < k <= s.columns.len(),
        j < l <= s.columns.len(),
        small(step_error(u, m)),
        !norm_spec(s.columns[j], j, m).vanishes(),
        val(reduce(s, j).columns[j][j]) != 0 as real,
    ensures
        ({
            let t = reduce(s, j);
            let c = next_b(t, b, j);
            moves(
                u,
                m,
                current(val, s, b, j, k),
                current(val, s, b, j, l),
                current(val, t, c, j + 1, k),
                current(val, t, c, j + 1, l),
            )
        }),
{
    let t = reduce(s, j);
    let c = next_b(t, b, j);
    let (x, y) = (current(val, s, b, j, k), current(val, s, b, j, l));
    let (x2, y2) = (current(val, t, c, j + 1, k), current(val, t, c, j + 1, l));
    assert(s.columns[j].len() == m);
    let (xf, yf) = (reflected(s, b, k), reflected(s, b, l));
    if k < s.columns.len() {
        assert(s.columns[k].len() == m);
    }
    if l < s.columns.len() {
        assert(s.columns[l].len() == m);
    }
    let h = step_error(u, m);
    law_reduction_rounded(val, u, s.columns[j], j, xf, yf);
    assert(t.columns[j] == reflector(s.columns[j], j, signed_norm(s.columns[j], j)));
    assert(x2 == values(val, reflect_spec(t.columns[j], j, xf)));
    assert(y2 == values(val, reflect_spec(t.columns[j], j, yf)));
    assert forall|i: int| 0 <= i < j implies #[trigger] x2[i] == x[i] by {}
    assert forall|i: int| 0 <= i < j implies #[trigger] y2[i] == y[i] by {}
    lemma_rows_split(x, y, x2, y2, j, m);
    lemma_inner_nonnegative(x, j, m);
    lemma_inner_nonnegative(y, j, m);
    let d = absolute(inner(x2, y2, 0, m) - inner(x, y, 0, m));
    lemma_weaker(
        d,
        h,
        60 as real,
        inner(x, x, j, m),
        inner(y, y, j, m),
        inner(x, x, 0, m),
        inner(y, y, 0, m),
    );
}

/// The reduction of a column that is zero from the diagonal on changes no vector.
proof fn lemma_zero_reduced<F: Arithmetic>(
    val: spec_fn(F) -> real,
    u: real,
    m: int,
    s: Factorization<F>,
    b: Seq<F>,
    j: int,
    k: int,
)
    requires
        rounded(val, u),
        s.wf(m),
        0 <= j < s.columns.len(),
        0 <= k <= s.columns.len(),
        small(step_error(u, m)),
        norm_spec(s.columns[j], j, m).vanishes(),
    ensures
        next_b(reduce(s, j), b, j) == b,
        current(val, reduce(s, j), b, j + 1, k) == current(val, s, b, j, k),
{
    let t = reduce(s, j);
    let x = s.columns[j];
    assert(x.len() == m);
    let xs = values(val, x);
    let nn = inner(xs, xs, j, m);
    let h = step_error(u, m);
    law_norm_rounded(val, u, x, j);
    lemma_inner_nonnegative(xs, j, m);
    let l = val(norm_spec(x, j, m));
    assert(l * l == 0 as real) by (nonlinear_arith)
        requires
            l == 0 as real,
    ;
    assert(nn == 0 as real) by {
        assert((100 as real) * (h * nn) <= nn) by (nonlinear_arith)
            requires
                (100 as real) * h <= 1 as real,
                nn >= 0 as real,
        ;
    }
    assert(xs[j] == 0 as real);
    if k < s.columns.len() {
        assert(s.columns[k].len() == m);
        assert forall|i: int| 0 <= i < m implies #[trigger] current(val, t, b, j + 1, k)[i]
            == current(val, s, b, j, k)[i] by {
            if k == j && i >= j {
                assert(xs[i] == 0 as real);
            }
        }
        assert(current(val, t, b, j + 1, k) =~= current(val, s, b, j, k));
    }
}

/// The reduction of a column keeps all dot products up to the error of one more reflection.
proof fn lemma_reduce_kept<F: Arithmetic>(
    val: spec_fn(F) -> real,
    u: real,
    a: Seq<Seq<F>>,
    b0: Seq<F>,
    m: int,
    s: Factorization<F>,
    b: Seq<F>,
    j: int,
)
    requires
        rounded(val, u),
        s.wf(m),
        s.columns.len() == a.len(),
        b.len() == m,
        0 <= j < a.len(),
        small(step_error(u, m)),
        all_kept(val, u, a, b0, m, s, b, j, j),
    ensures
        all_kept(val, u, a, b0, m, reduce(s, j), next_b(reduce(s, j), b, j), j + 1, j + 1),
{
    let t = reduce(s, j);
    let c = next_b(t, b, j);
    let n = a.len() as int;
    assert(s.columns[j].len() == m);
    let zero = norm_spec(s.columns[j], j, m).vanishes();
    if !zero {
        law_reduction_rounded(val, u, s.columns[j], j, b, b);
        assert(t.columns[j] == reflector(s.columns[j], j, signed_norm(s.columns[j], j)));
    }
    assert(t.permutation == s.permutation);
    assert forall|k: int, l: int| 0 <= k <= n && 0 <= l <= n implies kept(
        u,
        m,
        j + 1,
        #[trigger] current(val, t, c, j + 1, k),
        #[trigger] current(val, t, c, j + 1, l),
        original(val, a, t.permutation, b0, k),
        original(val, a, t.permutation, b0, l),
    ) by {
        let (x, y) = (current(val, s, b, j, k), current(val, s, b, j, l));
        let (x2, y2) = (current(val, t, c, j + 1, k), current(val, t, c, j + 1, l));
        let (x0, y0) = (
            original(val, a, s.permutation, b0, k),
            original(val, a, s.permutation, b0, l),
        );
        assert(kept(u, m, j, x, y, x0, y0));
        assert(kept(u, m, j, x, x, x0, x0));
        assert(kept(u, m, j, y, y, y0, y0));
        assert(moves(u, m, x, y, x2, y2)) by {
            if zero {
                lemma_zero_reduced(val, u, m, s, b, j, k);
                lemma_zero_reduced(val, u, m, s, b, j, l);
                lemma_moves_not(u, m, x, y, x2, y2);
            } else if k < j {
                lemma_pair_reduced(val, u, m, s, b, j, k, l);
            } else if l < j {
                lemma_pair_reduced(val, u, m, s, b, j, l, k);
                lemma_moves_symmetric(u, m, y, x, y2, x2);
            } else if k == j {
                lemma_pair_own(val, u, m, s, b, j, l);
            } else if l == j {
                lemma_pair_own(val, u, m, s, b, j, k);
                lemma_moves_symmetric(u, m, y, x, y2, x2);
            } else {
                lemma_pair_reflected(val, u, m, s, b, j, k, l);
            }
        }
        lemma_kept_step(u, m, j, x, y, x2, y2, x0, y0);
    }
}

/// The largest of the remaining norms is one of them.
pub proof fn lemma_argmax_range<F: Arithmetic>(v: Seq<F>, lo: int, hi: int)
    requires
        lo < hi,
    ensures
        lo <= argmax_spec(v, lo, hi) < hi,
    decreases hi - lo,
{
    if hi > lo + 1 {
        lemma_argmax_range(v, lo, hi - 1);
    }
}

/// Pivoting keeps all dot products.
proof fn lemma_pivot_kept<F: Arithmetic>(
    val: spec_fn(F) -> real,
    u: real,
    a: Seq<Seq<F>>,
    b0: Seq<F>,
    m: int,
    s: Factorization<F>,
    b: Seq<F>,
    j: int,
)
    requires
        s.wf(m),
        s.columns.len() == a.len(),
        0 <= j < a.len(),
        all_kept(val, u, a, b0, m, s, b, j, j),
    ensures
        pivot(s, j).wf(m),
        pivot(s, j).columns.len() == a.len(),
        forall|k: int| 0 <= k < j ==> #[trigger] pivot(s, j).columns[k] == s.columns[k],
        all_kept(val, u, a, b0, m, pivot(s, j), b, j, j),
{
    let n = a.len() as int;
    let best = argmax_spec(s.r_diag, j, n);
    lemma_argmax_range(s.r_diag, j, n);
    let t = pivot(s, j);
    lemma_exchange_is_permutation(s.permutation, n, j, best);
    assert(has_rows(t.columns, m)) by {
        assert forall|k: int| 0 <= k < n implies (#[trigger] t.columns[k]).len() == m by {
            assert(s.columns[j].len() == m);
            assert(s.columns[best].len() == m);
            assert(s.columns[k].len() == m);
        }
    }
    let from = |k: int|
        if k == j {
            best
        } else if k == best {
            j
        } else {
            k
        };
    assert forall|k: int| 0 <= k <= n implies #[trigger] current(val, t, b, j, k) == current(
        val,
        s,
        b,
        j,
        from(k),
    ) && original(val, a, t.permutation, b0, k) == original(val, a, s.permutation, b0, from(k)) by {
        if k < j {
            assert(current(val, t, b, j, k) =~= current(val, s, b, j, k));
        }
    }
    assert forall|k: int, l: int| 0 <= k <= n && 0 <= l <= n implies kept(
        u,
        m,
        j,
        #[trigger] current(val, t, b, j, k),
        #[trigger] current(val, t, b, j, l),
        original(val, a, t.permutation, b0, k),
        original(val, a, t.permutation, b0, l),
    ) by {
        let (x, y) = (current(val, s, b, j, from(k)), current(val, s, b, j, from(l)));
        assert(kept(
            u,
            m,
            j,
            x,
            y,
            original(val, a, s.permutation, b0, from(k)),
            original(val, a, s.permutation, b0, from(l)),
        ));
    }
}

/// Reflections by the same vectors give the same.
proof fn lemma_reflect_all_congruent<F: Arithmetic>(
    columns: Seq<Seq<F>>,
    others: Seq<Seq<F>>,
    b: Seq<F>,
    k: int,
)
    requires
        forall|i: int| 0 <= i < k ==> #[trigger] columns[i] == others[i],
    ensures
        reflect_all(columns, b, k) == reflect_all(others, b, k),
    decreases k,
{
    if k > 0 {
        lemma_reflect_all_congruent(columns, others, b, k - 1);
        assert(columns[k - 1] == others[k - 1]);
    }
}

/// The parts of a reduced factorization fit together.
pub proof fn lemma_reduce_wf<F: Arithmetic>(s: Factorization<F>, m: int, j: int)
    requires
        s.wf(m),
        0 <= j < s.columns.len(),
    ensures
        reduce(s, j).wf(m),
        reduce(s, j).columns.len() == s.columns.len(),
        forall|k: int| 0 <= k < j ==> #[trigger] reduce(s, j).columns[k] == s.columns[k],
{
    let t = reduce(s, j);
    assert forall|k: int| 0 <= k < t.columns.len() implies (#[trigger] t.columns[k]).len()
        == m by {
        assert(s.columns[k].len() == m);
        assert(s.columns[j].len() == m);
    }
}

/// All dot products are kept after `j` columns are reduced.
proof fn lemma_reduced_kept<F: Arithmetic>(
    val: spec_fn(F) -> real,
    u: real,
    a: Seq<Seq<F>>,
    b: Seq<F>,
    m: int,
    j: int,
)
    requires
        rounded(val, u),
        0 <= j <= a.len() <= m <= usize::MAX,
        has_rows(a, m),
        b.len() == m,
        small(step_error(u, m)),
    ensures
        reduced(a, j).wf(m),
        reduced(a, j).columns.len() == a.len(),
        all_kept(
            val,
            u,
            a,
            b,
            m,
            reduced(a, j),
            reflect_all(reduced(a, j).columns, b, j),
            j,
            j,
        ),
    decreases j,
{
    let n = a.len() as int;
    let s = reduced(a, j);
    if j == 0 {
        lemma_spread(u, m, 0);
        assert(is_permutation(s.permutation, n));
        assert forall|k: int, l: int| 0 <= k <= n && 0 <= l <= n implies kept(
            u,
            m,
            0,
            #[trigger] current(val, s, b, 0, k),
            #[trigger] current(val, s, b, 0, l),
            original(val, a, s.permutation, b, k),
            original(val, a, s.permutation, b, l),
        ) by {
            let (x, y) = (current(val, s, b, 0, k), current(val, s, b, 0, l));
            assert(x == original(val, a, s.permutation, b, k));
            assert(y == original(val, a, s.permutation, b, l));
            let z = inner(x, x, 0, m) + inner(y, y, 0, m);
            assert((1 as real - 1 as real) * z == 0 as real) by (nonlinear_arith);
        }
    } else {
        let r = reduced(a, j - 1);
        lemma_reduced_kept(val, u, a, b, m, j - 1);
        let c = reflect_all(r.columns, b, j - 1);
        lemma_reflect_all_len(r.columns, b, j - 1);
        lemma_pivot_kept(val, u, a, b, m, r, c, j - 1);
        let t = pivot(r, j - 1);
        lemma_reduce_wf(t, m, j - 1);
        lemma_reduce_kept(val, u, a, b, m, t, c, j - 1);
        assert forall|i: int| 0 <= i < j - 1 implies #[trigger] r.columns[i] == s.columns[i] by {
            assert(t.columns[i] == r.columns[i]);
        }
        lemma_reflect_all_congruent(r.columns, s.columns, b, j - 1);
        assert(reflect_all(s.columns, b, j) == next_b(s, c, j - 1));
    }
}

/// The shape of the state after `j` columns are reduced.
pub proof fn lemma_reduced_wf<F: Arithmetic>(
    val: spec_fn(F) -> real,
    u: real,
    a: Seq<Seq<F>>,
    m: int,
    j: int,
)
    requires
        rounded(val, u),
        0 <= j <= a.len() <= m <= usize::MAX,
        has_rows(a, m),
        small(step_error(u, m)),
    ensures
        reduced(a, j).wf(m),
        reduced(a, j).columns.len() == a.len(),
{
    let b = Seq::new(m as nat, |i: int| F::zero_spec());
    lemma_reduced_kept(val, u, a, b, m, j);
}

/// Whether `p` is the least squares problem for the matrix with the columns `a` and `m` rows and the
/// vector `b` up to the relative error `e`:
///
/// - `R^T * R = P^T * A^T * A * P` up to `e * (|a|^2 + |a'|^2) / 2` for the columns `a` and `a'`, and
/// - `R^T * Q^T * b = P^T * A^T * b` up to `e * (|a|^2 + |b|^2) / 2` for the column `a`.
pub open spec fn nearly_poses<F>(
    val: spec_fn(F) -> real,
    p: LeastSquares<F>,
    a: Seq<Seq<F>>,
    b: Seq<F>,
    m: int,
    e: real,
) -> bool {
    &&& p.wf(m)
    &&& p.columns.len() == a.len()
    &&& forall|k: int, l: int|
        0 <= k < a.len() && 0 <= l < a.len() ==> {
            let (x, y) = (
                values(val, a[p.permutation[k] as int]),
                values(val, a[p.permutation[l] as int]),
            );
            (2 as real) * absolute(#[trigger] upper_gram(val, p, k, l) - inner(x, y, 0, m)) <= e * (
            inner(x, x, 0, m) + inner(y, y, 0, m))
        }
    &&& forall|k: int|
        0 <= k < a.len() ==> {
            let (x, y) = (values(val, a[p.permutation[k] as int]), values(val, b));
            (2 as real) * absolute(#[trigger] upper_rhs(val, p, k) - inner(x, y, 0, m)) <= e * (
            inner(x, x, 0, m) + inner(y, y, 0, m))
        }
}

/// The problem that is made from the factorization of `A` and the vector `b` is that of `A` and `b` up
/// to rounding. For `n` columns of `m` rows the relative error is `(1 + 120 * h)^n - 1`, where `h` is about
/// `m + 20` times the relative error of one operation and at most one hundredth.
pub proof fn law_least_squares_rounded<F: Arithmetic>(
    val: spec_fn(F) -> real,
    u: real,
    a: Seq<Seq<F>>,
    b: Seq<F>,
    m: int,
)
    requires
        rounded(val, u),
        a.len() <= m <= usize::MAX,
        has_rows(a, m),
        b.len() == m,
        small(step_error(u, m)),
    ensures
        nearly_poses(
            val,
            least_squares(factorization(a), b),
            a,
            b,
            m,
            spread(u, m, a.len() as int) - 1 as real,
        ),
{
    let n = a.len() as int;
    let f = factorization(a);
    let p = least_squares(f, b);
    let e = spread(u, m, n) - 1 as real;
    lemma_reduced_kept(val, u, a, b, m, n);
    let c = reflect_all(f.columns, b, n);
    lemma_reflect_all_len(f.columns, b, n);
    assert(has_rows(p.columns, m)) by {
        assert forall|k: int| 0 <= k < p.columns.len() implies (#[trigger] p.columns[k]).len()
            == m by {
            assert(f.columns[k].len() == m);
        }
    }
    assert forall|k: int, i: int| 0 <= k < n && 0 <= i < n implies #[trigger] upper_entry(
        val,
        p,
        i,
        k,
    ) == current(val, f, c, n, k)[i] by {
        assert(f.columns[k].len() == m);
    }
    assert forall|k: int, i: int| 0 <= k < n && n <= i < m implies #[trigger] current(
        val,
        f,
        c,
        n,
        k,
    )[i] == 0 as real by {
        assert(f.columns[k].len() == m);
    }
    assert forall|k: int, l: int| 0 <= k < n && 0 <= l < n implies {
        let (x, y) = (
            values(val, a[p.permutation[k] as int]),
            values(val, a[p.permutation[l] as int]),
        );
        (2 as real) * absolute(#[trigger] upper_gram(val, p, k, l) - inner(x, y, 0, m)) <= e * (
        inner(x, x, 0, m) + inner(y, y, 0, m))
    } by {
        let (x, y) = (current(val, f, c, n, k), current(val, f, c, n, l));
        assert(kept(
            u,
            m,
            n,
            x,
            y,
            original(val, a, f.permutation, b, k),
            original(val, a, f.permutation, b, l),
        ));
        lemma_sum_split(|i: int| x[i] * y[i], 0, n, m);
        assert forall|i: int| n <= i < m implies #[trigger] x[i] == 0 as real by {
            assert(current(val, f, c, n, k)[i] == 0 as real);
        }
        lemma_zero_rows(x, y, n, m);
        let (g, h) = (
            |i: int| upper_entry(val, p, i, k) * upper_entry(val, p, i, l),
            |i: int| x[i] * y[i],
        );
        assert forall|i: int| 0 <= i < n implies #[trigger] g(i) == h(i) by {
            assert(upper_entry(val, p, i, k) == x[i]);
            assert(upper_entry(val, p, i, l) == y[i]);
        }
        lemma_sum_congruent(g, h, 0, n);
    }
    assert forall|k: int| 0 <= k < n implies {
        let (x, y) = (values(val, a[p.permutation[k] as int]), values(val, b));
        (2 as real) * absolute(#[trigger] upper_rhs(val, p, k) - inner(x, y, 0, m)) <= e * (inner(
            x,
            x,
            0,
            m,
        ) + inner(y, y, 0, m))
    } by {
        let (x, y) = (current(val, f, c, n, k), current(val, f, c, n, n));
        assert(kept(
            u,
            m,
            n,
            x,
            y,
            original(val, a, f.permutation, b, k),
            original(val, a, f.permutation, b, n),
        ));
        lemma_sum_split(|i: int| x[i] * y[i], 0, n, m);
        assert forall|i: int| n <= i < m implies #[trigger] x[i] == 0 as real by {
            assert(current(val, f, c, n, k)[i] == 0 as real);
        }
        lemma_zero_rows(x, y, n, m);
        let (g, h) = (
            |i: int| upper_entry(val, p, i, k) * val(p.qt_b[i]),
            |i: int| x[i] * y[i],
        );
        assert forall|i: int| 0 <= i < n implies #[trigger] g(i) == h(i) by {
            assert(upper_entry(val, p, i, k) == x[i]);
            assert(p.qt_b[i] == c[i]);
        }
        lemma_sum_congruent(g, h, 0, n);
    }
}

} // verus!
