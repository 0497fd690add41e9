//! How the scaled maximum of `A^T * b` depends on `A` and `b`.
use vstd::prelude::*;
use crate::laws::least_squares::{law_max_a_t_b_scaled, poses, scaled_gradient};
use crate::laws::rank::{is_zero_vector, lemma_zero_length};
use crate::laws::sums::lemma_sum_scaled;
use crate::laws::vectors::{
    inner, lemma_inner_linear, lemma_inner_nonnegative, lemma_inner_symmetric, values,
};
use crate::lls::{max_scaled, LeastSquares};
use crate::scalar::{absolute, exact, Arithmetic};

verus! {

/// Whether `b = t * u` in the first `m` rows.
pub open spec fn is_times(b: Seq<real>, t: real, u: Seq<real>, m: int) -> bool {
    forall|i: int| 0 <= i < m ==> #[trigger] b[i] == t * u[i]
}

/// Whether `b` is a multiple of `u` in the first `m` rows.
pub open spec fn is_multiple(b: Seq<real>, u: Seq<real>, m: int) -> bool {
    exists|t: real| is_times(b, t, u, m)
}

/// A quotient is the magnitude of the dot product of `b` and a column, divided by the norm of the
/// column.
proof fn lemma_scaled_gradient<F: Arithmetic>(
    val: spec_fn(F) -> real,
    p: LeastSquares<F>,
    a: Seq<Seq<F>>,
    b: Seq<F>,
    m: int,
    c: int,
)
    requires
        poses(val, p, a, b, m),
        0 <= c < a.len(),
    ensures
        ({
            let g = scaled_gradient(val, p, a, b, m, c);
            let length = val(p.column_norms[c]);
            &&& g >= 0 as real
            &&& length >= 0 as real
            &&& length * length == inner(values(val, a[c]), values(val, a[c]), 0, m)
            &&& if length == 0 as real {
                g == 0 as real
            } else {
                g * length == absolute(inner(values(val, a[c]), values(val, b), 0, m))
            }
        }),
{
    let g = scaled_gradient(val, p, a, b, m, c);
    let length = val(p.column_norms[c]);
    let e = absolute(inner(values(val, a[c]), values(val, b), 0, m));
    if length != 0 as real {
        assert(g * length == e && g >= 0 as real) by (nonlinear_arith)
            requires
                length > 0 as real,
                e >= 0 as real,
                g == e / length,
        ;
    }
}

/// `(u . b)^2 <= |u|^2 * |b|^2`, with equality only where `b` is a multiple of `u`, for a `u` other
/// than zero.
proof fn lemma_cauchy(u: Seq<real>, b: Seq<real>, m: int)
    requires
        inner(u, u, 0, m) > 0 as real,
    ensures
        ({
            let (uu, ub, bb) = (inner(u, u, 0, m), inner(u, b, 0, m), inner(b, b, 0, m));
            &&& ub * ub <= uu * bb
            &&& ub * ub == uu * bb ==> is_multiple(b, u, m)
        }),
{
    let (uu, ub, bb) = (inner(u, u, 0, m), inner(u, b, 0, m), inner(b, b, 0, m));
    let t = ub / uu;
    let r = Seq::new(m as nat, |i: int| b[i] + (-t) * u[i]);
    assert forall|i: int| 0 <= i < m implies #[trigger] r[i] == b[i] + (-t) * u[i] by {}
    lemma_inner_linear(r, b, -t, u, r, 0, m);
    lemma_inner_symmetric(b, r, 0, m);
    lemma_inner_symmetric(u, r, 0, m);
    lemma_inner_linear(r, b, -t, u, b, 0, m);
    lemma_inner_linear(r, b, -t, u, u, 0, m);
    lemma_inner_symmetric(b, u, 0, m);
    lemma_inner_nonnegative(r, 0, m);
    let rr = inner(r, r, 0, m);
    let (rb, ru) = (inner(r, b, 0, m), inner(r, u, 0, m));
    assert(t * uu == ub) by (nonlinear_arith)
        requires
            t == ub / uu,
            uu > 0 as real,
    ;
    assert((-t) * uu == -(t * uu)) by (nonlinear_arith);
    assert(ru == 0 as real);
    assert((-t) * ru == 0 as real) by (nonlinear_arith)
        requires
            ru == 0 as real,
    ;
    assert(rr == bb + (-t) * ub);
    assert(uu * rr == uu * bb - ub * ub) by (nonlinear_arith)
        requires
            rr == bb + (-t) * ub,
            t * uu == ub,
    {
        assert(uu * (bb + (-t) * ub) == uu * bb - (t * uu) * ub);
    }
    assert(uu * rr >= 0 as real) by (nonlinear_arith)
        requires
            uu > 0 as real,
            rr >= 0 as real,
    ;
    if ub * ub == uu * bb {
        assert(rr == 0 as real) by (nonlinear_arith)
            requires
                uu * rr == 0 as real,
                uu > 0 as real,
        ;
        assert forall|i: int| 0 <= i < m implies #[trigger] b[i] == t * u[i] by {
            assert(r[i] == 0 as real);
            let v = u[i];
            assert((-t) * v == -(t * v)) by (nonlinear_arith);
        }
        assert(is_times(b, t, u, m));
    }
}

/// The dot products with a multiple of `u`.
proof fn lemma_inner_times(b: Seq<real>, t: real, u: Seq<real>, w: Seq<real>, m: int)
    requires
        is_times(b, t, u, m),
    ensures
        inner(w, b, 0, m) == t * inner(w, u, 0, m),
{
    let f = |i: int| w[i] * u[i];
    let g = |i: int| w[i] * b[i];
    assert forall|i: int| 0 <= i < m implies #[trigger] g(i) == t * f(i) by {
        let (x, y, z) = (w[i], u[i], b[i]);
        assert(b[i] == t * u[i]);
        assert(x * z == t * (x * y)) by (nonlinear_arith)
            requires
                z == t * y,
        ;
    }
    lemma_sum_scaled(t, f, g, 0, m);
}

/// A quotient is not greater than `|b|`. It is equal to `|b|` where `b` is a multiple of the column,
/// and only there unless `b` is zero.
proof fn lemma_gradient_bound<F: Arithmetic>(
    val: spec_fn(F) -> real,
    p: LeastSquares<F>,
    a: Seq<Seq<F>>,
    b: Seq<F>,
    m: int,
    c: int,
)
    requires
        poses(val, p, a, b, m),
        0 <= c < a.len(),
    ensures
        ({
            let g = scaled_gradient(val, p, a, b, m, c);
            let (u, w) = (values(val, a[c]), values(val, b));
            let bb = inner(w, w, 0, m);
            &&& g >= 0 as real
            &&& g * g <= bb
            &&& is_multiple(w, u, m) ==> g * g == bb
            &&& g * g == bb ==> is_zero_vector(w) || is_multiple(w, u, m)
        }),
{
    let g = scaled_gradient(val, p, a, b, m, c);
    let (u, w) = (values(val, a[c]), values(val, b));
    let (uu, ub, bb) = (inner(u, u, 0, m), inner(u, w, 0, m), inner(w, w, 0, m));
    let l = val(p.column_norms[c]);
    lemma_scaled_gradient(val, p, a, b, m, c);
    lemma_inner_nonnegative(w, 0, m);
    if is_multiple(w, u, m) {
        let t = choose|t: real| is_times(w, t, u, m);
        lemma_inner_times(w, t, u, u, m);
        lemma_inner_times(w, t, u, w, m);
        lemma_inner_symmetric(u, w, 0, m);
    }
    if l == 0 as real {
        assert(l * l == 0 as real) by (nonlinear_arith)
            requires
                l == 0 as real,
        ;
        assert(g * g == 0 as real) by (nonlinear_arith)
            requires
                g == 0 as real,
        ;
        if is_multiple(w, u, m) {
            let t = choose|t: real| is_times(w, t, u, m);
            assert(bb == t * ub && ub == t * uu);
            assert(bb == 0 as real) by (nonlinear_arith)
                requires
                    bb == t * ub,
                    ub == t * uu,
                    uu == 0 as real,
            ;
        }
    } else {
        assert(uu > 0 as real) by (nonlinear_arith)
            requires
                uu == l * l,
                l != 0 as real,
        ;
        lemma_cauchy(u, w, m);
        let (e, q) = (absolute(ub), g * g);
        assert(q * uu == ub * ub) by (nonlinear_arith)
            requires
                g * l == e,
                e == ub || e == -ub,
                uu == l * l,
                q == g * g,
        {
            assert((g * g) * (l * l) == (g * l) * (g * l));
        }
        assert(q <= bb) by (nonlinear_arith)
            requires
                q * uu <= uu * bb,
                uu > 0 as real,
        ;
        if is_multiple(w, u, m) {
            let t = choose|t: real| is_times(w, t, u, m);
            assert(bb == t * ub && ub == t * uu);
            assert(q == bb) by (nonlinear_arith)
                requires
                    q * uu == ub * ub,
                    bb == t * ub,
                    ub == t * uu,
                    uu > 0 as real,
            {
                assert(bb * uu == ub * (t * uu));
                assert((q - bb) * uu == 0 as real);
            }
        }
        if q == bb {
            assert(q * uu == uu * bb) by (nonlinear_arith)
                requires
                    q == bb,
            ;
        }
    }
}

/// `max_a_t_b_scaled` computes a number from zero to `|b|`. It is `|b|` exactly where `b` is zero or
/// a multiple of a column of `A`.
pub proof fn law_max_is_bounded<F: Arithmetic>(
    val: spec_fn(F) -> real,
    p: LeastSquares<F>,
    a: Seq<Seq<F>>,
    b: Seq<F>,
    m: int,
)
    requires
        exact(val),
        poses(val, p, a, b, m),
    ensures
        max_scaled(p, a.len() as int) is Some,
        ({
            let max = val(max_scaled(p, a.len() as int)->0);
            let w = values(val, b);
            let bb = inner(w, w, 0, m);
            &&& max >= 0 as real
            &&& max * max <= bb
            &&& max * max == bb <==> is_zero_vector(w) || exists|c: int|
                0 <= c < a.len() && is_multiple(w, values(val, #[trigger] a[c]), m)
        }),
{
    let n = a.len() as int;
    law_max_a_t_b_scaled(val, p, a, b, m);
    let max = val(max_scaled(p, n)->0);
    let w = values(val, b);
    let bb = inner(w, w, 0, m);
    lemma_inner_nonnegative(w, 0, m);
    assert((0 as real) * (0 as real) == 0 as real) by (nonlinear_arith);
    if is_zero_vector(w) {
        lemma_zero_length(w);
    }
    if n > 0 {
        let c = choose|c: int| 0 <= c < n && #[trigger] scaled_gradient(val, p, a, b, m, c) == max;
        lemma_gradient_bound(val, p, a, b, m, c);
    }
    assert(max >= 0 as real && max * max <= bb);
    assert(max * max >= 0 as real) by (nonlinear_arith);
    if exists|c: int| 0 <= c < n && is_multiple(w, values(val, #[trigger] a[c]), m) {
        let c = choose|c: int| 0 <= c < n && is_multiple(w, values(val, #[trigger] a[c]), m);
        lemma_gradient_bound(val, p, a, b, m, c);
        let g = scaled_gradient(val, p, a, b, m, c);
        assert(g <= max);
        assert(g * g <= max * max) by (nonlinear_arith)
            requires
                (0 as real) <= g,
                g <= max,
        ;
    }
}

/// The quotients for `A * S` and `k * b`, where `S` is a diagonal matrix without a zero.
proof fn lemma_gradient_scaled<F: Arithmetic>(
    val: spec_fn(F) -> real,
    p: LeastSquares<F>,
    a: Seq<Seq<F>>,
    b: Seq<F>,
    q: LeastSquares<F>,
    a2: Seq<Seq<F>>,
    b2: Seq<F>,
    m: int,
    s: real,
    k: real,
    c: int,
)
    requires
        poses(val, p, a, b, m),
        poses(val, q, a2, b2, m),
        0 <= c < a.len(),
        a2.len() == a.len(),
        s != 0 as real,
        is_times(values(val, a2[c]), s, values(val, a[c]), m),
        is_times(values(val, b2), k, values(val, b), m),
    ensures
        scaled_gradient(val, q, a2, b2, m, c) == absolute(k) * scaled_gradient(
            val,
            p,
            a,
            b,
            m,
            c,
        ),
{
    let (u, u2, w, w2) = (
        values(val, a[c]),
        values(val, a2[c]),
        values(val, b),
        values(val, b2),
    );
    let (g, g2) = (scaled_gradient(val, p, a, b, m, c), scaled_gradient(val, q, a2, b2, m, c));
    let (l, l2) = (val(p.column_norms[c]), val(q.column_norms[c]));
    lemma_scaled_gradient(val, p, a, b, m, c);
    lemma_scaled_gradient(val, q, a2, b2, m, c);
    lemma_inner_times(u2, s, u, u2, m);
    lemma_inner_times(u2, s, u, u, m);
    lemma_inner_symmetric(u2, u, 0, m);
    lemma_inner_times(u2, s, u, w2, m);
    lemma_inner_symmetric(u2, w2, 0, m);
    lemma_inner_times(w2, k, w, u, m);
    lemma_inner_symmetric(u, w2, 0, m);
    let (e, e2) = (inner(u, w, 0, m), inner(u2, w2, 0, m));
    let (uu, uu2) = (inner(u, u, 0, m), inner(u2, u2, 0, m));
    let x = inner(u2, u, 0, m);
    let y = inner(u, w2, 0, m);
    assert(uu2 == s * x && x == s * uu && e2 == s * y && y == k * e);
    let (r, j) = (absolute(s), absolute(k));
    assert(l2 == r * l) by {
        lemma_same_square(l2, r * l, s, r, l, uu2, x, uu);
    }
    assert(absolute(e2) == r * (j * absolute(e))) by {
        lemma_absolute_times(s, y);
        lemma_absolute_times(k, e);
    }
    if l == 0 as real {
        assert(l2 == 0 as real) by (nonlinear_arith)
            requires
                l2 == r * l,
                l == 0 as real,
        ;
        assert(j * g == 0 as real) by (nonlinear_arith)
            requires
                g == 0 as real,
        ;
    } else {
        assert(l2 != 0 as real) by (nonlinear_arith)
            requires
                l2 == r * l,
                r != 0 as real,
                l != 0 as real,
        ;
        let f = absolute(e);
        assert(g2 == j * g) by (nonlinear_arith)
            requires
                g2 * l2 == r * (j * f),
                g * l == f,
                l2 == r * l,
                l2 != 0 as real,
        {
            assert((j * g) * (r * l) == r * (j * (g * l)));
            assert((g2 - j * g) * l2 == 0 as real);
        }
    }
}

/// The magnitude of a product is the product of the magnitudes.
proof fn lemma_absolute_times(x: real, y: real)
    ensures
        absolute(x * y) == absolute(x) * absolute(y),
{
    assert(absolute(x * y) == absolute(x) * absolute(y)) by (nonlinear_arith);
}

/// Two numbers that are not negative are equal where their squares are.
proof fn lemma_same_square(
    v: real,
    w: real,
    s: real,
    r: real,
    l: real,
    uu2: real,
    x: real,
    uu: real,
)
    requires
        v >= 0 as real,
        l >= 0 as real,
        w == r * l,
        r == absolute(s),
        v * v == uu2,
        uu2 == s * x,
        x == s * uu,
        l * l == uu,
    ensures
        v == w,
{
    assert(w >= 0 as real) by (nonlinear_arith)
        requires
            w == r * l,
            r >= 0 as real,
            l >= 0 as real,
    ;
    assert(r * r == s * s) by (nonlinear_arith)
        requires
            r == s || r == -s,
    ;
    assert(w * w == uu2) by (nonlinear_arith)
        requires
            w == r * l,
            r * r == s * s,
            uu2 == s * x,
            x == s * uu,
            l * l == uu,
    {
        assert(w * w == (r * r) * (l * l));
        assert(uu2 == (s * s) * uu);
    }
    assert(v == w) by (nonlinear_arith)
        requires
            v >= 0 as real,
            w >= 0 as real,
            v * v == w * w,
    {
        assert((v - w) * (v + w) == 0 as real);
    }
}

/// `max_a_t_b_scaled` does not change where the columns of `A` are multiplied by numbers other than zero,
/// and is multiplied by `|k|` where `b` is multiplied by `k`.
pub proof fn law_max_of_scaled<F: Arithmetic>(
    val: spec_fn(F) -> real,
    p: LeastSquares<F>,
    a: Seq<Seq<F>>,
    b: Seq<F>,
    q: LeastSquares<F>,
    a2: Seq<Seq<F>>,
    b2: Seq<F>,
    m: int,
    s: Seq<real>,
    k: real,
)
    requires
        exact(val),
        poses(val, p, a, b, m),
        poses(val, q, a2, b2, m),
        a2.len() == a.len(),
        s.len() == a.len(),
        forall|c: int|
            0 <= c < a.len() ==> #[trigger] s[c] != 0 as real && is_times(
                values(val, a2[c]),
                s[c],
                values(val, a[c]),
                m,
            ),
        is_times(values(val, b2), k, values(val, b), m),
    ensures
        max_scaled(p, a.len() as int) is Some,
        max_scaled(q, a.len() as int) is Some,
        val(max_scaled(q, a.len() as int)->0) == absolute(k) * val(
            max_scaled(p, a.len() as int)->0,
        ),
{
    let n = a.len() as int;
    law_max_a_t_b_scaled(val, p, a, b, m);
    law_max_a_t_b_scaled(val, q, a2, b2, m);
    let (v, v2) = (val(max_scaled(p, n)->0), val(max_scaled(q, n)->0));
    let j = absolute(k);
    if n == 0 {
        assert(j * v == 0 as real) by (nonlinear_arith)
            requires
                v == 0 as real,
        ;
    } else {
        let c = choose|c: int| 0 <= c < n && #[trigger] scaled_gradient(val, p, a, b, m, c) == v;
        assert(0 <= c < n);
        assert(s[c] != 0 as real && is_times(values(val, a2[c]), s[c], values(val, a[c]), m));
        lemma_gradient_scaled(val, p, a, b, q, a2, b2, m, s[c], k, c);
        assert(scaled_gradient(val, q, a2, b2, m, c) <= v2);
        let d = choose|d: int|
            0 <= d < n && #[trigger] scaled_gradient(val, q, a2, b2, m, d) == v2;
        assert(s[d] != 0 as real && is_times(values(val, a2[d]), s[d], values(val, a[d]), m));
        lemma_gradient_scaled(val, p, a, b, q, a2, b2, m, s[d], k, d);
        let g = scaled_gradient(val, p, a, b, m, d);
        assert(j * g <= j * v) by (nonlinear_arith)
            requires
                j >= 0 as real,
                g <= v,
        ;
    }
}

} // verus!
