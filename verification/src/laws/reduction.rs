//! The reduction of one column where the arithmetic is rounded.
use vstd::prelude::*;
use crate::householder::{reflect_spec, reflector, signed_norm};
use crate::laws::lengths::{lemma_inner_sums, lemma_square_order, lemma_sum_monotone, lemma_young};
use crate::laws::rounding::{
    approx, dot_steps, gamma, growth, law_dot_rounded, lemma_absolute_product, lemma_approx_bound,
    lemma_approx_chain, lemma_approx_round, lemma_approx_same, lemma_approx_sum,
    lemma_approx_weaken, lemma_growth, lemma_slack, lemma_square,
};
use crate::laws::stability::{
    lemma_reflect_gram, lemma_reflected, moved, nearly_reflects, step_error,
};
use crate::laws::sums::{lemma_sum_congruent, lemma_sum_first, lemma_sum_scaled, sum};
use crate::laws::vectors::{
    inner, lemma_inner_linear, lemma_inner_nonnegative, lemma_inner_symmetric, values,
};
use crate::scalar::{absolute, rounded, Arithmetic};
use crate::vector::{dot_spec, norm_spec};

verus! {

/// One hundredth, which the relative error for one reflection may not exceed.
pub open spec fn small(h: real) -> bool {
    &&& (0 as real) <= h
    &&& (100 as real) * h <= 1 as real
}

/// The square of a root is computed up to two operations.
pub proof fn lemma_root_squared(u: real, a: real, r: real)
    requires
        (0 as real) <= u < 1 as real,
        a >= 0 as real,
        (1 as real - u) * (1 as real - u) * a <= r * r,
        r * r <= (1 as real + u) * (1 as real + u) * a,
    ensures
        approx(u, 2, r * r, a, a),
{
    reveal(approx);
    lemma_slack(u);
    lemma_growth(u, 1, 1);
    let (w, d, p, q) = (growth(u, 1), 1 as real - u, 1 as real + u, r * r);
    let ww = growth(u, 2);
    let (dd, pp) = (d * d, p * p);
    assert(pp <= ww) by (nonlinear_arith)
        requires
            pp == p * p,
            ww == w * w,
            (0 as real) <= p <= w,
    ;
    assert(ww + dd >= 2 as real) by (nonlinear_arith)
        requires
            ww == w * w,
            dd == d * d,
            w * d == 1 as real,
    {
        assert((w - d) * (w - d) >= 0 as real);
    }
    let g = ww - 1 as real;
    assert(pp * a <= ww * a) by (nonlinear_arith)
        requires
            pp <= ww,
            a >= 0 as real,
    ;
    assert(ww * a == a + g * a) by (nonlinear_arith)
        requires
            g == ww - 1 as real,
    ;
    assert((2 as real - ww) * a <= dd * a) by (nonlinear_arith)
        requires
            ww + dd >= 2 as real,
            a >= 0 as real,
    ;
    assert((2 as real - ww) * a == a - g * a) by (nonlinear_arith)
        requires
            g == ww - 1 as real,
    ;
}

/// A norm is computed up to rounding.
pub proof fn law_norm_rounded<F: Arithmetic>(
    val: spec_fn(F) -> real,
    u: real,
    x: Seq<F>,
    j: int,
)
    requires
        rounded(val, u),
        0 <= j <= x.len(),
        small(step_error(u, x.len() as int)),
    ensures
        ({
            let m = x.len() as int;
            let l = val(norm_spec(x, j, m));
            let nn = inner(values(val, x), values(val, x), j, m);
            &&& l >= 0 as real
            &&& absolute(l * l - nn) <= step_error(u, m) * nn
        }),
{
    let m = x.len() as int;
    let y = values(val, x);
    let nn = inner(y, y, j, m);
    let d = dot_spec(x, x, j, m);
    let l = val(norm_spec(x, j, m));
    let k = dot_steps(m - j);
    let h = step_error(u, m);
    law_dot_rounded(val, u, x, x, j, m);
    lemma_sum_congruent(|i: int| val(x[i]) * val(x[i]), |i: int| y[i] * y[i], j, m);
    let g = |i: int| absolute(val(x[i])) * absolute(val(x[i]));
    let f = |i: int| y[i] * y[i];
    assert forall|i: int| j <= i < m implies #[trigger] g(i) == f(i) by {
        lemma_square(y[i]);
    }
    lemma_sum_congruent(g, f, j, m);
    lemma_inner_nonnegative(y, j, m);
    assert(val(d) >= 0 as real) by {
        lemma_approx_weaken(u, k, (m + 20) as nat, val(d), nn, nn, nn);
        lemma_approx_positive(u, (m + 20) as nat, val(d), nn, h);
    }
    lemma_root_squared(u, val(d), l);
    lemma_approx_bound(u, k, val(d), nn, nn);
    lemma_approx_chain(u, 2, k, l * l, val(d), val(d), nn, nn);
    lemma_approx_weaken(u, 2 + k, (m + 20) as nat, l * l, nn, nn, nn);
    reveal(approx);
}

/// A number that is computed from one that is not negative is not negative, where the error is small.
pub proof fn lemma_approx_positive(u: real, k: nat, c: real, e: real, h: real)
    requires
        approx(u, k, c, e, e),
        h == gamma(u, k),
        small(h),
        e >= 0 as real,
    ensures
        c >= 0 as real,
{
    reveal(approx);
    assert(h * e <= e) by (nonlinear_arith)
        requires
            h <= 1 as real,
            e >= 0 as real,
    ;
}

/// The Householder vector without rounding of its entries: `x / s`, with one added in row `j`.
pub open spec fn ideal(x: Seq<real>, j: int, s: real) -> Seq<real> {
    Seq::new(
        x.len(),
        |i: int|
            if i == j {
                x[i] / s + 1 as real
            } else {
                x[i] / s
            },
    )
}

/// The entries of a Householder vector are computed up to rounding.
proof fn lemma_reflector_entries<F: Arithmetic>(
    val: spec_fn(F) -> real,
    u: real,
    x: Seq<F>,
    j: int,
    i: int,
)
    requires
        rounded(val, u),
        0 <= j <= i < x.len(),
        !norm_spec(x, j, x.len() as int).vanishes(),
        val(norm_spec(x, j, x.len() as int)) >= 0 as real,
    ensures
        ({
            let m = x.len() as int;
            let s = val(signed_norm(x, j));
            let w = values(val, reflector(x, j, signed_norm(x, j)));
            let a = ideal(values(val, x), j, s);
            &&& s != 0 as real
            &&& a[j] >= 1 as real
            &&& absolute(w[i] - a[i]) <= step_error(u, m) * absolute(a[i])
        }),
{
    let m = x.len() as int;
    let scale = signed_norm(x, j);
    let s = val(scale);
    let q = x[i].over(scale);
    let xi = val(x[i]);
    let a = xi / s;
    let x0 = val(x[j]);
    assert(x0 / s >= 0 as real) by {
        let b = x0 / s;
        assert(b >= 0 as real) by (nonlinear_arith)
            requires
                b == x0 / s,
                (s > 0 as real && x0 >= 0 as real) || (s < 0 as real && x0 <= 0 as real),
        ;
    }
    lemma_approx_same(u, 0, a);
    lemma_approx_round(u, 0, val(q), a, a, absolute(a));
    if i == j {
        let one = F::one_spec();
        lemma_approx_same(u, 1, val(one));
        lemma_approx_sum(u, 1, val(q), a, absolute(a), val(one), val(one), absolute(val(one)));
        let w = q.plus(one);
        let b = a + 1 as real;
        lemma_approx_round(u, 1, val(w), val(q) + val(one), b, absolute(b));
        lemma_approx_weaken(u, 2, (m + 20) as nat, val(w), b, absolute(b), absolute(b));
    } else {
        lemma_approx_weaken(u, 1, (m + 20) as nat, val(q), a, absolute(a), absolute(a));
    }
    reveal(approx);
}

/// The constants of a Householder vector that is computed up to rounding.
proof fn lemma_reflector_constant(
    h: real,
    ss: real,
    nn: real,
    rho: real,
    a0: real,
    aa: real,
    ww: real,
    d: real,
    dd: real,
    w0: real,
)
    requires
        small(h),
        nn > 0 as real,
        ss * rho == nn,
        absolute(ss - nn) <= h * nn,
        a0 >= 0 as real,
        a0 * a0 <= rho,
        aa == rho + a0 + a0 + 1 as real,
        ww == aa + d + d + dd,
        (2 as real) * absolute(d) <= h * (aa + aa),
        (0 as real) <= dd,
        dd <= h * h * aa,
        absolute(w0 - (a0 + 1 as real)) <= h * (a0 + 1 as real),
    ensures
        (100 as real) * w0 >= 99 as real,
        absolute(ww - w0 - w0) <= (18 as real) * h,
        aa <= 5 as real,
        (100 as real) * ss <= (101 as real) * nn,
{
    let hn = h * nn;
    assert((100 as real) * hn <= nn) by (nonlinear_arith)
        requires
            hn == h * nn,
            (100 as real) * h <= 1 as real,
            nn > 0 as real,
    ;
    assert(ss > 0 as real);
    // |1 - rho| <= h * rho
    let hr = h * rho;
    assert(hn == ss * hr) by (nonlinear_arith)
        requires
            hn == h * nn,
            nn == ss * rho,
            hr == h * rho,
    ;
    assert(1 as real - rho <= hr && rho - 1 as real <= hr) by {
        let e = 1 as real - rho;
        assert(ss * e == ss - nn) by (nonlinear_arith)
            requires
                e == 1 as real - rho,
                nn == ss * rho,
        ;
        assert(e <= hr) by (nonlinear_arith)
            requires
                ss * e <= ss * hr,
                ss > 0 as real,
        ;
        assert(-e <= hr) by (nonlinear_arith)
            requires
                -(ss * e) <= ss * hr,
                ss > 0 as real,
        ;
    }
    assert(rho >= 0 as real) by (nonlinear_arith)
        requires
            a0 * a0 <= rho,
    ;
    assert((100 as real) * hr <= rho) by (nonlinear_arith)
        requires
            hr == h * rho,
            (100 as real) * h <= 1 as real,
            rho >= 0 as real,
    ;
    // rho <= 100 / 99
    assert((99 as real) * rho <= 100 as real);
    assert((99 as real) * hr <= (100 as real) * h) by (nonlinear_arith)
        requires
            hr == h * rho,
            (99 as real) * rho <= 100 as real,
            h >= 0 as real,
    ;
    assert(a0 + a0 <= rho + 1 as real) by (nonlinear_arith)
        requires
            a0 * a0 <= rho,
    {
        assert((a0 - 1 as real) * (a0 - 1 as real) >= 0 as real);
    }
    let ha = h * aa;
    assert((99 as real) * aa <= (398 as real) + (0 as real) + (1 as real));
    assert((99 as real) * ha <= (399 as real) * h) by (nonlinear_arith)
        requires
            ha == h * aa,
            (99 as real) * aa <= 399 as real,
            h >= 0 as real,
    ;
    assert(ha >= 0 as real) by (nonlinear_arith)
        requires
            ha == h * aa,
            h >= 0 as real,
            aa >= 0 as real,
    ;
    assert(h * (aa + aa) == ha + ha) by (nonlinear_arith)
        requires
            ha == h * aa,
    ;
    assert((100 as real) * (h * h * aa) <= ha) by (nonlinear_arith)
        requires
            ha == h * aa,
            (100 as real) * h <= 1 as real,
            ha >= 0 as real,
    {
        assert(h * h * aa == h * ha);
    }
    let b = a0 + 1 as real;
    let hb = h * b;
    assert((198 as real) * b <= 398 as real);
    assert((198 as real) * hb <= (398 as real) * h) by (nonlinear_arith)
        requires
            hb == h * b,
            (198 as real) * b <= 398 as real,
            h >= 0 as real,
    ;
    assert((100 as real) * hb <= b) by (nonlinear_arith)
        requires
            hb == h * b,
            (100 as real) * h <= 1 as real,
            b >= 0 as real,
    ;
}

/// The vector that reduces a column nearly reflects.
proof fn lemma_nearly_reflects(
    x: Seq<real>,
    w: Seq<real>,
    s: real,
    h: real,
    j: int,
    m: int,
)
    requires
        0 <= j < m,
        x.len() == m,
        w.len() == m,
        s != 0 as real,
        small(h),
        inner(x, x, j, m) > 0 as real,
        absolute(s * s - inner(x, x, j, m)) <= h * inner(x, x, j, m),
        ideal(x, j, s)[j] >= 1 as real,
        forall|i: int|
            j <= i < m ==> absolute(#[trigger] w[i] - ideal(x, j, s)[i]) <= h * absolute(
                ideal(x, j, s)[i],
            ),
    ensures
        w[j] > 0 as real,
        nearly_reflects(w, j, 1 as real / w[j], (20 as real) * h),
        ({
            let a = ideal(x, j, s);
            let d = Seq::new(m as nat, |i: int| w[i] - a[i]);
            &&& inner(a, a, j, m) <= 5 as real
            &&& (100 as real) * (s * s) <= (101 as real) * inner(x, x, j, m)
            &&& inner(d, d, j, m) <= h * h * inner(a, a, j, m)
        }),
{
    let a = ideal(x, j, s);
    let d = Seq::new(m as nat, |i: int| w[i] - a[i]);
    let r = Seq::new(m as nat, |i: int| x[i] / s);
    let (nn, rho, aa, ww) = (
        inner(x, x, j, m),
        inner(r, r, j, m),
        inner(a, a, j, m),
        inner(w, w, j, m),
    );
    let ss = s * s;
    let f = |i: int| r[i] * r[i];
    let g = |i: int| x[i] * x[i];
    assert forall|i: int| j <= i < m implies #[trigger] g(i) == ss * f(i) by {
        let (p, q) = (x[i], r[i]);
        assert(p * p == (s * s) * (q * q)) by (nonlinear_arith)
            requires
                q == p / s,
                s != 0 as real,
        {
            assert(q * s == p);
            assert((q * s) * (q * s) == (s * s) * (q * q));
        }
    }
    lemma_sum_scaled(ss, f, g, j, m);
    let e = |i: int| a[i] * a[i];
    lemma_sum_first(f, j, m);
    lemma_sum_first(e, j, m);
    assert forall|i: int| j + 1 <= i < m implies #[trigger] f(i) == e(i) by {}
    lemma_sum_congruent(f, e, j + 1, m);
    let a0 = r[j];
    assert(e(j) == f(j) + a0 + a0 + 1 as real) by {
        let b = a[j];
        assert(b * b == a0 * a0 + a0 + a0 + 1 as real) by (nonlinear_arith)
            requires
                b == a0 + 1 as real,
        ;
    }
    assert(aa == rho + a0 + a0 + 1 as real);
    lemma_inner_nonnegative(r, j, m);
    lemma_inner_nonnegative(a, j, m);
    lemma_inner_nonnegative(d, j, m);
    assert(r[j] * r[j] <= rho);
    // w = a + d
    assert forall|i: int| j <= i < m implies #[trigger] w[i] == a[i] + d[i] by {}
    lemma_inner_sums(w, a, d, w, a, d, j, m);
    lemma_inner_symmetric(a, d, j, m);
    let hh = h * h;
    let o = |i: int| d[i] * d[i];
    let k = |i: int| hh * e(i);
    assert forall|i: int| j <= i < m implies #[trigger] o(i) <= k(i) by {
        assert(absolute(w[i] - a[i]) <= h * absolute(a[i]));
        lemma_scaled_square(d[i], a[i], h);
    }
    lemma_sum_monotone(o, k, j, m);
    lemma_sum_scaled(hh, e, k, j, m);
    lemma_young(a, d, h, aa, aa, j, m);
    let w0 = w[j];
    assert(absolute(w[j] - a[j]) <= h * absolute(a[j]));
    lemma_reflector_constant(
        h,
        ss,
        nn,
        rho,
        a0,
        aa,
        ww,
        inner(a, d, j, m),
        inner(d, d, j, m),
        w0,
    );
    let t = 1 as real / w0;
    assert(t * w0 == 1 as real && t > 0 as real) by (nonlinear_arith)
        requires
            t == 1 as real / w0,
            w0 > 0 as real,
    ;
    lemma_quotient_constant(t, w0, ww, h);
}

/// The square of an entry that is small against another.
proof fn lemma_scaled_square(d: real, a: real, h: real)
    requires
        absolute(d) <= h * absolute(a),
    ensures
        d * d <= (h * h) * (a * a),
{
    let (x, y) = (absolute(d), absolute(a));
    lemma_square(d);
    lemma_square(a);
    let z = h * y;
    assert(x * x <= z * z) by (nonlinear_arith)
        requires
            (0 as real) <= x <= z,
    ;
    assert(z * z == (h * h) * (y * y)) by (nonlinear_arith)
        requires
            z == h * y,
    ;
}

/// `|ww / w0 - 2|`, for `t = 1 / w0`.
proof fn lemma_quotient_constant(t: real, w0: real, ww: real, h: real)
    requires
        t > 0 as real,
        t * w0 == 1 as real,
        (100 as real) * w0 >= 99 as real,
        small(h),
        absolute(ww - w0 - w0) <= (18 as real) * h,
    ensures
        absolute(t * ww - 2 as real) <= (20 as real) * h,
        (20 as real) * h <= 1 as real,
{
    assert((99 as real) * t <= 100 as real) by (nonlinear_arith)
        requires
            t > 0 as real,
            t * w0 == 1 as real,
            (100 as real) * w0 >= 99 as real,
    {
        assert(t * ((100 as real) * w0) >= t * (99 as real));
    }
    let o = ww - w0 - w0;
    assert(t * ww - 2 as real == t * o) by (nonlinear_arith)
        requires
            o == ww - w0 - w0,
            t * w0 == 1 as real,
    ;
    lemma_absolute_product(t, o);
    let p = absolute(o);
    assert((99 as real) * (t * p) <= (100 as real) * p) by (nonlinear_arith)
        requires
            (99 as real) * t <= 100 as real,
            p >= 0 as real,
    ;
}

/// The constants for the column that is reduced.
proof fn lemma_own_constant(
    s: real,
    e: real,
    h: real,
    nn: real,
    yy: real,
    aa: real,
    dd: real,
)
    requires
        small(h),
        nn >= 0 as real,
        yy >= 0 as real,
        (100 as real) * (s * s) <= (101 as real) * nn,
        (0 as real) <= aa <= 5 as real,
        dd <= h * h * aa,
        e * e <= ((5 as real) * h) * ((5 as real) * h) * yy,
    ensures
        (s * s) * dd <= ((3 as real) * h) * ((3 as real) * h) * nn,
        absolute(s * e) <= ((3 as real) * h) * (nn + yy),
{
    let (ss, hh) = (s * s, h * h);
    assert(ss >= 0 as real && hh >= 0 as real) by (nonlinear_arith)
        requires
            ss == s * s,
            hh == h * h,
    ;
    let ha = hh * aa;
    let h5 = (5 as real) * hh;
    assert(ha <= h5) by (nonlinear_arith)
        requires
            ha == hh * aa,
            h5 == (5 as real) * hh,
            aa <= 5 as real,
            hh >= 0 as real,
    ;
    assert(ss * dd <= ss * h5) by (nonlinear_arith)
        requires
            dd <= h5,
            ss >= 0 as real,
    ;
    let hn = hh * nn;
    assert(ss * h5 <= (6 as real) * hn) by (nonlinear_arith)
        requires
            (100 as real) * ss <= (101 as real) * nn,
            h5 == (5 as real) * hh,
            hn == hh * nn,
            hh >= 0 as real,
            nn >= 0 as real,
    {
        assert(ss <= (6 as real) * nn - (5 as real) * nn + nn / (5 as real));
        assert(ss * (5 as real) <= (6 as real) * nn);
        assert((ss * (5 as real)) * hh <= ((6 as real) * nn) * hh);
    }
    assert(hn >= 0 as real) by (nonlinear_arith)
        requires
            hn == hh * nn,
            hh >= 0 as real,
            nn >= 0 as real,
    ;
    let h3 = (3 as real) * h;
    assert(h3 * h3 * nn == (9 as real) * hn) by (nonlinear_arith)
        requires
            h3 == (3 as real) * h,
            hh == h * h,
            hn == hh * nn,
    ;
    // (s * e)^2 <= 1.01 * nn * 25 * h^2 * yy <= 9 * h^2 * (nn + yy)^2
    let (q, k, v) = (s * e, h3 * (nn + yy), nn * yy);
    let ee = e * e;
    let x = (25 as real) * (hh * yy);
    assert(((5 as real) * h) * ((5 as real) * h) * yy == x) by (nonlinear_arith)
        requires
            x == (25 as real) * (hh * yy),
            hh == h * h,
    ;
    assert(q * q == ss * ee) by (nonlinear_arith)
        requires
            q == s * e,
            ss == s * s,
            ee == e * e,
    ;
    assert(ss * ee <= ss * x) by (nonlinear_arith)
        requires
            ee <= x,
            ss >= 0 as real,
    ;
    let hy = hh * yy;
    assert(hy >= 0 as real) by (nonlinear_arith)
        requires
            hy == hh * yy,
            hh >= 0 as real,
            yy >= 0 as real,
    ;
    let n2 = (2 as real) * nn;
    assert((25 as real) * ss <= (36 as real) * nn);
    assert(ss * x <= (36 as real) * (nn * hy)) by (nonlinear_arith)
        requires
            x == (25 as real) * hy,
            (25 as real) * ss <= (36 as real) * nn,
            hy >= 0 as real,
    {
        assert(((25 as real) * ss) * hy <= ((36 as real) * nn) * hy);
    }
    assert(nn * hy == hh * v) by (nonlinear_arith)
        requires
            hy == hh * yy,
            v == nn * yy,
    ;
    let z = nn + yy;
    let zz = z * z;
    assert((4 as real) * v <= zz) by (nonlinear_arith)
        requires
            v == nn * yy,
            z == nn + yy,
            zz == z * z,
    {
        assert((nn - yy) * (nn - yy) >= 0 as real);
    }
    assert((36 as real) * (hh * v) <= (9 as real) * (hh * zz)) by (nonlinear_arith)
        requires
            (4 as real) * v <= zz,
            hh >= 0 as real,
    ;
    assert(k * k == (9 as real) * (hh * zz)) by (nonlinear_arith)
        requires
            k == h3 * z,
            h3 == (3 as real) * h,
            hh == h * h,
            zz == z * z,
    ;
    assert(k >= 0 as real) by (nonlinear_arith)
        requires
            k == h3 * z,
            h3 >= 0 as real,
            z >= 0 as real,
    ;
    lemma_square_order(q, k);
}

/// The dot product of the column that is reduced with another keeps its value up to rounding: the
/// reduced column is `-s` in row `j`, so that it is `-s * z[j]`.
proof fn lemma_own_column(
    x: Seq<real>,
    w: Seq<real>,
    s: real,
    h: real,
    y: Seq<real>,
    z: Seq<real>,
    j: int,
    m: int,
)
    requires
        0 <= j < m,
        x.len() == m,
        w.len() == m,
        y.len() == m,
        z.len() == m,
        s != 0 as real,
        small(h),
        w[j] > 0 as real,
        ({
            let a = ideal(x, j, s);
            let d = Seq::new(m as nat, |i: int| w[i] - a[i]);
            &&& inner(a, a, j, m) <= 5 as real
            &&& (100 as real) * (s * s) <= (101 as real) * inner(x, x, j, m)
            &&& inner(d, d, j, m) <= h * h * inner(a, a, j, m)
        }),
        ({
            let p = moved(w, j, 1 as real / w[j], y);
            let e = Seq::new(m as nat, |i: int| z[i] - p[i]);
            inner(e, e, j, m) <= ((5 as real) * h) * ((5 as real) * h) * inner(y, y, j, m)
        }),
    ensures
        absolute((-s) * z[j] - inner(x, y, j, m)) <= ((5 as real) * h) * (inner(x, x, j, m)
            + inner(y, y, j, m)),
{
    let a = ideal(x, j, s);
    let d = Seq::new(m as nat, |i: int| w[i] - a[i]);
    let t = 1 as real / w[j];
    let p = moved(w, j, t, y);
    let e = Seq::new(m as nat, |i: int| z[i] - p[i]);
    let (nn, yy, aa, dd) = (
        inner(x, x, j, m),
        inner(y, y, j, m),
        inner(a, a, j, m),
        inner(d, d, j, m),
    );
    lemma_inner_nonnegative(x, j, m);
    lemma_inner_nonnegative(y, j, m);
    lemma_inner_nonnegative(a, j, m);
    lemma_inner_nonnegative(e, j, m);
    assert(e[j] * e[j] <= inner(e, e, j, m));
    lemma_own_constant(s, e[j], h, nn, yy, aa, dd);
    // w . y = x . y / s + y[j] + d . y
    let one = 1 as real;
    assert forall|i: int| j <= i < m implies #[trigger] w[i] == a[i] + one * d[i] by {}
    lemma_inner_linear(w, a, one, d, y, j, m);
    let f = |i: int| a[i] * y[i];
    let g = |i: int| x[i] * y[i];
    let (q, b, c) = (inner(w, y, j, m), inner(a, y, j, m), inner(x, y, j, m));
    lemma_sum_first(f, j, m);
    lemma_sum_first(g, j, m);
    let sf = |i: int| s * f(i);
    assert forall|i: int| j + 1 <= i < m implies #[trigger] g(i) == s * f(i) by {
        let (k, l, o) = (x[i], a[i], y[i]);
        assert(k * o == s * (l * o)) by (nonlinear_arith)
            requires
                l == k / s,
                s != 0 as real,
        {
            assert(s * l == k);
            assert((s * l) * o == s * (l * o));
        }
    }
    lemma_sum_scaled(s, f, g, j + 1, m);
    let (x0, a0, y0) = (x[j], a[j], y[j]);
    assert(x0 * y0 == s * (a0 * y0) - s * y0) by (nonlinear_arith)
        requires
            a0 == x0 / s + 1 as real,
            s != 0 as real,
    {
        let k = x0 / s;
        assert(s * k == x0);
        assert(s * (a0 * y0) == (s * k) * y0 + s * y0);
    }
    let tail = sum(f, j + 1, m);
    assert(s * b == s * (a0 * y0) + s * tail) by (nonlinear_arith)
        requires
            b == a0 * y0 + tail,
    ;
    assert(c == s * b - s * y0);
    // z[j] = y[j] - w . y + e[j]
    let w0 = w[j];
    assert((-(t * q)) * w0 == -q) by (nonlinear_arith)
        requires
            t == 1 as real / w0,
            w0 > 0 as real,
    {
        assert(t * w0 == 1 as real);
        assert((t * q) * w0 == (t * w0) * q);
    }
    let (z0, e0, k) = (z[j], e[j], inner(d, y, j, m));
    assert(z0 == y0 - q + e0);
    assert((-s) * z0 == s * q - s * y0 - s * e0) by (nonlinear_arith)
        requires
            z0 == y0 - q + e0,
    ;
    assert(s * q == s * b + s * k) by (nonlinear_arith)
        requires
            q == b + k,
    ;
    // s * (d . y)
    let sd = Seq::new(m as nat, |i: int| s * d[i]);
    let (l, o) = (|i: int| d[i] * d[i], |i: int| sd[i] * sd[i]);
    let ss = s * s;
    assert forall|i: int| j <= i < m implies #[trigger] o(i) == ss * l(i) by {
        let v = d[i];
        assert((s * v) * (s * v) == (s * s) * (v * v)) by (nonlinear_arith);
    }
    lemma_sum_scaled(ss, l, o, j, m);
    let (n1, n2) = (|i: int| d[i] * y[i], |i: int| sd[i] * y[i]);
    assert forall|i: int| j <= i < m implies #[trigger] n2(i) == s * n1(i) by {
        let (v, r) = (d[i], y[i]);
        assert((s * v) * r == s * (v * r)) by (nonlinear_arith);
    }
    lemma_sum_scaled(s, n1, n2, j, m);
    lemma_inner_symmetric(sd, y, j, m);
    let h3 = (3 as real) * h;
    lemma_young(y, sd, h3, yy, nn, j, m);
    let r = h * (nn + yy);
    assert(h3 * (yy + nn) == (3 as real) * r && h3 * (nn + yy) == (3 as real) * r
        && ((5 as real) * h) * (nn + yy) == (5 as real) * r) by (nonlinear_arith)
        requires
            h3 == (3 as real) * h,
            r == h * (nn + yy),
    ;
    assert(r >= 0 as real) by (nonlinear_arith)
        requires
            r == h * (nn + yy),
            h >= 0 as real,
            nn + yy >= 0 as real,
    ;
}

/// What the reduction of a column does to the dot products where the arithmetic is rounded. For the
/// column `x` that is reduced, and vectors `y` and `y2` that are reflected:
///
/// - `|s^2 - |x|^2| <= h * |x|^2` for the diagonal entry `-s`,
/// - `|-s * z[j] - x . y| <= 5 * h * (|x|^2 + |y|^2)`, and
/// - `|z . z2 - y . y2| <= 60 * h * (|y|^2 + |y2|^2)`.
pub proof fn law_reduction_rounded<F: Arithmetic>(
    val: spec_fn(F) -> real,
    u: real,
    x: Seq<F>,
    j: int,
    y: Seq<F>,
    y2: Seq<F>,
)
    requires
        rounded(val, u),
        0 <= j < x.len(),
        y.len() == x.len(),
        y2.len() == x.len(),
        small(step_error(u, x.len() as int)),
        !norm_spec(x, j, x.len() as int).vanishes(),
    ensures
        ({
            let m = x.len() as int;
            let h = step_error(u, m);
            let s = val(signed_norm(x, j));
            let w = reflector(x, j, signed_norm(x, j));
            let (xs, ys, ys2) = (values(val, x), values(val, y), values(val, y2));
            let z = values(val, reflect_spec(w, j, y));
            let z2 = values(val, reflect_spec(w, j, y2));
            let (nn, yy, yy2) = (
                inner(xs, xs, j, m),
                inner(ys, ys, j, m),
                inner(ys2, ys2, j, m),
            );
            &&& val(w[j]) > 0 as real
            &&& absolute(s * s - nn) <= h * nn
            &&& absolute((-s) * z[j] - inner(xs, ys, j, m)) <= ((5 as real) * h) * (nn + yy)
            &&& absolute(inner(z, z2, j, m) - inner(ys, ys2, j, m)) <= ((60 as real) * h) * (yy
                + yy2)
        }),
{
    let m = x.len() as int;
    let h = step_error(u, m);
    let s = val(signed_norm(x, j));
    let w = reflector(x, j, signed_norm(x, j));
    let ws = values(val, w);
    let (xs, ys) = (values(val, x), values(val, y));
    let z = values(val, reflect_spec(w, j, y));
    let nn = inner(xs, xs, j, m);
    let l = val(norm_spec(x, j, m));
    law_norm_rounded(val, u, x, j);
    assert(s * s == l * l) by (nonlinear_arith)
        requires
            s == l || s == -l,
    ;
    lemma_inner_nonnegative(xs, j, m);
    assert(nn > 0 as real) by {
        if nn == 0 as real {
            let p = l * l;
            assert(h * nn == 0 as real) by (nonlinear_arith)
                requires
                    nn == 0 as real,
            ;
            assert(p != 0 as real) by (nonlinear_arith)
                requires
                    p == l * l,
                    l != 0 as real,
            ;
        }
    }
    assert forall|i: int| j <= i < m implies absolute(#[trigger] ws[i] - ideal(xs, j, s)[i]) <= h
        * absolute(ideal(xs, j, s)[i]) by {
        lemma_reflector_entries(val, u, x, j, i);
    }
    lemma_reflector_entries(val, u, x, j, j);
    lemma_nearly_reflects(xs, ws, s, h, j, m);
    let t = 1 as real / ws[j];
    let k = (20 as real) * h;
    lemma_reflected(val, u, w, j, y, t, k);
    let p = moved(ws, j, t, ys);
    assert(Seq::new(m as nat, |i: int| z[i] - p[i]) =~= Seq::new(y.len(), |i: int| z[i] - p[i]));
    lemma_own_column(xs, ws, s, h, ys, z, j, m);
    lemma_reflect_gram(val, u, w, j, y, y2, t, k);
    assert((2 as real) * k + (20 as real) * h == (60 as real) * h);
}

} // verus!
