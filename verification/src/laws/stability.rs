//! One Householder reflection where the arithmetic is rounded.
use vstd::prelude::*;
use crate::householder::reflect_spec;
use crate::laws::backward::lemma_near_quotient;
use crate::laws::lengths::{
    lemma_cauchy_absolute, lemma_cauchy_schwarz, lemma_inner_moved, lemma_inner_sums,
    lemma_square_of_sum, lemma_sum_monotone, lemma_young,
};
use crate::laws::rounding::{
    approx, dot_steps, gamma, law_dot_rounded, lemma_absolute_product, lemma_approx_product,
    lemma_approx_round, lemma_approx_same, lemma_approx_sum, lemma_approx_weaken, lemma_growth,
    lemma_square,
};
use crate::laws::sums::{lemma_sum_congruent, lemma_sum_of_sums, lemma_sum_scaled, sum};
use crate::laws::vectors::{inner, lemma_inner_nonnegative, lemma_inner_symmetric, values};
use crate::scalar::{absolute, rounded, Arithmetic};
use crate::vector::dot_spec;

verus! {

/// The relative error that is allowed for one reflection of `m` rows.
pub open spec fn step_error(u: real, m: int) -> real {
    gamma(u, (m + 20) as nat)
}

/// The entries of `y` after the exact reflection with `w`, where `t = 1 / w[j]`.
pub open spec fn moved(w: Seq<real>, j: int, t: real, y: Seq<real>) -> Seq<real> {
    Seq::new(
        y.len(),
        |i: int| y[i] + (-(t * inner(w, y, j, w.len() as int))) * w[i],
    )
}

/// Each row of a reflected vector is computed up to rounding: the error of row `i` is not greater than
/// `gamma * (|x[i]| + (|x| . |w|) / w[j] * |w[i]|)`.
pub proof fn law_reflect_rounded<F: Arithmetic>(
    val: spec_fn(F) -> real,
    u: real,
    w: Seq<F>,
    j: int,
    x: Seq<F>,
    t: real,
    i: int,
)
    requires
        rounded(val, u),
        0 <= j <= i < w.len(),
        x.len() == w.len(),
        val(w[j]) != 0 as real,
        t * val(w[j]) == 1 as real,
    ensures
        ({
            let m = x.len() as int;
            let d = sum(|k: int| val(x[k]) * val(w[k]), j, m);
            let s = sum(|k: int| absolute(val(x[k])) * absolute(val(w[k])), j, m);
            approx(
                u,
                (m + 9) as nat,
                val(reflect_spec(w, j, x)[i]),
                (-(d * t)) * val(w[i]) + val(x[i]),
                (s * absolute(t)) * absolute(val(w[i])) + absolute(val(x[i])),
            )
        }),
{
    let m = x.len() as int;
    let k = dot_steps(m - j);
    let d = sum(|k: int| val(x[k]) * val(w[k]), j, m);
    let s = sum(|k: int| absolute(val(x[k])) * absolute(val(w[k])), j, m);
    let p = dot_spec(x, w, j, m);
    let c = p.over(w[j]);
    let (w0, wi, xi) = (val(w[j]), val(w[i]), val(x[i]));
    law_dot_rounded(val, u, x, w, j, m);
    lemma_near_quotient(u, val(c), val(p), w0);
    lemma_approx_round(u, k, w0 * val(c), val(p), d, s);
    lemma_approx_same(u, 0, t);
    lemma_approx_product(u, k + 1, 0, w0 * val(c), d, s, t, t, absolute(t));
    assert((w0 * val(c)) * t == val(c)) by {
        let v = val(c);
        assert((w0 * v) * t == (t * w0) * v) by (nonlinear_arith);
    }
    let (e, f) = (d * t, s * absolute(t));
    lemma_approx_opposite(u, k + 1, val(c), e, f);
    lemma_approx_same(u, 0, wi);
    lemma_approx_product(u, k + 1, 0, -val(c), -e, f, wi, wi, absolute(wi));
    let a = c.negated().times(w[i]);
    lemma_approx_round(u, k + 1, val(a), (-val(c)) * wi, (-e) * wi, f * absolute(wi));
    lemma_approx_same(u, k + 2, xi);
    lemma_approx_sum(u, k + 2, val(a), (-e) * wi, f * absolute(wi), xi, xi, absolute(xi));
    let z = a.plus(x[i]);
    lemma_approx_round(
        u,
        k + 2,
        val(z),
        val(a) + xi,
        (-e) * wi + xi,
        f * absolute(wi) + absolute(xi),
    );
    assert(reflect_spec(w, j, x)[i] == z);
    lemma_approx_weaken(
        u,
        k + 3,
        (m + 9) as nat,
        val(z),
        (-e) * wi + xi,
        f * absolute(wi) + absolute(xi),
        f * absolute(wi) + absolute(xi),
    );
}

/// The error of the opposite is that of the number.
proof fn lemma_approx_opposite(u: real, k: nat, c: real, e: real, s: real)
    requires
        approx(u, k, c, e, s),
    ensures
        approx(u, k, -c, -e, s),
{
    reveal(approx);
}

/// A bound on the length of the error of a reflection, from the bounds on its entries.
proof fn lemma_error_length(
    e: Seq<real>,
    y: Seq<real>,
    w: Seq<real>,
    h: real,
    c: real,
    q: real,
    j: int,
    m: int,
)
    requires
        0 <= j <= m,
        h >= 0 as real,
        c >= 0 as real,
        forall|i: int|
            j <= i < m ==> absolute(#[trigger] e[i]) <= h * (c * absolute(w[i]) + absolute(y[i])),
        c * c * inner(w, w, j, m) <= q * inner(y, y, j, m),
        q <= 9 as real,
    ensures
        inner(e, e, j, m) <= ((5 as real) * h) * ((5 as real) * h) * inner(y, y, j, m),
{
    let (ww, yy, ee) = (inner(w, w, j, m), inner(y, y, j, m), inner(e, e, j, m));
    let two = 2 as real;
    let g = two * (h * h);
    let f = |i: int| e[i] * e[i];
    let a = |i: int| w[i] * w[i];
    let b = |i: int| y[i] * y[i];
    let cc = c * c;
    let ca = |i: int| cc * a(i);
    let s = |i: int| ca(i) + b(i);
    let t = |i: int| g * s(i);
    assert forall|i: int| j <= i < m implies #[trigger] f(i) <= t(i) by {
        let (x, p, r) = (e[i], absolute(w[i]), absolute(y[i]));
        lemma_square(w[i]);
        lemma_square(y[i]);
        lemma_entry_square(x, h, c, p, r, a(i), b(i));
    }
    lemma_sum_monotone(f, t, j, m);
    lemma_sum_scaled(g, s, t, j, m);
    lemma_sum_of_sums(ca, b, s, j, m);
    lemma_sum_scaled(cc, a, ca, j, m);
    let v = cc * ww;
    lemma_inner_nonnegative(y, j, m);
    lemma_error_constant(h, g, v, q, yy, ee);
}

/// The constants of the bound.
proof fn lemma_error_constant(h: real, g: real, v: real, q: real, yy: real, ee: real)
    requires
        h >= 0 as real,
        g == (2 as real) * (h * h),
        ee <= g * (v + yy),
        v <= q * yy,
        q <= 9 as real,
        yy >= 0 as real,
    ensures
        ee <= ((5 as real) * h) * ((5 as real) * h) * yy,
{
    let hh = h * h;
    assert(hh >= 0 as real) by (nonlinear_arith)
        requires
            hh == h * h,
    ;
    assert(q * yy <= (9 as real) * yy) by (nonlinear_arith)
        requires
            q <= 9 as real,
            yy >= 0 as real,
    ;
    let s = v + yy;
    let t = (10 as real) * yy;
    assert(g * s <= g * t) by (nonlinear_arith)
        requires
            s <= t,
            g >= 0 as real,
    ;
    let r = hh * yy;
    assert(r >= 0 as real) by (nonlinear_arith)
        requires
            r == hh * yy,
            hh >= 0 as real,
            yy >= 0 as real,
    ;
    assert(g * t == (20 as real) * r) by (nonlinear_arith)
        requires
            g == (2 as real) * hh,
            t == (10 as real) * yy,
            r == hh * yy,
    ;
    let five = (5 as real) * h;
    assert(five * five * yy == (25 as real) * r) by (nonlinear_arith)
        requires
            five == (5 as real) * h,
            hh == h * h,
            r == hh * yy,
    ;
}

/// The square of an entry of the error.
proof fn lemma_entry_square(x: real, h: real, c: real, p: real, r: real, a: real, b: real)
    requires
        h >= 0 as real,
        c >= 0 as real,
        p >= 0 as real,
        r >= 0 as real,
        p * p == a,
        r * r == b,
        absolute(x) <= h * (c * p + r),
    ensures
        x * x <= (2 as real) * (h * h) * ((c * c) * a + b),
{
    let k = c * p;
    assert(k >= 0 as real) by (nonlinear_arith)
        requires
            k == c * p,
            c >= 0 as real,
            p >= 0 as real,
    ;
    let s = k + r;
    let y = absolute(x);
    assert(x * x == y * y) by (nonlinear_arith)
        requires
            y == x || y == -x,
    ;
    let z = h * s;
    assert(y * y <= z * z) by (nonlinear_arith)
        requires
            (0 as real) <= y <= z,
    ;
    let (hh, ss) = (h * h, s * s);
    assert(z * z == hh * ss) by (nonlinear_arith)
        requires
            z == h * s,
            hh == h * h,
            ss == s * s,
    ;
    lemma_square_of_sum(k, r);
    let kk = k * k;
    assert(kk == (c * c) * a) by (nonlinear_arith)
        requires
            kk == k * k,
            k == c * p,
            a == p * p,
    ;
    let n = kk + b;
    let two = 2 as real;
    assert(hh >= 0 as real) by (nonlinear_arith)
        requires
            hh == h * h,
    ;
    assert(hh * ss <= hh * (two * n)) by (nonlinear_arith)
        requires
            ss <= two * n,
            hh >= 0 as real,
    ;
    assert(hh * (two * n) == two * hh * n) by (nonlinear_arith);
}

/// The square of `(|x| . |w|) / w[j]` times `|w|^2` against `|x|^2`.
proof fn lemma_coefficient(s: real, t: real, c: real, ww: real, yy: real, q: real)
    requires
        c == s * t,
        s * s <= yy * ww,
        q == t * ww,
        t >= 0 as real,
        ww >= 0 as real,
        yy >= 0 as real,
        (0 as real) <= q <= 3 as real,
    ensures
        c * c * ww <= (9 as real) * yy,
{
    let (ss, tt) = (s * s, t * t);
    assert(c * c * ww == (tt * ww) * ss) by (nonlinear_arith)
        requires
            c == s * t,
            ss == s * s,
            tt == t * t,
    ;
    let k = tt * ww;
    assert(k >= 0 as real) by (nonlinear_arith)
        requires
            k == tt * ww,
            tt == t * t,
            ww >= 0 as real,
    {
        assert(tt >= 0 as real);
    }
    assert(k * ss <= k * (yy * ww)) by (nonlinear_arith)
        requires
            ss <= yy * ww,
            k >= 0 as real,
    ;
    assert(k * (yy * ww) == (q * q) * yy) by (nonlinear_arith)
        requires
            k == (t * t) * ww,
            q == t * ww,
    ;
    let qq = q * q;
    assert(qq <= 9 as real) by (nonlinear_arith)
        requires
            qq == q * q,
            (0 as real) <= q <= 3 as real,
    ;
    assert(qq * yy <= (9 as real) * yy) by (nonlinear_arith)
        requires
            qq <= 9 as real,
            yy >= 0 as real,
    ;
}

/// Whether `w` is a Householder vector up to the error `k`: `|w|^2 / w[j] = 2`.
pub open spec fn nearly_reflects(w: Seq<real>, j: int, t: real, k: real) -> bool {
    &&& t > 0 as real
    &&& t * w[j] == 1 as real
    &&& absolute(t * inner(w, w, j, w.len() as int) - 2 as real) <= k
    &&& k <= 1 as real
}

/// A vector that is reflected, and the length of its error.
pub proof fn lemma_reflected<F: Arithmetic>(
    val: spec_fn(F) -> real,
    u: real,
    w: Seq<F>,
    j: int,
    x: Seq<F>,
    t: real,
    k: real,
)
    requires
        rounded(val, u),
        0 <= j < w.len(),
        x.len() == w.len(),
        nearly_reflects(values(val, w), j, t, k),
    ensures
        ({
            let m = x.len() as int;
            let y = values(val, x);
            let z = values(val, reflect_spec(w, j, x));
            let p = moved(values(val, w), j, t, y);
            let e = Seq::new(x.len(), |i: int| z[i] - p[i]);
            let h = (5 as real) * step_error(u, m);
            inner(e, e, j, m) <= h * h * inner(y, y, j, m)
        }),
{
    let m = x.len() as int;
    let (v, y) = (values(val, w), values(val, x));
    let z = values(val, reflect_spec(w, j, x));
    let p = moved(v, j, t, y);
    let e = Seq::new(x.len(), |i: int| z[i] - p[i]);
    let h = step_error(u, m);
    let d = sum(|k: int| val(x[k]) * val(w[k]), j, m);
    let s = sum(|k: int| absolute(val(x[k])) * absolute(val(w[k])), j, m);
    let (ww, yy) = (inner(v, v, j, m), inner(y, y, j, m));
    lemma_growth(u, (m + 9) as nat, 11);
    lemma_inner_symmetric(v, y, j, m);
    lemma_sum_congruent(|k: int| val(x[k]) * val(w[k]), |k: int| y[k] * v[k], j, m);
    lemma_cauchy_absolute(y, v, j, m);
    lemma_sum_congruent(
        |k: int| absolute(val(x[k])) * absolute(val(w[k])),
        |k: int| absolute(y[k]) * absolute(v[k]),
        j,
        m,
    );
    lemma_inner_nonnegative(v, j, m);
    lemma_inner_nonnegative(y, j, m);
    let c = s * t;
    assert(c >= 0 as real) by (nonlinear_arith)
        requires
            c == s * t,
            s >= 0 as real,
            t > 0 as real,
    ;
    let q = t * ww;
    assert(q >= 0 as real) by (nonlinear_arith)
        requires
            q == t * ww,
            t > 0 as real,
            ww >= 0 as real,
    ;
    lemma_coefficient(s, t, c, ww, yy, q);
    assert forall|i: int| j <= i < m implies absolute(#[trigger] e[i]) <= h * (c * absolute(v[i])
        + absolute(y[i])) by {
        law_reflect_rounded(val, u, w, j, x, t, i);
        let b = c * absolute(v[i]) + absolute(y[i]);
        assert(d * t == t * d) by (nonlinear_arith);
        assert(inner(v, y, j, m) == d);
        lemma_entry_error(u, m, z[i], p[i], (-(d * t)) * v[i] + y[i], b, h);
    }
    lemma_error_length(e, y, v, h, c, 9 as real, j, m);
}

/// The error of an entry, with the error for a whole reflection.
proof fn lemma_entry_error(u: real, m: int, z: real, p: real, q: real, b: real, h: real)
    requires
        (0 as real) <= u < 1 as real,
        0 <= m,
        approx(u, (m + 9) as nat, z, q, b),
        p == q,
        h == step_error(u, m),
    ensures
        absolute(z - p) <= h * b,
{
    lemma_approx_weaken(u, (m + 9) as nat, (m + 20) as nat, z, q, b, b);
    reveal(approx);
}

/// What an exact reflection with a vector that nearly reflects does to a dot product.
proof fn lemma_moved_inner(
    w: Seq<real>,
    j: int,
    t: real,
    k: real,
    y: Seq<real>,
    z: Seq<real>,
)
    requires
        nearly_reflects(w, j, t, k),
        0 <= j < w.len(),
        y.len() == w.len(),
        z.len() == w.len(),
    ensures
        ({
            let m = w.len() as int;
            absolute(
                inner(moved(w, j, t, y), moved(w, j, t, z), j, m) - inner(y, z, j, m),
            ) <= ((2 as real) * k) * (inner(y, y, j, m) + inner(z, z, j, m))
        }),
{
    let m = w.len() as int;
    let (wy, wz, ww) = (inner(w, y, j, m), inner(w, z, j, m), inner(w, w, j, m));
    let (yy, zz) = (inner(y, y, j, m), inner(z, z, j, m));
    let (c, d) = (t * wy, t * wz);
    lemma_inner_moved(moved(w, j, t, y), y, c, moved(w, j, t, z), z, d, w, j, m);
    lemma_cauchy_schwarz(w, y, j, m);
    lemma_cauchy_schwarz(w, z, j, m);
    lemma_inner_nonnegative(w, j, m);
    lemma_inner_nonnegative(y, j, m);
    lemma_inner_nonnegative(z, j, m);
    lemma_moved_constant(t, k, wy, wz, ww, yy, zz, c, d);
}

/// The constants of that.
proof fn lemma_moved_constant(
    t: real,
    k: real,
    wy: real,
    wz: real,
    ww: real,
    yy: real,
    zz: real,
    c: real,
    d: real,
)
    requires
        t > 0 as real,
        absolute(t * ww - 2 as real) <= k,
        k <= 1 as real,
        ww >= 0 as real,
        yy >= 0 as real,
        zz >= 0 as real,
        wy * wy <= ww * yy,
        wz * wz <= ww * zz,
        c == t * wy,
        d == t * wz,
    ensures
        absolute(c * (d * ww) - d * wy - c * wz) <= ((2 as real) * k) * (yy + zz),
{
    let q = t * ww;
    let p = wy * wz;
    let r = t * p;
    // the left hand side is r * (q - 2)
    assert(d * wy == r && c * wz == r) by (nonlinear_arith)
        requires
            c == t * wy,
            d == t * wz,
            r == t * p,
            p == wy * wz,
    ;
    assert(c * (d * ww) == r * q) by (nonlinear_arith)
        requires
            c == t * wy,
            d == t * wz,
            r == t * p,
            p == wy * wz,
            q == t * ww,
    ;
    let o = q - 2 as real;
    assert(r * q - r - r == r * o) by (nonlinear_arith)
        requires
            o == q - 2 as real,
    ;
    lemma_absolute_product(r, o);
    // |r| <= q * (yy + zz) / 2
    let s = yy + zz;
    let two = 2 as real;
    let ap = absolute(p);
    assert(two * ap <= wy * wy + wz * wz) by (nonlinear_arith)
        requires
            p == wy * wz,
            ap == p || ap == -p,
            two == 2 as real,
    {
        assert((wy - wz) * (wy - wz) >= 0 as real);
        assert((wy + wz) * (wy + wz) >= 0 as real);
    }
    assert(ww * yy + ww * zz == ww * s) by (nonlinear_arith)
        requires
            s == yy + zz,
    ;
    lemma_absolute_product(t, p);
    let ar = absolute(r);
    assert(two * ar <= q * s) by (nonlinear_arith)
        requires
            ar == t * ap,
            two * ap <= ww * s,
            t > 0 as real,
            q == t * ww,
            two == 2 as real,
    {
        assert(t * (two * ap) <= t * (ww * s));
        assert(t * (ww * s) == q * s);
        assert(t * (two * ap) == two * (t * ap));
    }
    assert(q * s <= (3 as real) * s) by (nonlinear_arith)
        requires
            q <= 3 as real,
            s >= 0 as real,
    ;
    let ao = absolute(o);
    let ts = two * s;
    assert(ar * ao <= ts * k) by (nonlinear_arith)
        requires
            (0 as real) <= ar <= ts,
            (0 as real) <= ao <= k,
    ;
    assert(ts * k == (two * k) * s) by (nonlinear_arith)
        requires
            ts == two * s,
    ;
}

/// What the error of a reflection does to a dot product.
proof fn lemma_error_inner(
    z: Seq<real>,
    p: Seq<real>,
    y: Seq<real>,
    z2: Seq<real>,
    p2: Seq<real>,
    y2: Seq<real>,
    h: real,
    j: int,
    m: int,
)
    requires
        0 <= j <= m,
        (0 as real) <= h <= 1 as real,
        inner(p, p, j, m) <= (5 as real) * inner(y, y, j, m),
        inner(p2, p2, j, m) <= (5 as real) * inner(y2, y2, j, m),
        ({
            let e = Seq::new(m as nat, |i: int| z[i] - p[i]);
            let e2 = Seq::new(m as nat, |i: int| z2[i] - p2[i]);
            &&& inner(e, e, j, m) <= h * h * inner(y, y, j, m)
            &&& inner(e2, e2, j, m) <= h * h * inner(y2, y2, j, m)
        }),
    ensures
        absolute(inner(z, z2, j, m) - inner(p, p2, j, m)) <= ((4 as real) * h) * (inner(y, y, j, m)
            + inner(y2, y2, j, m)),
{
    let e = Seq::new(m as nat, |i: int| z[i] - p[i]);
    let e2 = Seq::new(m as nat, |i: int| z2[i] - p2[i]);
    let (a, b) = (inner(y, y, j, m), inner(y2, y2, j, m));
    assert forall|i: int| j <= i < m implies #[trigger] z[i] == p[i] + e[i] by {}
    assert forall|i: int| j <= i < m implies #[trigger] z2[i] == p2[i] + e2[i] by {}
    lemma_inner_sums(z, p, e, z2, p2, e2, j, m);
    lemma_inner_nonnegative(y, j, m);
    lemma_inner_nonnegative(y2, j, m);
    let (a5, b5) = ((5 as real) * a, (5 as real) * b);
    lemma_young(p, e2, h, a5, b, j, m);
    lemma_young(p2, e, h, b5, a, j, m);
    lemma_inner_symmetric(p2, e, j, m);
    let hh = h * h;
    assert(hh * a <= a) by (nonlinear_arith)
        requires
            hh == h * h,
            (0 as real) <= h <= 1 as real,
            a >= 0 as real,
    {
        assert(hh <= 1 as real);
    }
    lemma_young(e, e2, h, a, b, j, m);
    let (x1, x2, x3) = (h * (a5 + b), h * (b5 + a), h * (a + b));
    assert(x1 + x2 + x3 == (7 as real) * x3) by (nonlinear_arith)
        requires
            x1 == h * (a5 + b),
            x2 == h * (b5 + a),
            x3 == h * (a + b),
            a5 == (5 as real) * a,
            b5 == (5 as real) * b,
    ;
    assert(x3 >= 0 as real) by (nonlinear_arith)
        requires
            x3 == h * (a + b),
            h >= 0 as real,
            a + b >= 0 as real,
    ;
    let s = a + b;
    assert(((4 as real) * h) * s == (4 as real) * x3) by (nonlinear_arith)
        requires
            x3 == h * s,
    ;
}

/// Reflecting two vectors keeps their dot product up to rounding:
/// `|z . z' - y . y'| <= (2 * k + 20 * h) * (|y|^2 + |y'|^2)`.
pub proof fn lemma_reflect_gram<F: Arithmetic>(
    val: spec_fn(F) -> real,
    u: real,
    w: Seq<F>,
    j: int,
    x: Seq<F>,
    x2: Seq<F>,
    t: real,
    k: real,
)
    requires
        rounded(val, u),
        0 <= j < w.len(),
        x.len() == w.len(),
        x2.len() == w.len(),
        nearly_reflects(values(val, w), j, t, k),
        (5 as real) * step_error(u, w.len() as int) <= 1 as real,
    ensures
        ({
            let m = w.len() as int;
            let (y, y2) = (values(val, x), values(val, x2));
            let z = values(val, reflect_spec(w, j, x));
            let z2 = values(val, reflect_spec(w, j, x2));
            absolute(inner(z, z2, j, m) - inner(y, y2, j, m)) <= ((2 as real) * k + (20 as real)
                * step_error(u, m)) * (inner(y, y, j, m) + inner(y2, y2, j, m))
        }),
{
    let m = w.len() as int;
    let v = values(val, w);
    let (y, y2) = (values(val, x), values(val, x2));
    let z = values(val, reflect_spec(w, j, x));
    let z2 = values(val, reflect_spec(w, j, x2));
    let (p, p2) = (moved(v, j, t, y), moved(v, j, t, y2));
    let h = (5 as real) * step_error(u, m);
    let (a, b) = (inner(y, y, j, m), inner(y2, y2, j, m));
    lemma_growth(u, (m + 20) as nat, 0);
    lemma_inner_nonnegative(y, j, m);
    lemma_inner_nonnegative(y2, j, m);
    lemma_reflected(val, u, w, j, x, t, k);
    lemma_reflected(val, u, w, j, x2, t, k);
    lemma_moved_inner(v, j, t, k, y, y2);
    lemma_moved_inner(v, j, t, k, y, y);
    lemma_moved_inner(v, j, t, k, y2, y2);
    lemma_four_times(k, a, inner(p, p, j, m));
    lemma_four_times(k, b, inner(p2, p2, j, m));
    let e = Seq::new(m as nat, |i: int| z[i] - p[i]);
    let e2 = Seq::new(m as nat, |i: int| z2[i] - p2[i]);
    assert(e =~= Seq::new(x.len(), |i: int| z[i] - p[i]));
    assert(e2 =~= Seq::new(x2.len(), |i: int| z2[i] - p2[i]));
    lemma_error_inner(z, p, y, z2, p2, y2, h, j, m);
    let (s, g) = (a + b, step_error(u, m));
    let (two, four, twenty) = (2 as real, 4 as real, 20 as real);
    assert((four * h) * s + (two * k) * s == (two * k + twenty * g) * s) by (nonlinear_arith)
        requires
            h == (5 as real) * g,
            four == 4 as real,
            twenty == 20 as real,
    ;
}

/// A length after an exact reflection.
proof fn lemma_four_times(k: real, a: real, b: real)
    requires
        k <= 1 as real,
        a >= 0 as real,
        absolute(b - a) <= ((2 as real) * k) * (a + a),
    ensures
        b <= (5 as real) * a,
{
    let c = (2 as real) * k;
    assert(c * (a + a) <= (4 as real) * a) by (nonlinear_arith)
        requires
            c <= 2 as real,
            a >= 0 as real,
    ;
}

} // verus!
