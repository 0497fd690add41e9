//! One Givens rotation where the arithmetic is rounded.
use vstd::prelude::*;
use crate::givens::rotation_spec;
use crate::laws::backward::lemma_near_quotient;
use crate::laws::elimination::{lemma_expanded, lemma_rearranged};
use crate::laws::lengths::{lemma_square_of_sum, lemma_square_order};
use crate::laws::reduction::{lemma_approx_positive, lemma_root_squared, small};
use crate::laws::rounding::{
    approx, gamma, lemma_absolute_product, lemma_approx_bound, lemma_approx_chain,
    lemma_approx_product, lemma_approx_round, lemma_approx_same, lemma_approx_sum,
    lemma_approx_weaken, lemma_square,
};
use crate::scalar::{absolute, rounded, Arithmetic};

verus! {

/// The sine and the cosine of a rotation are computed from the quotient `t = a / b`: one is
/// `1 / sqrt(1 + t^2)`, and the other `t` times that. The sum of their squares is one up to rounding, and
/// the rotation takes `(b, a)` to a multiple of `(1, 0)` up to rounding.
proof fn lemma_quotient_rotation<F: Arithmetic>(val: spec_fn(F) -> real, u: real, a: F, b: F)
    requires
        rounded(val, u),
        val(b) != 0 as real,
        small(gamma(u, 20)),
    ensures
        ({
            let h = gamma(u, 20);
            let t = a.over(b);
            let s1 = F::one_spec().over(F::one_spec().plus(t.times(t)).root());
            let s2 = s1.times(t);
            let (x, y) = (val(s1), val(s2));
            &&& absolute(x * x + y * y - 1 as real) <= (4 as real) * h
            &&& absolute(x) <= 2 as real
            &&& absolute(y) <= 2 as real
            &&& absolute(y * val(b) - x * val(a)) <= (5 as real) * h * absolute(val(a))
        }),
{
    let h = gamma(u, 20);
    let one = F::one_spec();
    let tf = a.over(b);
    let tt = tf.times(tf);
    let under = one.plus(tt);
    let root = under.root();
    let s1 = one.over(root);
    let s2 = s1.times(tf);
    let (t, v, q, x, y) = (val(tf), val(under), val(root), val(s1), val(s2));
    let t2 = t * t;
    lemma_square(t);
    // 1 + t^2
    let w = 1 as real + t2;
    lemma_approx_same(u, 0, t2);
    lemma_approx_round(u, 0, val(tt), t2, t2, t2);
    lemma_approx_same(u, 1, 1 as real);
    lemma_approx_sum(u, 1, 1 as real, 1 as real, 1 as real, val(tt), t2, t2);
    lemma_approx_round(u, 1, v, 1 as real + val(tt), w, w);
    lemma_weaken_twenty(u, 2, v, w, w);
    lemma_approx_positive(u, 20, v, w, h);
    // the square of its root
    lemma_root_squared(u, v, q);
    lemma_approx_bound(u, 2, v, w, w);
    lemma_approx_chain(u, 2, 2, q * q, v, v, w, w);
    lemma_weaken_twenty(u, 4, q * q, w, w);
    let qq = q * q;
    assert(absolute(qq - w) <= h * w) by {
        reveal(approx);
    }
    assert(q != 0 as real) by {
        assert((100 as real) * (h * w) <= w) by (nonlinear_arith)
            requires
                (100 as real) * h <= 1 as real,
                w >= 1 as real,
        ;
        assert(q != 0 as real) by (nonlinear_arith)
            requires
                qq == q * q,
                qq > 0 as real,
        ;
    }
    // its inverse
    lemma_near_quotient(u, x, 1 as real, q);
    let o = 1 as real;
    lemma_approx_same(u, 0, o);
    lemma_approx_round(u, 0, q * x, o, o, o);
    lemma_approx_product(u, 1, 1, q * x, o, o, q * x, o, o);
    assert(o * o == o) by (nonlinear_arith)
        requires
            o == 1 as real,
    ;
    let xx = x * x;
    let p = (q * x) * (q * x);
    lemma_weaken_twenty(u, 2, p, o, o);
    assert(absolute(p - o) <= h) by {
        reveal(approx);
        assert(h * o == h) by (nonlinear_arith)
            requires
                o == 1 as real,
        ;
    }
    assert(p == qq * xx) by (nonlinear_arith)
        requires
            p == (q * x) * (q * x),
            qq == q * q,
            xx == x * x,
    ;
    // the other
    let xt = x * t;
    lemma_approx_same(u, 0, xt);
    lemma_approx_round(u, 0, y, xt, xt, absolute(xt));
    lemma_approx_product(u, 1, 1, y, xt, absolute(xt), y, xt, absolute(xt));
    lemma_square(xt);
    let z = xt * xt;
    lemma_weaken_twenty(u, 2, y * y, z, z);
    lemma_weaken_twenty(u, 1, y, xt, absolute(xt));
    assert(absolute(y * y - z) <= h * z && absolute(y - xt) <= h * absolute(xt)) by {
        reveal(approx);
    }
    assert(z == xx * t2) by (nonlinear_arith)
        requires
            z == xt * xt,
            xt == x * t,
            xx == x * x,
            t2 == t * t,
    ;
    lemma_square(x);
    lemma_rotation_constant(h, qq, w, t2, xx, y * y, z);
    lemma_square_order(x, 2 as real);
    lemma_square_order(y, 2 as real);
    // y * b = x * t * b = x * a
    let (av, bv) = (val(a), val(b));
    lemma_near_quotient(u, t, av, bv);
    let tb = bv * t;
    lemma_approx_same(u, 0, av);
    lemma_approx_round(u, 0, tb, av, av, absolute(av));
    lemma_weaken_twenty(u, 1, tb, av, absolute(av));
    assert(absolute(tb - av) <= h * absolute(av)) by {
        reveal(approx);
    }
    lemma_rotation_zero(h, x, y, xt, t, tb, av, bv);
}

/// More operations.
pub proof fn lemma_weaken_twenty(u: real, k: nat, c: real, e: real, s: real)
    requires
        (0 as real) <= u < 1 as real,
        k <= 20,
        approx(u, k, c, e, s),
    ensures
        approx(u, 20, c, e, s),
{
    lemma_approx_weaken(u, k, 20, c, e, s, s);
}

/// The constants for the sum of the squares.
proof fn lemma_rotation_constant(
    h: real,
    qq: real,
    w: real,
    t2: real,
    xx: real,
    yy: real,
    z: real,
)
    requires
        small(h),
        w == 1 as real + t2,
        t2 >= 0 as real,
        xx >= 0 as real,
        absolute(qq - w) <= h * w,
        absolute(qq * xx - 1 as real) <= h,
        z == xx * t2,
        absolute(yy - z) <= h * z,
    ensures
        absolute(xx + yy - 1 as real) <= (4 as real) * h,
        xx <= 4 as real,
        yy <= 4 as real,
{
    let k = xx * w;
    assert(k == xx + z) by (nonlinear_arith)
        requires
            k == xx * w,
            w == 1 as real + t2,
            z == xx * t2,
    ;
    assert(z >= 0 as real) by (nonlinear_arith)
        requires
            z == xx * t2,
            xx >= 0 as real,
            t2 >= 0 as real,
    ;
    let d = qq - w;
    let hw = h * w;
    let p = qq * xx;
    assert(p == k + d * xx) by (nonlinear_arith)
        requires
            p == qq * xx,
            d == qq - w,
            k == xx * w,
    ;
    let dx = d * xx;
    assert(dx <= hw * xx && -dx <= hw * xx) by (nonlinear_arith)
        requires
            dx == d * xx,
            d <= hw,
            -d <= hw,
            xx >= 0 as real,
    ;
    let hk = h * k;
    assert(hw * xx == hk) by (nonlinear_arith)
        requires
            hw == h * w,
            k == xx * w,
            hk == h * k,
    ;
    assert((100 as real) * hk <= k) by (nonlinear_arith)
        requires
            hk == h * k,
            (100 as real) * h <= 1 as real,
            k >= 0 as real,
    ;
    // k <= 1.03
    assert((99 as real) * k <= (101 as real));
    assert((99 as real) * hk <= (101 as real) * h) by (nonlinear_arith)
        requires
            hk == h * k,
            (99 as real) * k <= 101 as real,
            h >= 0 as real,
    ;
    let hz = h * z;
    assert(hz <= hk) by (nonlinear_arith)
        requires
            hz == h * z,
            hk == h * k,
            z <= k,
            h >= 0 as real,
    ;
}

/// The constants for the entry that is eliminated.
proof fn lemma_rotation_zero(
    h: real,
    x: real,
    y: real,
    xt: real,
    t: real,
    tb: real,
    a: real,
    b: real,
)
    requires
        small(h),
        absolute(x) <= 2 as real,
        xt == x * t,
        tb == b * t,
        absolute(y - xt) <= h * absolute(xt),
        absolute(tb - a) <= h * absolute(a),
    ensures
        absolute(y * b - x * a) <= (5 as real) * h * absolute(a),
{
    let e = y - xt;
    let f = tb - a;
    assert(y * b - x * a == e * b + x * f) by (nonlinear_arith)
        requires
            e == y - xt,
            f == tb - a,
            xt == x * t,
            tb == b * t,
    {
        assert(xt * b == x * (b * t));
    }
    lemma_absolute_product(e, b);
    lemma_absolute_product(x, f);
    lemma_absolute_product(xt, b);
    lemma_absolute_product(x, tb);
    assert(xt * b == x * tb) by (nonlinear_arith)
        requires
            xt == x * t,
            tb == b * t,
    ;
    let (ae, ab, ax, af, axt, atb, aa) = (
        absolute(e),
        absolute(b),
        absolute(x),
        absolute(f),
        absolute(xt),
        absolute(tb),
        absolute(a),
    );
    let ha = h * aa;
    assert((100 as real) * ha <= aa) by (nonlinear_arith)
        requires
            ha == h * aa,
            (100 as real) * h <= 1 as real,
            aa >= 0 as real,
    ;
    assert(ae * ab <= h * (axt * ab)) by (nonlinear_arith)
        requires
            ae <= h * axt,
            ab >= 0 as real,
    ;
    let k = axt * ab;
    assert(k == ax * atb);
    assert(k <= (2 as real) * atb) by (nonlinear_arith)
        requires
            k == ax * atb,
            ax <= 2 as real,
            atb >= 0 as real,
    ;
    assert((100 as real) * k <= (202 as real) * aa);
    assert((100 as real) * (h * k) <= (202 as real) * ha) by (nonlinear_arith)
        requires
            (100 as real) * k <= (202 as real) * aa,
            ha == h * aa,
            h >= 0 as real,
    ;
    assert(ax * af <= (2 as real) * ha) by (nonlinear_arith)
        requires
            (0 as real) <= ax <= 2 as real,
            (0 as real) <= af <= ha,
    ;
    assert((5 as real) * h * aa == (5 as real) * ha) by (nonlinear_arith)
        requires
            ha == h * aa,
    ;
    assert(ha >= 0 as real) by (nonlinear_arith)
        requires
            ha == h * aa,
            h >= 0 as real,
            aa >= 0 as real,
    ;
}

/// The sine and the cosine that are computed are those of a rotation up to rounding, and it takes
/// `(r, d)` to a multiple of `(1, 0)` up to rounding.
pub proof fn law_rotation_rounded<F: Arithmetic>(val: spec_fn(F) -> real, u: real, r: F, d: F)
    requires
        rounded(val, u),
        val(d) != 0 as real,
        small(gamma(u, 20)),
    ensures
        ({
            let h = gamma(u, 20);
            let (sin, cos) = rotation_spec(r, d);
            let (s, c) = (val(sin), val(cos));
            &&& absolute(s * s + c * c - 1 as real) <= (4 as real) * h
            &&& absolute(s) <= 2 as real
            &&& absolute(c) <= 2 as real
            &&& absolute((-s) * val(r) + c * val(d)) <= ((5 as real) * h) * (absolute(val(r))
                + absolute(val(d)))
        }),
{
    let h = gamma(u, 20);
    let (sin, cos) = rotation_spec(r, d);
    let (s, c) = (val(sin), val(cos));
    let (x, y) = (val(r), val(d));
    assert((-s) * x == -(s * x)) by (nonlinear_arith);
    let (p, q, g) = (absolute(x), absolute(y), (5 as real) * h);
    assert(g * p <= g * (p + q) && g * q <= g * (p + q)) by (nonlinear_arith)
        requires
            g >= 0 as real,
            p >= 0 as real,
            q >= 0 as real,
    ;
    if r.magnitude().below(d.magnitude()) {
        lemma_quotient_rotation(val, u, r, d);
    } else {
        assert(x != 0 as real);
        lemma_quotient_rotation(val, u, d, r);
        assert(absolute(s * x - c * y) <= g * q);
    }
}

/// A rotation multiplies the dot product of two pairs by the sum of the squares of the sine and the cosine.
proof fn lemma_rotated_products(
    s: real,
    c: real,
    k: real,
    a: real,
    b: real,
    x: real,
    y: real,
)
    requires
        s * s + c * c == k,
    ensures
        (c * a + s * b) * (c * x + s * y) + ((-s) * a + c * b) * ((-s) * x + c * y) == k * (a * x
            + b * y),
{
    let t = -s;
    let (ca, sb, cx, sy) = (c * a, s * b, c * x, s * y);
    let (ta, cb, tx, cy) = (t * a, c * b, t * x, c * y);
    let (cc, ss, cs) = (c * c, s * s, c * s);
    let (ax, ay, bx, by) = (a * x, a * y, b * x, b * y);
    lemma_expanded(ca, sb, cx, sy);
    lemma_expanded(ta, cb, tx, cy);
    lemma_rearranged(c, a, c, x);
    lemma_rearranged(c, a, s, y);
    lemma_rearranged(s, b, c, x);
    lemma_rearranged(s, b, s, y);
    lemma_rearranged(t, a, t, x);
    lemma_rearranged(t, a, c, y);
    lemma_rearranged(c, b, t, x);
    lemma_rearranged(c, b, c, y);
    assert(t * t == ss && t * c == -cs && c * t == -cs && s * c == cs) by (nonlinear_arith)
        requires
            t == -s,
            ss == s * s,
            cs == c * s,
    ;
    assert(cc * ax + cs * ay + cs * bx + ss * by + ss * ax + (-cs) * ay + (-cs) * bx + cc * by == k
        * (ax + by)) by (nonlinear_arith)
        requires
            ss + cc == k,
    {
        assert((-cs) * ay == -(cs * ay));
        assert((-cs) * bx == -(cs * bx));
        assert(cc * ax + ss * ax == k * ax);
        assert(cc * by + ss * by == k * by);
        assert(k * (ax + by) == k * ax + k * by);
    }
}

/// The error of a product of two numbers with errors.
proof fn lemma_product_error(
    a: real,
    x: real,
    e: real,
    f: real,
    m: real,
    n: real,
    h: real,
)
    requires
        small(h),
        absolute(a) <= (2 as real) * m,
        absolute(x) <= (2 as real) * n,
        absolute(e - a) <= (5 as real) * h * m,
        absolute(f - x) <= (5 as real) * h * n,
    ensures
        absolute(e * f - a * x) <= ((21 as real) * h) * (m * n),
{
    let (p, q) = (e - a, f - x);
    assert(e * f - a * x == a * q + p * x + p * q) by (nonlinear_arith)
        requires
            p == e - a,
            q == f - x,
    ;
    lemma_absolute_product(a, q);
    lemma_absolute_product(p, x);
    lemma_absolute_product(p, q);
    let (aa, ax, ap, aq) = (absolute(a), absolute(x), absolute(p), absolute(q));
    let (m2, n2, hm, hn) = (
        (2 as real) * m,
        (2 as real) * n,
        (5 as real) * h * m,
        (5 as real) * h * n,
    );
    let r = m * n;
    let hr = h * r;
    assert(aa * aq <= m2 * hn) by (nonlinear_arith)
        requires
            (0 as real) <= aa <= m2,
            (0 as real) <= aq <= hn,
    ;
    assert(ap * ax <= hm * n2) by (nonlinear_arith)
        requires
            (0 as real) <= ap <= hm,
            (0 as real) <= ax <= n2,
    ;
    assert(ap * aq <= hm * hn) by (nonlinear_arith)
        requires
            (0 as real) <= ap <= hm,
            (0 as real) <= aq <= hn,
    ;
    assert(m2 * hn == (10 as real) * hr) by (nonlinear_arith)
        requires
            m2 == (2 as real) * m,
            hn == (5 as real) * h * n,
            r == m * n,
            hr == h * r,
    ;
    assert(hm * n2 == (10 as real) * hr) by (nonlinear_arith)
        requires
            n2 == (2 as real) * n,
            hm == (5 as real) * h * m,
            r == m * n,
            hr == h * r,
    ;
    assert(hm * hn == (25 as real) * (h * hr)) by (nonlinear_arith)
        requires
            hm == (5 as real) * h * m,
            hn == (5 as real) * h * n,
            r == m * n,
            hr == h * r,
    ;
    assert(r >= 0 as real) by (nonlinear_arith)
        requires
            r == m * n,
            m >= 0 as real,
            n >= 0 as real,
    ;
    assert(hr >= 0 as real) by (nonlinear_arith)
        requires
            hr == h * r,
            h >= 0 as real,
            r >= 0 as real,
    ;
    assert((100 as real) * (h * hr) <= hr) by (nonlinear_arith)
        requires
            (100 as real) * h <= 1 as real,
            hr >= 0 as real,
    ;
    assert(((21 as real) * h) * r == (21 as real) * hr) by (nonlinear_arith)
        requires
            hr == h * r,
    ;
}

/// `c * a + s * b` is bounded by the magnitudes of `a` and `b`.
proof fn lemma_combination(s: real, c: real, a: real, b: real, m: real)
    requires
        absolute(s) <= 2 as real,
        absolute(c) <= 2 as real,
        m == absolute(a) + absolute(b),
    ensures
        absolute(c * a + s * b) <= (2 as real) * m,
        absolute((-s) * a + c * b) <= (2 as real) * m,
        absolute(c * a) + absolute(s * b) <= (2 as real) * m,
        absolute((-s) * a) + absolute(c * b) <= (2 as real) * m,
{
    lemma_absolute_product(c, a);
    lemma_absolute_product(s, b);
    lemma_absolute_product(-s, a);
    lemma_absolute_product(c, b);
    let (x, y, p, q) = (absolute(a), absolute(b), absolute(c), absolute(s));
    assert(p * x <= (2 as real) * x && q * y <= (2 as real) * y && q * x <= (2 as real) * x && p * y
        <= (2 as real) * y) by (nonlinear_arith)
        requires
            p <= 2 as real,
            q <= 2 as real,
            x >= 0 as real,
            y >= 0 as real,
    ;
}

/// What a rotation that is computed up to rounding does to the dot product of two pairs.
pub proof fn lemma_pairs_rotated(
    h: real,
    s: real,
    c: real,
    a: real,
    b: real,
    a2: real,
    b2: real,
    x: real,
    y: real,
    x2: real,
    y2: real,
)
    requires
        small(h),
        absolute(s * s + c * c - 1 as real) <= (4 as real) * h,
        absolute(s) <= 2 as real,
        absolute(c) <= 2 as real,
        absolute(a2 - (c * a + s * b)) <= (5 as real) * h * (absolute(a) + absolute(b)),
        absolute(b2 - ((-s) * a + c * b)) <= (5 as real) * h * (absolute(a) + absolute(b)),
        absolute(x2 - (c * x + s * y)) <= (5 as real) * h * (absolute(x) + absolute(y)),
        absolute(y2 - ((-s) * x + c * y)) <= (5 as real) * h * (absolute(x) + absolute(y)),
    ensures
        absolute((a2 * x2 + b2 * y2) - (a * x + b * y)) <= ((60 as real) * h) * ((a * a + b * b) + (
        x * x + y * y)),
{
    let (m, n) = (absolute(a) + absolute(b), absolute(x) + absolute(y));
    let k = s * s + c * c;
    let (p, q, r, o) = (c * a + s * b, (-s) * a + c * b, c * x + s * y, (-s) * x + c * y);
    lemma_combination(s, c, a, b, m);
    lemma_combination(s, c, x, y, n);
    lemma_rotated_products(s, c, k, a, b, x, y);
    lemma_product_error(p, r, a2, x2, m, n, h);
    lemma_product_error(q, o, b2, y2, m, n, h);
    let d = a * x + b * y;
    let mn = m * n;
    lemma_absolute_product(a, x);
    lemma_absolute_product(b, y);
    let (aa, ab, ax, ay) = (absolute(a), absolute(b), absolute(x), absolute(y));
    assert(aa * ax + ab * ay <= mn) by (nonlinear_arith)
        requires
            mn == m * n,
            m == aa + ab,
            n == ax + ay,
            aa >= 0 as real,
            ab >= 0 as real,
            ax >= 0 as real,
            ay >= 0 as real,
    {
        assert(mn == aa * ax + aa * ay + ab * ax + ab * ay);
        assert(aa * ay >= 0 as real && ab * ax >= 0 as real);
    }
    let e = k - 1 as real;
    assert(k * d - d == e * d) by (nonlinear_arith)
        requires
            e == k - 1 as real,
    ;
    lemma_absolute_product(e, d);
    let (ae, ad) = (absolute(e), absolute(d));
    let h4 = (4 as real) * h;
    assert(ae * ad <= h4 * mn) by (nonlinear_arith)
        requires
            (0 as real) <= ae <= h4,
            (0 as real) <= ad <= mn,
    ;
    let hm = h * mn;
    assert(h4 * mn == (4 as real) * hm && ((21 as real) * h) * mn == (21 as real) * hm)
        by (nonlinear_arith)
        requires
            h4 == (4 as real) * h,
            hm == h * mn,
    ;
    // m * n <= the sum of the squares
    let t = (a * a + b * b) + (x * x + y * y);
    assert(mn <= t) by {
        lemma_square_of_sum(aa, ab);
        lemma_square_of_sum(ax, ay);
        lemma_square(a);
        lemma_square(b);
        lemma_square(x);
        lemma_square(y);
        let (mm, nn) = (m * m, n * n);
        assert((2 as real) * mn <= mm + nn) by (nonlinear_arith)
            requires
                mn == m * n,
                mm == m * m,
                nn == n * n,
        {
            assert((m - n) * (m - n) >= 0 as real);
        }
    }
    let ht = h * t;
    assert(hm <= ht) by (nonlinear_arith)
        requires
            hm == h * mn,
            ht == h * t,
            mn <= t,
            h >= 0 as real,
    ;
    assert(hm >= 0 as real) by (nonlinear_arith)
        requires
            hm == h * mn,
            h >= 0 as real,
            mn >= 0 as real,
    ;
    assert(((60 as real) * h) * t == (60 as real) * ht) by (nonlinear_arith)
        requires
            ht == h * t,
    ;
}

/// An entry of a row that is rotated is computed up to rounding.
pub proof fn lemma_combination_rounded<F: Arithmetic>(
    val: spec_fn(F) -> real,
    u: real,
    c: F,
    a: F,
    s: F,
    b: F,
)
    requires
        rounded(val, u),
        small(gamma(u, 20)),
        absolute(val(c)) <= 2 as real,
        absolute(val(s)) <= 2 as real,
    ensures
        absolute(val(c.times(a).plus(s.times(b))) - (val(c) * val(a) + val(s) * val(b))) <= (
        5 as real) * gamma(u, 20) * (absolute(val(a)) + absolute(val(b))),
{
    let h = gamma(u, 20);
    let (p, q) = (c.times(a), s.times(b));
    let (x, y) = (val(c) * val(a), val(s) * val(b));
    lemma_approx_same(u, 0, x);
    lemma_approx_same(u, 0, y);
    lemma_approx_round(u, 0, val(p), x, x, absolute(x));
    lemma_approx_round(u, 0, val(q), y, y, absolute(y));
    lemma_approx_sum(u, 1, val(p), x, absolute(x), val(q), y, absolute(y));
    let z = val(p.plus(q));
    let t = absolute(x) + absolute(y);
    lemma_approx_round(u, 1, z, val(p) + val(q), x + y, t);
    lemma_weaken_twenty(u, 2, z, x + y, t);
    let m = absolute(val(a)) + absolute(val(b));
    lemma_combination(val(s), val(c), val(a), val(b), m);
    assert(absolute(z - (x + y)) <= h * t) by {
        reveal(approx);
    }
    assert(h * t <= (5 as real) * h * m) by (nonlinear_arith)
        requires
            t <= (2 as real) * m,
            h >= 0 as real,
            m >= 0 as real,
    {
        assert(h * t <= h * ((2 as real) * m));
        assert(h * m >= 0 as real);
    }
}

} // verus!
