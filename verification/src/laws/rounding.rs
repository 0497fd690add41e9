//! How relative errors add up.
use vstd::prelude::*;
use crate::laws::sums::{lemma_sum_congruent, lemma_sum_split, sum};
use crate::scalar::{absolute, near, rounded, Arithmetic};
use crate::vector::{block_sum, blocks, dot_spec, lane_sum, norm_squared_spec, running_sum};

verus! {

/// `w` to the power of `k`.
pub open spec fn power(w: real, k: nat) -> real
    decreases k,
{
    if k == 0 {
        1 as real
    } else {
        w * power(w, (k - 1) as nat)
    }
}

/// `1 / (1 as real - u)^k`, an upper bound of `(1 as real + u)^k`.
#[verifier::opaque]
pub open spec fn growth(u: real, k: nat) -> real {
    power(1 as real / (1 as real - u), k)
}

/// `1 / (1 as real - u)^k - 1`, about `k * u`: the relative error that `k` operations with the relative
/// error `u` can add up to.
pub open spec fn gamma(u: real, k: nat) -> real {
    growth(u, k) - 1 as real
}

/// Whether `c` is `e` up to the error of `k` operations on numbers that add up to `s` in magnitude.
#[verifier::opaque]
pub open spec fn approx(u: real, k: nat, c: real, e: real, s: real) -> bool {
    &&& absolute(e) <= s
    &&& absolute(c - e) <= gamma(u, k) * s
}

/// The factor for one operation.
pub proof fn lemma_slack(u: real)
    requires
        (0 as real) <= u < 1 as real,
    ensures
        growth(u, 1) * (1 as real - u) == 1 as real,
        growth(u, 1) >= 1 as real + u,
        growth(u, 1) >= 1 as real,
        growth(u, 0) == 1 as real,
{
    reveal(growth);
    let d = 1 as real - u;
    let w = 1 as real / d;
    assert(w * d == 1 as real) by (nonlinear_arith)
        requires
            w == 1 as real / d,
            d > 0 as real,
    ;
    assert(power(w, 0) == 1 as real);
    assert(power(w, 1) == w * power(w, 0));
    assert(w * (1 as real) == w) by (nonlinear_arith);
    assert(w >= 1 as real + u) by (nonlinear_arith)
        requires
            w * d == 1 as real,
            d == 1 as real - u,
            d > 0 as real,
    {
        assert((1 as real + u) * d <= 1 as real) by (nonlinear_arith)
            requires
                d == 1 as real - u,
        ;
        if w < 1 as real + u {
            assert(w * d < (1 as real + u) * d) by (nonlinear_arith)
                requires
                    w < 1 as real + u,
                    d > 0 as real,
            ;
        }
    }
}

/// Powers multiply, and do not decrease.
pub proof fn lemma_growth(u: real, k: nat, l: nat)
    requires
        (0 as real) <= u < 1 as real,
    ensures
        growth(u, k + l) == growth(u, k) * growth(u, l),
        growth(u, k) >= 1 as real,
        growth(u, k + l) >= growth(u, k),
        gamma(u, k) >= 0 as real,
    decreases k + l,
{
    reveal(growth);
    lemma_slack(u);
    let w = 1 as real / (1 as real - u);
    assert(growth(u, 1) == w) by {
        assert(power(w, 1) == w * power(w, 0));
        assert(w * (1 as real) == w) by (nonlinear_arith);
    }
    let (p, q) = (growth(u, k), growth(u, l));
    if l == 0 {
        assert(p * (1 as real) == p) by (nonlinear_arith);
        if k > 0 {
            lemma_growth(u, (k - 1) as nat, 0);
            let o = growth(u, (k - 1) as nat);
            assert(w * o >= 1 as real) by (nonlinear_arith)
                requires
                    w >= 1 as real,
                    o >= 1 as real,
            ;
        }
    } else {
        lemma_growth(u, k, (l - 1) as nat);
        let o = growth(u, (l - 1) as nat);
        let t = growth(u, (k + l - 1) as nat);
        assert(growth(u, k + l) == w * t);
        assert(q == w * o);
        assert(t == p * o);
        assert(w * (p * o) == p * (w * o)) by (nonlinear_arith);
        assert(w * t >= t) by (nonlinear_arith)
            requires
                w >= 1 as real,
                t >= 1 as real,
        ;
    }
}

/// A number is itself, up to any number of operations.
pub proof fn lemma_approx_same(u: real, k: nat, c: real)
    requires
        (0 as real) <= u < 1 as real,
    ensures
        approx(u, k, c, c, absolute(c)),
{
    reveal(approx);
    lemma_growth(u, k, 0);
    let (g, s) = (gamma(u, k), absolute(c));
    assert(g * s >= 0 as real) by (nonlinear_arith)
        requires
            g >= 0 as real,
            s >= 0 as real,
    ;
}

/// More operations and greater numbers allow for greater errors.
pub proof fn lemma_approx_weaken(u: real, k: nat, l: nat, c: real, e: real, s: real, t: real)
    requires
        (0 as real) <= u < 1 as real,
        approx(u, k, c, e, s),
        k <= l,
        s <= t,
    ensures
        approx(u, l, c, e, t),
{
    reveal(approx);
    lemma_growth(u, k, (l - k) as nat);
    let (g, h) = (gamma(u, k), gamma(u, l));
    assert(g * s <= h * t) by (nonlinear_arith)
        requires
            (0 as real) <= g <= h,
            (0 as real) <= s <= t,
    {
        assert(g * s <= h * s);
        assert(h * s <= h * t);
    }
}

/// `z <= (w - 1) * x` where `z <= u * y` and `y <= x + z`, for `w = 1 / (1 - u)`.
proof fn lemma_backwards(u: real, w: real, x: real, y: real, z: real)
    requires
        (0 as real) <= u < 1 as real,
        w * (1 as real - u) == 1 as real,
        w >= 1 as real,
        z <= u * y,
        y <= x + z,
    ensures
        z <= (w - 1 as real) * x,
{
    let d = 1 as real - u;
    assert(u * y <= u * x + u * z) by (nonlinear_arith)
        requires
            y <= x + z,
            u >= 0 as real,
    ;
    assert(z * d == z - u * z) by (nonlinear_arith)
        requires
            d == 1 as real - u,
    ;
    let (p, q) = (z * d, u * x);
    assert(w * p <= w * q) by (nonlinear_arith)
        requires
            p <= q,
            w >= 1 as real,
    ;
    assert(w * p == (w * d) * z) by (nonlinear_arith)
        requires
            p == z * d,
    ;
    assert((w * d) * z == z) by (nonlinear_arith)
        requires
            w * d == 1 as real,
    ;
    assert(w * d == w - w * u) by (nonlinear_arith)
        requires
            d == 1 as real - u,
    ;
    assert(w * q == (w * u) * x) by (nonlinear_arith)
        requires
            q == u * x,
    ;
    assert((w * u) * x == (w - 1 as real) * x) by (nonlinear_arith)
        requires
            w * u == w - 1 as real,
    ;
}

/// One more operation, on the numbers themselves or backwards.
pub proof fn lemma_approx_round(u: real, k: nat, c: real, d: real, e: real, s: real)
    requires
        (0 as real) <= u < 1 as real,
        near(u, c, d) || near(u, d, c),
        approx(u, k, d, e, s),
    ensures
        approx(u, k + 1, c, e, s),
{
    reveal(near);
    reveal(approx);
    lemma_slack(u);
    lemma_growth(u, k, 1);
    let (w, g) = (growth(u, 1), growth(u, k));
    let (x, y, z) = (absolute(d), absolute(c), absolute(c - d));
    if near(u, c, d) {
        assert(u * x <= (w - 1 as real) * x) by (nonlinear_arith)
            requires
                u <= w - 1 as real,
                x >= 0 as real,
        ;
    } else {
        lemma_backwards(u, w, x, y, z);
    }
    let h = (g - 1 as real) * s;
    assert(g * s == s + h) by (nonlinear_arith)
        requires
            h == (g - 1 as real) * s,
    ;
    let t = g * s;
    assert((w - 1 as real) * x <= (w - 1 as real) * t) by (nonlinear_arith)
        requires
            x <= t,
            w >= 1 as real,
    ;
    let (m, b) = (w - 1 as real, g * w);
    assert(m * t == (b - g) * s) by (nonlinear_arith)
        requires
            t == g * s,
            m == w - 1 as real,
            b == g * w,
    ;
    assert((b - g) * s + (g - 1 as real) * s == (b - 1 as real) * s) by (nonlinear_arith);
}

/// Errors of sums add.
pub proof fn lemma_approx_sum(
    u: real,
    k: nat,
    c: real,
    e: real,
    s: real,
    d: real,
    f: real,
    t: real,
)
    requires
        approx(u, k, c, e, s),
        approx(u, k, d, f, t),
    ensures
        approx(u, k, c + d, e + f, s + t),
{
    reveal(approx);
    let g = gamma(u, k);
    assert(g * (s + t) == g * s + g * t) by (nonlinear_arith);
}

/// The operations on the factors of a product add.
pub proof fn lemma_approx_product(
    u: real,
    k: nat,
    l: nat,
    c: real,
    e: real,
    s: real,
    d: real,
    f: real,
    t: real,
)
    requires
        (0 as real) <= u < 1 as real,
        approx(u, k, c, e, s),
        approx(u, l, d, f, t),
    ensures
        approx(u, k + l, c * d, e * f, s * t),
{
    reveal(approx);
    lemma_growth(u, k, l);
    lemma_growth(u, l, 0);
    let (g, h) = (growth(u, k), growth(u, l));
    let (p, q) = (c - e, d - f);
    lemma_absolute_product(p, d);
    lemma_absolute_product(e, q);
    lemma_absolute_product(e, f);
    assert(c * d - e * f == p * d + e * q) by (nonlinear_arith)
        requires
            p == c - e,
            q == d - f,
    ;
    let (x, y, z, v, r) = (absolute(p), absolute(d), absolute(e), absolute(q), absolute(f));
    assert(y <= h * t) by (nonlinear_arith)
        requires
            y <= t + (h - 1 as real) * t,
    ;
    assert(x * y <= ((g - 1 as real) * s) * (h * t)) by (nonlinear_arith)
        requires
            (0 as real) <= x <= (g - 1 as real) * s,
            (0 as real) <= y <= h * t,
    ;
    assert(z * v <= s * ((h - 1 as real) * t)) by (nonlinear_arith)
        requires
            (0 as real) <= z <= s,
            (0 as real) <= v <= (h - 1 as real) * t,
    ;
    assert(z * r <= s * t) by (nonlinear_arith)
        requires
            (0 as real) <= z <= s,
            (0 as real) <= r <= t,
    ;
    let (m, n, st) = (g - 1 as real, h - 1 as real, s * t);
    assert((m * s) * (h * t) == (m * h) * st) by (nonlinear_arith)
        requires
            st == s * t,
    ;
    assert(s * (n * t) == n * st) by (nonlinear_arith)
        requires
            st == s * t,
    ;
    let (a, b) = (m * h, g * h);
    assert(a == b - h) by (nonlinear_arith)
        requires
            a == m * h,
            b == g * h,
            m == g - 1 as real,
    ;
    assert(a * st + n * st == (b - 1 as real) * st) by (nonlinear_arith)
        requires
            a + n == b - 1 as real,
    ;
}

/// Errors of errors: `c` is computed from `d`, and `d` from `e`.
pub proof fn lemma_approx_chain(
    u: real,
    k: nat,
    l: nat,
    c: real,
    d: real,
    x: real,
    e: real,
    s: real,
)
    requires
        (0 as real) <= u < 1 as real,
        approx(u, k, c, d, x),
        approx(u, l, d, e, s),
        x <= growth(u, l) * s,
    ensures
        approx(u, k + l, c, e, s),
{
    reveal(approx);
    lemma_growth(u, k, l);
    let (g, h) = (growth(u, k), growth(u, l));
    assert((g - 1 as real) * x <= (g - 1 as real) * (h * s)) by (nonlinear_arith)
        requires
            g >= 1 as real,
            x <= h * s,
    ;
    let m = g - 1 as real;
    let (a, b) = (m * h, g * h);
    assert(m * (h * s) == a * s) by (nonlinear_arith)
        requires
            a == m * h,
    ;
    assert(a == b - h) by (nonlinear_arith)
        requires
            a == m * h,
            b == g * h,
            m == g - 1 as real,
    ;
    assert(a * s + (h - 1 as real) * s == (b - 1 as real) * s) by (nonlinear_arith)
        requires
            a == b - h,
    ;
}

/// What a computed number is bounded by.
pub proof fn lemma_approx_bound(u: real, k: nat, c: real, e: real, s: real)
    requires
        approx(u, k, c, e, s),
    ensures
        absolute(c) <= growth(u, k) * s,
{
    reveal(approx);
    let g = growth(u, k);
    assert((g - 1 as real) * s == g * s - s) by (nonlinear_arith);
}

/// The error of a magnitude is not greater than that of the number.
pub proof fn lemma_approx_absolute(u: real, k: nat, c: real, e: real, s: real)
    requires
        approx(u, k, c, e, s),
    ensures
        approx(u, k, absolute(c), absolute(e), s),
{
    reveal(approx);
}

/// The magnitude of a product is the product of the magnitudes.
pub proof fn lemma_absolute_product(x: real, y: real)
    ensures
        absolute(x * y) == absolute(x) * absolute(y),
{
    assert(absolute(x * y) == absolute(x) * absolute(y)) by (nonlinear_arith);
}

/// The terms of a sum that are computed with errors.
pub proof fn lemma_approx_terms(
    u: real,
    k: nat,
    c: spec_fn(int) -> real,
    e: spec_fn(int) -> real,
    s: spec_fn(int) -> real,
    lo: int,
    hi: int,
)
    requires
        (0 as real) <= u < 1 as real,
        forall|i: int| lo <= i < hi ==> approx(u, k, #[trigger] c(i), e(i), s(i)),
    ensures
        approx(u, k, sum(c, lo, hi), sum(e, lo, hi), sum(s, lo, hi)),
    decreases hi - lo,
{
    if hi > lo {
        lemma_approx_terms(u, k, c, e, s, lo, hi - 1);
        assert(approx(u, k, c(hi - 1), e(hi - 1), s(hi - 1)));
        lemma_approx_sum(
            u,
            k,
            sum(c, lo, hi - 1),
            sum(e, lo, hi - 1),
            sum(s, lo, hi - 1),
            c(hi - 1),
            e(hi - 1),
            s(hi - 1),
        );
    } else {
        lemma_approx_same(u, k, 0 as real);
    }
}

/// A product of two numbers, added to a sum.
pub proof fn lemma_approx_add<F: Arithmetic>(
    val: spec_fn(F) -> real,
    u: real,
    k: nat,
    c: F,
    e: real,
    s: real,
    x: F,
    y: F,
)
    requires
        rounded(val, u),
        approx(u, k, val(c), e, s),
        k >= 1,
    ensures
        ({
            let (p, q) = (val(x) * val(y), absolute(val(x)) * absolute(val(y)));
            &&& approx(u, k + 1, val(c.plus(x.times(y))), e + p, s + q)
            &&& approx(u, k + 1, val(x.times(y).plus(c)), p + e, q + s)
        }),
{
    let p = val(x) * val(y);
    lemma_absolute_product(val(x), val(y));
    let q = absolute(p);
    let t = x.times(y);
    lemma_approx_same(u, 0, p);
    lemma_approx_round(u, 0, val(t), p, p, q);
    lemma_approx_weaken(u, 1, k, val(t), p, q, q);
    lemma_approx_sum(u, k, val(c), e, s, val(t), p, q);
    lemma_approx_sum(u, k, val(t), p, q, val(c), e, s);
    lemma_approx_round(u, k, val(c.plus(t)), val(c) + val(t), e + p, s + q);
    lemma_approx_round(u, k, val(t.plus(c)), val(t) + val(c), p + e, q + s);
}

/// Two sums, added.
proof fn lemma_approx_plus<F: Arithmetic>(
    val: spec_fn(F) -> real,
    u: real,
    k: nat,
    c: F,
    e: real,
    s: real,
    d: F,
    f: real,
    t: real,
)
    requires
        rounded(val, u),
        approx(u, k, val(c), e, s),
        approx(u, k, val(d), f, t),
    ensures
        approx(u, k + 1, val(c.plus(d)), e + f, s + t),
{
    lemma_approx_sum(u, k, val(c), e, s, val(d), f, t);
    lemma_approx_round(u, k, val(c.plus(d)), val(c) + val(d), e + f, s + t);
}

/// The sum of the `k` terms `i`, `i + 8`, ....
spec fn lane(f: spec_fn(int) -> real, i: int, k: int) -> real
    decreases k,
{
    if k <= 0 {
        0 as real
    } else {
        lane(f, i, k - 1) + f(i + 8 * (k - 1))
    }
}

/// The eight sums add up to the whole.
proof fn lemma_lanes(f: spec_fn(int) -> real, lo: int, k: int)
    requires
        0 <= k,
    ensures
        lane(f, lo, k) + lane(f, lo + 1, k) + lane(f, lo + 2, k) + lane(f, lo + 3, k) + lane(
            f,
            lo + 4,
            k,
        ) + lane(f, lo + 5, k) + lane(f, lo + 6, k) + lane(f, lo + 7, k) == sum(f, lo, lo + 8 * k),
    decreases k,
{
    if k > 0 {
        lemma_lanes(f, lo, k - 1);
        let i = lo + 8 * (k - 1);
        assert(sum(f, lo, i + 8) == sum(f, lo, i + 7) + f(i + 7));
        assert(sum(f, lo, i + 7) == sum(f, lo, i + 6) + f(i + 6));
        assert(sum(f, lo, i + 6) == sum(f, lo, i + 5) + f(i + 5));
        assert(sum(f, lo, i + 5) == sum(f, lo, i + 4) + f(i + 4));
        assert(sum(f, lo, i + 4) == sum(f, lo, i + 3) + f(i + 3));
        assert(sum(f, lo, i + 3) == sum(f, lo, i + 2) + f(i + 2));
        assert(sum(f, lo, i + 2) == sum(f, lo, i + 1) + f(i + 1));
        assert(sum(f, lo, i + 1) == sum(f, lo, i) + f(i));
        assert forall|q: int| 0 <= q < 8 implies #[trigger] lane(f, lo + q, k) == lane(
            f,
            lo + q,
            k - 1,
        ) + f(i + q) by {
            assert(lo + q + 8 * (k - 1) == i + q);
        }
        assert(lo + 0 == lo);
        assert(lane(f, lo + 0, k) == lane(f, lo + 0, k - 1) + f(i));
    }
}

/// The error of one of the eight sums.
proof fn lemma_lane_rounded<F: Arithmetic>(
    val: spec_fn(F) -> real,
    u: real,
    x: Seq<F>,
    y: Seq<F>,
    i: int,
    k: int,
)
    requires
        rounded(val, u),
        0 <= k,
    ensures
        approx(
            u,
            (k + 1) as nat,
            val(lane_sum(x, y, i, k)),
            lane(|j: int| val(x[j]) * val(y[j]), i, k),
            lane(|j: int| absolute(val(x[j])) * absolute(val(y[j])), i, k),
        ),
    decreases k,
{
    let f = |j: int| val(x[j]) * val(y[j]);
    let g = |j: int| absolute(val(x[j])) * absolute(val(y[j]));
    if k > 0 {
        lemma_lane_rounded(val, u, x, y, i, k - 1);
        let j = i + 8 * (k - 1);
        lemma_approx_add(
            val,
            u,
            k as nat,
            lane_sum(x, y, i, k - 1),
            lane(f, i, k - 1),
            lane(g, i, k - 1),
            x[j],
            y[j],
        );
    } else {
        lemma_approx_same(u, 1, 0 as real);
    }
}

/// The error of the sum over the blocks.
proof fn lemma_block_rounded<F: Arithmetic>(
    val: spec_fn(F) -> real,
    u: real,
    x: Seq<F>,
    y: Seq<F>,
    lo: int,
    k: int,
)
    requires
        rounded(val, u),
        0 <= k,
    ensures
        approx(
            u,
            (k + 6) as nat,
            val(block_sum(x, y, lo, k)),
            sum(|j: int| val(x[j]) * val(y[j]), lo, lo + 8 * k),
            sum(|j: int| absolute(val(x[j])) * absolute(val(y[j])), lo, lo + 8 * k),
        ),
{
    let f = |j: int| val(x[j]) * val(y[j]);
    let g = |j: int| absolute(val(x[j])) * absolute(val(y[j]));
    lemma_lanes(f, lo, k);
    lemma_lanes(g, lo, k);
    let l = (k + 1) as nat;
    let pair = |q: int| lane_sum(x, y, lo + q, k).plus(lane_sum(x, y, lo + q + 4, k));
    let e = |q: int| lane(f, lo + q, k) + lane(f, lo + q + 4, k);
    let s = |q: int| lane(g, lo + q, k) + lane(g, lo + q + 4, k);
    assert forall|q: int| 0 <= q < 4 implies approx(u, l + 1, val(#[trigger] pair(q)), e(q), s(q))
        by {
        lemma_lane_rounded(val, u, x, y, lo + q, k);
        lemma_lane_rounded(val, u, x, y, lo + q + 4, k);
        lemma_approx_plus(
            val,
            u,
            l,
            lane_sum(x, y, lo + q, k),
            lane(f, lo + q, k),
            lane(g, lo + q, k),
            lane_sum(x, y, lo + q + 4, k),
            lane(f, lo + q + 4, k),
            lane(g, lo + q + 4, k),
        );
    }
    let zero = F::zero_spec();
    lemma_approx_same(u, l + 1, 0 as real);
    lemma_approx_plus(val, u, l + 1, zero, 0 as real, 0 as real, pair(0), e(0), s(0));
    let c = zero.plus(pair(0));
    lemma_approx_weaken(u, l + 1, l + 2, val(pair(1)), e(1), s(1), s(1));
    lemma_approx_plus(val, u, l + 2, c, e(0), s(0), pair(1), e(1), s(1));
    let c = c.plus(pair(1));
    lemma_approx_weaken(u, l + 1, l + 3, val(pair(2)), e(2), s(2), s(2));
    lemma_approx_plus(val, u, l + 3, c, e(0) + e(1), s(0) + s(1), pair(2), e(2), s(2));
    let c = c.plus(pair(2));
    lemma_approx_weaken(u, l + 1, l + 4, val(pair(3)), e(3), s(3), s(3));
    lemma_approx_plus(
        val,
        u,
        l + 4,
        c,
        e(0) + e(1) + e(2),
        s(0) + s(1) + s(2),
        pair(3),
        e(3),
        s(3),
    );
    assert(lo + 0 == lo);
    assert(c.plus(pair(3)) == block_sum(x, y, lo, k));
}

/// The error of a sum that is added to, one term after the other.
proof fn lemma_running_rounded<F: Arithmetic>(
    val: spec_fn(F) -> real,
    u: real,
    x: Seq<F>,
    y: Seq<F>,
    start: F,
    e: real,
    s: real,
    k: nat,
    lo: int,
    hi: int,
)
    requires
        rounded(val, u),
        k >= 1,
        lo <= hi,
        approx(u, k, val(start), e, s),
    ensures
        approx(
            u,
            (k + hi - lo) as nat,
            val(running_sum(x, y, start, lo, hi)),
            e + sum(|j: int| val(x[j]) * val(y[j]), lo, hi),
            s + sum(|j: int| absolute(val(x[j])) * absolute(val(y[j])), lo, hi),
        ),
    decreases hi - lo,
{
    let f = |j: int| val(x[j]) * val(y[j]);
    let g = |j: int| absolute(val(x[j])) * absolute(val(y[j]));
    if hi > lo {
        lemma_running_rounded(val, u, x, y, start, e, s, k, lo, hi - 1);
        lemma_approx_add(
            val,
            u,
            (k + hi - 1 - lo) as nat,
            running_sum(x, y, start, lo, hi - 1),
            e + sum(f, lo, hi - 1),
            s + sum(g, lo, hi - 1),
            x[hi - 1],
            y[hi - 1],
        );
    }
}

/// The number of operations that the error of a dot product of `n` rows comes from.
pub open spec fn dot_steps(n: int) -> nat {
    (n + 6) as nat
}

/// The dot product of `n` rows is computed up to the relative error of `n + 6` operations in its
/// terms: `|computed - x . y| <= gamma * (|x| . |y|)`.
pub proof fn law_dot_rounded<F: Arithmetic>(
    val: spec_fn(F) -> real,
    u: real,
    x: Seq<F>,
    y: Seq<F>,
    lo: int,
    hi: int,
)
    requires
        rounded(val, u),
        lo <= hi,
    ensures
        approx(
            u,
            dot_steps(hi - lo),
            val(dot_spec(x, y, lo, hi)),
            sum(|j: int| val(x[j]) * val(y[j]), lo, hi),
            sum(|j: int| absolute(val(x[j])) * absolute(val(y[j])), lo, hi),
        ),
{
    reveal(dot_spec);
    let f = |j: int| val(x[j]) * val(y[j]);
    let g = |j: int| absolute(val(x[j])) * absolute(val(y[j]));
    let k = blocks(lo, hi);
    let mid = lo + 8 * k;
    assert(0 <= k && mid <= hi);
    lemma_block_rounded(val, u, x, y, lo, k);
    let start = block_sum(x, y, lo, k);
    lemma_running_rounded(
        val,
        u,
        x,
        y,
        start,
        sum(f, lo, mid),
        sum(g, lo, mid),
        (k + 6) as nat,
        mid,
        hi,
    );
    lemma_sum_split(f, lo, mid, hi);
    lemma_sum_split(g, lo, mid, hi);
    lemma_approx_weaken(
        u,
        (k + 6 + hi - mid) as nat,
        dot_steps(hi - lo),
        val(dot_spec(x, y, lo, hi)),
        sum(f, lo, hi),
        sum(g, lo, hi),
        sum(g, lo, hi),
    );
}

/// The error of a sum of four terms that are added in pairs.
proof fn lemma_four_rounded<F: Arithmetic>(
    val: spec_fn(F) -> real,
    u: real,
    a: F,
    b: F,
    c: F,
    d: F,
    p: real,
    q: real,
    r: real,
    s: real,
)
    requires
        rounded(val, u),
        near(u, val(a), p),
        near(u, val(b), q),
        near(u, val(c), r),
        near(u, val(d), s),
        p >= 0 as real,
        q >= 0 as real,
        r >= 0 as real,
        s >= 0 as real,
    ensures
        approx(u, 3, val(a.plus(c).plus(b.plus(d))), p + q + r + s, p + q + r + s),
{
    lemma_approx_same(u, 0, p);
    lemma_approx_same(u, 0, q);
    lemma_approx_same(u, 0, r);
    lemma_approx_same(u, 0, s);
    lemma_approx_round(u, 0, val(a), p, p, p);
    lemma_approx_round(u, 0, val(b), q, q, q);
    lemma_approx_round(u, 0, val(c), r, r, r);
    lemma_approx_round(u, 0, val(d), s, s, s);
    lemma_approx_plus(val, u, 1, a, p, p, c, r, r);
    lemma_approx_plus(val, u, 1, b, q, q, d, s, s);
    lemma_approx_plus(val, u, 2, a.plus(c), p + r, p + r, b.plus(d), q + s, q + s);
}

/// Squares are not negative.
pub proof fn lemma_square(v: real)
    ensures
        v * v >= 0 as real,
        absolute(v) * absolute(v) == v * v,
{
    assert(v * v >= 0 as real) by (nonlinear_arith);
    lemma_absolute_product(v, v);
}

/// The square of a length is computed up to the relative error of `n + 6` operations.
pub proof fn law_norm_squared_rounded<F: Arithmetic>(val: spec_fn(F) -> real, u: real, x: Seq<F>)
    requires
        rounded(val, u),
    ensures
        ({
            let n = x.len() as int;
            let s = sum(|j: int| val(x[j]) * val(x[j]), 0, n);
            approx(u, dot_steps(n), val(norm_squared_spec(x)), s, s)
        }),
{
    let n = x.len() as int;
    let f = |j: int| val(x[j]) * val(x[j]);
    if n == 4 {
        lemma_square(val(x[0]));
        lemma_square(val(x[1]));
        lemma_square(val(x[2]));
        lemma_square(val(x[3]));
        lemma_four_rounded(
            val,
            u,
            x[0].times(x[0]),
            x[1].times(x[1]),
            x[2].times(x[2]),
            x[3].times(x[3]),
            f(0),
            f(1),
            f(2),
            f(3),
        );
        assert(sum(f, 0, 4) == sum(f, 0, 3) + f(3));
        assert(sum(f, 0, 3) == sum(f, 0, 2) + f(2));
        assert(sum(f, 0, 2) == sum(f, 0, 1) + f(1));
        assert(sum(f, 0, 1) == sum(f, 0, 0) + f(0));
        let s = sum(f, 0, 4);
        lemma_approx_weaken(u, 3, dot_steps(n), val(norm_squared_spec(x)), s, s, s);
    } else {
        let g = |j: int| absolute(val(x[j])) * absolute(val(x[j]));
        assert forall|j: int| 0 <= j < n implies #[trigger] f(j) == g(j) by {
            lemma_square(val(x[j]));
        }
        lemma_sum_congruent(f, g, 0, n);
        law_dot_rounded(val, u, x, x, 0, n);
    }
}

} // verus!
