//! Inequalities for lengths and dot products.
use vstd::prelude::*;
use crate::laws::sums::{lemma_sum_congruent, lemma_sum_nonnegative, lemma_sum_of_zeros, sum};
use crate::laws::vectors::{
    inner, lemma_inner_linear, lemma_inner_nonnegative, lemma_inner_symmetric,
};
use crate::scalar::absolute;

verus! {

/// Sums are in order where their terms are.
pub proof fn lemma_sum_monotone(
    f: spec_fn(int) -> real,
    g: spec_fn(int) -> real,
    lo: int,
    hi: int,
)
    requires
        forall|i: int| lo <= i < hi ==> #[trigger] f(i) <= g(i),
    ensures
        sum(f, lo, hi) <= sum(g, lo, hi),
    decreases hi - lo,
{
    if hi > lo {
        lemma_sum_monotone(f, g, lo, hi - 1);
        assert(f(hi - 1) <= g(hi - 1));
    }
}

/// `q^2 <= p * r` where `p - 2 * t * q + t^2 * r >= 0` for `t = q / r`.
proof fn lemma_discriminant(p: real, q: real, r: real, t: real, d: real)
    requires
        r > 0 as real,
        t * r == q,
        d >= 0 as real,
        d == p - t * q - t * q + t * (t * r),
    ensures
        q * q <= p * r,
{
    assert(t * (t * r) == t * q) by (nonlinear_arith)
        requires
            t * r == q,
    ;
    assert(d == p - t * q);
    assert(d * r == p * r - (t * r) * q) by (nonlinear_arith)
        requires
            d == p - t * q,
    ;
    assert(d * r >= 0 as real) by (nonlinear_arith)
        requires
            d >= 0 as real,
            r > 0 as real,
    ;
    assert((t * r) * q == q * q) by (nonlinear_arith)
        requires
            t * r == q,
    ;
}

/// `(x . y)^2 <= |x|^2 * |y|^2`.
pub proof fn lemma_cauchy_schwarz(x: Seq<real>, y: Seq<real>, lo: int, hi: int)
    requires
        0 <= lo,
    ensures
        inner(x, y, lo, hi) * inner(x, y, lo, hi) <= inner(x, x, lo, hi) * inner(y, y, lo, hi),
{
    let (p, q, r) = (inner(x, x, lo, hi), inner(x, y, lo, hi), inner(y, y, lo, hi));
    lemma_inner_nonnegative(x, lo, hi);
    lemma_inner_nonnegative(y, lo, hi);
    if r == 0 as real {
        let f = |i: int| x[i] * y[i];
        assert forall|i: int| lo <= i < hi implies #[trigger] f(i) == 0 as real by {
            let (a, b) = (x[i], y[i]);
            assert(y[i] == 0 as real);
            assert(a * b == 0 as real) by (nonlinear_arith)
                requires
                    b == 0 as real,
            ;
        }
        lemma_sum_of_zeros(f, lo, hi);
        assert(q * q == 0 as real && p * r == 0 as real) by (nonlinear_arith)
            requires
                q == 0 as real,
                r == 0 as real,
        ;
    } else {
        let t = q / r;
        assert(t * r == q) by (nonlinear_arith)
            requires
                t == q / r,
                r > 0 as real,
        ;
        let hi_len = if hi < 0 {
            0int
        } else {
            hi
        };
        let z = Seq::new(hi_len as nat, |i: int| x[i] + (-t) * y[i]);
        assert forall|i: int| lo <= i < hi implies #[trigger] z[i] == x[i] + (-t) * y[i] by {}
        lemma_inner_linear(z, x, -t, y, z, lo, hi);
        lemma_inner_symmetric(x, z, lo, hi);
        lemma_inner_symmetric(y, z, lo, hi);
        lemma_inner_linear(z, x, -t, y, x, lo, hi);
        lemma_inner_linear(z, x, -t, y, y, lo, hi);
        lemma_inner_symmetric(y, x, lo, hi);
        lemma_inner_nonnegative(z, lo, hi);
        let d = inner(z, z, lo, hi);
        let (a, b) = (inner(z, x, lo, hi), inner(z, y, lo, hi));
        let s = -t;
        assert(s * b == s * q + s * (s * r)) by (nonlinear_arith)
            requires
                b == q + s * r,
        ;
        assert(s * q == -(t * q)) by (nonlinear_arith)
            requires
                s == -t,
        ;
        assert(s * (s * r) == t * (t * r)) by (nonlinear_arith)
            requires
                s == -t,
        ;
        lemma_discriminant(p, q, r, t, d);
    }
}

/// Numbers that are not negative are in the order of their squares.
pub proof fn lemma_square_order(a: real, b: real)
    requires
        b >= 0 as real,
        a * a <= b * b,
    ensures
        absolute(a) <= b,
{
    let c = absolute(a);
    assert(c * c == a * a) by (nonlinear_arith)
        requires
            c == a || c == -a,
    ;
    if c > b {
        assert(c * c > b * b) by (nonlinear_arith)
            requires
                c > b,
                b >= 0 as real,
        ;
    }
}

/// `2 * |x . e| <= t * (p + q)` where `|x|^2 <= p` and `|e|^2 <= t^2 * q`.
pub proof fn lemma_young(
    x: Seq<real>,
    e: Seq<real>,
    t: real,
    p: real,
    q: real,
    lo: int,
    hi: int,
)
    requires
        0 <= lo,
        t >= 0 as real,
        q >= 0 as real,
        inner(x, x, lo, hi) <= p,
        inner(e, e, lo, hi) <= t * t * q,
    ensures
        (2 as real) * absolute(inner(x, e, lo, hi)) <= t * (p + q),
{
    let (a, b, c) = (inner(x, x, lo, hi), inner(e, e, lo, hi), inner(x, e, lo, hi));
    lemma_cauchy_schwarz(x, e, lo, hi);
    lemma_inner_nonnegative(x, lo, hi);
    lemma_inner_nonnegative(e, lo, hi);
    let d = t * t * q;
    assert(a * b <= p * d) by (nonlinear_arith)
        requires
            (0 as real) <= a <= p,
            (0 as real) <= b <= d,
    ;
    let two = 2 as real;
    let (l, r) = (two * c, t * (p + q));
    assert(l * l == (4 as real) * (c * c)) by (nonlinear_arith)
        requires
            l == two * c,
            two == 2 as real,
    ;
    let (tt, pq, s) = (t * t, p * q, p + q);
    assert(p * d == tt * pq) by (nonlinear_arith)
        requires
            d == t * t * q,
            tt == t * t,
            pq == p * q,
    ;
    assert((4 as real) * pq <= s * s) by (nonlinear_arith)
        requires
            pq == p * q,
            s == p + q,
    {
        assert((p - q) * (p - q) >= 0 as real);
        assert(s * s - (4 as real) * pq == (p - q) * (p - q));
    }
    let ss = s * s;
    assert(tt >= 0 as real) by (nonlinear_arith)
        requires
            tt == t * t,
    ;
    assert((4 as real) * (tt * pq) <= tt * ss) by (nonlinear_arith)
        requires
            (4 as real) * pq <= ss,
            tt >= 0 as real,
    ;
    assert(r * r == tt * ss) by (nonlinear_arith)
        requires
            r == t * s,
            tt == t * t,
            ss == s * s,
    ;
    assert(r >= 0 as real) by (nonlinear_arith)
        requires
            r == t * s,
            t >= 0 as real,
            s >= 0 as real,
    ;
    lemma_square_order(l, r);
    assert(absolute(l) == two * absolute(c)) by (nonlinear_arith)
        requires
            l == two * c,
            two == 2 as real,
    ;
}

/// `x . y` of sums: `(h + e) . (k + f)`.
pub proof fn lemma_inner_sums(
    x: Seq<real>,
    h: Seq<real>,
    e: Seq<real>,
    y: Seq<real>,
    k: Seq<real>,
    f: Seq<real>,
    lo: int,
    hi: int,
)
    requires
        forall|i: int| lo <= i < hi ==> #[trigger] x[i] == h[i] + e[i],
        forall|i: int| lo <= i < hi ==> #[trigger] y[i] == k[i] + f[i],
    ensures
        inner(x, y, lo, hi) == inner(h, k, lo, hi) + inner(h, f, lo, hi) + inner(e, k, lo, hi)
            + inner(e, f, lo, hi),
{
    let one = 1 as real;
    assert forall|i: int| lo <= i < hi implies #[trigger] x[i] == h[i] + one * e[i] by {}
    assert forall|i: int| lo <= i < hi implies #[trigger] y[i] == k[i] + one * f[i] by {}
    lemma_inner_linear(x, h, one, e, y, lo, hi);
    lemma_inner_symmetric(h, y, lo, hi);
    lemma_inner_symmetric(e, y, lo, hi);
    lemma_inner_linear(y, k, one, f, h, lo, hi);
    lemma_inner_linear(y, k, one, f, e, lo, hi);
    lemma_inner_symmetric(k, h, lo, hi);
    lemma_inner_symmetric(f, h, lo, hi);
    lemma_inner_symmetric(k, e, lo, hi);
    lemma_inner_symmetric(f, e, lo, hi);
}

/// What a reflection does to a dot product: for `h = y - c * w` and `k = z - d * w`,
/// `h . k = y . z - d * (y . w) - c * (w . z) + c * d * |w|^2`.
pub proof fn lemma_inner_moved(
    h: Seq<real>,
    y: Seq<real>,
    c: real,
    k: Seq<real>,
    z: Seq<real>,
    d: real,
    w: Seq<real>,
    lo: int,
    hi: int,
)
    requires
        forall|i: int| lo <= i < hi ==> #[trigger] h[i] == y[i] + (-c) * w[i],
        forall|i: int| lo <= i < hi ==> #[trigger] k[i] == z[i] + (-d) * w[i],
    ensures
        inner(h, k, lo, hi) == inner(y, z, lo, hi) - d * inner(w, y, lo, hi) - c * inner(
            w,
            z,
            lo,
            hi,
        ) + c * (d * inner(w, w, lo, hi)),
{
    lemma_inner_linear(h, y, -c, w, k, lo, hi);
    lemma_inner_symmetric(y, k, lo, hi);
    lemma_inner_symmetric(w, k, lo, hi);
    lemma_inner_linear(k, z, -d, w, y, lo, hi);
    lemma_inner_linear(k, z, -d, w, w, lo, hi);
    lemma_inner_symmetric(z, y, lo, hi);
    lemma_inner_symmetric(z, w, lo, hi);
    let (wy, wz, ww) = (inner(w, y, lo, hi), inner(w, z, lo, hi), inner(w, w, lo, hi));
    let q = inner(k, w, lo, hi);
    assert((-d) * wy == -(d * wy)) by (nonlinear_arith);
    assert((-c) * q == -(c * wz) + c * (d * ww)) by (nonlinear_arith)
        requires
            q == wz + (-d) * ww,
    ;
}

/// The square of a sum is at most twice the sum of the squares.
pub proof fn lemma_square_of_sum(a: real, b: real)
    ensures
        (a + b) * (a + b) <= (2 as real) * (a * a + b * b),
{
    assert((a - b) * (a - b) >= 0 as real) by (nonlinear_arith);
    assert((a + b) * (a + b) + (a - b) * (a - b) == (2 as real) * (a * a + b * b))
        by (nonlinear_arith);
}

/// The dot product of the magnitudes: `(|x| . |y|)^2 <= |x|^2 * |y|^2`.
pub proof fn lemma_cauchy_absolute(x: Seq<real>, y: Seq<real>, lo: int, hi: int)
    requires
        0 <= lo,
        hi <= x.len(),
        hi <= y.len(),
    ensures
        ({
            let s = sum(|i: int| absolute(x[i]) * absolute(y[i]), lo, hi);
            &&& s >= 0 as real
            &&& s * s <= inner(x, x, lo, hi) * inner(y, y, lo, hi)
        }),
{
    let u = Seq::new(x.len(), |i: int| absolute(x[i]));
    let v = Seq::new(y.len(), |i: int| absolute(y[i]));
    let s = sum(|i: int| absolute(x[i]) * absolute(y[i]), lo, hi);
    lemma_sum_congruent(
        |i: int| u[i] * v[i],
        |i: int| absolute(x[i]) * absolute(y[i]),
        lo,
        hi,
    );
    lemma_cauchy_schwarz(u, v, lo, hi);
    assert(inner(u, u, lo, hi) == inner(x, x, lo, hi)) by {
        let (f, g) = (|i: int| u[i] * u[i], |i: int| x[i] * x[i]);
        assert forall|i: int| lo <= i < hi implies #[trigger] f(i) == g(i) by {
            let (a, b) = (u[i], x[i]);
            assert(a * a == b * b) by (nonlinear_arith)
                requires
                    a == b || a == -b,
            ;
        }
        lemma_sum_congruent(f, g, lo, hi);
    }
    assert(inner(v, v, lo, hi) == inner(y, y, lo, hi)) by {
        let (f, g) = (|i: int| v[i] * v[i], |i: int| y[i] * y[i]);
        assert forall|i: int| lo <= i < hi implies #[trigger] f(i) == g(i) by {
            let (a, b) = (v[i], y[i]);
            assert(a * a == b * b) by (nonlinear_arith)
                requires
                    a == b || a == -b,
            ;
        }
        lemma_sum_congruent(f, g, lo, hi);
    }
    let f = |i: int| absolute(x[i]) * absolute(y[i]);
    assert forall|i: int| lo <= i < hi implies #[trigger] f(i) >= 0 as real by {
        let (a, b) = (absolute(x[i]), absolute(y[i]));
        assert(a * b >= 0 as real) by (nonlinear_arith)
            requires
                a >= 0 as real,
                b >= 0 as real,
        ;
    }
    lemma_sum_nonnegative(f, lo, hi);
}

} // verus!
