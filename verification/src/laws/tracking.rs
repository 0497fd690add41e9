//! The norms by which the pivots are chosen, where the arithmetic is rounded.
use vstd::prelude::*;
use crate::laws::accumulation::lemma_reduced_wf;
use crate::laws::backward::lemma_near_quotient;
use crate::laws::factorization::lemma_column_norms_kept;
use crate::laws::reduction::{law_norm_rounded, lemma_approx_positive, lemma_root_squared, small};
use crate::laws::rotation::lemma_weaken_twenty;
use crate::laws::rounding::{
    approx, dot_steps, gamma, law_norm_squared_rounded, lemma_absolute_product, lemma_approx_bound,
    lemma_approx_chain, lemma_approx_product, lemma_approx_round, lemma_approx_same,
    lemma_approx_weaken, lemma_growth, lemma_square,
};
use crate::laws::stability::step_error;
use crate::laws::sums::lemma_sum_congruent;
use crate::laws::vectors::{inner, lemma_inner_nonnegative, values};
use crate::matrix::has_rows;
use crate::permutation::exchange;
use crate::qr::{
    downdate_spec, factorization, least_squares, pivot, reduce, reduced, twentieth, Factorization,
};
use crate::scalar::{absolute, near, rounded, Arithmetic};
use crate::vector::{argmax_spec, norm_spec, norm_squared_spec};

verus! {

/// What is left of a square `l2` without `x2` is not negative, as long as `x2` is not too close to it.
proof fn lemma_rest_positive(h: real, l2: real, x2: real, sq: real, v: real)
    requires
        small(h),
        l2 > 0 as real,
        x2 >= 0 as real,
        x2 <= (1 as real - (2 as real) * h) * l2,
        absolute(l2 * sq - x2) <= h * x2,
        absolute(v - (1 as real - sq)) <= h * absolute(1 as real - sq),
    ensures
        v >= 0 as real,
        absolute(l2 * v - (l2 - x2)) <= (2 as real) * (h * l2),
{
    let (hl, hx, s) = (h * l2, h * x2, l2 * sq);
    assert(hl >= 0 as real && (1 as real - (2 as real) * h) * l2 == l2 - (2 as real) * hl)
        by (nonlinear_arith)
        requires
            hl == h * l2,
            h >= 0 as real,
            l2 > 0 as real,
    ;
    assert((0 as real) <= hx <= hl) by (nonlinear_arith)
        requires
            hx == h * x2,
            hl == h * l2,
            (0 as real) <= x2 <= l2,
            h >= 0 as real,
    ;
    let r = 1 as real - sq;
    let lr = l2 * r;
    assert(lr == l2 - s) by (nonlinear_arith)
        requires
            lr == l2 * r,
            r == 1 as real - sq,
            s == l2 * sq,
    ;
    assert(r >= 0 as real) by (nonlinear_arith)
        requires
            lr == l2 * r,
            lr >= 0 as real,
            l2 > 0 as real,
    ;
    let hr = h * r;
    assert(hr <= r) by (nonlinear_arith)
        requires
            hr == h * r,
            r >= 0 as real,
            (100 as real) * h <= 1 as real,
    ;
    // l2 * v
    let w = l2 * v;
    let d = v - r;
    assert(w == lr + l2 * d) by (nonlinear_arith)
        requires
            w == l2 * v,
            d == v - r,
            lr == l2 * r,
    ;
    let ld = l2 * d;
    assert(ld <= l2 * hr && -ld <= l2 * hr) by (nonlinear_arith)
        requires
            ld == l2 * d,
            d <= hr,
            -d <= hr,
            l2 > 0 as real,
    ;
    assert(l2 * hr == h * lr) by (nonlinear_arith)
        requires
            hr == h * r,
            lr == l2 * r,
    ;
    assert(s >= 0 as real) by {
        assert(hx <= x2) by (nonlinear_arith)
            requires
                hx == h * x2,
                x2 >= 0 as real,
                (100 as real) * h <= 1 as real,
        ;
    }
    assert(h * lr <= hl) by (nonlinear_arith)
        requires
            lr <= l2,
            hl == h * l2,
            h >= 0 as real,
    ;
}

/// The constants for the square of what is left.
proof fn lemma_rest_constant(h: real, l2: real, x2: real, v: real, qq: real, rr: real)
    requires
        small(h),
        l2 > 0 as real,
        (0 as real) <= x2 <= l2,
        v >= 0 as real,
        absolute(l2 * v - (l2 - x2)) <= (2 as real) * (h * l2),
        absolute(qq - v) <= h * v,
        absolute(rr - l2 * qq) <= h * (l2 * qq),
    ensures
        absolute(rr - (l2 - x2)) <= (5 as real) * (h * l2),
{
    let (hl, w, q) = (h * l2, l2 * v, l2 * qq);
    assert((100 as real) * hl <= l2) by (nonlinear_arith)
        requires
            hl == h * l2,
            l2 > 0 as real,
            (100 as real) * h <= 1 as real,
    ;
    let d = qq - v;
    let hv = h * v;
    let ld = l2 * d;
    assert(q == w + ld) by (nonlinear_arith)
        requires
            q == l2 * qq,
            w == l2 * v,
            d == qq - v,
            ld == l2 * d,
    ;
    assert(ld <= l2 * hv && -ld <= l2 * hv) by (nonlinear_arith)
        requires
            ld == l2 * d,
            d <= hv,
            -d <= hv,
            l2 > 0 as real,
    ;
    let hw = h * w;
    assert(l2 * hv == hw) by (nonlinear_arith)
        requires
            hv == h * v,
            w == l2 * v,
            hw == h * w,
    ;
    assert((100 as real) * w <= (102 as real) * l2);
    assert((100 as real) * hw <= (102 as real) * hl) by (nonlinear_arith)
        requires
            hw == h * w,
            hl == h * l2,
            (100 as real) * w <= (102 as real) * l2,
            h >= 0 as real,
    ;
    assert((100 as real) * q <= (104 as real) * l2);
    let hq = h * q;
    assert((100 as real) * hq <= (104 as real) * hl) by (nonlinear_arith)
        requires
            hq == h * q,
            hl == h * l2,
            (100 as real) * q <= (104 as real) * l2,
            h >= 0 as real,
    ;
    assert(hl >= 0 as real) by (nonlinear_arith)
        requires
            hl == h * l2,
            h >= 0 as real,
            l2 > 0 as real,
    ;
}

/// The square of a share of a length.
proof fn lemma_share<F: Arithmetic>(val: spec_fn(F) -> real, u: real, a: F, b: F)
    requires
        rounded(val, u),
        val(b) != 0 as real,
    ensures
        ({
            let h = gamma(u, 20);
            let t = a.over(b);
            let (x2, l2) = (val(a) * val(a), val(b) * val(b));
            &&& absolute(l2 * (val(t) * val(t)) - x2) <= h * x2
            &&& approx(u, 3, l2 * val(t.times(t)), x2, x2)
            &&& absolute(l2 * val(t.times(t)) - x2) <= h * x2
            &&& l2 > 0 as real
            &&& x2 >= 0 as real
        }),
{
    let h = gamma(u, 20);
    let tf = a.over(b);
    let (x, l, t, sq) = (val(a), val(b), val(tf), val(tf.times(tf)));
    let (x2, l2, t2) = (x * x, l * l, t * t);
    lemma_square(x);
    lemma_square(l);
    lemma_square(t);
    assert(l2 > 0 as real) by (nonlinear_arith)
        requires
            l2 == l * l,
            l != 0 as real,
    ;
    lemma_near_quotient(u, t, x, l);
    let tl = l * t;
    lemma_approx_same(u, 0, x);
    lemma_approx_round(u, 0, tl, x, x, absolute(x));
    lemma_approx_product(u, 1, 1, tl, x, absolute(x), tl, x, absolute(x));
    let p = l2 * t2;
    assert(tl * tl == p) by (nonlinear_arith)
        requires
            tl == l * t,
            p == l2 * t2,
            l2 == l * l,
            t2 == t * t,
    ;
    lemma_approx_bound(u, 2, p, x2, x2);
    lemma_square(tl);
    lemma_approx_same(u, 0, t2);
    lemma_approx_round(u, 0, sq, t2, t2, t2);
    lemma_approx_same(u, 0, l2);
    lemma_approx_product(u, 0, 1, l2, l2, l2, sq, t2, t2);
    lemma_approx_chain(u, 1, 2, l2 * sq, p, p, x2, x2);
    lemma_weaken_twenty(u, 3, l2 * sq, x2, x2);
    lemma_weaken_twenty(u, 2, p, x2, x2);
    reveal(approx);
}

/// The length that is left after entry `x` is taken away from `l`.
proof fn lemma_rest<F: Arithmetic>(val: spec_fn(F) -> real, u: real, a: F, b: F)
    requires
        rounded(val, u),
        small(gamma(u, 20)),
        val(b) != 0 as real,
        val(a) * val(a) < (1 as real - (2 as real) * gamma(u, 20)) * (val(b) * val(b)),
    ensures
        ({
            let h = gamma(u, 20);
            let t = a.over(b);
            let rest = val(b.times(F::one_spec().minus(t.times(t)).root()));
            let (x2, l2) = (val(a) * val(a), val(b) * val(b));
            &&& absolute(rest * rest - (l2 - x2)) <= (5 as real) * (h * l2)
            &&& val(b) >= 0 as real ==> rest >= 0 as real
            &&& t.magnitude().below(F::one_spec())
        }),
{
    let h = gamma(u, 20);
    let one = F::one_spec();
    let tf = a.over(b);
    let under = one.minus(tf.times(tf));
    let rootf = under.root();
    let (x, l, t, sq, v, q) = (
        val(a),
        val(b),
        val(tf),
        val(tf.times(tf)),
        val(under),
        val(rootf),
    );
    let rest = val(b.times(rootf));
    let (x2, l2, t2) = (x * x, l * l, t * t);
    lemma_share(val, u, a, b);
    let r = 1 as real - sq;
    lemma_approx_same(u, 0, r);
    lemma_approx_round(u, 0, v, r, r, absolute(r));
    lemma_weaken_twenty(u, 1, v, r, absolute(r));
    assert(absolute(v - r) <= h * absolute(r)) by {
        reveal(approx);
    }
    lemma_rest_positive(h, l2, x2, sq, v);
    lemma_root_squared(u, v, q);
    lemma_weaken_twenty(u, 2, q * q, v, v);
    let lq = l * q;
    lemma_approx_same(u, 0, lq);
    lemma_approx_round(u, 0, rest, lq, lq, absolute(lq));
    lemma_approx_product(u, 1, 1, rest, lq, absolute(lq), rest, lq, absolute(lq));
    lemma_square(lq);
    let qq = q * q;
    assert(lq * lq == l2 * qq) by (nonlinear_arith)
        requires
            lq == l * q,
            l2 == l * l,
            qq == q * q,
    ;
    lemma_weaken_twenty(u, 2, rest * rest, l2 * qq, l2 * qq);
    assert(absolute(qq - v) <= h * v && absolute(rest * rest - l2 * qq) <= h * (l2 * qq)) by {
        reveal(approx);
    }
    let hl = h * l2;
    assert(hl >= 0 as real && (1 as real - (2 as real) * h) * l2 == l2 - (2 as real) * hl)
        by (nonlinear_arith)
        requires
            hl == h * l2,
            h >= 0 as real,
            l2 > 0 as real,
    ;
    lemma_rest_constant(h, l2, x2, v, qq, rest * rest);
    if l >= 0 as real {
        assert(lq >= 0 as real) by (nonlinear_arith)
            requires
                lq == l * q,
                l >= 0 as real,
                q >= 0 as real,
        ;
        reveal(near);
        assert(u * lq <= lq) by (nonlinear_arith)
            requires
                u < 1 as real,
                lq >= 0 as real,
        ;
    }
    // the share is below one
    let hx = h * x2;
    assert(hx <= hl) by (nonlinear_arith)
        requires
            hx == h * x2,
            hl == h * l2,
            x2 <= l2,
            h >= 0 as real,
    ;
    let p = l2 * t2;
    assert(p < l2 - hl);
    let at = absolute(t);
    lemma_square(t);
    if at >= 1 as real {
        assert(t2 >= 1 as real) by (nonlinear_arith)
            requires
                t2 == at * at,
                at >= 1 as real,
        ;
        assert(p >= l2) by (nonlinear_arith)
            requires
                p == l2 * t2,
                t2 >= 1 as real,
                l2 > 0 as real,
        ;
        assert(false);
    }
}

/// The ratio of the lengths `r` and `c`, squared and divided by twenty.
proof fn lemma_ratio<F: Arithmetic>(val: spec_fn(F) -> real, u: real, r: F, c: F)
    requires
        rounded(val, u),
        small(gamma(u, 20)),
        val(c) != 0 as real,
        val(F::of_u32(20)) == 20 as real,
    ensures
        ({
            let h = gamma(u, 20);
            let q = r.over(c);
            let g = val(twentieth::<F>().times(q.times(q)));
            let (r2, c2) = (val(r) * val(r), val(c) * val(c));
            &&& absolute((20 as real) * (c2 * g) - r2) <= h * r2
            &&& c2 > 0 as real
            &&& r2 >= 0 as real
            &&& r2 > 0 as real ==> val(q) != 0 as real
        }),
{
    let h = gamma(u, 20);
    let qf = r.over(c);
    let tw = twentieth::<F>();
    let (s, w) = (val(qf.times(qf)), val(tw));
    let g = val(tw.times(qf.times(qf)));
    let (r2, c2) = (val(r) * val(r), val(c) * val(c));
    let q = val(qf);
    lemma_share(val, u, r, c);
    lemma_near_quotient(u, w, 1 as real, 20 as real);
    let o = 1 as real;
    let w20 = (20 as real) * w;
    lemma_approx_same(u, 0, o);
    lemma_approx_round(u, 0, w20, o, o, o);
    let k = c2 * s;
    lemma_approx_product(u, 1, 3, w20, o, o, k, r2, r2);
    assert(o * r2 == r2) by (nonlinear_arith)
        requires
            o == 1 as real,
    ;
    let z = w20 * k;
    lemma_approx_bound(u, 4, z, r2, r2);
    // the last product
    let ws = w * s;
    lemma_approx_same(u, 0, ws);
    lemma_approx_round(u, 0, g, ws, ws, absolute(ws));
    let c20 = (20 as real) * c2;
    lemma_approx_same(u, 0, c20);
    lemma_approx_product(u, 0, 1, c20, c20, c20, g, ws, absolute(ws));
    assert(c20 * ws == z) by (nonlinear_arith)
        requires
            c20 == (20 as real) * c2,
            ws == w * s,
            z == w20 * k,
            w20 == (20 as real) * w,
            k == c2 * s,
    {
        assert(w20 * k == (20 as real) * (w * (c2 * s)));
        assert(c20 * ws == (20 as real) * (c2 * (w * s)));
        assert(w * (c2 * s) == c2 * (w * s));
    }
    lemma_absolute_product(c20, ws);
    lemma_approx_chain(u, 1, 4, c20 * g, z, absolute(z), r2, r2);
    lemma_weaken_twenty(u, 5, c20 * g, r2, r2);
    assert(c20 * g == (20 as real) * (c2 * g)) by (nonlinear_arith)
        requires
            c20 == (20 as real) * c2,
    ;
    assert(absolute(c20 * g - r2) <= h * r2) by {
        reveal(approx);
    }
    if q == 0 as real && r2 > 0 as real {
        assert(c2 * (q * q) == 0 as real) by (nonlinear_arith)
            requires
                q == 0 as real,
        ;
        assert(h * r2 < r2) by (nonlinear_arith)
            requires
                (100 as real) * h <= 1 as real,
                r2 > 0 as real,
        ;
        assert(false);
    }
}

/// Whether `length` is the norm of the rows `j`, ... of `column`, up to rounding.
pub open spec fn nearly_length<F: Arithmetic>(
    val: spec_fn(F) -> real,
    u: real,
    column: Seq<F>,
    j: int,
    length: F,
) -> bool {
    let m = column.len() as int;
    let nn = inner(values(val, column), values(val, column), j, m);
    &&& val(length) >= 0 as real
    &&& absolute(val(length) * val(length) - nn) <= step_error(u, m) * nn
}

/// Whether the norm `rest`, with the reference `next`, is what should come of the norm `length` of the rows
/// `j`, ... of `column`, with the reference `last`, when row `j` is left out. Up to rounding:
///
/// - Either the norm is computed anew from the entries, and becomes the reference. Or the reference stays,
///   the square of the norm is that of `length` less that of entry `j`, and it is more than twenty times
///   epsilon times the square of the reference.
/// - The norm is computed anew where entry `j` is not less than `length`.
/// - It is computed anew where the difference of the squares is at most twenty times epsilon times the
///   square of the reference, and only then.
pub open spec fn nearly_downdated<F: Arithmetic>(
    val: spec_fn(F) -> real,
    u: real,
    column: Seq<F>,
    j: int,
    length: F,
    last: F,
    rest: F,
    next: F,
) -> bool {
    let h = gamma(u, 20);
    let (x, l, r, c) = (val(column[j]), val(length), val(rest), val(last));
    let hl = h * (l * l);
    let bound = (20 as real) * ((c * c) * val(F::epsilon_spec()));
    let anew = rest == next && nearly_length(val, u, column, j + 1, rest);
    let kept = {
        &&& next == last
        &&& bound < (1 as real + h) * (r * r)
        &&& x * x < l * l - (2 as real) * hl ==> {
            &&& absolute(r * r - (l * l - x * x)) <= (5 as real) * hl
            &&& l >= 0 as real ==> r >= 0 as real
        }
    };
    &&& anew || kept
    &&& x * x > l * l + (2 as real) * hl ==> anew
    &&& x * x < l * l - (2 as real) * hl && (1 as real + h) * (l * l - x * x + (5 as real) * hl)
        <= bound ==> anew
    &&& x * x < l * l - (2 as real) * hl && (1 as real - h) * (l * l - x * x - (5 as real) * hl)
        > bound ==> kept
}

/// A norm is brought up to date as it should, up to rounding.
pub proof fn law_downdate_rounded<F: Arithmetic>(
    val: spec_fn(F) -> real,
    u: real,
    column: Seq<F>,
    j: int,
    length: F,
    reference: F,
)
    requires
        rounded(val, u),
        0 <= j < column.len(),
        small(step_error(u, column.len() as int)),
        val(F::of_u32(20)) == 20 as real,
        val(F::epsilon_spec()) >= 0 as real,
        val(length) != 0 as real,
        val(reference) != 0 as real,
    ensures
        ({
            let (rest, next) = downdate_spec(column, j, length, reference);
            nearly_downdated(val, u, column, j, length, reference, rest, next)
        }),
{
    let m = column.len() as int;
    let (restf, next) = downdate_spec(column, j, length, reference);
    let h = gamma(u, 20);
    lemma_growth(u, 20, m as nat);
    let (x, l, c, e) = (val(column[j]), val(length), val(reference), val(F::epsilon_spec()));
    let (x2, l2, c2) = (x * x, l * l, c * c);
    let hl = h * l2;
    law_norm_rounded(val, u, column, j + 1);
    let anewf = norm_spec(column, j + 1, m);
    assert(nearly_length(val, u, column, j + 1, anewf));
    let share = column[j].over(length);
    let partial = share.magnitude().below(F::one_spec());
    lemma_share(val, u, column[j], length);
    assert((1 as real - (2 as real) * h) * l2 == l2 - (2 as real) * hl) by (nonlinear_arith)
        requires
            hl == h * l2,
    ;
    if x2 < l2 - (2 as real) * hl {
        lemma_rest(val, u, column[j], length);
    }
    if partial {
        let r = length.times(F::one_spec().minus(share.times(share)).root());
        let ratio = r.over(reference);
        let g = val(twentieth::<F>().times(ratio.times(ratio)));
        let r2 = val(r) * val(r);
        lemma_ratio(val, u, r, reference);
        let (cg, ce, hr) = (c2 * g, c2 * e, h * r2);
        assert((1 as real + h) * r2 == r2 + hr && (1 as real - h) * r2 == r2 - hr)
            by (nonlinear_arith)
            requires
                hr == h * r2,
        ;
        assert(ce >= 0 as real) by (nonlinear_arith)
            requires
                ce == c2 * e,
                c2 > 0 as real,
                e >= 0 as real,
        ;
        let b = (20 as real) * ce;
        if g <= e {
            assert(cg <= ce) by (nonlinear_arith)
                requires
                    cg == c2 * g,
                    ce == c2 * e,
                    g <= e,
                    c2 > 0 as real,
            ;
            assert((1 as real - h) * r2 <= b);
        } else {
            assert(cg > ce) by (nonlinear_arith)
                requires
                    cg == c2 * g,
                    ce == c2 * e,
                    g > e,
                    c2 > 0 as real,
            ;
            assert((1 as real + h) * r2 > b);
        }
        if x2 < l2 - (2 as real) * hl {
            let d = l2 - x2;
            let (up, down) = (d + (5 as real) * hl, d - (5 as real) * hl);
            assert((1 as real + h) * r2 <= (1 as real + h) * up && (1 as real - h) * down <= (
            1 as real - h) * r2) by (nonlinear_arith)
                requires
                    r2 <= up,
                    down <= r2,
                    (0 as real) <= h,
                    (100 as real) * h <= 1 as real,
            ;
        }
        if val(ratio) == 0 as real {
            assert(r2 == 0 as real);
            assert((1 as real - h) * r2 <= b) by {
                assert((1 as real - h) * (0 as real) == 0 as real) by (nonlinear_arith);
            }
        }
        if x2 > l2 + (2 as real) * hl {
            // not partial
            let t = val(share);
            let (t2, at) = (t * t, absolute(t));
            lemma_square(t);
            let (p, hx) = (l2 * t2, h * x2);
            assert(t2 < 1 as real) by (nonlinear_arith)
                requires
                    t2 == at * at,
                    (0 as real) <= at < 1 as real,
            ;
            assert(p < l2) by (nonlinear_arith)
                requires
                    p == l2 * t2,
                    t2 < 1 as real,
                    l2 > 0 as real,
            ;
            let k = 1 as real - h;
            assert(k * x2 == x2 - hx && k * (l2 + (2 as real) * hl) == l2 + hl - (2 as real) * (h
                * hl)) by (nonlinear_arith)
                requires
                    k == 1 as real - h,
                    hx == h * x2,
                    hl == h * l2,
            ;
            assert(k * x2 >= k * (l2 + (2 as real) * hl)) by (nonlinear_arith)
                requires
                    k >= 0 as real,
                    x2 >= l2 + (2 as real) * hl,
            ;
            assert(hl >= 0 as real && (100 as real) * (h * hl) <= hl) by (nonlinear_arith)
                requires
                    hl == h * l2,
                    l2 > 0 as real,
                    h >= 0 as real,
                    (100 as real) * h <= 1 as real,
            ;
            assert(false);
        }
    } else {
        assert(F::zero_spec().magnitude().vanishes());
    }
}

/// Whether entry `k` is the first of the largest of the entries `lo`, ..., `hi - 1`.
pub open spec fn is_first_largest(v: Seq<real>, lo: int, hi: int, k: int) -> bool {
    &&& lo <= k < hi
    &&& forall|i: int| lo <= i < hi ==> #[trigger] v[i] <= v[k]
    &&& forall|i: int| lo <= i < k ==> #[trigger] v[i] < v[k]
}

/// The first of the largest entries is chosen.
proof fn lemma_first_largest<F: Arithmetic>(
    val: spec_fn(F) -> real,
    u: real,
    v: Seq<F>,
    lo: int,
    hi: int,
)
    requires
        rounded(val, u),
        0 <= lo < hi <= v.len(),
    ensures
        is_first_largest(values(val, v), lo, hi, argmax_spec(v, lo, hi)),
    decreases hi - lo,
{
    if hi > lo + 1 {
        lemma_first_largest(val, u, v, lo, hi - 1);
        let best = argmax_spec(v, lo, hi - 1);
        let w = values(val, v);
        assert(w[best] == val(v[best]) && w[hi - 1] == val(v[hi - 1]));
    }
}

/// Whether `t` follows from `s` when column `k` is brought to position `j` and reduced: the columns change
/// their order, the diagonal entry of `R` is the norm of what is left of the column, with the sign that is
/// not that of its first entry, and the norms and references of the columns after `j` are brought up to
/// date.
pub open spec fn nearly_follows<F: Arithmetic>(
    val: spec_fn(F) -> real,
    u: real,
    s: Factorization<F>,
    t: Factorization<F>,
    j: int,
    k: int,
) -> bool {
    let n = s.columns.len() as int;
    let x = values(val, s.columns[k]);
    let lengths = s.r_diag.update(k, s.r_diag[j]);
    let references = s.work.update(k, s.work[j]);
    let nn = inner(x, x, j, x.len() as int);
    let r = val(t.r_diag[j]);
    &&& t.permutation == exchange(s.permutation, j, k)
    &&& absolute(r * r - nn) <= step_error(u, x.len() as int) * nn
    &&& nn != 0 as real ==> if s.columns[k][j].has_minus_sign() {
        r > 0 as real
    } else {
        r < 0 as real
    }
    &&& forall|i: int|
        j < i < n ==> if nn == 0 as real || val(#[trigger] lengths[i]) == 0 as real {
            t.r_diag[i] == lengths[i] && t.work[i] == references[i]
        } else {
            nearly_downdated(
                val,
                u,
                t.columns[i],
                j,
                lengths[i],
                references[i],
                t.r_diag[i],
                t.work[i],
            )
        }
}

/// Where the reference for a norm is zero, the norm is zero.
spec fn referenced<F>(val: spec_fn(F) -> real, s: Factorization<F>, j: int) -> bool {
    forall|k: int|
        j <= k < s.columns.len() && val(#[trigger] s.r_diag[k]) != 0 as real ==> val(s.work[k])
            != 0 as real
}

/// Pivoting and reducing keep the references.
proof fn lemma_referenced<F: Arithmetic>(
    val: spec_fn(F) -> real,
    u: real,
    s: Factorization<F>,
    m: int,
    j: int,
)
    requires
        rounded(val, u),
        s.wf(m),
        0 <= j < s.columns.len(),
        referenced(val, s, j),
    ensures
        referenced(val, pivot(s, j), j),
        referenced(val, reduce(pivot(s, j), j), j + 1),
{
    let n = s.columns.len() as int;
    let p = pivot(s, j);
    let t = reduce(p, j);
    lemma_first_largest(val, u, s.r_diag, j, n);
    assert(val(s.r_diag[j]) != 0 as real ==> val(s.work[j]) != 0 as real);
    assert forall|k: int|
        j <= k < n && val(#[trigger] p.r_diag[k]) != 0 as real implies val(p.work[k])
        != 0 as real by {
        assert(val(s.r_diag[k]) != 0 as real ==> val(s.work[k]) != 0 as real);
    }
    assert forall|k: int|
        j + 1 <= k < n && val(#[trigger] t.r_diag[k]) != 0 as real implies val(t.work[k])
        != 0 as real by {
        assert(val(p.r_diag[k]) != 0 as real ==> val(p.work[k]) != 0 as real);
    }
}

/// The references after `j` columns are reduced.
proof fn lemma_reduced_referenced<F: Arithmetic>(
    val: spec_fn(F) -> real,
    u: real,
    a: Seq<Seq<F>>,
    m: int,
    j: int,
)
    requires
        rounded(val, u),
        0 <= j <= a.len() <= m <= usize::MAX,
        has_rows(a, m),
        small(step_error(u, m)),
    ensures
        reduced(a, j).wf(m),
        reduced(a, j).columns.len() == a.len(),
        referenced(val, reduced(a, j), j),
    decreases j,
{
    lemma_reduced_wf(val, u, a, m, j);
    if j > 0 {
        lemma_reduced_referenced(val, u, a, m, j - 1);
        lemma_referenced(val, u, reduced(a, j - 1), m, j - 1);
    }
}

/// Each step of the factorization takes the first of the columns with the largest of the norms that are
/// kept, and brings the other norms up to date, up to rounding.
pub proof fn law_pivots_rounded<F: Arithmetic>(
    val: spec_fn(F) -> real,
    u: real,
    a: Seq<Seq<F>>,
    m: int,
    j: int,
)
    requires
        rounded(val, u),
        0 <= j < a.len() <= m <= usize::MAX,
        has_rows(a, m),
        small(step_error(u, m)),
        val(F::of_u32(20)) == 20 as real,
        val(F::epsilon_spec()) >= 0 as real,
    ensures
        exists|k: int|
            is_first_largest(values(val, reduced(a, j).r_diag), j, a.len() as int, k)
                && #[trigger] nearly_follows(val, u, reduced(a, j), reduced(a, j + 1), j, k),
{
    let n = a.len() as int;
    let s = reduced(a, j);
    let p = pivot(s, j);
    let t = reduced(a, j + 1);
    lemma_reduced_referenced(val, u, a, m, j);
    lemma_reduced_referenced(val, u, a, m, j + 1);
    lemma_first_largest(val, u, s.r_diag, j, n);
    lemma_referenced(val, u, s, m, j);
    let k = argmax_spec(s.r_diag, j, n);
    let xf = p.columns[j];
    assert(xf == s.columns[k] && xf.len() == m);
    let x = values(val, xf);
    let nn = inner(x, x, j, m);
    law_norm_rounded(val, u, xf, j);
    let l = val(norm_spec(xf, j, m));
    lemma_inner_nonnegative(x, j, m);
    let h = step_error(u, m);
    let ln = l * l;
    assert(nn == 0 as real <==> l == 0 as real) by {
        let hn = h * nn;
        assert((0 as real) <= (100 as real) * hn <= nn) by (nonlinear_arith)
            requires
                hn == h * nn,
                nn >= 0 as real,
                h >= 0 as real,
                (100 as real) * h <= 1 as real,
        ;
        assert(l == 0 as real <==> ln == 0 as real) by (nonlinear_arith)
            requires
                ln == l * l,
        ;
    }
    let lengths = s.r_diag.update(k, s.r_diag[j]);
    let references = s.work.update(k, s.work[j]);
    assert(p.r_diag == lengths && p.work == references);
    assert forall|i: int| j < i < n implies if nn == 0 as real || val(#[trigger] lengths[i])
        == 0 as real {
        t.r_diag[i] == lengths[i] && t.work[i] == references[i]
    } else {
        nearly_downdated(
            val,
            u,
            t.columns[i],
            j,
            lengths[i],
            references[i],
            t.r_diag[i],
            t.work[i],
        )
    } by {
        assert(t.columns[i].len() == m);
        if nn != 0 as real && val(lengths[i]) != 0 as real {
            assert(val(p.r_diag[i]) != 0 as real);
            law_downdate_rounded(val, u, t.columns[i], j, lengths[i], references[i]);
        }
    }
    let r = val(t.r_diag[j]);
    assert(absolute(r * r - nn) <= h * nn) by {
        if nn == 0 as real {
            assert(r == 0 as real);
            assert(r * r == 0 as real && h * nn == 0 as real) by (nonlinear_arith)
                requires
                    r == 0 as real,
                    nn == 0 as real,
            ;
        } else {
            assert(r * r == ln) by (nonlinear_arith)
                requires
                    r == l || r == -l,
                    ln == l * l,
            ;
        }
    }
    assert(nearly_follows(val, u, s, t, j, k));
}

/// The norms with which the factorization starts, and those that the least squares problem holds, are those
/// of the columns of `A` up to rounding.
pub proof fn law_column_norms_rounded<F: Arithmetic>(
    val: spec_fn(F) -> real,
    u: real,
    a: Seq<Seq<F>>,
    b: Seq<F>,
    m: int,
    k: int,
)
    requires
        rounded(val, u),
        0 <= k < a.len() <= m <= usize::MAX,
        has_rows(a, m),
        small(step_error(u, m)),
    ensures
        nearly_length(val, u, a[k], 0, least_squares(factorization(a), b).column_norms[k]),
        nearly_length(val, u, a[k], 0, reduced(a, 0).r_diag[k]),
        reduced(a, 0).work[k] == reduced(a, 0).r_diag[k],
{
    lemma_column_norms_kept(a, a.len() as int);
    let x = values(val, a[k]);
    assert(a[k].len() == m);
    let d = norm_squared_spec(a[k]);
    let l = val(d.root());
    let nn = inner(x, x, 0, m);
    let (h, c) = (step_error(u, m), dot_steps(m));
    law_norm_squared_rounded(val, u, a[k]);
    lemma_sum_congruent(|i: int| val(a[k][i]) * val(a[k][i]), |i: int| x[i] * x[i], 0, m);
    lemma_inner_nonnegative(x, 0, m);
    lemma_approx_weaken(u, c, (m + 20) as nat, val(d), nn, nn, nn);
    lemma_approx_positive(u, (m + 20) as nat, val(d), nn, h);
    lemma_root_squared(u, val(d), l);
    lemma_approx_bound(u, c, val(d), nn, nn);
    lemma_approx_chain(u, 2, c, l * l, val(d), val(d), nn, nn);
    lemma_approx_weaken(u, 2 + c, (m + 20) as nat, l * l, nn, nn, nn);
    reveal(approx);
}

} // verus!
