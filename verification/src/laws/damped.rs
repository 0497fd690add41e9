//! The elimination of a diagonal matrix where the arithmetic is rounded.
use vstd::prelude::*;
use crate::cholesky::gather;
use crate::givens::{
    eliminate_entries, eliminate_entry, rotate_rows, rotate_spec, rotation_spec, with_row,
    Elimination,
};
use crate::laws::accumulation::{lemma_kept_constant, lemma_spread, spread};
use crate::laws::elimination::{fits, lemma_rotate_fits, lower_entry, row_entry};
use crate::laws::least_squares::{upper_entry, upper_gram};
use crate::laws::reduction::small;
use crate::laws::rotation::{law_rotation_rounded, lemma_combination_rounded, lemma_pairs_rotated};
use crate::laws::rounding::{gamma, lemma_square};
use crate::laws::solutions::{cholesky_entry, start};
use crate::laws::stability::step_error;
use crate::laws::sums::{lemma_sum_congruent, lemma_sum_nonnegative, lemma_sum_one_changed, sum};
use crate::laws::vectors::{inner, values};
use crate::lls::{diagonal_of, elimination, LeastSquares};
use crate::scalar::{absolute, rounded, Arithmetic};

verus! {

/// Entry `k` of row `p` of the lower triangular matrix, and of the right hand side where `p` is the number
/// of rows.
spec fn side<F>(val: spec_fn(F) -> real, s: Elimination<F>, j: int, p: int, k: int) -> real {
    if p < s.row.len() {
        lower_entry(val, s, j, p, k)
    } else {
        val(s.rhs[k])
    }
}

/// Entry `p` of the row that is eliminated, and its right hand side where `p` is the number of rows.
spec fn extra<F>(val: spec_fn(F) -> real, s: Elimination<F>, k: int, p: int) -> real {
    if p < s.row.len() {
        row_entry(val, s, k, p)
    } else {
        val(s.carry)
    }
}

/// The dot product of the rows `p` and `q`.
#[verifier::opaque]
spec fn joint<F>(val: spec_fn(F) -> real, s: Elimination<F>, j: int, p: int, q: int) -> real {
    sum(|k: int| side(val, s, j, p, k) * side(val, s, j, q, k), 0, s.row.len() as int)
}

/// The same together with the row that is eliminated.
#[verifier::opaque]
spec fn total<F>(
    val: spec_fn(F) -> real,
    s: Elimination<F>,
    j: int,
    k: int,
    p: int,
    q: int,
) -> real {
    joint(val, s, j, p, q) + extra(val, s, k, p) * extra(val, s, k, q)
}

/// What the rotation of row `k` does to the entries of row `p`.
proof fn lemma_side_rotated<F: Arithmetic>(
    val: spec_fn(F) -> real,
    u: real,
    s: Elimination<F>,
    j: int,
    k: int,
    n: int,
    p: int,
)
    requires
        rounded(val, u),
        small(gamma(u, 20)),
        fits(s, n),
        0 <= j <= k < n,
        0 <= p <= n,
        !s.row[k].vanishes(),
    ensures
        ({
            let h = gamma(u, 20);
            let t = rotate_spec(s, k);
            let (sf, cf) = rotation_spec(s.columns[k][k], s.row[k]);
            let (sin, cos) = (val(sf), val(cf));
            let e = side(val, s, j, p, k);
            let d = extra(val, s, k, p);
            &&& absolute(side(val, t, j, p, k) - (cos * e + sin * d)) <= (5 as real) * h * (
            absolute(e) + absolute(d))
            &&& absolute(extra(val, t, k + 1, p) - ((-sin) * e + cos * d)) <= (5 as real) * h * (
            absolute(e) + absolute(d))
            &&& forall|q: int|
                0 <= q < n && q != k ==> #[trigger] side(val, t, j, p, q) == side(val, s, j, p, q)
        }),
{
    let h = gamma(u, 20);
    let t = rotate_spec(s, k);
    let (sf, cf) = rotation_spec(s.columns[k][k], s.row[k]);
    assert(n <= s.columns[k].len());
    let (sin, cos) = (val(sf), val(cf));
    let e = side(val, s, j, p, k);
    let d = extra(val, s, k, p);
    law_rotation_rounded(val, u, s.columns[k][k], s.row[k]);
    assert(val(sf.negated()) == -sin);
    if p < k {
        assert(cos * (0 as real) + sin * (0 as real) == 0 as real) by (nonlinear_arith);
        assert((-sin) * (0 as real) + cos * (0 as real) == 0 as real) by (nonlinear_arith);
        let g = (5 as real) * h;
        assert(g * (0 as real) == 0 as real) by (nonlinear_arith);
    } else if p < n {
        lemma_combination_rounded(val, u, cf, s.columns[k][p], sf, s.row[p]);
        lemma_combination_rounded(val, u, sf.negated(), s.columns[k][p], cf, s.row[p]);
    } else {
        lemma_combination_rounded(val, u, cf, s.rhs[k], sf, s.carry);
        lemma_combination_rounded(val, u, sf.negated(), s.rhs[k], cf, s.carry);
    }
    assert forall|q: int| 0 <= q < n && q != k implies #[trigger] side(val, t, j, p, q) == side(
        val,
        s,
        j,
        p,
        q,
    ) by {
        assert(t.columns[q] == s.columns[q]);
    }
}

/// A row is at least as long as two of its entries.
proof fn lemma_two_entries<F: Arithmetic>(
    val: spec_fn(F) -> real,
    s: Elimination<F>,
    j: int,
    k: int,
    n: int,
    p: int,
)
    requires
        fits(s, n),
        0 <= k < n,
    ensures
        ({
            let (e, d) = (side(val, s, j, p, k), extra(val, s, k, p));
            e * e + d * d <= total(val, s, j, k, p, p)
        }),
{
    reveal(joint);
    reveal(total);
    let f = |i: int| side(val, s, j, p, i) * side(val, s, j, p, i);
    assert forall|i: int| 0 <= i < n implies #[trigger] f(i) >= 0 as real by {
        lemma_square(side(val, s, j, p, i));
    }
    lemma_sum_nonnegative(f, 0, n);
    assert(f(k) <= sum(f, 0, n));
}

/// The rotation of row `k` changes a dot product by no more than rounding.
proof fn lemma_total_rotated<F: Arithmetic>(
    val: spec_fn(F) -> real,
    u: real,
    s: Elimination<F>,
    j: int,
    k: int,
    n: int,
    p: int,
    q: int,
)
    requires
        rounded(val, u),
        small(gamma(u, 20)),
        fits(s, n),
        0 <= j <= k < n,
        0 <= p <= n,
        0 <= q <= n,
    ensures
        absolute(total(val, rotate_spec(s, k), j, k + 1, p, q) - total(val, s, j, k, p, q)) <= ((
        60 as real) * gamma(u, 20)) * (total(val, s, j, k, p, p) + total(val, s, j, k, q, q)),
{
    let t = rotate_spec(s, k);
    let c = (60 as real) * gamma(u, 20);
    lemma_two_entries(val, s, j, k, n, p);
    lemma_two_entries(val, s, j, k, n, q);
    let (a, b) = (side(val, s, j, p, k), extra(val, s, k, p));
    let (x, y) = (side(val, s, j, q, k), extra(val, s, k, q));
    lemma_square(a);
    lemma_square(b);
    lemma_square(x);
    lemma_square(y);
    let (w, z) = ((a * a + b * b) + (x * x + y * y), total(val, s, j, k, p, p) + total(
        val,
        s,
        j,
        k,
        q,
        q,
    ));
    assert((0 as real) <= c * w <= c * z) by (nonlinear_arith)
        requires
            c >= 0 as real,
            (0 as real) <= w <= z,
    ;
    if s.row[k].vanishes() {
        assert(val(s.row[k]) == 0 as real);
        assert(extra(val, t, k + 1, p) == extra(val, s, k, p));
        assert(extra(val, t, k + 1, q) == extra(val, s, k, q));
        reveal(total);
    } else {
        law_rotation_rounded(val, u, s.columns[k][k], s.row[k]);
        let (sf, cf) = rotation_spec(s.columns[k][k], s.row[k]);
        lemma_side_rotated(val, u, s, j, k, n, p);
        lemma_side_rotated(val, u, s, j, k, n, q);
        let (a2, b2) = (side(val, t, j, p, k), extra(val, t, k + 1, p));
        let (x2, y2) = (side(val, t, j, q, k), extra(val, t, k + 1, q));
        lemma_pairs_rotated(gamma(u, 20), val(sf), val(cf), a, b, a2, b2, x, y, x2, y2);
        assert(total(val, t, j, k + 1, p, q) - total(val, s, j, k, p, q) == (a2 * x2 + b2 * y2) - (a
            * x + b * y)) by {
            reveal(joint);
            reveal(total);
            let f = |i: int| side(val, s, j, p, i) * side(val, s, j, q, i);
            let g = |i: int| side(val, t, j, p, i) * side(val, t, j, q, i);
            lemma_sum_one_changed(f, g, 0, n, k);
            assert(f(k) == a * x && g(k) == a2 * x2);
        }
    }
}

/// Whether `g` is `g0` up to the error of `i` rotations, in relation to `x` and `y`.
#[verifier::opaque]
spec fn close(u: real, i: int, g: real, g0: real, x: real, y: real) -> bool {
    (2 as real) * absolute(g - g0) <= (spread(u, 0, i) - 1 as real) * (x + y)
}

/// Whether `g` is not greater than `x`, up to the error of `i` rotations.
#[verifier::opaque]
spec fn within(u: real, i: int, g: real, x: real) -> bool {
    g <= spread(u, 0, i) * x
}

/// One more rotation.
proof fn lemma_close_step(
    u: real,
    i: int,
    g: real,
    g0: real,
    g2: real,
    a: real,
    b: real,
    x: real,
    y: real,
)
    requires
        small(gamma(u, 20)),
        0 <= i,
        x >= 0 as real,
        y >= 0 as real,
        close(u, i, g, g0, x, y),
        within(u, i, a, x),
        within(u, i, b, y),
        absolute(g2 - g) <= ((60 as real) * gamma(u, 20)) * (a + b),
    ensures
        close(u, i + 1, g2, g0, x, y),
{
    reveal(close);
    reveal(within);
    lemma_spread(u, 0, i);
    lemma_kept_constant(
        gamma(u, 20),
        spread(u, 0, i),
        spread(u, 0, i + 1),
        g,
        g0,
        g2,
        a,
        b,
        x,
        y,
    );
}

/// One more rotation.
proof fn lemma_within_step(u: real, i: int, a: real, a2: real, x: real)
    requires
        small(gamma(u, 20)),
        0 <= i,
        within(u, i, a, x),
        absolute(a2 - a) <= ((60 as real) * gamma(u, 20)) * (a + a),
    ensures
        within(u, i + 1, a2, x),
{
    reveal(within);
    lemma_spread(u, 0, i);
    let (h, p, q) = (gamma(u, 20), spread(u, 0, i), spread(u, 0, i + 1));
    let g = 1 as real + (120 as real) * h;
    assert(a + ((60 as real) * h) * (a + a) == g * a) by (nonlinear_arith)
        requires
            g == 1 as real + (120 as real) * h,
    ;
    assert(g * a <= q * x) by (nonlinear_arith)
        requires
            a <= p * x,
            g >= 1 as real,
            q == g * p,
    {
        assert(g * a <= g * (p * x));
    }
}

/// More rotations.
proof fn lemma_close_later(u: real, i: int, l: int, g: real, g0: real, x: real, y: real)
    requires
        small(gamma(u, 20)),
        0 <= i <= l,
        x >= 0 as real,
        y >= 0 as real,
        close(u, i, g, g0, x, y),
    ensures
        close(u, l, g, g0, x, y),
{
    reveal(close);
    lemma_spread_grows(u, i, l);
    let (p, q, z) = (spread(u, 0, i), spread(u, 0, l), x + y);
    assert((p - 1 as real) * z <= (q - 1 as real) * z) by (nonlinear_arith)
        requires
            p <= q,
            z >= 0 as real,
    ;
}

/// More rotations.
proof fn lemma_within_later(u: real, i: int, l: int, g: real, x: real)
    requires
        small(gamma(u, 20)),
        0 <= i <= l,
        x >= 0 as real,
        within(u, i, g, x),
    ensures
        within(u, l, g, x),
{
    reveal(within);
    lemma_spread_grows(u, i, l);
    let (p, q) = (spread(u, 0, i), spread(u, 0, l));
    assert(p * x <= q * x) by (nonlinear_arith)
        requires
            p <= q,
            x >= 0 as real,
    ;
}

/// The factor does not decrease.
proof fn lemma_spread_grows(u: real, i: int, l: int)
    requires
        small(gamma(u, 20)),
        0 <= i <= l,
    ensures
        spread(u, 0, i) <= spread(u, 0, l),
    decreases l - i,
{
    if i < l {
        lemma_spread_grows(u, i, l - 1);
        lemma_spread(u, 0, l - 1);
        let (g, p) = (1 as real + (120 as real) * gamma(u, 20), spread(u, 0, l - 1));
        assert(g * p >= p) by (nonlinear_arith)
            requires
                g >= 1 as real,
                p >= 0 as real,
        ;
    }
}

/// Whether the dot products are `g0` up to the error of `i` rotations, in relation to `x`, while row `k` is
/// the next to be rotated.
spec fn preserved<F>(
    val: spec_fn(F) -> real,
    u: real,
    s: Elimination<F>,
    j: int,
    k: int,
    n: int,
    i: int,
    g0: spec_fn(int, int) -> real,
    x: spec_fn(int) -> real,
) -> bool {
    &&& forall|p: int, q: int|
        0 <= p < n && 0 <= q <= n ==> close(
            u,
            i,
            #[trigger] total(val, s, j, k, p, q),
            g0(p, q),
            x(p),
            x(q),
        )
    &&& forall|p: int|
        0 <= p <= n ==> within(u, i, #[trigger] total(val, s, j, k, p, p), x(p))
}

/// Rotating the rows from row `j` on changes the dot products by no more than rounding.
proof fn lemma_rows_rotated<F: Arithmetic>(
    val: spec_fn(F) -> real,
    u: real,
    s: Elimination<F>,
    j: int,
    k: int,
    n: int,
    i: int,
    g0: spec_fn(int, int) -> real,
    x: spec_fn(int) -> real,
)
    requires
        rounded(val, u),
        small(gamma(u, 20)),
        fits(s, n),
        0 <= j <= k <= n,
        0 <= i,
        forall|p: int| 0 <= p <= n ==> #[trigger] x(p) >= 0 as real,
        preserved(val, u, s, j, j, n, i, g0, x),
    ensures
        fits(rotate_rows(s, j, k), n),
        preserved(val, u, rotate_rows(s, j, k), j, k, n, i + k - j, g0, x),
    decreases k,
{
    if k > j {
        lemma_rows_rotated(val, u, s, j, k - 1, n, i, g0, x);
        let t = rotate_rows(s, j, k - 1);
        let r = rotate_rows(s, j, k);
        lemma_rotate_fits(t, k - 1, n);
        let l = i + k - 1 - j;
        assert forall|p: int, q: int| 0 <= p < n && 0 <= q <= n implies close(
            u,
            l + 1,
            #[trigger] total(val, r, j, k, p, q),
            g0(p, q),
            x(p),
            x(q),
        ) by {
            lemma_total_rotated(val, u, t, j, k - 1, n, p, q);
            lemma_close_step(
                u,
                l,
                total(val, t, j, k - 1, p, q),
                g0(p, q),
                total(val, r, j, k, p, q),
                total(val, t, j, k - 1, p, p),
                total(val, t, j, k - 1, q, q),
                x(p),
                x(q),
            );
        }
        assert forall|p: int| 0 <= p <= n implies within(
            u,
            l + 1,
            #[trigger] total(val, r, j, k, p, p),
            x(p),
        ) by {
            lemma_total_rotated(val, u, t, j, k - 1, n, p, p);
            lemma_within_step(
                u,
                l,
                total(val, t, j, k - 1, p, p),
                total(val, r, j, k, p, p),
                x(p),
            );
        }
    }
}

/// Whether the dot products are `g0` up to the error of `i` rotations, in relation to `x`, when the first
/// `j` entries of the diagonal matrix are eliminated.
spec fn settled<F>(
    val: spec_fn(F) -> real,
    u: real,
    s: Elimination<F>,
    j: int,
    n: int,
    i: int,
    g0: spec_fn(int, int) -> real,
    x: spec_fn(int) -> real,
) -> bool {
    &&& forall|p: int, q: int|
        0 <= p < n && 0 <= q <= n ==> close(
            u,
            i,
            #[trigger] joint(val, s, j, p, q),
            g0(p, q),
            x(p),
            x(q),
        )
    &&& forall|p: int| 0 <= p <= n ==> within(u, i, #[trigger] joint(val, s, j, p, p), x(p))
}

/// The square `d` that is added to `g` is within what was left.
proof fn lemma_within_added(u: real, i: int, g: real, g0: real, d: real, x: real)
    requires
        small(gamma(u, 20)),
        0 <= i,
        close(u, i, g, g0, x, x),
        g0 + d <= x,
    ensures
        within(u, i, g + d, x),
        close(u, i, g + d, g0 + d, x, x),
{
    reveal(close);
    reveal(within);
    lemma_spread(u, 0, i);
    let p = spread(u, 0, i);
    assert((p - 1 as real) * (x + x) == (2 as real) * (p * x) - (x + x)) by (nonlinear_arith);
}

/// Before the rotations for entry `j`, the row with that entry alone is taken in.
proof fn lemma_row_added<F: Arithmetic>(
    val: spec_fn(F) -> real,
    u: real,
    s: Elimination<F>,
    j: int,
    d: F,
    n: int,
    i: int,
    g0: spec_fn(int, int) -> real,
    g1: spec_fn(int, int) -> real,
    x: spec_fn(int) -> real,
)
    requires
        rounded(val, u),
        small(gamma(u, 20)),
        fits(s, n),
        0 <= j < n,
        0 <= i,
        settled(val, u, s, j, n, i, g0, x),
        forall|p: int, q: int|
            0 <= p < n && 0 <= q <= n && !(p == j && q == j) ==> #[trigger] g1(p, q) == g0(p, q),
        g1(j, j) == g0(j, j) + val(d) * val(d),
        g1(j, j) <= x(j),
    ensures
        preserved(val, u, with_row(s, j, d), j, j, n, i, g1, x),
{
    let r = with_row(s, j, d);
    let y = 0 as real;
    assert forall|p: int, q: int| 0 <= p <= n && 0 <= q <= n implies #[trigger] total(
        val,
        r,
        j,
        j,
        p,
        q,
    ) == joint(val, s, j, p, q) + if p == j && q == j {
        val(d) * val(d)
    } else {
        0 as real
    } by {
        reveal(joint);
        reveal(total);
        lemma_sum_congruent(
            |k: int| side(val, r, j, p, k) * side(val, r, j, q, k),
            |k: int| side(val, s, j, p, k) * side(val, s, j, q, k),
            0,
            n,
        );
        let (a, b) = (extra(val, r, j, p), extra(val, r, j, q));
        assert(p != j ==> a == y);
        assert(q != j ==> b == y);
        assert(a * y == y && y * b == y) by (nonlinear_arith)
            requires
                y == 0 as real,
        ;
    }
    lemma_within_added(u, i, joint(val, s, j, j, j), g0(j, j), val(d) * val(d), x(j));
}

/// Eliminating the entry `d` in position `j` adds its square to one dot product, up to rounding.
proof fn lemma_entry_eliminated<F: Arithmetic>(
    val: spec_fn(F) -> real,
    u: real,
    s: Elimination<F>,
    j: int,
    d: F,
    original: F,
    n: int,
    i: int,
    g0: spec_fn(int, int) -> real,
    g1: spec_fn(int, int) -> real,
    x: spec_fn(int) -> real,
)
    requires
        rounded(val, u),
        small(gamma(u, 20)),
        fits(s, n),
        0 <= j < n,
        0 <= i,
        settled(val, u, s, j, n, i, g0, x),
        forall|p: int| 0 <= p <= n ==> #[trigger] x(p) >= 0 as real,
        forall|p: int, q: int|
            0 <= p < n && 0 <= q <= n && !(p == j && q == j) ==> #[trigger] g1(p, q) == g0(p, q),
        g1(j, j) == g0(j, j) + val(d) * val(d),
        g1(j, j) <= x(j),
    ensures
        fits(eliminate_entry(s, j, d, original), n),
        settled(val, u, eliminate_entry(s, j, d, original), j + 1, n, i + n, g1, x),
{
    let r = with_row(s, j, d);
    let e = if d.vanishes() {
        s
    } else {
        rotate_rows(r, j, n)
    };
    let t = eliminate_entry(s, j, d, original);
    if d.vanishes() {
        let v = val(d);
        assert(v * v == 0 as real) by (nonlinear_arith)
            requires
                v == 0 as real,
        ;
        assert forall|p: int, q: int| 0 <= p < n && 0 <= q <= n implies close(
            u,
            i + n,
            #[trigger] joint(val, e, j, p, q),
            g1(p, q),
            x(p),
            x(q),
        ) by {
            lemma_close_later(u, i, i + n, joint(val, e, j, p, q), g1(p, q), x(p), x(q));
        }
        assert forall|p: int| 0 <= p <= n implies within(
            u,
            i + n,
            #[trigger] joint(val, e, j, p, p),
            x(p),
        ) by {
            lemma_within_later(u, i, i + n, joint(val, e, j, p, p), x(p));
        }
    } else {
        lemma_row_added(val, u, s, j, d, n, i, g0, g1, x);
        lemma_rows_rotated(val, u, r, j, n, n, i, g1, x);
        lemma_row_cleared(val, u, e, j, n, i + n - j, i + n, g1, x);
    }
    assert(fits(t, n)) by {
        assert forall|k: int| 0 <= k < n implies n <= (#[trigger] t.columns[k]).len() by {
            assert(n <= e.columns[k].len());
        }
    }
    assert(n <= e.columns[j].len());
    assert forall|p: int, k: int| 0 <= p <= n && 0 <= k < n implies #[trigger] side(
        val,
        t,
        j + 1,
        p,
        k,
    ) == side(val, e, j, p, k) by {
        if k != j {
            assert(t.columns[k] == e.columns[k]);
        }
    }
    assert forall|p: int, q: int| 0 <= p <= n && 0 <= q <= n implies #[trigger] joint(
        val,
        t,
        j + 1,
        p,
        q,
    ) == joint(val, e, j, p, q) by {
        reveal(joint);
        lemma_sum_congruent(
            |k: int| side(val, t, j + 1, p, k) * side(val, t, j + 1, q, k),
            |k: int| side(val, e, j, p, k) * side(val, e, j, q, k),
            0,
            n,
        );
    }
}

/// After the rotations the row that was eliminated is zero.
proof fn lemma_row_cleared<F: Arithmetic>(
    val: spec_fn(F) -> real,
    u: real,
    s: Elimination<F>,
    j: int,
    n: int,
    i: int,
    l: int,
    g0: spec_fn(int, int) -> real,
    x: spec_fn(int) -> real,
)
    requires
        small(gamma(u, 20)),
        fits(s, n),
        0 <= i <= l,
        preserved(val, u, s, j, n, n, i, g0, x),
        forall|p: int| 0 <= p <= n ==> #[trigger] x(p) >= 0 as real,
    ensures
        settled(val, u, s, j, n, l, g0, x),
{
    let y = 0 as real;
    assert forall|p: int, q: int| 0 <= p < n && 0 <= q <= n implies close(
        u,
        l,
        #[trigger] joint(val, s, j, p, q),
        g0(p, q),
        x(p),
        x(q),
    ) by {
        assert(total(val, s, j, n, p, q) == joint(val, s, j, p, q)) by {
            reveal(total);
            let b = extra(val, s, n, q);
            assert(y * b == y) by (nonlinear_arith)
                requires
                    y == 0 as real,
            ;
        }
        lemma_close_later(u, i, l, joint(val, s, j, p, q), g0(p, q), x(p), x(q));
    }
    assert forall|p: int| 0 <= p <= n implies within(
        u,
        l,
        #[trigger] joint(val, s, j, p, p),
        x(p),
    ) by {
        assert(within(u, i, total(val, s, j, n, p, p), x(p)));
        assert(joint(val, s, j, p, p) <= total(val, s, j, n, p, p)) by {
            reveal(total);
            lemma_square(extra(val, s, n, p));
        }
        assert(within(u, i, joint(val, s, j, p, p), x(p))) by {
            reveal(within);
        }
        lemma_within_later(u, i, l, joint(val, s, j, p, p), x(p));
    }
}

/// The dot products that the elimination of the first `j` entries of a diagonal matrix should lead to.
spec fn damped<F>(
    val: spec_fn(F) -> real,
    s: Elimination<F>,
    diagonal: Seq<F>,
    j: int,
    p: int,
    q: int,
) -> real {
    joint(val, s, 0, p, q) + if p == q && p < j {
        val(diagonal[p]) * val(diagonal[p])
    } else {
        0 as real
    }
}

/// Eliminating the first `j` entries of a diagonal matrix adds their squares, up to rounding.
proof fn lemma_entries_eliminated<F: Arithmetic>(
    val: spec_fn(F) -> real,
    u: real,
    s: Elimination<F>,
    diagonal: Seq<F>,
    original: Seq<F>,
    j: int,
    n: int,
)
    requires
        rounded(val, u),
        small(gamma(u, 20)),
        fits(s, n),
        0 <= j <= n,
    ensures
        fits(eliminate_entries(s, diagonal, original, j), n),
        settled(
            val,
            u,
            eliminate_entries(s, diagonal, original, j),
            j,
            n,
            j * n,
            |p: int, q: int| damped(val, s, diagonal, j, p, q),
            |p: int| damped(val, s, diagonal, n, p, p),
        ),
    decreases j,
{
    let x = |p: int| damped(val, s, diagonal, n, p, p);
    assert forall|p: int| 0 <= p <= n implies joint(val, s, 0, p, p) >= 0 as real && #[trigger] x(p)
        >= joint(val, s, 0, p, p) by {
        reveal(joint);
        let f = |i: int| side(val, s, 0, p, i) * side(val, s, 0, p, i);
        assert forall|i: int| 0 <= i < n implies #[trigger] f(i) >= 0 as real by {
            lemma_square(side(val, s, 0, p, i));
        }
        lemma_sum_nonnegative(f, 0, n);
        if p < n {
            lemma_square(val(diagonal[p]));
        }
    }
    let g1 = |p: int, q: int| damped(val, s, diagonal, j, p, q);
    if j == 0 {
        reveal(close);
        reveal(within);
        assert(spread(u, 0, 0) == 1 as real) by {
            lemma_spread(u, 0, 0);
        }
        let o = 1 as real;
        assert forall|p: int, q: int| 0 <= p < n && 0 <= q <= n implies close(
            u,
            0,
            #[trigger] joint(val, s, 0, p, q),
            g1(p, q),
            x(p),
            x(q),
        ) by {
            let z = x(p) + x(q);
            assert((o - o) * z == 0 as real) by (nonlinear_arith);
        }
        assert forall|p: int| 0 <= p <= n implies within(
            u,
            0,
            #[trigger] joint(val, s, 0, p, p),
            x(p),
        ) by {
            let z = x(p);
            assert(o * z == z) by (nonlinear_arith)
                requires
                    o == 1 as real,
            ;
        }
    } else {
        lemma_entries_eliminated(val, u, s, diagonal, original, j - 1, n);
        let g0 = |p: int, q: int| damped(val, s, diagonal, j - 1, p, q);
        let i = (j - 1) * n;
        assert(i >= 0 && i + n == j * n) by (nonlinear_arith)
            requires
                i == (j - 1) * n,
                j >= 1,
                n >= 0,
        ;
        lemma_entry_eliminated(
            val,
            u,
            eliminate_entries(s, diagonal, original, j - 1),
            j - 1,
            diagonal[j - 1],
            original[j - 1],
            n,
            i,
            g0,
            g1,
            x,
        );
    }
}

/// The matrix `L` that the elimination of the diagonal matrix `D` leaves has
/// `L * L^T = R^T * R + P^T * D * D * P` up to rounding, and the right hand side `w` that it leaves has
/// `L * w = R^T * rhs` up to rounding. The length of `w` is not greater than that of `rhs`, up to rounding.
/// For `n` columns the relative error is `(1 + 120 * h)^(n * n) - 1`, where `h` is about `20` times the
/// relative error of one operation and at most one hundredth.
pub proof fn law_elimination_rounded<F: Arithmetic>(
    val: spec_fn(F) -> real,
    u: real,
    p: LeastSquares<F>,
    m: int,
    diag: Seq<F>,
    rhs: Seq<F>,
    s: int,
    t: int,
)
    requires
        rounded(val, u),
        small(step_error(u, 0)),
        p.wf(m),
        diag.len() == p.columns.len(),
        rhs.len() == p.columns.len(),
        0 <= s < p.columns.len(),
        0 <= t < p.columns.len(),
    ensures
        ({
            let n = p.columns.len() as int;
            let e = elimination(p, diag, rhs);
            let f = spread(u, 0, n * n);
            let (c, d) = (
                val(diag[p.permutation[s] as int]),
                val(diag[p.permutation[t] as int]),
            );
            let (x, y) = (upper_gram(val, p, s, s) + c * c, upper_gram(val, p, t, t) + d * d);
            let (v, w) = (values(val, rhs), values(val, e.rhs));
            &&& (2 as real) * absolute(
                sum(
                    |k: int|
                        cholesky_entry(val, e.columns, e.row, s, k) * cholesky_entry(
                            val,
                            e.columns,
                            e.row,
                            t,
                            k,
                        ),
                    0,
                    n,
                ) - (upper_gram(val, p, s, t) + if s == t {
                    c * c
                } else {
                    0 as real
                }),
            ) <= (f - 1 as real) * (x + y)
            &&& (2 as real) * absolute(
                sum(
                    |k: int| cholesky_entry(val, e.columns, e.row, s, k) * val(e.rhs[k]),
                    0,
                    n,
                ) - sum(|i: int| upper_entry(val, p, i, s) * val(rhs[i]), 0, n),
            ) <= (f - 1 as real) * (x + inner(v, v, 0, n))
            &&& inner(w, w, 0, n) <= f * inner(v, v, 0, n)
        }),
{
    let n = p.columns.len() as int;
    let first = Elimination { rhs, ..start(p) };
    let e = elimination(p, diag, rhs);
    let diagonal = gather(p.permutation, diag);
    assert(fits(first, n)) by {
        assert forall|k: int| 0 <= k < n implies n <= (#[trigger] first.columns[k]).len() by {
            assert(p.columns[k].len() == m);
        }
    }
    lemma_entries_eliminated(val, u, first, diagonal, diagonal_of(p.columns), n, n);
    assert forall|i: int, k: int| 0 <= i < n && 0 <= k < n implies #[trigger] lower_entry(
        val,
        first,
        0,
        i,
        k,
    ) == upper_entry(val, p, k, i) by {
        assert(p.columns[k].len() == m);
        assert(p.columns[i].len() == m);
    }
    assert forall|a: int, b: int| 0 <= a < n && 0 <= b < n implies #[trigger] joint(
        val,
        first,
        0,
        a,
        b,
    ) == upper_gram(val, p, a, b) by {
        reveal(joint);
        lemma_sum_congruent(
            |k: int| side(val, first, 0, a, k) * side(val, first, 0, b, k),
            |i: int| upper_entry(val, p, i, a) * upper_entry(val, p, i, b),
            0,
            n,
        );
    }
    let (v, w) = (values(val, rhs), values(val, e.rhs));
    assert(joint(val, first, 0, s, n) == sum(
        |i: int| upper_entry(val, p, i, s) * val(rhs[i]),
        0,
        n,
    )) by {
        reveal(joint);
        lemma_sum_congruent(
            |k: int| side(val, first, 0, s, k) * side(val, first, 0, n, k),
            |i: int| upper_entry(val, p, i, s) * val(rhs[i]),
            0,
            n,
        );
    }
    assert(joint(val, first, 0, n, n) == inner(v, v, 0, n)) by {
        reveal(joint);
        lemma_sum_congruent(
            |k: int| side(val, first, 0, n, k) * side(val, first, 0, n, k),
            |i: int| v[i] * v[i],
            0,
            n,
        );
    }
    assert(joint(val, e, n, n, n) == inner(w, w, 0, n)) by {
        reveal(joint);
        lemma_sum_congruent(
            |k: int| side(val, e, n, n, k) * side(val, e, n, n, k),
            |i: int| w[i] * w[i],
            0,
            n,
        );
    }
    assert(joint(val, e, n, s, t) == sum(
        |k: int|
            cholesky_entry(val, e.columns, e.row, s, k) * cholesky_entry(
                val,
                e.columns,
                e.row,
                t,
                k,
            ),
        0,
        n,
    )) by {
        reveal(joint);
        lemma_sum_congruent(
            |k: int| side(val, e, n, s, k) * side(val, e, n, t, k),
            |k: int|
                cholesky_entry(val, e.columns, e.row, s, k) * cholesky_entry(
                    val,
                    e.columns,
                    e.row,
                    t,
                    k,
                ),
            0,
            n,
        );
    }
    assert(joint(val, e, n, s, n) == sum(
        |k: int| cholesky_entry(val, e.columns, e.row, s, k) * val(e.rhs[k]),
        0,
        n,
    )) by {
        reveal(joint);
        lemma_sum_congruent(
            |k: int| side(val, e, n, s, k) * side(val, e, n, n, k),
            |k: int| cholesky_entry(val, e.columns, e.row, s, k) * val(e.rhs[k]),
            0,
            n,
        );
    }
    reveal(close);
    reveal(within);
    assert(within(u, n * n, joint(val, e, n, n, n), damped(val, first, diagonal, n, n, n)));
    assert(close(
        u,
        n * n,
        joint(val, e, n, s, t),
        damped(val, first, diagonal, n, s, t),
        damped(val, first, diagonal, n, s, s),
        damped(val, first, diagonal, n, t, t),
    ));
    assert(close(
        u,
        n * n,
        joint(val, e, n, s, n),
        damped(val, first, diagonal, n, s, n),
        damped(val, first, diagonal, n, s, s),
        damped(val, first, diagonal, n, n, n),
    ));
}

} // verus!
