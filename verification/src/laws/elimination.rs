//! The elimination of a diagonal matrix in exact arithmetic.
use vstd::prelude::*;
use crate::givens::{
    eliminate_entries, eliminate_entry, rotate_rows, rotate_spec, rotation_spec, with_row,
    Elimination,
};
use crate::laws::sums::{lemma_sum_congruent, lemma_sum_one_changed, sum};
use crate::scalar::{exact, Arithmetic};

verus! {

/// The parts of the state fit together: there are `n` columns with at least `n` rows.
pub open spec fn fits<F>(s: Elimination<F>, n: int) -> bool {
    &&& s.columns.len() == n
    &&& forall|k: int| 0 <= k < n ==> n <= (#[trigger] s.columns[k]).len()
    &&& s.row.len() == n
    &&& s.rhs.len() == n
}

/// Entry `(i, k)` of the lower triangular matrix when the first `j` diagonal entries are done. These
/// have been moved to `row`.
pub open spec fn lower_entry<F>(
    val: spec_fn(F) -> real,
    s: Elimination<F>,
    j: int,
    i: int,
    k: int,
) -> real {
    if k > i {
        0 as real
    } else if k == i && k < j {
        val(s.row[k])
    } else {
        val(s.columns[k][i])
    }
}

/// Entry `i` of the row that is eliminated, of which the first `k` entries are zero by now.
pub open spec fn row_entry<F>(val: spec_fn(F) -> real, s: Elimination<F>, k: int, i: int) -> real {
    if i < k {
        0 as real
    } else {
        val(s.row[i])
    }
}

/// Entry `(p, q)` of `L * L^T`.
pub open spec fn lower_gram<F>(
    val: spec_fn(F) -> real,
    s: Elimination<F>,
    j: int,
    p: int,
    q: int,
) -> real {
    sum(
        |k: int| lower_entry(val, s, j, p, k) * lower_entry(val, s, j, q, k),
        0,
        s.row.len() as int,
    )
}

/// Entry `p` of `L * rhs`.
pub open spec fn lower_rhs<F>(val: spec_fn(F) -> real, s: Elimination<F>, j: int, p: int) -> real {
    sum(|k: int| lower_entry(val, s, j, p, k) * val(s.rhs[k]), 0, s.row.len() as int)
}

/// The sine and the cosine that are computed are those of a rotation, and it takes `(r, d)` to
/// a multiple of `(1, 0)`.
pub proof fn law_rotation<F: Arithmetic>(val: spec_fn(F) -> real, r: F, d: F)
    requires
        exact(val),
        val(d) != 0 as real,
    ensures
        ({
            let (sin, cos) = rotation_spec(r, d);
            &&& val(sin) * val(sin) + val(cos) * val(cos) == 1 as real
            &&& (-val(sin)) * val(r) + val(cos) * val(d) == 0 as real
        }),
{
    let (sf, cf) = rotation_spec(r, d);
    let (s, c, a, b) = (val(sf), val(cf), val(r), val(d));
    if r.magnitude().below(d.magnitude()) {
        let cot = r.over(d);
        let t = val(cot);
        let under = F::one_spec().plus(cot.times(cot));
        assert(t * t >= 0 as real) by (nonlinear_arith);
        assert(val(under) == 1 as real + t * t);
        let q = val(under.root());
        assert(q >= 0 as real && q * q == 1 as real + t * t);
        assert(q != 0 as real) by (nonlinear_arith)
            requires
                q * q == 1 as real + t * t,
                t * t >= 0 as real,
        ;
        assert(s == 1 as real / q);
        assert(c == s * t);
        lemma_rotation(s, c, t, q);
        assert((-s) * a + c * b == 0 as real) by (nonlinear_arith)
            requires
                c == s * t,
                t == a / b,
                b != 0 as real,
        {
            assert(t * b == a);
            assert(c * b == s * (t * b));
        }
    } else {
        let tan = d.over(r);
        let t = val(tan);
        assert(a != 0 as real);
        let under = F::one_spec().plus(tan.times(tan));
        assert(t * t >= 0 as real) by (nonlinear_arith);
        assert(val(under) == 1 as real + t * t);
        let q = val(under.root());
        assert(q >= 0 as real && q * q == 1 as real + t * t);
        assert(q != 0 as real) by (nonlinear_arith)
            requires
                q * q == 1 as real + t * t,
                t * t >= 0 as real,
        ;
        assert(c == 1 as real / q);
        assert(s == c * t);
        lemma_rotation(c, s, t, q);
        assert((-s) * a + c * b == 0 as real) by (nonlinear_arith)
            requires
                s == c * t,
                t == b / a,
                a != 0 as real,
        {
            assert(t * a == b);
            assert(s * a == c * (t * a));
        }
    }
}

/// `1 / q` and `t / q` are a cosine and a sine where `q^2 = 1 + t^2`.
proof fn lemma_rotation(u: real, v: real, t: real, q: real)
    requires
        q != 0 as real,
        q * q == 1 as real + t * t,
        u == 1 as real / q,
        v == u * t,
    ensures
        u * u + v * v == 1 as real,
{
    assert(u * u + v * v == 1 as real) by (nonlinear_arith)
        requires
            q != 0 as real,
            q * q == 1 as real + t * t,
            u == 1 as real / q,
            v == u * t,
    {
        assert(u * q == 1 as real);
        assert(v * v == (u * u) * (t * t));
        assert(u * u + v * v == (u * u) * (q * q));
        assert((u * u) * (q * q) == (u * q) * (u * q));
    }
}

/// The factors of a product can be rearranged.
pub proof fn lemma_rearranged(a: real, b: real, c: real, d: real)
    ensures
        (a * b) * (c * d) == (a * c) * (b * d),
{
    let e = b * (c * d);
    assert((a * b) * (c * d) == a * e) by (nonlinear_arith)
        requires
            e == b * (c * d),
    ;
    assert(e == c * (b * d)) by (nonlinear_arith)
        requires
            e == b * (c * d),
    ;
    let f = b * d;
    assert(a * (c * f) == (a * c) * f) by (nonlinear_arith);
}

/// The product of two sums is expanded.
pub proof fn lemma_expanded(a: real, b: real, c: real, d: real)
    ensures
        (a + b) * (c + d) == a * c + a * d + b * c + b * d,
{
    assert((a + b) * (c + d) == a * c + a * d + b * c + b * d) by (nonlinear_arith);
}

/// A rotation preserves the dot product of two pairs.
pub proof fn lemma_rotated_pair(s: real, c: real, a: real, b: real, x: real, y: real)
    requires
        s * s + c * c == 1 as real,
    ensures
        (c * a + s * b) * (c * x + s * y) + ((-s) * a + c * b) * ((-s) * x + c * y) == a * x + b
            * y,
{
    let t = -s;
    lemma_expanded(c * a, s * b, c * x, s * y);
    lemma_expanded(t * a, c * b, t * x, c * y);
    lemma_rearranged(c, a, c, x);
    lemma_rearranged(c, a, s, y);
    lemma_rearranged(s, b, c, x);
    lemma_rearranged(s, b, s, y);
    lemma_rearranged(t, a, t, x);
    lemma_rearranged(t, a, c, y);
    lemma_rearranged(c, b, t, x);
    lemma_rearranged(c, b, c, y);
    assert(t * t == s * s && t * c == -(c * s) && c * t == -(s * c) && c * s == s * c)
        by (nonlinear_arith)
        requires
            t == -s,
    ;
    let (cc, ss, cs) = (c * c, s * s, c * s);
    let (ax, ay, bx, by) = (a * x, a * y, b * x, b * y);
    assert(cc * ax + cs * ay + cs * bx + ss * by + ss * ax + (-cs) * ay + (-cs) * bx + cc * by
        == ax + by) by (nonlinear_arith)
        requires
            ss + cc == 1 as real,
    {
        assert((-cs) * ay == -(cs * ay));
        assert((-cs) * bx == -(cs * bx));
        assert(cc * ax + ss * ax == (ss + cc) * ax);
        assert(cc * by + ss * by == (ss + cc) * by);
    }
}

/// The rotation of row `k` keeps the shape.
pub proof fn lemma_rotate_fits<F: Arithmetic>(s: Elimination<F>, k: int, n: int)
    requires
        fits(s, n),
        0 <= k < n,
    ensures
        fits(rotate_spec(s, k), n),
{
    let t = rotate_spec(s, k);
    assert forall|q: int| 0 <= q < n implies n <= (#[trigger] t.columns[q]).len() by {
        assert(n <= s.columns[q].len());
    }
}

/// What the rotation of row `k` does to the entries.
proof fn lemma_rotate_entries<F: Arithmetic>(
    val: spec_fn(F) -> real,
    s: Elimination<F>,
    j: int,
    k: int,
    n: int,
    i: int,
)
    requires
        exact(val),
        fits(s, n),
        0 <= j <= k < n,
        0 <= i < n,
        !s.row[k].vanishes(),
    ensures
        ({
            let t = rotate_spec(s, k);
            let (sin, cos) = rotation_spec(s.columns[k][k], s.row[k]);
            let e = lower_entry(val, s, j, i, k);
            let d = row_entry(val, s, k, i);
            &&& lower_entry(val, t, j, i, k) == val(cos) * e + val(sin) * d
            &&& row_entry(val, t, k + 1, i) == (-val(sin)) * e + val(cos) * d
            &&& forall|q: int|
                0 <= q < n && q != k ==> #[trigger] lower_entry(val, t, j, i, q) == lower_entry(
                    val,
                    s,
                    j,
                    i,
                    q,
                )
        }),
{
    let t = rotate_spec(s, k);
    let (sf, cf) = rotation_spec(s.columns[k][k], s.row[k]);
    assert(n <= s.columns[k].len());
    let (sin, cos) = (val(sf), val(cf));
    if i < k {
        assert(cos * (0 as real) + sin * (0 as real) == 0 as real) by (nonlinear_arith);
        assert((-sin) * (0 as real) + cos * (0 as real) == 0 as real) by (nonlinear_arith);
    } else if i == k {
        law_rotation(val, s.columns[k][k], s.row[k]);
    }
    assert forall|q: int| 0 <= q < n && q != k implies #[trigger] lower_entry(val, t, j, i, q)
        == lower_entry(val, s, j, i, q) by {
        assert(t.columns[q] == s.columns[q]);
    }
}

/// The rotation of row `k` preserves `L * L^T` together with the contribution of the row that is
/// eliminated, and `L * rhs` likewise.
proof fn lemma_rotate<F: Arithmetic>(
    val: spec_fn(F) -> real,
    s: Elimination<F>,
    j: int,
    k: int,
    n: int,
    p: int,
    q: int,
)
    requires
        exact(val),
        fits(s, n),
        0 <= j <= k < n,
        0 <= p < n,
        0 <= q < n,
    ensures
        ({
            let t = rotate_spec(s, k);
            &&& lower_gram(val, t, j, p, q) + row_entry(val, t, k + 1, p) * row_entry(
                val,
                t,
                k + 1,
                q,
            ) == lower_gram(val, s, j, p, q) + row_entry(val, s, k, p) * row_entry(val, s, k, q)
            &&& lower_rhs(val, t, j, p) + row_entry(val, t, k + 1, p) * val(t.carry) == lower_rhs(
                val,
                s,
                j,
                p,
            ) + row_entry(val, s, k, p) * val(s.carry)
        }),
{
    let t = rotate_spec(s, k);
    if s.row[k].vanishes() {
        assert(val(s.row[k]) == 0 as real);
        assert(row_entry(val, t, k + 1, p) == row_entry(val, s, k, p));
        assert(row_entry(val, t, k + 1, q) == row_entry(val, s, k, q));
    } else {
        law_rotation(val, s.columns[k][k], s.row[k]);
        let (sf, cf) = rotation_spec(s.columns[k][k], s.row[k]);
        let (sin, cos) = (val(sf), val(cf));
        lemma_rotate_entries(val, s, j, k, n, p);
        lemma_rotate_entries(val, s, j, k, n, q);
        lemma_rotate_fits(s, k, n);
        let f = |i: int| lower_entry(val, s, j, p, i) * lower_entry(val, s, j, q, i);
        let g = |i: int| lower_entry(val, t, j, p, i) * lower_entry(val, t, j, q, i);
        lemma_sum_one_changed(f, g, 0, n, k);
        lemma_rotated_pair(
            sin,
            cos,
            lower_entry(val, s, j, p, k),
            row_entry(val, s, k, p),
            lower_entry(val, s, j, q, k),
            row_entry(val, s, k, q),
        );
        let u = |i: int| lower_entry(val, s, j, p, i) * val(s.rhs[i]);
        let v = |i: int| lower_entry(val, t, j, p, i) * val(t.rhs[i]);
        lemma_sum_one_changed(u, v, 0, n, k);
        lemma_rotated_pair(
            sin,
            cos,
            lower_entry(val, s, j, p, k),
            row_entry(val, s, k, p),
            val(s.rhs[k]),
            val(s.carry),
        );
    }
}

/// Rotating all rows from row `j` on clears the row that is eliminated.
proof fn lemma_rotate_rows<F: Arithmetic>(
    val: spec_fn(F) -> real,
    s: Elimination<F>,
    j: int,
    k: int,
    n: int,
    p: int,
    q: int,
)
    requires
        exact(val),
        fits(s, n),
        0 <= j <= k <= n,
        0 <= p < n,
        0 <= q < n,
    ensures
        fits(rotate_rows(s, j, k), n),
        ({
            let t = rotate_rows(s, j, k);
            &&& lower_gram(val, t, j, p, q) + row_entry(val, t, k, p) * row_entry(val, t, k, q)
                == lower_gram(val, s, j, p, q) + row_entry(val, s, j, p) * row_entry(val, s, j, q)
            &&& lower_rhs(val, t, j, p) + row_entry(val, t, k, p) * val(t.carry) == lower_rhs(
                val,
                s,
                j,
                p,
            ) + row_entry(val, s, j, p) * val(s.carry)
        }),
    decreases k,
{
    if k > j {
        lemma_rotate_rows(val, s, j, k - 1, n, p, q);
        let t = rotate_rows(s, j, k - 1);
        lemma_rotate(val, t, j, k - 1, n, p, q);
        lemma_rotate_fits(t, k - 1, n);
    }
}

/// Eliminating the entry `d` in position `j` of a diagonal matrix adds its square to entry
/// `(j, j)` of `L * L^T`, and does not change `L * rhs`.
proof fn lemma_eliminate_entry<F: Arithmetic>(
    val: spec_fn(F) -> real,
    s: Elimination<F>,
    j: int,
    d: F,
    original: F,
    n: int,
    p: int,
    q: int,
)
    requires
        exact(val),
        fits(s, n),
        0 <= j < n,
        0 <= p < n,
        0 <= q < n,
    ensures
        fits(eliminate_entry(s, j, d, original), n),
        ({
            let t = eliminate_entry(s, j, d, original);
            &&& lower_gram(val, t, j + 1, p, q) == lower_gram(val, s, j, p, q) + if p == j && q
                == j {
                val(d) * val(d)
            } else {
                0 as real
            }
            &&& lower_rhs(val, t, j + 1, p) == lower_rhs(val, s, j, p)
        }),
{
    let r = with_row(s, j, d);
    let e = if d.vanishes() {
        s
    } else {
        rotate_rows(r, j, n)
    };
    let t = eliminate_entry(s, j, d, original);
    let square = if p == j && q == j {
        val(d) * val(d)
    } else {
        0 as real
    };
    let (x, y) = (val(d), 0 as real);
    assert(y * y == 0 as real && x * y == 0 as real && y * x == 0 as real) by (nonlinear_arith)
        requires
            y == 0 as real,
    ;
    assert(fits(e, n) && lower_gram(val, e, j, p, q) == lower_gram(val, s, j, p, q) + square
        && lower_rhs(val, e, j, p) == lower_rhs(val, s, j, p)) by {
        if !d.vanishes() {
            lemma_rotate_rows(val, r, j, n, n, p, q);
            let f = |i: int| lower_entry(val, s, j, p, i) * lower_entry(val, s, j, q, i);
            let g = |i: int| lower_entry(val, r, j, p, i) * lower_entry(val, r, j, q, i);
            lemma_sum_congruent(f, g, 0, n);
            let u = |i: int| lower_entry(val, s, j, p, i) * val(s.rhs[i]);
            let v = |i: int| lower_entry(val, r, j, p, i) * val(r.rhs[i]);
            lemma_sum_congruent(u, v, 0, n);
            assert(val(r.carry) == 0 as real);
            let (a, b) = (row_entry(val, r, j, p), row_entry(val, e, n, p));
            let z = val(e.carry);
            assert(a * y == 0 as real && y * z == 0 as real) by (nonlinear_arith)
                requires
                    y == 0 as real,
            ;
        }
    }
    assert(fits(t, n)) by {
        assert forall|k: int| 0 <= k < n implies n <= (#[trigger] t.columns[k]).len() by {
            assert(n <= e.columns[k].len());
        }
    }
    assert(n <= e.columns[j].len());
    assert forall|i: int, k: int| 0 <= i < n && 0 <= k < n implies #[trigger] lower_entry(
        val,
        t,
        j + 1,
        i,
        k,
    ) == lower_entry(val, e, j, i, k) by {
        if k != j {
            assert(t.columns[k] == e.columns[k]);
        }
    }
    let f = |i: int| lower_entry(val, e, j, p, i) * lower_entry(val, e, j, q, i);
    let g = |i: int| lower_entry(val, t, j + 1, p, i) * lower_entry(val, t, j + 1, q, i);
    lemma_sum_congruent(g, f, 0, n);
    let u = |i: int| lower_entry(val, e, j, p, i) * val(e.rhs[i]);
    let v = |i: int| lower_entry(val, t, j + 1, p, i) * val(t.rhs[i]);
    lemma_sum_congruent(v, u, 0, n);
}

/// Eliminating the first `j` entries of a diagonal matrix `D` adds their squares to the diagonal
/// of `L * L^T`, and does not change `L * rhs`.
pub proof fn law_eliminate_entries<F: Arithmetic>(
    val: spec_fn(F) -> real,
    s: Elimination<F>,
    diagonal: Seq<F>,
    original: Seq<F>,
    j: int,
    n: int,
    p: int,
    q: int,
)
    requires
        exact(val),
        fits(s, n),
        0 <= j <= n,
        0 <= p < n,
        0 <= q < n,
    ensures
        fits(eliminate_entries(s, diagonal, original, j), n),
        ({
            let t = eliminate_entries(s, diagonal, original, j);
            &&& lower_gram(val, t, j, p, q) == lower_gram(val, s, 0, p, q) + if p == q && p < j {
                val(diagonal[p]) * val(diagonal[p])
            } else {
                0 as real
            }
            &&& lower_rhs(val, t, j, p) == lower_rhs(val, s, 0, p)
        }),
    decreases j,
{
    if j > 0 {
        law_eliminate_entries(val, s, diagonal, original, j - 1, n, p, q);
        lemma_eliminate_entry(
            val,
            eliminate_entries(s, diagonal, original, j - 1),
            j - 1,
            diagonal[j - 1],
            original[j - 1],
            n,
            p,
            q,
        );
    }
}

} // verus!
