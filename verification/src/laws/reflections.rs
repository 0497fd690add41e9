//! Householder reflections in exact arithmetic.
use vstd::prelude::*;
use crate::householder::{lemma_reflect_all_len, reflect_all, reflect_spec, reflector, signed_norm};
use crate::laws::sums::{
    lemma_sum_first, lemma_sum_of_zeros, lemma_sum_scaled, lemma_sum_split, sum,
};
use crate::laws::vectors::{
    inner, lemma_dot, lemma_inner_congruent, lemma_inner_linear, lemma_inner_symmetric, lemma_norm,
    matrix_values, values,
};
use crate::scalar::{exact, Arithmetic};
use crate::vector::norm_spec;

verus! {

/// The reflection of the rows `j`, ... of `w`.
pub open spec fn reflection(w: Seq<real>, j: int, x: Seq<real>) -> Seq<real> {
    let c = inner(x, w, j, x.len() as int) / w[j];
    Seq::new(
        x.len(),
        |i: int|
            if j <= i {
                x[i] + (-c) * w[i]
            } else {
                x[i]
            },
    )
}

/// Whether the reflection of the rows `j`, ... of `w` is one: `|w|^2 = 2 * w[j]`, and `w[j]` is not zero.
pub open spec fn is_reflector(w: Seq<real>, j: int) -> bool {
    &&& w[j] != 0 as real
    &&& inner(w, w, j, w.len() as int) == (2 as real) * w[j]
}

/// Whether each of the first `k` columns either starts with a zero on the diagonal or gives a reflection.
pub open spec fn are_reflectors(columns: Seq<Seq<real>>, m: int, k: int) -> bool {
    forall|j: int|
        0 <= j < k ==> (#[trigger] columns[j]).len() == m && (columns[j][j] == 0 as real
            || is_reflector(columns[j], j))
}

/// The vector `Q^T * x`: the reflections of the first `k` columns, from the first to the last.
pub open spec fn q_transposed(columns: Seq<Seq<real>>, x: Seq<real>, k: int) -> Seq<real>
    decreases k,
{
    if k <= 0 {
        x
    } else {
        let y = q_transposed(columns, x, k - 1);
        if columns[k - 1][k - 1] == 0 as real {
            y
        } else {
            reflection(columns[k - 1], k - 1, y)
        }
    }
}

/// The vector `Q * x`: the reflections of the first `k` columns, from the last to the first.
pub open spec fn q_times(columns: Seq<Seq<real>>, x: Seq<real>, k: int) -> Seq<real>
    decreases k,
{
    if k <= 0 {
        x
    } else if columns[k - 1][k - 1] == 0 as real {
        q_times(columns, x, k - 1)
    } else {
        q_times(columns, reflection(columns[k - 1], k - 1, x), k - 1)
    }
}

/// A reflection preserves dot products.
pub proof fn lemma_reflection_isometric(w: Seq<real>, j: int, x: Seq<real>, y: Seq<real>)
    requires
        is_reflector(w, j),
        0 <= j < w.len(),
        x.len() == w.len(),
        y.len() == w.len(),
    ensures
        inner(reflection(w, j, x), reflection(w, j, y), 0, w.len() as int) == inner(
            x,
            y,
            0,
            w.len() as int,
        ),
        inner(reflection(w, j, x), reflection(w, j, y), j, w.len() as int) == inner(
            x,
            y,
            j,
            w.len() as int,
        ),
{
    let m = w.len() as int;
    let hx = reflection(w, j, x);
    let hy = reflection(w, j, y);
    let xw = inner(x, w, j, m);
    let yw = inner(y, w, j, m);
    let ww = inner(w, w, j, m);
    let c = xw / w[j];
    let d = yw / w[j];
    let xy = inner(x, y, j, m);
    lemma_inner_linear(hx, x, -c, w, hy, j, m);
    lemma_inner_linear(hy, y, -d, w, x, j, m);
    lemma_inner_linear(hy, y, -d, w, w, j, m);
    lemma_inner_symmetric(x, hy, j, m);
    lemma_inner_symmetric(w, hy, j, m);
    lemma_inner_symmetric(x, y, j, m);
    lemma_inner_symmetric(x, w, j, m);
    lemma_inner_symmetric(y, w, j, m);
    let w0 = w[j];
    let xhy = inner(x, hy, j, m);
    let whw = inner(w, hy, j, m);
    let result = inner(hx, hy, j, m);
    assert(xhy == xy + (-d) * xw);
    assert(whw == yw + (-d) * ww);
    assert(result == xhy + (-c) * whw);
    assert(result == xy) by (nonlinear_arith)
        requires
            xhy == xy + (-d) * xw,
            whw == yw + (-d) * ww,
            result == xhy + (-c) * whw,
            ww == (2 as real) * w0,
            w0 != 0 as real,
            c == xw / w0,
            d == yw / w0,
    {
        assert(c * w0 == xw);
        assert(d * w0 == yw);
        assert(whw == -(d * w0));
        assert(result == xy - d * (c * w0) + c * (d * w0));
        assert(d * (c * w0) == c * (d * w0));
    }
    lemma_inner_congruent(hx, hy, x, y, 0, j);
    lemma_sum_split(|i: int| hx[i] * hy[i], 0, j, m);
    lemma_sum_split(|i: int| x[i] * y[i], 0, j, m);
}

/// A reflection is its own inverse.
pub proof fn lemma_reflection_involutive(w: Seq<real>, j: int, x: Seq<real>)
    requires
        is_reflector(w, j),
        0 <= j < w.len(),
        x.len() == w.len(),
    ensures
        reflection(w, j, reflection(w, j, x)) == x,
{
    let m = w.len() as int;
    let hx = reflection(w, j, x);
    let hhx = reflection(w, j, hx);
    let xw = inner(x, w, j, m);
    let ww = inner(w, w, j, m);
    let hw = inner(hx, w, j, m);
    let w0 = w[j];
    let c = xw / w0;
    let d = hw / w0;
    lemma_inner_linear(hx, x, -c, w, w, j, m);
    assert(d == -c) by (nonlinear_arith)
        requires
            hw == xw + (-c) * ww,
            ww == (2 as real) * w0,
            w0 != 0 as real,
            c == xw / w0,
            d == hw / w0,
    {
        assert(c * w0 == xw);
        assert(d * w0 == hw);
        assert(hw == -(c * w0));
        assert((d + c) * w0 == 0 as real);
    }
    assert forall|i: int| 0 <= i < m implies #[trigger] hhx[i] == x[i] by {
        if j <= i {
            let b = w[i];
            assert(hhx[i] == hx[i] + (-d) * b);
            assert(hx[i] == x[i] + (-c) * b);
            assert((-d) * b + (-c) * b == 0 as real) by (nonlinear_arith)
                requires
                    d == -c,
            ;
        }
    }
    assert(hhx =~= x);
}

/// A reflection does not change a vector with zeros in the rows `j`, ....
pub proof fn lemma_reflection_fixes(w: Seq<real>, j: int, x: Seq<real>)
    requires
        0 <= j < w.len(),
        w[j] != 0 as real,
        x.len() == w.len(),
        forall|i: int| j <= i < x.len() ==> #[trigger] x[i] == 0 as real,
    ensures
        reflection(w, j, x) == x,
{
    let m = w.len() as int;
    let zero = Seq::new(m as nat, |i: int| 0 as real);
    lemma_inner_congruent(x, w, zero, w, j, m);
    assert(inner(zero, w, j, m) == 0 as real) by {
        let f = |i: int| zero[i] * w[i];
        assert forall|i: int| j <= i < m implies #[trigger] f(i) == 0 as real by {
            let b = w[i];
            assert((0 as real) * b == 0 as real) by (nonlinear_arith);
        }
        lemma_sum_of_zeros(f, j, m);
    }
    let w0 = w[j];
    let c = inner(x, w, j, m) / w0;
    assert(c == 0 as real) by (nonlinear_arith)
        requires
            c == (0 as real) / w0,
            w0 != 0 as real,
    ;
    let hx = reflection(w, j, x);
    assert forall|i: int| 0 <= i < m implies #[trigger] hx[i] == x[i] by {
        let b = w[i];
        assert((-c) * b == 0 as real) by (nonlinear_arith)
            requires
                c == 0 as real,
        ;
    }
    assert(hx =~= x);
}

/// A reflection is computed exactly.
pub proof fn lemma_reflect<F: Arithmetic>(
    val: spec_fn(F) -> real,
    w: Seq<F>,
    j: int,
    x: Seq<F>,
)
    requires
        exact(val),
        0 <= j < w.len(),
        x.len() == w.len(),
        val(w[j]) != 0 as real,
    ensures
        values(val, reflect_spec(w, j, x)) == reflection(values(val, w), j, values(val, x)),
{
    lemma_dot(val, x, w, j, x.len() as int);
    assert(values(val, reflect_spec(w, j, x)) =~= reflection(values(val, w), j, values(val, x)));
}

/// The reflections one after the other are computed exactly.
pub proof fn lemma_reflect_all<F: Arithmetic>(
    val: spec_fn(F) -> real,
    columns: Seq<Seq<F>>,
    x: Seq<F>,
    k: int,
)
    requires
        exact(val),
        0 <= k <= columns.len(),
        k <= x.len(),
        forall|j: int| 0 <= j < k ==> (#[trigger] columns[j]).len() == x.len(),
    ensures
        values(val, reflect_all(columns, x, k)) == q_transposed(
            matrix_values(val, columns),
            values(val, x),
            k,
        ),
    decreases k,
{
    if k > 0 {
        lemma_reflect_all(val, columns, x, k - 1);
        lemma_reflect_all_len(columns, x, k - 1);
        let y = reflect_all(columns, x, k - 1);
        let w = columns[k - 1];
        assert(w.len() == x.len());
        if !w[k - 1].vanishes() {
            lemma_reflect(val, w, k - 1, y);
        }
    }
}

/// The vector that is chosen to reduce the rows `j`, ... of `x` gives a reflection that does
/// so: it takes them to `-signed_norm(x, j)` and zeros.
pub proof fn lemma_reflector_reduces<F: Arithmetic>(val: spec_fn(F) -> real, x: Seq<F>, j: int)
    requires
        exact(val),
        0 <= j < x.len(),
        !norm_spec(x, j, x.len() as int).vanishes(),
    ensures
        ({
            let w = values(val, reflector(x, j, signed_norm(x, j)));
            let y = reflection(w, j, values(val, x));
            &&& is_reflector(w, j)
            &&& w[j] >= 1 as real
            &&& y[j] == -val(signed_norm(x, j))
            &&& forall|i: int| j < i < x.len() ==> #[trigger] y[i] == 0 as real
        }),
{
    let m = x.len() as int;
    let s = val(signed_norm(x, j));
    let u = values(val, x);
    let w = values(val, reflector(x, j, signed_norm(x, j)));
    let y = reflection(w, j, u);
    lemma_norm(val, x, j, m);
    let length = val(norm_spec(x, j, m));
    let uu = inner(u, u, j, m);
    assert(s != 0 as real);
    assert(s * s == uu) by (nonlinear_arith)
        requires
            length * length == uu,
            s == length || s == -length,
    ;
    // the entry u[j] has the sign of s
    let u0 = u[j];
    assert(u0 * s >= 0 as real) by (nonlinear_arith)
        requires
            length >= 0 as real,
            (s == length && u0 >= 0 as real) || (s == -length && u0 <= 0 as real),
    ;
    let w0 = w[j];
    assert(w0 == u0 / s + 1 as real);
    assert(w0 >= 1 as real) by (nonlinear_arith)
        requires
            w0 == u0 / s + 1 as real,
            u0 * s >= 0 as real,
            s != 0 as real,
    {
        let q = u0 / s;
        assert(q * s == u0);
        assert(q * (s * s) >= 0 as real);
        assert(s * s > 0 as real);
        assert(q >= 0 as real);
    }
    // sums over the rows after j
    let ff = |i: int| u[i] * u[i];
    let gg = |i: int| w[i] * w[i];
    let fg = |i: int| u[i] * w[i];
    let tail = sum(ff, j + 1, m);
    lemma_sum_first(ff, j, m);
    lemma_sum_first(gg, j, m);
    lemma_sum_first(fg, j, m);
    let inv = 1 as real / s;
    let inv2 = inv * inv;
    assert forall|i: int| j + 1 <= i < m implies #[trigger] gg(i) == inv2 * ff(i) by {
        let a = u[i];
        let b = w[i];
        assert(b == a / s);
        assert(b * b == inv2 * (a * a)) by (nonlinear_arith)
            requires
                b == a / s,
                inv == 1 as real / s,
                inv2 == inv * inv,
                s != 0 as real,
        {
            assert(a / s == a * inv);
            assert(b * b == (a * inv) * (a * inv));
        }
    }
    lemma_sum_scaled(inv2, ff, gg, j + 1, m);
    assert forall|i: int| j + 1 <= i < m implies #[trigger] fg(i) == inv * ff(i) by {
        let a = u[i];
        let b = w[i];
        assert(b == a / s);
        assert(a * b == inv * (a * a)) by (nonlinear_arith)
            requires
                b == a / s,
                inv == 1 as real / s,
                s != 0 as real,
        {
            assert(a / s == a * inv);
        }
    }
    lemma_sum_scaled(inv, ff, fg, j + 1, m);
    let ww = inner(w, w, j, m);
    let uw = inner(u, w, j, m);
    assert(uu == u0 * u0 + tail);
    assert(ww == w0 * w0 + inv2 * tail);
    assert(uw == u0 * w0 + inv * tail);
    assert(ww == (2 as real) * w0) by (nonlinear_arith)
        requires
            uu == u0 * u0 + tail,
            ww == w0 * w0 + inv2 * tail,
            s * s == uu,
            s != 0 as real,
            inv == 1 as real / s,
            inv2 == inv * inv,
            w0 == u0 / s + 1 as real,
    {
        let q = u0 / s;
        assert(inv * s == 1 as real);
        assert(q == u0 * inv);
        assert(inv2 * (s * s) == (inv * s) * (inv * s));
        assert(inv2 * (u0 * u0) == q * q);
        assert(inv2 * tail == inv2 * (s * s) - inv2 * (u0 * u0));
        assert(w0 * w0 == q * q + (2 as real) * q + 1 as real);
    }
    let c = uw / w0;
    assert(uw == s * w0) by (nonlinear_arith)
        requires
            uu == u0 * u0 + tail,
            uw == u0 * w0 + inv * tail,
            s * s == uu,
            s != 0 as real,
            inv == 1 as real / s,
            w0 == u0 / s + 1 as real,
    {
        let q = u0 / s;
        assert(inv * s == 1 as real);
        assert(q == u0 * inv);
        assert(q * s == u0);
        assert(inv * (s * s) == (inv * s) * s);
        assert(inv * (u0 * u0) == q * u0);
        assert(inv * tail == inv * (s * s) - inv * (u0 * u0));
        assert(u0 * w0 == u0 * q + u0);
        assert(s * w0 == q * s + s);
    }
    assert(c == s) by (nonlinear_arith)
        requires
            c == uw / w0,
            uw == s * w0,
            w0 >= 1 as real,
    ;
    assert(y[j] == -s) by {
        assert(y[j] == u0 + (-c) * w0);
        assert(u0 + (-s) * w0 == -s) by (nonlinear_arith)
            requires
                w0 == u0 / s + 1 as real,
                s != 0 as real,
        {
            assert((u0 / s) * s == u0);
        }
    }
    assert forall|i: int| j < i < m implies #[trigger] y[i] == 0 as real by {
        let a = u[i];
        let b = w[i];
        assert(y[i] == a + (-c) * b);
        assert(a + (-s) * b == 0 as real) by (nonlinear_arith)
            requires
                b == a / s,
                s != 0 as real,
        ;
    }
}

} // verus!
