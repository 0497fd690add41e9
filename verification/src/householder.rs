//! Householder reflections.
//!
//! The reflection of a vector `w` with `w[i] = 0` for `i < j` and
//! `|w|^2 = 2 * w[j]` maps `x` to `x - (w . x / w[j]) * w`.
use vstd::prelude::*;
use crate::scalar::{Arithmetic, Real};
use crate::vector::{axpy, axpy_spec, dot, dot_spec, norm_spec};

verus! {

/// The norm of the rows `j`, ... of `x`, with the sign of `x[j]`.
pub open spec fn signed_norm<F: Arithmetic>(x: Seq<F>, j: int) -> F {
    let length = norm_spec(x, j, x.len() as int);
    if x[j].has_minus_sign() {
        length.negated()
    } else {
        length
    }
}

/// The vector `x` with its rows `j`, ... divided by `scale` and one added to row `j`.
///
/// For `scale = signed_norm(x, j)` the reflection of this vector takes the rows
/// `j`, ... of `x` to a multiple of a unit vector.
pub open spec fn reflector<F: Arithmetic>(x: Seq<F>, j: int, scale: F) -> Seq<F> {
    Seq::new(
        x.len(),
        |i: int|
            if i < j {
                x[i]
            } else if i == j {
                x[i].over(scale).plus(F::one_spec())
            } else {
                x[i].over(scale)
            },
    )
}

/// The image of `x` under the reflection of the rows `j`, ... of `w`.
pub open spec fn reflect_spec<F: Arithmetic>(w: Seq<F>, j: int, x: Seq<F>) -> Seq<F> {
    let m = x.len() as int;
    axpy_spec(x, dot_spec(x, w, j, m).over(w[j]).negated(), w, j, m)
}

/// The image of `x` under the reflections of the first `k` of `columns`, one after the other.
/// Column `j` is read from row `j` on, and is skipped where it starts with a zero.
pub open spec fn reflect_all<F: Arithmetic>(columns: Seq<Seq<F>>, x: Seq<F>, k: int) -> Seq<F>
    decreases k,
{
    if k <= 0 {
        x
    } else {
        let y = reflect_all(columns, x, k - 1);
        if columns[k - 1][k - 1].vanishes() {
            y
        } else {
            reflect_spec(columns[k - 1], k - 1, y)
        }
    }
}

/// Replaces `x` by the vector whose reflection reduces its rows `j`, ....
pub fn make_reflector<F: Real>(x: &mut Vec<F>, j: usize, scale: F)
    requires
        j < old(x)@.len(),
    ensures
        final(x)@ == reflector(old(x)@, j as int, scale),
{
    let mut i: usize = j;
    while i < x.len()
        invariant
            j <= i <= x@.len(),
            x@.len() == old(x)@.len(),
            forall|k: int|
                0 <= k < x@.len() ==> #[trigger] x@[k] == if j <= k < i {
                    old(x)@[k].over(scale)
                } else {
                    old(x)@[k]
                },
        decreases x@.len() - i,
    {
        let entry: F = x[i].div(scale);
        x[i] = entry;
        i += 1;
    }
    let entry: F = x[j].add(F::one());
    x[j] = entry;
    assert(x@ =~= reflector(old(x)@, j as int, scale));
}

/// Applies the reflection of the rows `j`, ... of `w` to `x`.
pub fn reflect<F: Real>(w: &Vec<F>, j: usize, x: &mut Vec<F>)
    requires
        w@.len() == old(x)@.len(),
        j < w@.len(),
    ensures
        final(x)@ == reflect_spec(w@, j as int, old(x)@),
{
    let m: usize = x.len();
    let factor: F = dot(x, w, j, m).div(w[j]);
    axpy(x, factor.neg(), w, j, m);
}

/// A reflection leaves the rows before `j` as they are.
pub proof fn lemma_reflect_all_keeps_rows<F: Arithmetic>(
    columns: Seq<Seq<F>>,
    x: Seq<F>,
    i: int,
    k: int,
    l: int,
)
    requires
        0 <= i < k <= l,
        i < x.len(),
    ensures
        reflect_all(columns, x, k).len() == x.len(),
        reflect_all(columns, x, l).len() == x.len(),
        reflect_all(columns, x, l)[i] == reflect_all(columns, x, k)[i],
    decreases l,
{
    lemma_reflect_all_len(columns, x, k);
    lemma_reflect_all_len(columns, x, l);
    if l > k {
        lemma_reflect_all_keeps_rows(columns, x, i, k, l - 1);
    }
}

/// Reflections keep the number of rows.
pub proof fn lemma_reflect_all_len<F: Arithmetic>(columns: Seq<Seq<F>>, x: Seq<F>, k: int)
    ensures
        reflect_all(columns, x, k).len() == x.len(),
    decreases k,
{
    if k > 0 {
        lemma_reflect_all_len(columns, x, k - 1);
    }
}

} // verus!
