//! Givens rotations, and the elimination of a diagonal matrix with them.
//!
//! The rows of `R` are held as the columns of a lower triangular matrix, so that
//! row `k` of `R` is column `k` from row `k` on.
use vstd::prelude::*;
use crate::scalar::{Arithmetic, Real};

verus! {

/// The sine and the cosine of the rotation that takes `(r, d)` to a multiple of `(1, 0)`.
pub open spec fn rotation_spec<F: Arithmetic>(r: F, d: F) -> (F, F) {
    if r.magnitude().below(d.magnitude()) {
        let cot = r.over(d);
        let sin = F::one_spec().over(F::one_spec().plus(cot.times(cot)).root());
        (sin, sin.times(cot))
    } else {
        let tan = d.over(r);
        let cos = F::one_spec().over(F::one_spec().plus(tan.times(tan)).root());
        (cos.times(tan), cos)
    }
}

/// The state of the elimination of a row that is appended to `R`.
#[verifier::ext_equal]
pub struct Elimination<F> {
    /// The lower triangular matrix whose transpose is `R`.
    pub columns: Seq<Seq<F>>,
    /// The row that is eliminated.
    pub row: Seq<F>,
    /// The right hand side for the rows of `R`.
    pub rhs: Seq<F>,
    /// The right hand side for the row that is eliminated.
    pub carry: F,
}

/// Rotates row `k` of `R` with the row that is eliminated, such that entry `k` of the latter
/// would become zero. The entry itself is not read any more and keeps its value.
pub open spec fn rotate_spec<F: Arithmetic>(s: Elimination<F>, k: int) -> Elimination<F> {
    let n = s.row.len() as int;
    if s.row[k].vanishes() {
        s
    } else {
        let column = s.columns[k];
        let (sin, cos) = rotation_spec(column[k], s.row[k]);
        Elimination {
            columns: s.columns.update(
                k,
                Seq::new(
                    column.len(),
                    |i: int|
                        if k <= i < n {
                            cos.times(column[i]).plus(sin.times(s.row[i]))
                        } else {
                            column[i]
                        },
                ),
            ),
            row: Seq::new(
                s.row.len(),
                |i: int|
                    if k < i {
                        sin.negated().times(column[i]).plus(cos.times(s.row[i]))
                    } else {
                        s.row[i]
                    },
            ),
            rhs: s.rhs.update(k, cos.times(s.rhs[k]).plus(sin.times(s.carry))),
            carry: sin.negated().times(s.rhs[k]).plus(cos.times(s.carry)),
        }
    }
}

/// Rotates the rows `lo`, ..., `hi - 1` of `R` with the row that is eliminated, one after the other.
pub open spec fn rotate_rows<F: Arithmetic>(s: Elimination<F>, lo: int, hi: int) -> Elimination<F>
    decreases hi - lo,
{
    if hi <= lo {
        s
    } else {
        rotate_spec(rotate_rows(s, lo, hi - 1), hi - 1)
    }
}

/// The state before the row with the only entry `d` in position `j` is eliminated. The
/// first `j` entries of `row` are kept.
pub open spec fn with_row<F: Arithmetic>(s: Elimination<F>, j: int, d: F) -> Elimination<F> {
    Elimination {
        row: Seq::new(
            s.row.len(),
            |i: int|
                if i < j {
                    s.row[i]
                } else if i == j {
                    d
                } else {
                    F::zero_spec()
                },
        ),
        carry: F::zero_spec(),
        ..s
    }
}

/// Eliminates the row with the only entry `d` in position `j`. Then the diagonal entry of
/// column `j` is moved to `row`, and `original` is put in its place.
pub open spec fn eliminate_entry<F: Arithmetic>(
    s: Elimination<F>,
    j: int,
    d: F,
    original: F,
) -> Elimination<F> {
    let e = if d.vanishes() {
        s
    } else {
        rotate_rows(with_row(s, j, d), j, s.row.len() as int)
    };
    Elimination {
        columns: e.columns.update(j, e.columns[j].update(j, original)),
        row: e.row.update(j, e.columns[j][j]),
        ..e
    }
}

/// Eliminates the first `j` entries of a diagonal matrix, and puts `original` in the place of
/// the diagonal of the columns.
pub open spec fn eliminate_entries<F: Arithmetic>(
    s: Elimination<F>,
    diagonal: Seq<F>,
    original: Seq<F>,
    j: int,
) -> Elimination<F>
    decreases j,
{
    if j <= 0 {
        s
    } else {
        eliminate_entry(
            eliminate_entries(s, diagonal, original, j - 1),
            j - 1,
            diagonal[j - 1],
            original[j - 1],
        )
    }
}

/// Computes the rotation that takes `(r, d)` to a multiple of `(1, 0)`.
pub fn rotation<F: Real>(r: F, d: F) -> (sin_cos: (F, F))
    ensures
        sin_cos == rotation_spec(r, d),
{
    if r.abs().lt(d.abs()) {
        let cot: F = r.div(d);
        let sin: F = F::one().div(F::one().add(cot.mul(cot)).sqrt());
        (sin, sin.mul(cot))
    } else {
        let tan: F = d.div(r);
        let cos: F = F::one().div(F::one().add(tan.mul(tan)).sqrt());
        (cos.mul(tan), cos)
    }
}


} // verus!
