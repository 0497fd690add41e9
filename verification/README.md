# pivoted_qr

A pivoted QR factorization `A * P = Q * R`, and a solver for the least squares problem that the
Levenberg-Marquardt algorithm poses again and again: minimize `|A * x - b|^2 + |D * x|^2` for one
matrix `A` and one vector `b`, and for a sequence of diagonal matrices `D`.

- `src/` is the verified library. It is generic in the number type (`scalar`). The contract of
  each function says which operations on numbers make up its result, whatever their rounding is.
- `src/laws/` says what the results mean where there is no rounding: `Q` is orthogonal,
  `A * P = Q * R`, the pivots on the diagonal of `R` do not grow, the solutions satisfy the normal
  equations and minimize the sum of squares whatever the ranks of `A` and `D` are, the Cholesky
  factors satisfy `L * L^T = P^T * (A^T * A + D * D) * P`, a greater multiple of `D` gives a
  smaller `|D * x|`, and one solve does not change the next.
- `app/` offers the library for the matrices and vectors of `nalgebra`.
- `tests/` runs the library on double precision numbers.

| module | contents |
| --- | --- |
| `scalar` | the number type, and arithmetic without rounding |
| `vector`, `matrix`, `permutation` | dense vectors and matrices, permutation matrices |
| `householder`, `givens` | reflections and rotations |
| `triangular` | substitution for triangular systems |
| `qr` | `PivotedQR`, the factorization |
| `lls` | `LinearLeastSquaresDiagonalProblem`, the solver |
| `cholesky` | `CholeskyFactor`, the factor of the normal equations |
| `laws` | what holds of all of these |
