//! Pivoted QR factorization and a specialized LLS solver.
//!
//! The QR factorization is used to implement an efficient solver for the linear
//! least squares problem which is repeatedly required to be solved in the
//! Levenberg-Marquardt algorithm.
//!
//! [`PivotedQR::new`](qr::PivotedQR::new) factorizes a matrix, and
//! [`into_least_squares_diagonal_problem`](qr::PivotedQR::into_least_squares_diagonal_problem)
//! poses the least squares problem for a right hand side. The numbers are of a
//! type that the user supplies, see [`Real`](scalar::Real). The contracts say
//! what is computed with the operations of that type, whatever their rounding
//! is, and [`laws`] says what this means where there is none.
pub mod cholesky;
pub mod givens;
pub mod householder;
pub mod laws;
pub mod lls;
pub mod matrix;
pub mod permutation;
pub mod qr;
pub mod scalar;
pub mod triangular;
pub mod vector;
