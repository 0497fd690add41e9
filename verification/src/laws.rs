//! The laws of the factorization and of the solvers.
//!
//! Many of them are stated for arithmetic without rounding, which
//! [`exact`](crate::scalar::exact) describes. How far the results are from that where each
//! operation is rounded is stated for arithmetic as [`rounded`](crate::scalar::rounded) describes
//! it. What becomes of values that are not numbers, and of a problem that is given in another
//! unit, holds whatever the rounding is.
pub mod accumulation;
pub mod accuracy;
pub mod backward;
pub mod cholesky;
pub mod damped;
pub mod damping;
pub mod elimination;
pub mod factorization;
pub mod gradient;
pub mod inverse;
pub mod least_squares;
pub mod lengths;
pub mod minimum;
pub mod projection;
pub mod rank;
pub mod reduction;
pub mod reflections;
pub mod rotation;
pub mod rounding;
pub mod scaling;
pub mod solutions;
pub mod stability;
pub mod sums;
pub mod tracking;
pub mod triangular;
pub mod undefined;
pub mod undefined_entries;
pub mod undefined_matrix;
pub mod units;
pub mod vectors;
