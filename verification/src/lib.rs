//! Finite-field polynomial arithmetic and a rank-1 constraint-system (R1CS)
//! circuit-synthesis layer over the BLS12-377 scalar field.
//!
//! The crate has two halves:
//! - a polynomial engine (dense and sparse polynomials, long division,
//!   evaluation over multiplicative subgroups), operating on raw field
//!   elements outside the constraint system; and
//! - a constraint environment with typed circuit gadgets (booleans, field
//!   elements, fixed-width integers, scalars and group elements) that lower
//!   native operations into `A * B = C` gates while tracking the visibility
//!   mode (constant, public, private) of every value.

pub mod fp;
pub mod binary;
pub mod bits;
pub mod bytes;
pub mod domain;
pub mod environment;
pub mod mode;
pub mod polynomial;
pub mod types;
