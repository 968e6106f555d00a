//! Finite-field arithmetic (a prime field, a binary extension field, and a
//! general extension field), elliptic-curve group operations over those
//! fields, and the Schnorr signature checks built on top of them.

use vstd::prelude::*;

pub mod bigint;
pub mod context;
pub mod ec;
pub mod ec_binary;
pub mod encoding;
pub mod f2_poly;
pub mod fp;
pub mod fp_poly;
pub mod gf2;
pub mod md5;

verus! {

/// Failures surfaced by field and curve construction and arithmetic.
#[derive(Clone, Copy, Debug, PartialEq, Eq, Structural)]
pub enum FieldError {
    /// A field context was malformed (no modulus, empty irreducible polynomial,
    /// or a non-monic irreducible polynomial).
    InvalidField,
    /// Curve coefficients failed the non-singularity check.
    SingularCurve,
    /// An inverse of a non-unit was requested.
    NonInvertible,
    /// Operands of a binary operation referenced different field contexts.
    ContextMismatch,
}

} // verus!
