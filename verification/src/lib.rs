//! A multiple-precision binary floating-point engine.
//!
//! A `Number` carries its own precision (number of significant bits, chosen
//! at creation), a sign, a binary exponent and a limb significand, or one of
//! the special kinds NaN, infinity and zero.  Every arithmetic operation
//! computes an exact (or sticky-extended) intermediate, rounds it once to the
//! destination's precision under one of the supported rounding modes, clamps
//! it against the configured exponent range, and records sticky exception
//! flags in an explicit context.

use vstd::prelude::*;

pub mod big;
pub mod convert;
pub mod compare;
pub mod laws;
pub mod num;
pub mod ops;
pub mod round;

verus! {

/// Smallest precision (significant bits) a `Number` may have.
pub const PREC_MIN: usize = 2;

/// Largest precision (significant bits) a `Number` may have.
pub const PREC_MAX: usize = 0x80_0000;

/// Rounding modes.  `RNDF` (faithful) is implemented here as truncation
/// toward zero; `RNDNA` (nearest, ties away from zero) is provided for the
/// round-to-integer family.
#[allow(non_camel_case_types)]
#[derive(Clone, Copy, PartialEq, Eq, Structural, Debug)]
pub enum rnd_t {
    /// Nearest, ties to even.
    RNDN,
    /// Toward zero.
    RNDZ,
    /// Toward plus infinity.
    RNDU,
    /// Toward minus infinity.
    RNDD,
    /// Away from zero.
    RNDA,
    /// Faithful (here: truncation toward zero).
    RNDF,
    /// Nearest, ties away from zero.
    RNDNA,
}

} // verus!
