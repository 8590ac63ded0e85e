//! The floating-point value and the arithmetic context.
//!
//! A `Number` is a sign, a kind tag, a precision, and — for regular values —
//! a normalized integer significand `m` with exactly `prec` bits together
//! with an exponent `e`, standing for the value `(-1)^sign * m * 2^(e -
//! prec)`, so that the magnitude lies in `[2^(e-1), 2^e)`.  A `Ctx` carries
//! the process-wide configuration: default precision and rounding mode, the
//! exponent range, and the six sticky exception flags.

use vstd::prelude::*;
use vstd::arithmetic::power2::*;
use crate::big::Big;
use crate::rnd_t;
use crate::{PREC_MIN, PREC_MAX};

verus! {

/// Smallest exponent the platform ever allows.
pub const EXP_MIN_MIN: i64 = -0x80_0000;

/// Largest exponent the platform ever allows.
pub const EXP_MAX_MAX: i64 = 0x80_0000;

/// The kind of a floating-point value.
#[derive(Clone, Copy, PartialEq, Eq, Structural, Debug)]
pub enum Kind {
    Nan,
    Inf,
    Zero,
    Regular,
}

/// The mathematical value of a `Number`.
pub ghost enum Val {
    Nan,
    Inf { neg: bool },
    Zero { neg: bool },
    /// `(-1)^neg * m * 2^(e - p)` where `p` is the owning number's precision;
    /// `m` is normalized: `2^(p-1) <= m < 2^p`.
    Fin { neg: bool, m: nat, e: int },
}

impl Val {
    pub open spec fn is_nan(self) -> bool {
        self is Nan
    }

    /// The sign field of any value, NaN included.
    pub open spec fn sign(self) -> bool {
        match self {
            Val::Nan => false,
            Val::Inf { neg } => neg,
            Val::Zero { neg } => neg,
            Val::Fin { neg, .. } => neg,
        }
    }
}

/// A floating-point number with its own precision.
pub struct Number {
    pub prec: usize,
    pub neg: bool,
    pub exp: i64,
    pub kind: Kind,
    pub mant: Big,
}

impl Number {
    /// Structural invariant: the precision is in range, the significand is
    /// canonical and, for regular values, normalized to exactly `prec` bits
    /// with the exponent inside the platform range.  Special kinds store a
    /// zero significand and a zero exponent.
    pub open spec fn wf(&self) -> bool {
        &&& PREC_MIN <= self.prec <= PREC_MAX
        &&& self.mant.wf()
        &&& match self.kind {
            Kind::Regular => {
                &&& pow2((self.prec - 1) as nat) <= self.mant@ < pow2(self.prec as nat)
                &&& EXP_MIN_MIN <= self.exp <= EXP_MAX_MAX
            },
            _ => self.mant@ == 0 && self.exp == 0,
        }
    }

    /// The value this number stands for.
    pub open spec fn val(&self) -> Val {
        match self.kind {
            Kind::Nan => Val::Nan,
            Kind::Inf => Val::Inf { neg: self.neg },
            Kind::Zero => Val::Zero { neg: self.neg },
            Kind::Regular => Val::Fin { neg: self.neg, m: self.mant@, e: self.exp as int },
        }
    }

    /// Creates a number of the given precision; its value starts as NaN.
    pub fn new(prec: usize) -> (r: Number)
        requires
            PREC_MIN <= prec <= PREC_MAX,
        ensures
            r.wf(),
            r.prec == prec,
            r.val() == Val::Nan,
    {
        Number { prec, neg: false, exp: 0, kind: Kind::Nan, mant: Big::zero() }
    }

    /// The precision, in significant bits.
    pub fn get_prec(&self) -> (r: usize)
        ensures
            r == self.prec,
    {
        self.prec
    }

    /// Resets the precision; the value is lost and becomes NaN.
    pub fn set_prec(&mut self, prec: usize)
        requires
            PREC_MIN <= prec <= PREC_MAX,
        ensures
            final(self).wf(),
            final(self).prec == prec,
            final(self).val() == Val::Nan,
    {
        self.prec = prec;
        self.neg = false;
        self.exp = 0;
        self.kind = Kind::Nan;
        self.mant = Big::zero();
    }

    pub fn nan_p(&self) -> (r: bool)
        ensures
            r <==> self.val() is Nan,
    {
        matches!(self.kind, Kind::Nan)
    }

    pub fn inf_p(&self) -> (r: bool)
        ensures
            r <==> self.val() is Inf,
    {
        matches!(self.kind, Kind::Inf)
    }

    pub fn zero_p(&self) -> (r: bool)
        ensures
            r <==> self.val() is Zero,
    {
        matches!(self.kind, Kind::Zero)
    }

    pub fn regular_p(&self) -> (r: bool)
        ensures
            r <==> self.val() is Fin,
    {
        matches!(self.kind, Kind::Regular)
    }

    /// Finite (zero or regular): neither NaN nor infinite.
    pub fn number_p(&self) -> (r: bool)
        ensures
            r <==> (self.val() is Zero || self.val() is Fin),
    {
        matches!(self.kind, Kind::Zero | Kind::Regular)
    }

    /// The stored sign bit; meaningful for every kind, NaN included.
    pub fn signbit(&self) -> (r: bool)
        ensures
            r == self.neg,
    {
        self.neg
    }

    /// The exponent field: for a regular value the position of the radix
    /// point, with the magnitude in `[2^(exp-1), 2^exp)`.
    pub fn get_exp(&self) -> (r: i64)
        ensures
            r == self.exp,
    {
        self.exp
    }

    /// Sets the value to NaN; the sign is left in a fixed state.
    pub fn set_nan(&mut self)
        requires
            old(self).wf(),
        ensures
            final(self).wf(),
            final(self).prec == old(self).prec,
            final(self).val() == Val::Nan,
    {
        self.neg = false;
        self.exp = 0;
        self.kind = Kind::Nan;
        self.mant = Big::zero();
    }

    /// Sets the value to an infinity of the given sign.
    pub fn set_inf(&mut self, neg: bool)
        requires
            old(self).wf(),
        ensures
            final(self).wf(),
            final(self).prec == old(self).prec,
            final(self).val() == (Val::Inf { neg }),
    {
        self.neg = neg;
        self.exp = 0;
        self.kind = Kind::Inf;
        self.mant = Big::zero();
    }

    /// Sets the value to a zero of the given sign.
    pub fn set_zero(&mut self, neg: bool)
        requires
            old(self).wf(),
        ensures
            final(self).wf(),
            final(self).prec == old(self).prec,
            final(self).val() == (Val::Zero { neg }),
    {
        self.neg = neg;
        self.exp = 0;
        self.kind = Kind::Zero;
        self.mant = Big::zero();
    }

    /// Exchanges the whole state of two numbers, precisions included.
    pub fn swap(&mut self, other: &mut Number)
        ensures
            *final(self) == *old(other),
            *final(other) == *old(self),
    {
        core::mem::swap(self, other);
    }

    /// True when the two numbers have identical representations: same
    /// precision, kind, sign, exponent and significand digits.
    pub fn same_repr(&self, other: &Number) -> (r: bool)
        requires
            self.wf(),
            other.wf(),
        ensures
            r <==> (self.prec == other.prec && self.neg == other.neg
                && self.val() == other.val()),
    {
        proof {
            if self.kind == other.kind && self.neg == other.neg && self.exp == other.exp
                && self.prec == other.prec && self.mant@ == other.mant@ {
                assert(self.val() == other.val());
            }
        }
        self.prec == other.prec && self.neg == other.neg && self.exp == other.exp
            && matches!((self.kind, other.kind),
                (Kind::Nan, Kind::Nan) | (Kind::Inf, Kind::Inf) | (Kind::Zero, Kind::Zero)
                | (Kind::Regular, Kind::Regular))
            && self.mant.cmp(&other.mant) == 0
    }
}

/// The six sticky exception flags, as a record.
pub ghost struct Flags {
    pub underflow: bool,
    pub overflow: bool,
    pub divby0: bool,
    pub nanflag: bool,
    pub inexflag: bool,
    pub erangeflag: bool,
}

impl Flags {
    /// No flag raised.
    pub open spec fn none() -> Flags {
        Flags {
            underflow: false,
            overflow: false,
            divby0: false,
            nanflag: false,
            inexflag: false,
            erangeflag: false,
        }
    }

    /// Only the invalid (NaN) flag raised.
    pub open spec fn invalid() -> Flags {
        Flags { nanflag: true, ..Flags::none() }
    }

    /// Only the inexact flag, when the ternary is nonzero.
    pub open spec fn inex_only(t: int) -> Flags {
        Flags { inexflag: t != 0, ..Flags::none() }
    }
}

/// The arithmetic context: configuration and sticky flags.
pub struct Ctx {
    pub default_prec: usize,
    pub default_rnd: rnd_t,
    pub emin: i64,
    pub emax: i64,
    pub underflow: bool,
    pub overflow: bool,
    pub divby0: bool,
    pub nanflag: bool,
    pub inexflag: bool,
    pub erangeflag: bool,
}

impl Ctx {
    pub open spec fn wf(&self) -> bool {
        &&& PREC_MIN <= self.default_prec <= PREC_MAX
        &&& EXP_MIN_MIN <= self.emin <= self.emax <= EXP_MAX_MAX
    }

    /// The context with the given flags OR-ed into the sticky flags and
    /// everything else unchanged.
    pub open spec fn with_flags(&self, f: Flags) -> Ctx {
        Ctx {
            default_prec: self.default_prec,
            default_rnd: self.default_rnd,
            emin: self.emin,
            emax: self.emax,
            underflow: self.underflow || f.underflow,
            overflow: self.overflow || f.overflow,
            divby0: self.divby0 || f.divby0,
            nanflag: self.nanflag || f.nanflag,
            inexflag: self.inexflag || f.inexflag,
            erangeflag: self.erangeflag || f.erangeflag,
        }
    }

    /// A fresh context: nearest rounding, 53-bit default precision, the
    /// widest exponent range, no flag raised.
    pub fn new() -> (r: Ctx)
        ensures
            r.wf(),
            r.default_prec == 53,
            r.default_rnd == rnd_t::RNDN,
            r.emin == EXP_MIN_MIN,
            r.emax == EXP_MAX_MAX,
            !r.underflow && !r.overflow && !r.divby0 && !r.nanflag && !r.inexflag
                && !r.erangeflag,
    {
        Ctx {
            default_prec: 53,
            default_rnd: rnd_t::RNDN,
            emin: EXP_MIN_MIN,
            emax: EXP_MAX_MAX,
            underflow: false,
            overflow: false,
            divby0: false,
            nanflag: false,
            inexflag: false,
            erangeflag: false,
        }
    }

    pub fn set_default_prec(&mut self, prec: usize)
        requires
            old(self).wf(),
            PREC_MIN <= prec <= PREC_MAX,
        ensures
            final(self).wf(),
            *final(self) == (Ctx { default_prec: prec, ..*old(self) }),
    {
        self.default_prec = prec;
    }

    pub fn get_default_prec(&self) -> (r: usize)
        ensures
            r == self.default_prec,
    {
        self.default_prec
    }

    pub fn set_default_rounding_mode(&mut self, rnd: rnd_t)
        ensures
            *final(self) == (Ctx { default_rnd: rnd, ..*old(self) }),
    {
        self.default_rnd = rnd;
    }

    pub fn get_default_rounding_mode(&self) -> (r: rnd_t)
        ensures
            r == self.default_rnd,
    {
        self.default_rnd
    }

    pub fn get_emin(&self) -> (r: i64)
        ensures
            r == self.emin,
    {
        self.emin
    }

    pub fn get_emax(&self) -> (r: i64)
        ensures
            r == self.emax,
    {
        self.emax
    }

    /// Sets the lower exponent bound.  Fails, changing nothing, when the
    /// request would leave the platform range or cross `emax`.
    pub fn set_emin(&mut self, e: i64) -> (ok: i32)
        requires
            old(self).wf(),
        ensures
            final(self).wf(),
            ok == 0 <==> (EXP_MIN_MIN <= e <= old(self).emax),
            ok == 0 ==> *final(self) == (Ctx { emin: e, ..*old(self) }),
            ok != 0 ==> *final(self) == *old(self),
    {
        if EXP_MIN_MIN <= e && e <= self.emax {
            self.emin = e;
            0
        } else {
            -1
        }
    }

    /// Sets the upper exponent bound.  Fails, changing nothing, when the
    /// request would leave the platform range or cross `emin`.
    pub fn set_emax(&mut self, e: i64) -> (ok: i32)
        requires
            old(self).wf(),
        ensures
            final(self).wf(),
            ok == 0 <==> (old(self).emin <= e <= EXP_MAX_MAX),
            ok == 0 ==> *final(self) == (Ctx { emax: e, ..*old(self) }),
            ok != 0 ==> *final(self) == *old(self),
    {
        if self.emin <= e && e <= EXP_MAX_MAX {
            self.emax = e;
            0
        } else {
            -1
        }
    }

    pub fn underflow_p(&self) -> (r: bool)
        ensures
            r == self.underflow,
    {
        self.underflow
    }

    pub fn overflow_p(&self) -> (r: bool)
        ensures
            r == self.overflow,
    {
        self.overflow
    }

    pub fn divby0_p(&self) -> (r: bool)
        ensures
            r == self.divby0,
    {
        self.divby0
    }

    pub fn nanflag_p(&self) -> (r: bool)
        ensures
            r == self.nanflag,
    {
        self.nanflag
    }

    pub fn inexflag_p(&self) -> (r: bool)
        ensures
            r == self.inexflag,
    {
        self.inexflag
    }

    pub fn erangeflag_p(&self) -> (r: bool)
        ensures
            r == self.erangeflag,
    {
        self.erangeflag
    }

    pub fn clear_underflow(&mut self)
        ensures
            *final(self) == (Ctx { underflow: false, ..*old(self) }),
    {
        self.underflow = false;
    }

    pub fn clear_overflow(&mut self)
        ensures
            *final(self) == (Ctx { overflow: false, ..*old(self) }),
    {
        self.overflow = false;
    }

    pub fn clear_divby0(&mut self)
        ensures
            *final(self) == (Ctx { divby0: false, ..*old(self) }),
    {
        self.divby0 = false;
    }

    pub fn clear_nanflag(&mut self)
        ensures
            *final(self) == (Ctx { nanflag: false, ..*old(self) }),
    {
        self.nanflag = false;
    }

    pub fn clear_inexflag(&mut self)
        ensures
            *final(self) == (Ctx { inexflag: false, ..*old(self) }),
    {
        self.inexflag = false;
    }

    pub fn clear_erangeflag(&mut self)
        ensures
            *final(self) == (Ctx { erangeflag: false, ..*old(self) }),
    {
        self.erangeflag = false;
    }

    /// Clears all six sticky flags at once.
    pub fn clear_flags(&mut self)
        ensures
            *final(self) == (Ctx {
                underflow: false,
                overflow: false,
                divby0: false,
                nanflag: false,
                inexflag: false,
                erangeflag: false,
                ..*old(self)
            }),
    {
        self.underflow = false;
        self.overflow = false;
        self.divby0 = false;
        self.nanflag = false;
        self.inexflag = false;
        self.erangeflag = false;
    }
}

} // verus!
