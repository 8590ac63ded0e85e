//! Comparisons and predicates.
//!
//! `cmp` and `cmpabs` order two non-NaN values and raise the invalid flag
//! when either operand is NaN; the predicate functions follow the unordered
//! conventions instead: every comparison against NaN is false, except the
//! explicit `unordered_p` query, and none of them touches a flag.  Zeros of
//! both signs compare equal.

use vstd::prelude::*;
use vstd::arithmetic::power2::*;
use crate::big::{blen, lemma_wf_len};
use crate::num::{Number, Kind, Val, Flags, Ctx};
use crate::ops::lemma_fin_blen;

verus! {

/// Three-way ordering of two finite magnitudes `m * 2^(e - blen(m))`, given
/// by their normalized exponents first and the aligned significands second.
pub open spec fn mag_cmp(m1: nat, e1: int, m2: nat, e2: int) -> int {
    if e1 < e2 {
        -1
    } else if e1 > e2 {
        1
    } else {
        let len = if blen(m1) >= blen(m2) { blen(m1) } else { blen(m2) };
        let a = m1 * pow2((len - blen(m1)) as nat);
        let b = m2 * pow2((len - blen(m2)) as nat);
        if a < b {
            -1
        } else if a > b {
            1
        } else {
            0
        }
    }
}

/// Three-way ordering of two non-NaN values.  Zeros of either sign are
/// equal and sit between the negative and the positive values.
pub open spec fn val_cmp(va: Val, vb: Val) -> int
    recommends
        !(va is Nan),
        !(vb is Nan),
{
    match (va, vb) {
        (Val::Inf { neg: n1 }, Val::Inf { neg: n2 }) => if n1 == n2 {
            0
        } else if n1 {
            -1
        } else {
            1
        },
        (Val::Inf { neg: n1 }, _) => if n1 { -1 } else { 1 },
        (_, Val::Inf { neg: n2 }) => if n2 { 1 } else { -1 },
        (Val::Zero { .. }, Val::Zero { .. }) => 0,
        (Val::Zero { .. }, Val::Fin { neg: n2, .. }) => if n2 { 1 } else { -1 },
        (Val::Fin { neg: n1, .. }, Val::Zero { .. }) => if n1 { -1 } else { 1 },
        (Val::Fin { neg: n1, m: m1, e: e1 }, Val::Fin { neg: n2, m: m2, e: e2 }) => {
            if n1 != n2 {
                if n1 { -1 } else { 1 }
            } else if n1 {
                -mag_cmp(m1, e1, m2, e2)
            } else {
                mag_cmp(m1, e1, m2, e2)
            }
        },
        (Val::Nan, _) => 0,
        (_, Val::Nan) => 0,
    }
}

/// Three-way ordering of the magnitudes of two non-NaN values.
pub open spec fn val_cmp_abs(va: Val, vb: Val) -> int
    recommends
        !(va is Nan),
        !(vb is Nan),
{
    match (va, vb) {
        (Val::Inf { .. }, Val::Inf { .. }) => 0,
        (Val::Inf { .. }, _) => 1,
        (_, Val::Inf { .. }) => -1,
        (Val::Zero { .. }, Val::Zero { .. }) => 0,
        (Val::Zero { .. }, Val::Fin { .. }) => -1,
        (Val::Fin { .. }, Val::Zero { .. }) => 1,
        (Val::Fin { m: m1, e: e1, .. }, Val::Fin { m: m2, e: e2, .. }) => mag_cmp(m1, e1, m2, e2),
        (Val::Nan, _) => 0,
        (_, Val::Nan) => 0,
    }
}

impl Number {
    /// Compares the magnitudes of two regular numbers.
    fn mag_cmp_exec(&self, other: &Number) -> (r: i32)
        requires
            self.wf(),
            other.wf(),
            self.kind is Regular,
            other.kind is Regular,
        ensures
            r as int == mag_cmp(self.mant@, self.exp as int, other.mant@, other.exp as int),
    {
        proof {
            lemma_fin_blen(self);
            lemma_fin_blen(other);
            lemma_wf_len(&self.mant, self.prec as nat);
            lemma_wf_len(&other.mant, other.prec as nat);
        }
        if self.exp < other.exp {
            return -1;
        }
        if self.exp > other.exp {
            return 1;
        }
        let len = if self.prec >= other.prec { self.prec } else { other.prec };
        let a = self.mant.shl(len - self.prec);
        let b = other.mant.shl(len - other.prec);
        a.cmp(&b)
    }
}

impl Ctx {
    /// Three-way comparison; 0 with the invalid flag raised when either
    /// operand is NaN.
    pub fn cmp(&mut self, a: &Number, b: &Number) -> (r: i32)
        requires
            old(self).wf(),
            a.wf(),
            b.wf(),
        ensures
            final(self).wf(),
            (a.val() is Nan || b.val() is Nan) ==> (r == 0
                && *final(self) == old(self).with_flags(Flags::invalid())),
            !(a.val() is Nan) && !(b.val() is Nan) ==> (r as int == val_cmp(a.val(), b.val())
                && *final(self) == old(self).with_flags(Flags::none())),
    {
        match (a.kind, b.kind) {
            (Kind::Nan, _) | (_, Kind::Nan) => {
                self.nanflag = true;
                0
            },
            (Kind::Inf, Kind::Inf) => {
                if a.neg == b.neg { 0 } else if a.neg { -1 } else { 1 }
            },
            (Kind::Inf, _) => if a.neg { -1 } else { 1 },
            (_, Kind::Inf) => if b.neg { 1 } else { -1 },
            (Kind::Zero, Kind::Zero) => 0,
            (Kind::Zero, Kind::Regular) => if b.neg { 1 } else { -1 },
            (Kind::Regular, Kind::Zero) => if a.neg { -1 } else { 1 },
            (Kind::Regular, Kind::Regular) => {
                if a.neg != b.neg {
                    if a.neg { -1 } else { 1 }
                } else {
                    let c = a.mag_cmp_exec(b);
                    if a.neg { -c } else { c }
                }
            },
        }
    }

    /// Three-way comparison of magnitudes; 0 with the invalid flag when
    /// either operand is NaN.
    pub fn cmpabs(&mut self, a: &Number, b: &Number) -> (r: i32)
        requires
            old(self).wf(),
            a.wf(),
            b.wf(),
        ensures
            final(self).wf(),
            (a.val() is Nan || b.val() is Nan) ==> (r == 0
                && *final(self) == old(self).with_flags(Flags::invalid())),
            !(a.val() is Nan) && !(b.val() is Nan) ==> (r as int == val_cmp_abs(a.val(), b.val())
                && *final(self) == old(self).with_flags(Flags::none())),
    {
        match (a.kind, b.kind) {
            (Kind::Nan, _) | (_, Kind::Nan) => {
                self.nanflag = true;
                0
            },
            (Kind::Inf, Kind::Inf) => 0,
            (Kind::Inf, _) => 1,
            (_, Kind::Inf) => -1,
            (Kind::Zero, Kind::Zero) => 0,
            (Kind::Zero, Kind::Regular) => -1,
            (Kind::Regular, Kind::Zero) => 1,
            (Kind::Regular, Kind::Regular) => a.mag_cmp_exec(b),
        }
    }

    /// The sign of the value: -1, 0 or 1; 0 with the invalid flag for NaN.
    pub fn sgn(&mut self, a: &Number) -> (r: i32)
        requires
            old(self).wf(),
            a.wf(),
        ensures
            final(self).wf(),
            a.val() is Nan ==> (r == 0 && *final(self) == old(self).with_flags(Flags::invalid())),
            !(a.val() is Nan) ==> (*final(self) == old(self).with_flags(Flags::none())
                && r as int == (match a.val() {
                    Val::Zero { .. } => 0int,
                    Val::Inf { neg } => if neg { -1int } else { 1int },
                    Val::Fin { neg, .. } => if neg { -1int } else { 1int },
                    Val::Nan => 0int,
                })),
    {
        match a.kind {
            Kind::Nan => {
                self.nanflag = true;
                0
            },
            Kind::Zero => 0,
            _ => if a.neg { -1 } else { 1 },
        }
    }
}

impl Number {
    /// Equality in the unordered sense: false when either side is NaN.
    pub fn equal_p(&self, other: &Number) -> (r: bool)
        requires
            self.wf(),
            other.wf(),
        ensures
            r <==> (!(self.val() is Nan) && !(other.val() is Nan)
                && val_cmp(self.val(), other.val()) == 0),
    {
        let mut scratch = Ctx::new();
        let c = scratch.cmp(self, other);
        !self.nan_p() && !other.nan_p() && c == 0
    }

    /// Strictly less, false when either side is NaN.
    pub fn less_p(&self, other: &Number) -> (r: bool)
        requires
            self.wf(),
            other.wf(),
        ensures
            r <==> (!(self.val() is Nan) && !(other.val() is Nan)
                && val_cmp(self.val(), other.val()) == -1),
    {
        let mut scratch = Ctx::new();
        let c = scratch.cmp(self, other);
        !self.nan_p() && !other.nan_p() && c == -1
    }

    /// Less or equal, false when either side is NaN.
    pub fn lessequal_p(&self, other: &Number) -> (r: bool)
        requires
            self.wf(),
            other.wf(),
        ensures
            r <==> (!(self.val() is Nan) && !(other.val() is Nan)
                && val_cmp(self.val(), other.val()) <= 0),
    {
        let mut scratch = Ctx::new();
        let c = scratch.cmp(self, other);
        !self.nan_p() && !other.nan_p() && c <= 0
    }

    /// Strictly greater, false when either side is NaN.
    pub fn greater_p(&self, other: &Number) -> (r: bool)
        requires
            self.wf(),
            other.wf(),
        ensures
            r <==> (!(self.val() is Nan) && !(other.val() is Nan)
                && val_cmp(self.val(), other.val()) == 1),
    {
        let mut scratch = Ctx::new();
        let c = scratch.cmp(self, other);
        !self.nan_p() && !other.nan_p() && c == 1
    }

    /// Greater or equal, false when either side is NaN.
    pub fn greaterequal_p(&self, other: &Number) -> (r: bool)
        requires
            self.wf(),
            other.wf(),
        ensures
            r <==> (!(self.val() is Nan) && !(other.val() is Nan)
                && val_cmp(self.val(), other.val()) >= 0),
    {
        let mut scratch = Ctx::new();
        let c = scratch.cmp(self, other);
        !self.nan_p() && !other.nan_p() && c >= 0
    }

    /// Strictly ordered and different: less or greater, false on NaN.
    pub fn lessgreater_p(&self, other: &Number) -> (r: bool)
        requires
            self.wf(),
            other.wf(),
        ensures
            r <==> (!(self.val() is Nan) && !(other.val() is Nan)
                && val_cmp(self.val(), other.val()) != 0),
    {
        let mut scratch = Ctx::new();
        let c = scratch.cmp(self, other);
        !self.nan_p() && !other.nan_p() && c != 0
    }

    /// True exactly when the two values cannot be ordered: one is NaN.
    pub fn unordered_p(&self, other: &Number) -> (r: bool)
        requires
            self.wf(),
            other.wf(),
        ensures
            r <==> (self.val() is Nan || other.val() is Nan),
    {
        self.nan_p() || other.nan_p()
    }
}

} // verus!
