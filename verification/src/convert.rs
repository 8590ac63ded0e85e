//! Conversions to native integers.
//!
//! A value is first rounded to an integer under the requested mode, then
//! clamped to the target type's range.  A clamped result, a NaN or an
//! infinity raises the erange flag; callers that need to know beforehand use
//! the `fits` predicates, which raise nothing.

use vstd::prelude::*;
use vstd::arithmetic::power2::*;
use vstd::arithmetic::div_mod::{lemma_fundamental_div_mod_converse};
use crate::big::{Big, blen, lemma_blen_bounds, lemma_blen_is, lemma_blen_le, lemma_wf_len, lemma_pow2_le};
use crate::num::{Number, Kind, Val, Flags, Ctx};
use crate::round::{round_up_mag, finish_mag, Out, lemma_round_mag_bounds};
use crate::ops::lemma_fin_blen;
use crate::rnd_t;

verus! {

/// The value encoded by an IEEE-754 binary64 bit pattern.  Subnormal
/// patterns decode exactly; this engine has no subnormal values of its own,
/// so they become regular numbers.
pub open spec fn f64_bits_val(bits: nat) -> Val {
    let sign = bits / 0x8000_0000_0000_0000 == 1;
    let be = (bits / 0x10_0000_0000_0000) % 0x800;
    let frac = bits % 0x10_0000_0000_0000;
    if be == 0x7ff {
        if frac == 0 {
            Val::Inf { neg: sign }
        } else {
            Val::Nan
        }
    } else if be == 0 && frac == 0 {
        Val::Zero { neg: sign }
    } else if be == 0 {
        Val::Fin { neg: sign, m: frac, e: blen(frac) - 1074 }
    } else {
        Val::Fin { neg: sign, m: 0x10_0000_0000_0000 + frac, e: be - 1022 }
    }
}

/// What storing a binary64 bit pattern yields at precision `p`.
pub open spec fn set_f64_spec(bits: nat, p: nat, r: rnd_t, emin: int, emax: int) -> Out {
    match f64_bits_val(bits) {
        Val::Nan => crate::ops::nan_out(),
        Val::Inf { neg } => crate::ops::exact_out(Val::Inf { neg }),
        Val::Zero { neg } => crate::ops::exact_out(Val::Zero { neg }),
        Val::Fin { neg, m, e } => crate::ops::fin_out(neg, m, e, p, r, emin, emax),
    }
}

/// The binary64 encoding of a value that fits the binary64 normal range:
/// a 53-bit significand and an exponent in `[-1021, 1024]`.
pub open spec fn f64_encode(v: Val) -> nat {
    match v {
        Val::Nan => 0x7ff8_0000_0000_0000,
        Val::Inf { neg } => (if neg { 0x8000_0000_0000_0000nat } else { 0 })
            + 0x7ff0_0000_0000_0000,
        Val::Zero { neg } => if neg { 0x8000_0000_0000_0000nat } else { 0 },
        Val::Fin { neg, m, e } => (((if neg { 0x8000_0000_0000_0000int } else { 0int })
            + (e + 1022) * 0x10_0000_0000_0000 + (m - 0x10_0000_0000_0000)) as nat),
    }
}

/// What reading a value out as a binary64 yields: the value is rounded to 53
/// bits against the binary64 normal exponent range (an out-of-range result
/// overflows to infinity or the largest finite double, or underflows to zero
/// or the smallest normal double, by the engine's own range policy), then
/// encoded.  NaN encodes as the quiet NaN pattern with the invalid flag.
pub open spec fn get_f64_spec(v: Val, r: rnd_t) -> (nat, int, Flags) {
    match v {
        Val::Nan => (0x7ff8_0000_0000_0000, 0, Flags::invalid()),
        Val::Inf { neg } => (f64_encode(Val::Inf { neg }), 0, Flags::none()),
        Val::Zero { neg } => (f64_encode(Val::Zero { neg }), 0, Flags::none()),
        Val::Fin { neg, m, e } => {
            let out = finish_mag(neg, m, e - blen(m), false, 53, r, -1021, 1024);
            (f64_encode(out.v), out.t, out.f)
        },
    }
}

/// The magnitude of a finite value `m * 2^(e - blen(m))`, rounded to an
/// integer under mode `r` with the sign `neg`.
pub open spec fn rint_mag(m: nat, e: int, neg: bool, r: rnd_t) -> nat {
    if e >= blen(m) {
        m * pow2((e - blen(m)) as nat)
    } else {
        let d = (blen(m) - e) as nat;
        let q = m / pow2(d);
        let rem = m % pow2(d);
        let up = round_up_mag(q, rem, pow2((d - 1) as nat), false, neg, r);
        if up {
            q + 1
        } else {
            q
        }
    }
}

/// What `get_ui` returns, with whether the erange flag is raised.
pub open spec fn get_ui_spec(v: Val, r: rnd_t) -> (u64, bool) {
    match v {
        Val::Nan => (0, true),
        Val::Inf { neg } => (if neg { 0 } else { u64::MAX }, true),
        Val::Zero { .. } => (0, false),
        Val::Fin { neg, m, e } => {
            let i = rint_mag(m, e, neg, r);
            if neg {
                (0, i > 0)
            } else if i > u64::MAX {
                (u64::MAX, true)
            } else {
                (i as u64, false)
            }
        },
    }
}

/// What `get_si` returns, with whether the erange flag is raised.
pub open spec fn get_si_spec(v: Val, r: rnd_t) -> (i64, bool) {
    match v {
        Val::Nan => (0, true),
        Val::Inf { neg } => (if neg { i64::MIN } else { i64::MAX }, true),
        Val::Zero { .. } => (0, false),
        Val::Fin { neg, m, e } => {
            let i = rint_mag(m, e, neg, r);
            if neg {
                if i > 0x8000_0000_0000_0000 {
                    (i64::MIN, true)
                } else {
                    ((-(i as int)) as i64, false)
                }
            } else {
                if i > i64::MAX {
                    (i64::MAX, true)
                } else {
                    (i as i64, false)
                }
            }
        },
    }
}

impl Number {
    /// The magnitude of a regular number rounded to an integer.
    fn rint_mag_exec(&self, neg: bool, r: rnd_t) -> (i: Big)
        requires
            self.wf(),
            self.kind is Regular,
        ensures
            i.wf(),
            i@ == rint_mag(self.mant@, self.exp as int, neg, r),
            i@ < pow2(0x200_0000),
    {
        proof {
            lemma_fin_blen(self);
            lemma_wf_len(&self.mant, self.prec as nat);
        }
        if self.exp >= self.prec as i64 {
            proof {
                lemma_pow2_adds(self.prec as nat, (self.exp - self.prec) as nat);
                lemma_pow2_pos((self.exp - self.prec) as nat);
                assert(self.mant@ * pow2((self.exp - self.prec) as nat)
                    < pow2(self.prec as nat) * pow2((self.exp - self.prec) as nat))
                    by (nonlinear_arith)
                    requires
                        self.mant@ < pow2(self.prec as nat),
                        pow2((self.exp - self.prec) as nat) > 0,
                ;
                lemma_pow2_strictly_increases(self.exp as nat, 0x200_0000);
            }
            self.mant.shl((self.exp - self.prec as i64) as usize)
        } else {
            let d: usize = (self.prec as i64 - self.exp) as usize;
            let pd = Big::power_of_two(d);
            proof {
                lemma_pow2_pos(d as nat);
                lemma_pow2_strictly_increases(d as nat, (d + 1) as nat);
                lemma_wf_len(&pd, (d + 1) as nat);
            }
            let (q, rem) = self.mant.divrem(&pd);
            proof {
                lemma_fundamental_div_mod_converse(self.mant@ as int, pow2(d as nat) as int,
                    q@ as int, rem@ as int);
            }
            let inex = !rem.is_zero();
            let up: bool = match r {
                rnd_t::RNDZ => false,
                rnd_t::RNDF => false,
                rnd_t::RNDA => inex,
                rnd_t::RNDU => inex && !neg,
                rnd_t::RNDD => inex && neg,
                rnd_t::RNDN | rnd_t::RNDNA => {
                    let half = Big::power_of_two(d - 1);
                    let c = rem.cmp(&half);
                    if c > 0 {
                        true
                    } else if c < 0 {
                        false
                    } else if matches!(r, rnd_t::RNDNA) {
                        true
                    } else {
                        let two = Big::from_u64(2);
                        proof {
                            lemma2_to64();
                            lemma_wf_len(&two, 2);
                            lemma_pow2_pos(d as nat);
                            assert(q@ <= self.mant@) by (nonlinear_arith)
                                requires
                                    q@ * pow2(d as nat) + rem@ == self.mant@,
                                    pow2(d as nat) >= 1,
                                    rem@ >= 0,
                                    q@ >= 0,
                            ;
                            lemma_wf_len(&q, self.prec as nat);
                        }
                        let (_q2, pr) = q.divrem(&two);
                        proof {
                            lemma_fundamental_div_mod_converse(q@ as int, 2, _q2@ as int,
                                pr@ as int);
                        }
                        !pr.is_zero()
                    }
                },
            };
            proof {
                lemma_pow2_pos(d as nat);
                assert(q@ <= self.mant@) by (nonlinear_arith)
                    requires
                        q@ * pow2(d as nat) + rem@ == self.mant@,
                        pow2(d as nat) >= 1,
                        rem@ >= 0,
                        q@ >= 0,
                ;
                lemma_pow2_strictly_increases(self.prec as nat, 0x200_0000);
            }
            if up {
                q.add(&Big::from_u64(1))
            } else {
                q
            }
        }
    }

    /// Whether the value, rounded to an integer under `r`, fits an unsigned
    /// 64-bit integer.  Raises no flag.
    pub fn fits_ulong_p(&self, r: rnd_t) -> (ok: bool)
        requires
            self.wf(),
        ensures
            ok <==> (match self.val() {
                Val::Nan => false,
                Val::Inf { .. } => false,
                Val::Zero { .. } => true,
                Val::Fin { neg, m, e } => {
                    let i = rint_mag(m, e, neg, r);
                    if neg { i == 0 } else { i <= u64::MAX }
                },
            }),
    {
        match self.kind {
            Kind::Nan | Kind::Inf => false,
            Kind::Zero => true,
            Kind::Regular => {
                let i = self.rint_mag_exec(self.neg, r);
                proof {
                    lemma2_to64();
                    lemma2_to64_rest();
                    if i@ > 0 {
                        lemma_blen_bounds(i@);
                    }
                    if blen(i@) <= 64 {
                        lemma_pow2_le(blen(i@), 64);
                    }
                    if blen(i@) > 64 {
                        lemma_pow2_le(64, (blen(i@) - 1) as nat);
                    }
                    lemma_wf_len(&i, 0x200_0000);
                }
                if self.neg {
                    i.is_zero()
                } else {
                    let len = i.bitlen();
                    len <= 64
                }
            },
        }
    }

    /// Whether the value, rounded to an integer under `r`, fits a signed
    /// 64-bit integer.  Raises no flag.
    pub fn fits_slong_p(&self, r: rnd_t) -> (ok: bool)
        requires
            self.wf(),
        ensures
            ok <==> (match self.val() {
                Val::Nan => false,
                Val::Inf { .. } => false,
                Val::Zero { .. } => true,
                Val::Fin { neg, m, e } => {
                    let i = rint_mag(m, e, neg, r);
                    if neg { i <= 0x8000_0000_0000_0000 } else { i <= i64::MAX }
                },
            }),
    {
        match self.kind {
            Kind::Nan | Kind::Inf => false,
            Kind::Zero => true,
            Kind::Regular => {
                let i = self.rint_mag_exec(self.neg, r);
                proof {
                    lemma2_to64();
                    lemma2_to64_rest();
                    if i@ > 0 {
                        lemma_blen_bounds(i@);
                    }
                    if blen(i@) <= 64 {
                        lemma_pow2_le(blen(i@), 64);
                    }
                    if blen(i@) > 64 {
                        lemma_pow2_le(64, (blen(i@) - 1) as nat);
                    }
                    lemma_wf_len(&i, 0x200_0000);
                    if blen(i@) <= 63 {
                        lemma_pow2_le(blen(i@), 63);
                    }
                }
                let len = i.bitlen();
                if len > 64 {
                    return false;
                }
                let v = i.to_u64();
                if self.neg {
                    v <= 0x8000_0000_0000_0000
                } else {
                    v <= 0x7fff_ffff_ffff_ffff
                }
            },
        }
    }
}

impl Ctx {
    /// The value rounded to an integer under `r` and clamped to the range
    /// of an unsigned 64-bit integer; a clamp, a NaN or an infinity raises
    /// the erange flag.
    pub fn get_ui(&mut self, op: &Number, r: rnd_t) -> (v: u64)
        requires
            old(self).wf(),
            op.wf(),
        ensures
            final(self).wf(),
            ({
                let (sv, er) = get_ui_spec(op.val(), r);
                &&& v == sv
                &&& *final(self) == old(self).with_flags(Flags { erangeflag: er, ..Flags::none() })
            }),
    {
        match op.kind {
            Kind::Nan => {
                self.erangeflag = true;
                0
            },
            Kind::Inf => {
                self.erangeflag = true;
                if op.neg { 0 } else { u64::MAX }
            },
            Kind::Zero => 0,
            Kind::Regular => {
                let i = op.rint_mag_exec(op.neg, r);
                proof {
                    lemma2_to64();
                    lemma2_to64_rest();
                    if i@ > 0 {
                        lemma_blen_bounds(i@);
                    }
                    if blen(i@) <= 64 {
                        lemma_pow2_le(blen(i@), 64);
                    }
                    if blen(i@) > 64 {
                        lemma_pow2_le(64, (blen(i@) - 1) as nat);
                    }
                    lemma_wf_len(&i, 0x200_0000);
                }
                if op.neg {
                    if i.is_zero() {
                        0
                    } else {
                        self.erangeflag = true;
                        0
                    }
                } else {
                    let len = i.bitlen();
                    if len > 64 {
                        self.erangeflag = true;
                        u64::MAX
                    } else {
                        i.to_u64()
                    }
                }
            },
        }
    }

    /// The value rounded to an integer under `r` and clamped to the range
    /// of a signed 64-bit integer; a clamp, a NaN or an infinity raises the
    /// erange flag.
    pub fn get_si(&mut self, op: &Number, r: rnd_t) -> (v: i64)
        requires
            old(self).wf(),
            op.wf(),
        ensures
            final(self).wf(),
            ({
                let (sv, er) = get_si_spec(op.val(), r);
                &&& v == sv
                &&& *final(self) == old(self).with_flags(Flags { erangeflag: er, ..Flags::none() })
            }),
    {
        match op.kind {
            Kind::Nan => {
                self.erangeflag = true;
                0
            },
            Kind::Inf => {
                self.erangeflag = true;
                if op.neg { i64::MIN } else { i64::MAX }
            },
            Kind::Zero => 0,
            Kind::Regular => {
                let i = op.rint_mag_exec(op.neg, r);
                proof {
                    lemma2_to64();
                    lemma2_to64_rest();
                    if i@ > 0 {
                        lemma_blen_bounds(i@);
                    }
                    if blen(i@) <= 64 {
                        lemma_pow2_le(blen(i@), 64);
                    }
                    if blen(i@) > 64 {
                        lemma_pow2_le(64, (blen(i@) - 1) as nat);
                    }
                    lemma_wf_len(&i, 0x200_0000);
                }
                let len = i.bitlen();
                if op.neg {
                    if len > 64 {
                        self.erangeflag = true;
                        return i64::MIN;
                    }
                    let v = i.to_u64();
                    if v > 0x8000_0000_0000_0000 {
                        self.erangeflag = true;
                        i64::MIN
                    } else if v == 0x8000_0000_0000_0000 {
                        i64::MIN
                    } else {
                        -(v as i64)
                    }
                } else {
                    if len > 64 {
                        self.erangeflag = true;
                        return i64::MAX;
                    }
                    let v = i.to_u64();
                    if v > 0x7fff_ffff_ffff_ffff {
                        self.erangeflag = true;
                        i64::MAX
                    } else {
                        v as i64
                    }
                }
            },
        }
    }
}

impl Ctx {
    /// `rop <- ` the value of an IEEE-754 binary64 bit pattern, rounded
    /// into `rop`'s precision.  Special patterns map to the matching kind;
    /// subnormal patterns decode exactly.
    pub fn set_f64_bits(&mut self, rop: &mut Number, bits: u64, r: rnd_t) -> (t: i32)
        requires
            old(self).wf(),
            old(rop).wf(),
        ensures
            final(rop).wf(),
            final(rop).prec == old(rop).prec,
            final(self).wf(),
            ({
                let out = set_f64_spec(bits as nat, old(rop).prec as nat, r,
                    old(self).emin as int, old(self).emax as int);
                &&& final(rop).val() == out.v
                &&& t as int == out.t
                &&& *final(self) == old(self).with_flags(out.f)
            }),
    {
        let sign = bits / 0x8000_0000_0000_0000 == 1;
        let be = (bits / 0x10_0000_0000_0000) % 0x800;
        let frac = bits % 0x10_0000_0000_0000;
        if be == 0x7ff {
            if frac == 0 {
                rop.set_inf(sign);
                0
            } else {
                rop.set_nan();
                self.nanflag = true;
                0
            }
        } else if be == 0 && frac == 0 {
            rop.set_zero(sign);
            0
        } else if be == 0 {
            let mag = Big::from_u64(frac);
            proof {
                lemma2_to64();
                lemma2_to64_rest();
                lemma_blen_le(mag@, 53);
                if mag@ > 0 {
                    lemma_blen_bounds(mag@);
                }
            }
            self.round_finish(rop, sign, &mag, -1074, false, r)
        } else {
            let mag = Big::from_u64(0x10_0000_0000_0000 + frac);
            proof {
                lemma2_to64();
                lemma2_to64_rest();
                lemma_blen_is(mag@, 53);
            }
            let e0: i128 = be as i128 - 1075;
            self.round_finish(rop, sign, &mag, e0, false, r)
        }
    }

    /// The value as an IEEE-754 binary64 bit pattern, rounded to 53 bits
    /// against the binary64 normal exponent range under this engine's own
    /// overflow and underflow policy.
    #[verifier::rlimit(100)]
    pub fn get_f64_bits(&mut self, op: &Number, r: rnd_t) -> (bits: u64)
        requires
            old(self).wf(),
            op.wf(),
        ensures
            final(self).wf(),
            ({
                let (sb, st, sf) = get_f64_spec(op.val(), r);
                &&& bits as nat == sb
                &&& *final(self) == old(self).with_flags(sf)
            }),
    {
        match op.kind {
            Kind::Nan => {
                self.nanflag = true;
                0x7ff8_0000_0000_0000
            },
            Kind::Inf => {
                let sign: u64 = if op.neg { 0x8000_0000_0000_0000 } else { 0 };
                sign + 0x7ff0_0000_0000_0000
            },
            Kind::Zero => {
                if op.neg { 0x8000_0000_0000_0000 } else { 0 }
            },
            Kind::Regular => {
                proof {
                    lemma_fin_blen(op);
                }
                let mut sc = Ctx {
                    default_prec: 53,
                    default_rnd: r,
                    emin: -1021,
                    emax: 1024,
                    underflow: false,
                    overflow: false,
                    divby0: false,
                    nanflag: false,
                    inexflag: false,
                    erangeflag: false,
                };
                let mut tmp = Number::new(53);
                let e0: i128 = op.exp as i128 - op.prec as i128;
                let _t = sc.round_finish(&mut tmp, op.neg, &op.mant, e0, false, r);
                proof {
                    lemma2_to64();
                    lemma_round_mag_bounds(op.mant@, e0 as int, false, 53, op.neg, r);
                }
                if sc.overflow_p() {
                    self.overflow = true;
                }
                if sc.underflow_p() {
                    self.underflow = true;
                }
                if sc.inexflag_p() {
                    self.inexflag = true;
                }
                match tmp.kind {
                    Kind::Inf => {
                        let sign: u64 = if tmp.neg { 0x8000_0000_0000_0000 } else { 0 };
                        sign + 0x7ff0_0000_0000_0000
                    },
                    Kind::Zero => {
                        if tmp.neg { 0x8000_0000_0000_0000 } else { 0 }
                    },
                    Kind::Regular => {
                        proof {
                            lemma2_to64();
                            lemma2_to64_rest();
                            assert(tmp.prec == 53);
                            assert(pow2(52) <= tmp.mant@ < pow2(53));
                            assert(pow2(53) == 0x20_0000_0000_0000);
                        }
                        let v = tmp.mant.to_u64();
                        let frac = v - 0x10_0000_0000_0000;
                        let biased = (tmp.exp + 1022) as u64;
                        let sign: u64 = if tmp.neg { 0x8000_0000_0000_0000 } else { 0 };
                        sign + biased * 0x10_0000_0000_0000 + frac
                    },
                    Kind::Nan => {
                        proof {
                            assert(false);
                        }
                        0
                    },
                }
            },
        }
    }
}

} // verus!
