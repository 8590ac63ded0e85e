//! The rounding engine and the exponent-range guard.
//!
//! Every operation reduces to: an exact positive magnitude `(m0 + d) * 2^e0`
//! with `0 <= d < 1` (`d > 0` exactly when `sticky` is set), a sign, a target
//! precision and a rounding mode.  `round_mag` says which normalized
//! significand comes out and whether it is exact, larger or smaller than the
//! true value; `finish_mag` additionally clamps the exponent against the
//! configured range, turning overflow into an infinity or the largest finite
//! value and underflow into zero or the smallest positive magnitude, and says
//! which sticky flags the step raises.

use vstd::prelude::*;
use vstd::arithmetic::power2::*;
use vstd::arithmetic::div_mod::*;
use crate::big::{Big, blen, lemma_blen_bounds, lemma_blen_is, lemma_blen_shift, lemma_wf_len};
use crate::num::{Number, Kind, Val, Flags, Ctx};
use crate::rnd_t;

verus! {

/// A rounded magnitude: normalized significand, exponent, ternary.
pub ghost struct Rnd {
    pub m: nat,
    pub e: int,
    pub t: int,
}

/// Whether rounding moves the magnitude up.  `q` is the truncated
/// significand, `rem` the discarded part out of `2 * half`, and `sticky`
/// tells that further nonzero bits were discarded below `rem`.
pub open spec fn round_up_mag(q: nat, rem: nat, half: nat, sticky: bool, neg: bool, r: rnd_t) -> bool {
    let inex = rem != 0 || sticky;
    match r {
        rnd_t::RNDZ => false,
        rnd_t::RNDF => false,
        rnd_t::RNDA => inex,
        rnd_t::RNDU => inex && !neg,
        rnd_t::RNDD => inex && neg,
        rnd_t::RNDN => rem > half || (rem == half && (sticky || q % 2 == 1)),
        rnd_t::RNDNA => rem >= half,
    }
}

/// Correct rounding of the magnitude `(m0 + d) * 2^e0` — with `0 <= d < 1`
/// and `d > 0` exactly when `sticky` — to `p` significant bits.  The ternary
/// is 0 when the result equals the input, positive when the rounded magnitude
/// of a positive value exceeds it, negative in the mirrored cases.
pub open spec fn round_mag(m0: nat, e0: int, sticky: bool, p: nat, neg: bool, r: rnd_t) -> Rnd
    recommends
        m0 > 0,
        p >= 1,
        sticky ==> blen(m0) >= p + 2,
{
    let len = blen(m0);
    if len <= p {
        Rnd { m: m0 * pow2((p - len) as nat), e: e0 + len, t: 0 }
    } else {
        let d = (len - p) as nat;
        let q = m0 / pow2(d);
        let rem = m0 % pow2(d);
        let half = pow2((d - 1) as nat);
        let up = round_up_mag(q, rem, half, sticky, neg, r);
        let inex = rem != 0 || sticky;
        let t: int = if !inex {
            0
        } else if up {
            if neg { -1 } else { 1 }
        } else {
            if neg { 1 } else { -1 }
        };
        if up && q + 1 == pow2(p) {
            Rnd { m: pow2((p - 1) as nat), e: e0 + len + 1, t }
        } else {
            Rnd { m: if up { q + 1 } else { q }, e: e0 + len, t }
        }
    }
}

/// The rounded significand is normalized to exactly `p` bits, and the
/// exponent is the natural exponent of the input, possibly one more.
pub proof fn lemma_round_mag_bounds(m0: nat, e0: int, sticky: bool, p: nat, neg: bool, r: rnd_t)
    requires
        m0 > 0,
        p >= 1,
    ensures
        ({
            let rr = round_mag(m0, e0, sticky, p, neg, r);
            &&& pow2((p - 1) as nat) <= rr.m < pow2(p)
            &&& e0 + blen(m0) <= rr.e <= e0 + blen(m0) + 1
        }),
{
    lemma_blen_bounds(m0);
    let len = blen(m0);
    lemma_pow2_pos((p - 1) as nat);
    lemma_pow2_pos(p);
    if len <= p {
        lemma_pow2_adds((len - 1) as nat, (p - len) as nat);
        lemma_pow2_adds(len, (p - len) as nat);
        let pd = pow2((p - len) as nat);
        lemma_pow2_pos((p - len) as nat);
        assert(m0 * pd >= pow2((len - 1) as nat) * pd) by (nonlinear_arith)
            requires m0 >= pow2((len - 1) as nat), pd > 0,
        ;
        assert(m0 * pd <= (pow2(len) - 1) * pd) by (nonlinear_arith)
            requires m0 <= pow2(len) - 1, pd > 0,
        ;
        assert((pow2(len) - 1) * pd == pow2(len) * pd - pd) by (nonlinear_arith);
    } else {
        let d = (len - p) as nat;
        let q = m0 / pow2(d);
        lemma_pow2_pos(d);
        lemma_fundamental_div_mod(m0 as int, pow2(d) as int);
        lemma_pow2_adds(d, (p - 1) as nat);
        lemma_pow2_adds(d, p);
        // lower bound: q >= 2^(p-1)
        assert(m0 >= pow2(d) * pow2((p - 1) as nat));
        assert(q >= pow2((p - 1) as nat)) by (nonlinear_arith)
            requires
                m0 == pow2(d) * (m0 / pow2(d)) + m0 % pow2(d),
                m0 % pow2(d) < pow2(d),
                m0 >= pow2(d) * pow2((p - 1) as nat),
                pow2(d) > 0,
                q == m0 / pow2(d),
        ;
        // upper bound: q < 2^p
        assert(q < pow2(p)) by (nonlinear_arith)
            requires
                m0 == pow2(d) * (m0 / pow2(d)) + m0 % pow2(d),
                m0 % pow2(d) >= 0,
                m0 < pow2(d) * pow2(p),
                pow2(d) > 0,
                q == m0 / pow2(d),
        ;
        lemma_pow2_adds((p - 1) as nat, 1);
        lemma2_to64();
        assert(pow2(p) == pow2((p - 1) as nat) * 2);
    }
}

/// Rounding an already representable magnitude returns it unchanged and
/// reports exactness.
pub proof fn lemma_round_id(m: nat, e0: int, p: nat, neg: bool, r: rnd_t)
    requires
        p >= 1,
        pow2((p - 1) as nat) <= m < pow2(p),
    ensures
        round_mag(m, e0, false, p, neg, r) == (Rnd { m, e: e0 + p, t: 0 }),
{
    lemma_pow2_pos((p - 1) as nat);
    lemma_blen_is(m, p);
    lemma2_to64();
    assert(m * pow2(0) == m) by (nonlinear_arith)
        requires pow2(0) == 1,
    ;
}

/// Two scaled magnitudes stand for the same value: `a * 2^ea == b * 2^eb`,
/// written over naturals by shifting whichever side has the smaller scale.
pub open spec fn same_scaled(a: nat, ea: int, b: nat, eb: int) -> bool {
    if ea <= eb {
        a == b * pow2((eb - ea) as nat)
    } else {
        a * pow2((ea - eb) as nat) == b
    }
}

/// Rounding a magnitude that equals a value already representable at
/// precision `p` returns exactly that representation.
pub proof fn lemma_round_of_equal(m0: nat, e0: int, m: nat, e: int, p: nat, neg: bool, r: rnd_t)
    requires
        p >= 1,
        pow2((p - 1) as nat) <= m < pow2(p),
        m0 > 0,
        same_scaled(m0, e0, m, e - p),
    ensures
        round_mag(m0, e0, false, p, neg, r) == (Rnd { m, e, t: 0 }),
{
    lemma_pow2_pos((p - 1) as nat);
    lemma_blen_is(m, p);
    if e0 <= e - p {
        // m0 == m * 2^j: a wider exact multiple
        let j = ((e - p) - e0) as nat;
        lemma_blen_shift(m, j);
        let len = blen(m0);
        assert(len == p + j);
        if j == 0 {
            lemma_round_id(m, e0, p, neg, r);
            lemma2_to64();
            assert(m * pow2(0) == m) by (nonlinear_arith)
                requires pow2(0) == 1,
            ;
        } else {
            let d = (len - p) as nat;
            assert(d == j);
            lemma_pow2_pos(d);
            vstd::arithmetic::div_mod::lemma_fundamental_div_mod_converse(m0 as int,
                pow2(d) as int, m as int, 0);
            assert(m0 == m * pow2(d));
            assert(m0 == pow2(d) * m + 0) by (nonlinear_arith)
                requires m0 == m * pow2(d),
            ;
            assert(m0 / pow2(d) == m && m0 % pow2(d) == 0);
            lemma_pow2_pos((d - 1) as nat);
        }
    } else {
        // m0 * 2^j == m: fewer digits than p, zero-extended by rounding
        let j = (e0 - (e - p)) as nat;
        lemma_blen_shift(m0, j);
        let len = blen(m0);
        assert(len + j == p);
        assert(m0 * pow2((p - len) as nat) == m);
    }
}

/// A magnitude that stands for a representable value inside the exponent
/// range rounds and clamps to exactly that representation, with no flag.
pub proof fn lemma_finish_of_equal(m0: nat, e0: int, m: nat, e: int, p: nat, neg: bool, r: rnd_t, emin: int, emax: int)
    requires
        p >= 1,
        pow2((p - 1) as nat) <= m < pow2(p),
        m0 > 0,
        same_scaled(m0, e0, m, e - p),
        emin <= e <= emax,
    ensures
        finish_mag(neg, m0, e0, false, p, r, emin, emax)
            == (Out { v: Val::Fin { neg, m, e }, t: 0, f: Flags::none() }),
{
    lemma_round_of_equal(m0, e0, m, e, p, neg, r);
}

/// Every value stands for itself at its own scale.
pub proof fn lemma_same_scaled_refl(m: nat, e: int)
    ensures
        same_scaled(m, e, m, e),
{
    lemma2_to64();
    assert(m * pow2(0) == m) by (nonlinear_arith)
        requires pow2(0) == 1,
    ;
}

/// When rounding reports exactness, the result stands for the input value.
pub proof fn lemma_round_exact_val(m0: nat, e0: int, p: nat, neg: bool, r: rnd_t)
    requires
        m0 > 0,
        p >= 1,
        round_mag(m0, e0, false, p, neg, r).t == 0,
    ensures
        ({
            let rr = round_mag(m0, e0, false, p, neg, r);
            same_scaled(m0, e0, rr.m, rr.e - p)
        }),
{
    let rr = round_mag(m0, e0, false, p, neg, r);
    lemma_blen_bounds(m0);
    lemma2_to64();
    let len = blen(m0);
    if len <= p {
        assert(rr.m == m0 * pow2((p - len) as nat));
        assert(rr.e - p == e0 - ((p - len) as int));
        if len == p {
            assert(m0 * pow2(0) == m0) by (nonlinear_arith)
                requires pow2(0) == 1,
            ;
            assert(rr.m * pow2(0) == rr.m) by (nonlinear_arith)
                requires pow2(0) == 1,
            ;
        }
    } else {
        let d = (len - p) as nat;
        lemma_pow2_pos(d);
        lemma_fundamental_div_mod(m0 as int, pow2(d) as int);
        // exactness forces a zero remainder and no rounding up
        assert(m0 % pow2(d) == 0);
        assert(!round_up_mag(m0 / pow2(d), 0, pow2((d - 1) as nat), false, neg, r)) by {
            lemma_pow2_pos((d - 1) as nat);
        }
        assert(rr.m == m0 / pow2(d));
        assert(m0 == pow2(d) * (m0 / pow2(d)));
        assert(m0 == (m0 / pow2(d)) * pow2(d)) by (nonlinear_arith)
            requires m0 == pow2(d) * (m0 / pow2(d)),
        ;
    }
}

/// A full operation outcome: the value, the ternary, and the flags raised.
pub ghost struct Out {
    pub v: Val,
    pub t: int,
    pub f: Flags,
}

/// The overflow policy: modes that round away from the excess produce an
/// infinity; the others stop at the largest finite value at `emax`.
pub open spec fn overflow_out(neg: bool, p: nat, r: rnd_t, emax: int) -> Out {
    let to_inf = match r {
        rnd_t::RNDN | rnd_t::RNDNA | rnd_t::RNDA => true,
        rnd_t::RNDZ | rnd_t::RNDF => false,
        rnd_t::RNDU => !neg,
        rnd_t::RNDD => neg,
    };
    let t: int = if to_inf {
        if neg { -1 } else { 1 }
    } else {
        if neg { 1 } else { -1 }
    };
    Out {
        v: if to_inf {
            Val::Inf { neg }
        } else {
            Val::Fin { neg, m: (pow2(p) - 1) as nat, e: emax }
        },
        t,
        f: Flags { overflow: true, inexflag: true, ..Flags::none() },
    }
}

/// The underflow policy: the exact magnitude lies strictly below the
/// smallest positive value `2^(emin-1)`; directional modes pick zero or that
/// smallest value, the nearest modes compare against half of it.
pub open spec fn underflow_out(neg: bool, m0: nat, e0: int, sticky: bool, p: nat, r: rnd_t, emin: int) -> Out {
    let eh = e0 + blen(m0);
    let tiny = match r {
        rnd_t::RNDZ | rnd_t::RNDF => false,
        rnd_t::RNDA => true,
        rnd_t::RNDU => !neg,
        rnd_t::RNDD => neg,
        rnd_t::RNDN => eh == emin - 1 && (m0 > pow2((blen(m0) - 1) as nat) || sticky),
        rnd_t::RNDNA => eh == emin - 1,
    };
    let t: int = if tiny {
        if neg { -1 } else { 1 }
    } else {
        if neg { 1 } else { -1 }
    };
    Out {
        v: if tiny {
            Val::Fin { neg, m: pow2((p - 1) as nat), e: emin }
        } else {
            Val::Zero { neg }
        },
        t,
        f: Flags { underflow: true, inexflag: true, ..Flags::none() },
    }
}

/// Rounding followed by the exponent-range guard.
pub open spec fn finish_mag(neg: bool, m0: nat, e0: int, sticky: bool, p: nat, r: rnd_t, emin: int, emax: int) -> Out {
    let rr = round_mag(m0, e0, sticky, p, neg, r);
    if rr.e > emax {
        overflow_out(neg, p, r, emax)
    } else if rr.e < emin {
        underflow_out(neg, m0, e0, sticky, p, r, emin)
    } else {
        Out { v: Val::Fin { neg, m: rr.m, e: rr.e }, t: rr.t, f: Flags::inex_only(rr.t) }
    }
}

impl Ctx {
    /// Rounds the positive magnitude `(mag + d) * 2^e0` into `rop` at
    /// `rop`'s own precision, applies the exponent-range guard against this
    /// context, raises the flags of the step, and returns the ternary.
    #[verifier::rlimit(100)]
    pub fn round_finish(&mut self, rop: &mut Number, neg: bool, mag: &Big, e0: i128, sticky: bool, r: rnd_t) -> (t: i32)
        requires
            old(self).wf(),
            crate::PREC_MIN <= old(rop).prec <= crate::PREC_MAX,
            mag.wf(),
            mag@ > 0,
            sticky ==> blen(mag@) >= old(rop).prec + 2,
            blen(mag@) <= 0x2000_0000,
            -0x1000_0000_0000_0000 <= e0 <= 0x1000_0000_0000_0000,
        ensures
            final(rop).wf(),
            final(rop).prec == old(rop).prec,
            final(self).wf(),
            ({
                let out = finish_mag(neg, mag@, e0 as int, sticky, old(rop).prec as nat, r,
                    old(self).emin as int, old(self).emax as int);
                &&& final(rop).val() == out.v
                &&& t as int == out.t
                &&& *final(self) == old(self).with_flags(out.f)
            }),
    {
        let ghost rr = round_mag(mag@, e0 as int, sticky, rop.prec as nat, neg, r);
        proof {
            lemma_blen_bounds(mag@);
            lemma_wf_len(mag, blen(mag@));
            lemma_round_mag_bounds(mag@, e0 as int, sticky, rop.prec as nat, neg, r);
        }
        let p = rop.prec;
        let len = mag.bitlen();
        let m2: Big;
        let e2: i128;
        let t0: i32;
        if len <= p {
            let m = mag.shl(p - len);
            m2 = m;
            e2 = e0 + len as i128;
            t0 = 0;
        } else {
            let d = len - p;
            let pd = Big::power_of_two(d);
            proof {
                lemma_pow2_strictly_increases(d as nat, (d + 1) as nat);
                lemma_pow2_pos(d as nat);
                lemma_wf_len(&pd, (d + 1) as nat);
            }
            let (q, rem) = mag.divrem(&pd);
            proof {
                lemma_fundamental_div_mod_converse(mag@ as int, pow2(d as nat) as int,
                    q@ as int, rem@ as int);
                assert(q@ * pow2(d as nat) <= mag@);
                assert(q@ <= mag@) by (nonlinear_arith)
                    requires q@ * pow2(d as nat) <= mag@, pow2(d as nat) >= 1,
                ;
                lemma_wf_len(&q, blen(mag@));
            }
            let inex = sticky || !rem.is_zero();
            let up: bool = match r {
                rnd_t::RNDZ => false,
                rnd_t::RNDF => false,
                rnd_t::RNDA => inex,
                rnd_t::RNDU => inex && !neg,
                rnd_t::RNDD => inex && neg,
                rnd_t::RNDN | rnd_t::RNDNA => {
                    let half = Big::power_of_two(d - 1);
                    let c = rem.cmp(&half);
                    if c > 0 {
                        true
                    } else if c < 0 {
                        false
                    } else if matches!(r, rnd_t::RNDNA) {
                        true
                    } else if sticky {
                        true
                    } else {
                        let two = Big::from_u64(2);
                        proof {
                            lemma2_to64();
                            lemma_wf_len(&two, 2);
                        }
                        let (_q2, pr) = q.divrem(&two);
                        proof {
                            lemma_fundamental_div_mod_converse(q@ as int, 2,
                                _q2@ as int, pr@ as int);
                        }
                        !pr.is_zero()
                    }
                },
            };
            let m1 = if up {
                q.add(&Big::from_u64(1))
            } else {
                q
            };
            let pp = Big::power_of_two(p);
            if up && m1.cmp(&pp) == 0 {
                m2 = Big::power_of_two(p - 1);
                e2 = e0 + len as i128 + 1;
            } else {
                m2 = m1;
                e2 = e0 + len as i128;
            }
            t0 = if !inex {
                0
            } else if up {
                if neg { -1 } else { 1 }
            } else {
                if neg { 1 } else { -1 }
            };
        }
        proof {
            assert(m2@ == rr.m);
            assert(e2 as int == rr.e);
            assert(t0 as int == rr.t);
        }
        if e2 > self.emax as i128 {
            self.overflow = true;
            self.inexflag = true;
            let to_inf = match r {
                rnd_t::RNDN | rnd_t::RNDNA | rnd_t::RNDA => true,
                rnd_t::RNDZ | rnd_t::RNDF => false,
                rnd_t::RNDU => !neg,
                rnd_t::RNDD => neg,
            };
            if to_inf {
                rop.neg = neg;
                rop.exp = 0;
                rop.kind = Kind::Inf;
                rop.mant = Big::zero();
                if neg { -1 } else { 1 }
            } else {
                let big_max = Big::power_of_two(p).sub(&Big::from_u64(1));
                proof {
                    lemma2_to64();
                    lemma_pow2_adds((p - 1) as nat, 1);
                    assert(pow2(p as nat) == pow2((p - 1) as nat) * 2);
                }
                rop.neg = neg;
                rop.exp = self.emax;
                rop.kind = Kind::Regular;
                rop.mant = big_max;
                if neg { 1 } else { -1 }
            }
        } else if e2 < self.emin as i128 {
            self.underflow = true;
            self.inexflag = true;
            let tiny: bool = match r {
                rnd_t::RNDZ | rnd_t::RNDF => false,
                rnd_t::RNDA => true,
                rnd_t::RNDU => !neg,
                rnd_t::RNDD => neg,
                rnd_t::RNDN => {
                    if e0 + len as i128 == self.emin as i128 - 1 {
                        if sticky {
                            true
                        } else {
                            let top = Big::power_of_two(len - 1);
                            mag.cmp(&top) > 0
                        }
                    } else {
                        false
                    }
                },
                rnd_t::RNDNA => e0 + len as i128 == self.emin as i128 - 1,
            };
            if tiny {
                rop.neg = neg;
                rop.exp = self.emin;
                rop.kind = Kind::Regular;
                rop.mant = Big::power_of_two(p - 1);
                if neg { -1 } else { 1 }
            } else {
                rop.neg = neg;
                rop.exp = 0;
                rop.kind = Kind::Zero;
                rop.mant = Big::zero();
                if neg { 1 } else { -1 }
            }
        } else {
            rop.neg = neg;
            rop.exp = e2 as i64;
            rop.kind = Kind::Regular;
            rop.mant = m2;
            if t0 != 0 {
                self.inexflag = true;
            }
            t0
        }
    }
}

} // verus!
