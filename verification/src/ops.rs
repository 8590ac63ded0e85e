//! Arithmetic operators.
//!
//! Every operator follows one protocol: handle the special kinds by a fixed
//! table, otherwise compute the mathematically exact result (or one extended
//! by a sticky bit), round it once into the destination's precision, and
//! clamp it against the context's exponent range.  The ternary return is 0
//! when the stored result equals the exact value, positive when it is larger,
//! negative when it is smaller.

use vstd::prelude::*;
use vstd::arithmetic::power2::*;
use vstd::arithmetic::power::pow;
use vstd::arithmetic::power::{lemma_pow_positive, lemma_pow_multiplies};
use vstd::arithmetic::div_mod::{lemma_fundamental_div_mod, lemma_fundamental_div_mod_converse,
    lemma_mod_multiples_vanish};
use crate::big::{Big, blen, sqrt_nat, lemma_sqrt_unique, lemma_blen_bounds, lemma_blen_is,
    lemma_blen_le, lemma_wf_len, lemma_pow2_le};
use crate::num::{Number, Kind, Val, Flags, Ctx};
use crate::round::{Out, finish_mag};
use crate::rnd_t;

verus! {

/// The same value with the opposite sign (NaN stays NaN).
pub open spec fn neg_val(v: Val) -> Val {
    match v {
        Val::Nan => Val::Nan,
        Val::Inf { neg } => Val::Inf { neg: !neg },
        Val::Zero { neg } => Val::Zero { neg: !neg },
        Val::Fin { neg, m, e } => Val::Fin { neg: !neg, m, e },
    }
}

/// A NaN result with the invalid flag.
pub open spec fn nan_out() -> Out {
    Out { v: Val::Nan, t: 0, f: Flags::invalid() }
}

/// An exact special result with no flag raised.
pub open spec fn exact_out(v: Val) -> Out {
    Out { v, t: 0, f: Flags::none() }
}

/// A finite value `(-1)^neg * m * 2^(e - blen(m))` rounded to precision `p`.
pub open spec fn fin_out(neg: bool, m: nat, e: int, p: nat, r: rnd_t, emin: int, emax: int) -> Out {
    finish_mag(neg, m, e - blen(m), false, p, r, emin, emax)
}

/// The exact sum of the two values `(-1)^{n_i} * m_i * 2^{s_i}` (both
/// magnitudes positive), rounded to precision `p`.  An exact zero takes the
/// positive sign except toward minus infinity.
pub open spec fn sum2_out(n1: bool, m1: nat, s1: int, n2: bool, m2: nat, s2: int, p: nat, r: rnd_t, emin: int, emax: int) -> Out {
    let s = if s1 <= s2 { s1 } else { s2 };
    let a = m1 * pow2((s1 - s) as nat);
    let b = m2 * pow2((s2 - s) as nat);
    let z: int = (if n1 { -(a as int) } else { a as int }) + (if n2 { -(b as int) } else { b as int });
    if z == 0 {
        exact_out(Val::Zero { neg: r is RNDD })
    } else {
        finish_mag(z < 0, (if z < 0 { -z } else { z }) as nat, s, false, p, r, emin, emax)
    }
}

/// The outcome of addition.
pub open spec fn add_spec(va: Val, vb: Val, p: nat, r: rnd_t, emin: int, emax: int) -> Out {
    match (va, vb) {
        (Val::Nan, _) => nan_out(),
        (_, Val::Nan) => nan_out(),
        (Val::Inf { neg: a }, Val::Inf { neg: b }) => if a == b {
            exact_out(Val::Inf { neg: a })
        } else {
            nan_out()
        },
        (Val::Inf { neg }, _) => exact_out(Val::Inf { neg }),
        (_, Val::Inf { neg }) => exact_out(Val::Inf { neg }),
        (Val::Zero { neg: a }, Val::Zero { neg: b }) => exact_out(Val::Zero {
            neg: if a == b { a } else { r is RNDD },
        }),
        (Val::Zero { .. }, Val::Fin { neg, m, e }) => fin_out(neg, m, e, p, r, emin, emax),
        (Val::Fin { neg, m, e }, Val::Zero { .. }) => fin_out(neg, m, e, p, r, emin, emax),
        (Val::Fin { neg: n1, m: m1, e: e1 }, Val::Fin { neg: n2, m: m2, e: e2 }) => sum2_out(
            n1, m1, e1 - blen(m1), n2, m2, e2 - blen(m2), p, r, emin, emax,
        ),
    }
}

/// The outcome of subtraction: addition of the negated second operand.
pub open spec fn sub_spec(va: Val, vb: Val, p: nat, r: rnd_t, emin: int, emax: int) -> Out {
    add_spec(va, neg_val(vb), p, r, emin, emax)
}

/// The outcome of multiplication.
pub open spec fn mul_spec(va: Val, vb: Val, p: nat, r: rnd_t, emin: int, emax: int) -> Out {
    match (va, vb) {
        (Val::Nan, _) => nan_out(),
        (_, Val::Nan) => nan_out(),
        (Val::Inf { neg: a }, Val::Inf { neg: b }) => exact_out(Val::Inf { neg: a != b }),
        (Val::Inf { .. }, Val::Zero { .. }) => nan_out(),
        (Val::Zero { .. }, Val::Inf { .. }) => nan_out(),
        (Val::Inf { neg: a }, Val::Fin { neg: b, .. }) => exact_out(Val::Inf { neg: a != b }),
        (Val::Fin { neg: a, .. }, Val::Inf { neg: b }) => exact_out(Val::Inf { neg: a != b }),
        (Val::Zero { neg: a }, Val::Zero { neg: b }) => exact_out(Val::Zero { neg: a != b }),
        (Val::Zero { neg: a }, Val::Fin { neg: b, .. }) => exact_out(Val::Zero { neg: a != b }),
        (Val::Fin { neg: a, .. }, Val::Zero { neg: b }) => exact_out(Val::Zero { neg: a != b }),
        (Val::Fin { neg: n1, m: m1, e: e1 }, Val::Fin { neg: n2, m: m2, e: e2 }) => finish_mag(
            n1 != n2, m1 * m2, (e1 - blen(m1)) + (e2 - blen(m2)), false, p, r, emin, emax,
        ),
    }
}

/// The outcome of copying a value into a (possibly different) precision.
pub open spec fn set_spec(v: Val, p: nat, r: rnd_t, emin: int, emax: int) -> Out {
    match v {
        Val::Nan => nan_out(),
        Val::Inf { neg } => exact_out(Val::Inf { neg }),
        Val::Zero { neg } => exact_out(Val::Zero { neg }),
        Val::Fin { neg, m, e } => fin_out(neg, m, e, p, r, emin, emax),
    }
}

/// The outcome of setting from an unsigned integer.
pub open spec fn set_ui_spec(v: nat, p: nat, r: rnd_t, emin: int, emax: int) -> Out {
    if v == 0 {
        exact_out(Val::Zero { neg: false })
    } else {
        finish_mag(false, v, 0, false, p, r, emin, emax)
    }
}

/// The outcome of setting from a signed integer.
pub open spec fn set_si_spec(v: int, p: nat, r: rnd_t, emin: int, emax: int) -> Out {
    if v == 0 {
        exact_out(Val::Zero { neg: false })
    } else {
        finish_mag(v < 0, (if v < 0 { -v } else { v }) as nat, 0, false, p, r, emin, emax)
    }
}

/// The left shift that guarantees a quotient of at least `p + 2` bits.
pub open spec fn div_shift(m1: nat, m2: nat, p: nat) -> nat {
    if p + 2 + blen(m2) >= blen(m1) {
        (p + 2 + blen(m2) - blen(m1)) as nat
    } else {
        0
    }
}

/// The outcome of division.
pub open spec fn div_spec(va: Val, vb: Val, p: nat, r: rnd_t, emin: int, emax: int) -> Out {
    match (va, vb) {
        (Val::Nan, _) => nan_out(),
        (_, Val::Nan) => nan_out(),
        (Val::Inf { .. }, Val::Inf { .. }) => nan_out(),
        (Val::Zero { .. }, Val::Zero { .. }) => nan_out(),
        (Val::Inf { neg: n1 }, Val::Zero { neg: n2 }) => exact_out(Val::Inf { neg: n1 != n2 }),
        (Val::Inf { neg: n1 }, Val::Fin { neg: n2, .. }) => exact_out(Val::Inf { neg: n1 != n2 }),
        (Val::Zero { neg: n1 }, Val::Inf { neg: n2 }) => exact_out(Val::Zero { neg: n1 != n2 }),
        (Val::Fin { neg: n1, .. }, Val::Inf { neg: n2 }) => exact_out(Val::Zero { neg: n1 != n2 }),
        (Val::Zero { neg: n1 }, Val::Fin { neg: n2, .. }) => exact_out(Val::Zero { neg: n1 != n2 }),
        (Val::Fin { neg: n1, .. }, Val::Zero { neg: n2 }) => Out {
            v: Val::Inf { neg: n1 != n2 },
            t: 0,
            f: Flags { divby0: true, ..Flags::none() },
        },
        (Val::Fin { neg: n1, m: m1, e: e1 }, Val::Fin { neg: n2, m: m2, e: e2 }) => {
            let k = div_shift(m1, m2, p);
            let aa = m1 * pow2(k);
            let q = aa / m2;
            let rem = aa % m2;
            finish_mag(n1 != n2, q, (e1 - blen(m1)) - (e2 - blen(m2)) - k, rem != 0, p, r, emin,
                emax)
        },
    }
}

/// The outcome of the square root.
pub open spec fn sqrt_spec(v: Val, p: nat, r: rnd_t, emin: int, emax: int) -> Out {
    match v {
        Val::Nan => nan_out(),
        Val::Zero { neg } => exact_out(Val::Zero { neg }),
        Val::Inf { neg } => if neg {
            nan_out()
        } else {
            exact_out(Val::Inf { neg: false })
        },
        Val::Fin { neg, m, e } => {
            if neg {
                nan_out()
            } else {
                let s = e - blen(m);
                let k0 = if 2 * p + 4 >= blen(m) {
                    (2 * p + 4 - blen(m)) as nat
                } else {
                    0
                };
                let k = if (s - k0) % 2 == 0 {
                    k0
                } else {
                    k0 + 1
                };
                let aa = m * pow2(k);
                let rt = sqrt_nat(aa);
                finish_mag(false, rt, (s - k) / 2, rt * rt != aa, p, r, emin, emax)
            }
        },
    }
}

/// The outcome of a fused multiply-add: the exact `a * b + c`, rounded once.
pub open spec fn fma_spec(va: Val, vb: Val, vc: Val, p: nat, r: rnd_t, emin: int, emax: int) -> Out {
    if va is Nan || vb is Nan || vc is Nan {
        nan_out()
    } else if (va is Inf && vb is Zero) || (va is Zero && vb is Inf) {
        nan_out()
    } else {
        let pneg = va.sign() != vb.sign();
        if va is Inf || vb is Inf {
            if vc is Inf && vc.sign() != pneg {
                nan_out()
            } else {
                exact_out(Val::Inf { neg: pneg })
            }
        } else if vc is Inf {
            exact_out(Val::Inf { neg: vc.sign() })
        } else if va is Zero || vb is Zero {
            if vc is Zero {
                exact_out(Val::Zero { neg: if pneg == vc.sign() { pneg } else { r is RNDD } })
            } else {
                fin_out(vc.sign(), vc->Fin_m, vc->Fin_e, p, r, emin, emax)
            }
        } else {
            let m12 = va->Fin_m * vb->Fin_m;
            let s12 = (va->Fin_e - blen(va->Fin_m)) + (vb->Fin_e - blen(vb->Fin_m));
            if vc is Zero {
                finish_mag(pneg, m12, s12, false, p, r, emin, emax)
            } else {
                sum2_out(pneg, m12, s12, vc.sign(), vc->Fin_m, vc->Fin_e - blen(vc->Fin_m), p, r,
                    emin, emax)
            }
        }
    }
}

/// The outcome of raising to an unsigned integer power.  A zeroth power is
/// an exact one for every operand, NaN included.
pub open spec fn pow_ui_spec(v: Val, k: nat, p: nat, r: rnd_t, emin: int, emax: int) -> Out {
    if k == 0 {
        finish_mag(false, 1, 0, false, p, r, emin, emax)
    } else {
        match v {
            Val::Nan => nan_out(),
            Val::Inf { neg } => exact_out(Val::Inf { neg: neg && k % 2 == 1 }),
            Val::Zero { neg } => exact_out(Val::Zero { neg: neg && k % 2 == 1 }),
            Val::Fin { neg, m, e } => finish_mag(neg && k % 2 == 1, pow(m as int, k) as nat,
                (e - blen(m)) * k, false, p, r, emin, emax),
        }
    }
}

/// The outcome of an integer base raised to an integer power.
pub open spec fn ui_pow_ui_spec(b: nat, k: nat, p: nat, r: rnd_t, emin: int, emax: int) -> Out {
    if k == 0 {
        finish_mag(false, 1, 0, false, p, r, emin, emax)
    } else if b == 0 {
        exact_out(Val::Zero { neg: false })
    } else {
        finish_mag(false, pow(b as int, k) as nat, 0, false, p, r, emin, emax)
    }
}

/// A power of a bounded base stays under the corresponding power of two.
pub proof fn lemma_pow_lt_pow2(m: nat, bits: nat, k: nat)
    requires
        0 < m < pow2(bits),
    ensures
        k >= 1 ==> pow(m as int, k) < pow2((bits * k) as nat),
        pow(m as int, k) >= 1,
    decreases k,
{
    reveal(pow);
    lemma_pow_positive(m as int, k);
    if k >= 1 {
        lemma_pow_lt_pow2(m, bits, (k - 1) as nat);
        lemma_pow2_pos(bits);
        lemma_pow2_pos((bits * (k - 1)) as nat);
        lemma_pow2_adds(bits, (bits * (k - 1)) as nat);
        assert(pow(m as int, k) == m * pow(m as int, (k - 1) as nat));
        if k == 1 {
            assert(pow(m as int, 0nat) == 1);
            assert(m * 1 == m) by (nonlinear_arith);
        } else {
            assert(m * pow(m as int, (k - 1) as nat)
                < pow2(bits) * pow2((bits * (k - 1)) as nat)) by (nonlinear_arith)
                requires
                    0 < m < pow2(bits),
                    0 < pow(m as int, (k - 1) as nat) < pow2((bits * (k - 1)) as nat),
            ;
            assert(bits + bits * (k - 1) == bits * k) by (nonlinear_arith);
        }
    }
}

/// The exact natural power of a positive value.
fn big_pow(base: &Big, k: u64) -> (r: Big)
    requires
        base.wf(),
        base@ >= 1,
        pow(base@ as int, k as nat) < pow2(0x800_0000),
    ensures
        r.wf(),
        r@ == pow(base@ as int, k as nat),
{
    let mut b = base.clone_big();
    let mut acc = Big::from_u64(1);
    let mut kk: u64 = k;
    proof {
        reveal(pow);
        assert(pow(base@ as int, k as nat) >= 1) by {
            lemma_pow_positive(base@ as int, k as nat);
        }
        assert(acc@ * pow(b@ as int, kk as nat) == pow(base@ as int, k as nat))
            by (nonlinear_arith)
            requires acc@ == 1, b@ == base@, kk == k,
        ;
    }
    while kk > 1
        invariant
            b.wf(),
            acc.wf(),
            acc@ >= 1,
            b@ >= 1,
            acc@ * pow(b@ as int, kk as nat) == pow(base@ as int, k as nat),
            pow(base@ as int, k as nat) < pow2(0x800_0000),
        decreases kk,
    {
        let ghost total = pow(base@ as int, k as nat);
        proof {
            reveal(pow);
            lemma_fundamental_div_mod(kk as int, 2);
            lemma_pow_positive(b@ as int, kk as nat);
            lemma_pow_positive(b@ as int, (kk - 1) as nat);
            assert(pow(b@ as int, kk as nat) == b@ * pow(b@ as int, (kk - 1) as nat));
            assert(pow(b@ as int, kk as nat) >= b@) by (nonlinear_arith)
                requires
                    pow(b@ as int, kk as nat) == b@ * pow(b@ as int, (kk - 1) as nat),
                    pow(b@ as int, (kk - 1) as nat) >= 1,
                    b@ >= 1,
            ;
            assert(acc@ <= total && b@ <= total) by (nonlinear_arith)
                requires
                    acc@ * pow(b@ as int, kk as nat) == total,
                    pow(b@ as int, kk as nat) >= b@ >= 1,
                    pow(b@ as int, kk as nat) >= 1,
                    acc@ >= 1,
            ;
            lemma_wf_len(&acc, 0x800_0000);
            lemma_wf_len(&b, 0x800_0000);
        }
        let m = kk / 2;
        if kk % 2 == 1 {
            let acc2 = acc.mul(&b);
            proof {
                reveal(pow);
                assert(kk - 1 == 2 * m);
                assert(acc2@ >= 1) by (nonlinear_arith)
                    requires acc@ >= 1, b@ >= 1, acc2@ == acc@ * b@,
                ;
                assert((acc@ * b@) * pow(b@ as int, (2 * m) as nat)
                    == acc@ * (b@ * pow(b@ as int, (2 * m) as nat))) by (nonlinear_arith);
                assert(b@ * pow(b@ as int, (2 * m) as nat) == pow(b@ as int, kk as nat));
                assert(acc2@ * pow(b@ as int, (2 * m) as nat) == total);
            }
            acc = acc2;
        } else {
            proof {
                assert(kk == 2 * m);
                assert(acc@ * pow(b@ as int, (2 * m) as nat) == total);
            }
        }
        let b2 = b.mul(&b);
        proof {
            reveal(pow);
            lemma_pow_multiplies(b@ as int, 2, m as nat);
            assert(pow(b@ as int, 2nat) == b@ * pow(b@ as int, 1nat));
            assert(pow(b@ as int, 1nat) == b@ * pow(b@ as int, 0nat));
            assert(pow(b@ as int, 0nat) == 1);
            assert(b@ * (b@ * 1) == b@ * b@) by (nonlinear_arith);
            assert(pow(b2@ as int, m as nat) == pow(b@ as int, (2 * m) as nat));
            assert(b2@ >= 1) by (nonlinear_arith)
                requires b2@ == b@ * b@, b@ >= 1,
            ;
        }
        b = b2;
        kk = m;
    }
    if kk == 1 {
        let ghost total = pow(base@ as int, k as nat);
        proof {
            reveal(pow);
            assert(pow(b@ as int, 1nat) == b@ * pow(b@ as int, 0nat));
            assert(pow(b@ as int, 0nat) == 1);
            assert(acc@ * (b@ * 1) == acc@ * b@) by (nonlinear_arith);
            assert(acc@ * b@ == total);
            assert(acc@ <= total && b@ <= total) by (nonlinear_arith)
                requires acc@ * b@ == total, acc@ >= 1, b@ >= 1,
            ;
            lemma_wf_len(&acc, 0x800_0000);
            lemma_wf_len(&b, 0x800_0000);
        }
        acc = acc.mul(&b);
    }
    proof {
        reveal(pow);
        if kk == 0 {
            assert(pow(b@ as int, 0nat) == 1);
            assert(acc@ * 1 == acc@) by (nonlinear_arith);
        }
    }
    acc
}

/// A regular number's significand has exactly `prec` binary digits.
pub proof fn lemma_fin_blen(x: &Number)
    requires
        x.wf(),
        x.kind is Regular,
    ensures
        blen(x.mant@) == x.prec,
        x.mant@ > 0,
{
    lemma_pow2_pos((x.prec - 1) as nat);
    lemma_blen_is(x.mant@, x.prec as nat);
}

impl Ctx {
    /// Rounds the finite value of `op` (a regular number) into `rop`.
    fn copy_fin(&mut self, rop: &mut Number, op: &Number, neg: bool, r: rnd_t) -> (t: i32)
        requires
            old(self).wf(),
            old(rop).wf(),
            op.wf(),
            op.kind is Regular,
        ensures
            final(rop).wf(),
            final(rop).prec == old(rop).prec,
            final(self).wf(),
            ({
                let out = fin_out(neg, op.mant@, op.exp as int, old(rop).prec as nat, r,
                    old(self).emin as int, old(self).emax as int);
                &&& final(rop).val() == out.v
                &&& t as int == out.t
                &&& *final(self) == old(self).with_flags(out.f)
            }),
    {
        proof {
            lemma_fin_blen(op);
        }
        let e0: i128 = op.exp as i128 - op.prec as i128;
        self.round_finish(rop, neg, &op.mant, e0, false, r)
    }

    /// The exact sum of `(-1)^{n1} * m1 * 2^{s1}` and `(-1)^{n2} * m2 *
    /// 2^{s2}`, rounded into `rop`.
    fn sum2(&mut self, rop: &mut Number, n1: bool, m1: &Big, s1: i64, n2: bool, m2: &Big, s2: i64, r: rnd_t) -> (t: i32)
        requires
            old(self).wf(),
            old(rop).wf(),
            m1.wf(),
            m2.wf(),
            m1@ > 0,
            m2@ > 0,
            blen(m1@) <= 0x200_0000,
            blen(m2@) <= 0x200_0000,
            -0x400_0000 <= s1 <= 0x400_0000,
            -0x400_0000 <= s2 <= 0x400_0000,
        ensures
            final(rop).wf(),
            final(rop).prec == old(rop).prec,
            final(self).wf(),
            ({
                let out = sum2_out(n1, m1@, s1 as int, n2, m2@, s2 as int,
                    old(rop).prec as nat, r, old(self).emin as int, old(self).emax as int);
                &&& final(rop).val() == out.v
                &&& t as int == out.t
                &&& *final(self) == old(self).with_flags(out.f)
            }),
    {
        let s = if s1 <= s2 { s1 } else { s2 };
        let sha = (s1 - s) as usize;
        let shb = (s2 - s) as usize;
        proof {
            lemma_blen_bounds(m1@);
            lemma_blen_bounds(m2@);
            lemma_wf_len(m1, blen(m1@));
            lemma_wf_len(m2, blen(m2@));
        }
        let a = m1.shl(sha);
        let b = m2.shl(shb);
        proof {
            lemma_pow2_pos(sha as nat);
            lemma_pow2_pos(shb as nat);
            assert(a@ > 0 && b@ > 0) by (nonlinear_arith)
                requires
                    a@ == m1@ * pow2(sha as nat),
                    b@ == m2@ * pow2(shb as nat),
                    m1@ > 0,
                    m2@ > 0,
                    pow2(sha as nat) > 0,
                    pow2(shb as nat) > 0,
            ;
            lemma_pow2_adds(blen(m1@), sha as nat);
            lemma_pow2_adds(blen(m2@), shb as nat);
            assert(a@ < pow2((blen(m1@) + sha) as nat)) by (nonlinear_arith)
                requires
                    a@ == m1@ * pow2(sha as nat),
                    m1@ < pow2(blen(m1@)),
                    pow2(sha as nat) > 0,
                    pow2((blen(m1@) + sha) as nat) == pow2(blen(m1@)) * pow2(sha as nat),
            ;
            assert(b@ < pow2((blen(m2@) + shb) as nat)) by (nonlinear_arith)
                requires
                    b@ == m2@ * pow2(shb as nat),
                    m2@ < pow2(blen(m2@)),
                    pow2(shb as nat) > 0,
                    pow2((blen(m2@) + shb) as nat) == pow2(blen(m2@)) * pow2(shb as nat),
            ;
            let cap: nat = 0x1000_0000;
            lemma_pow2_le((blen(m1@) + sha) as nat, cap);
            lemma_pow2_le((blen(m2@) + shb) as nat, cap);
            lemma_pow2_adds(cap, 1);
            lemma2_to64();
            assert(a@ + b@ < pow2(cap) * 2);
            lemma_blen_le((a@ + b@) as nat, (cap + 1) as nat);
            lemma_blen_le(a@, cap);
            lemma_blen_le(b@, cap);
            if a@ >= b@ {
                lemma_blen_le((a@ - b@) as nat, cap);
            } else {
                lemma_blen_le((b@ - a@) as nat, cap);
            }
        }
        if n1 == n2 {
            let mag = a.add(&b);
            self.round_finish(rop, n1, &mag, s as i128, false, r)
        } else {
            let c = a.cmp(&b);
            if c == 0 {
                rop.set_zero(matches!(r, rnd_t::RNDD));
                0
            } else if c > 0 {
                let mag = a.sub(&b);
                self.round_finish(rop, n1, &mag, s as i128, false, r)
            } else {
                let mag = b.sub(&a);
                self.round_finish(rop, n2, &mag, s as i128, false, r)
            }
        }
    }

    /// Addition or subtraction: `rop <- a + (-1)^{flip} b`, rounded into
    /// `rop`'s precision.
    #[verifier::rlimit(100)]
    fn addsub(&mut self, rop: &mut Number, a: &Number, b: &Number, flip: bool, r: rnd_t) -> (t: i32)
        requires
            old(self).wf(),
            old(rop).wf(),
            a.wf(),
            b.wf(),
        ensures
            final(rop).wf(),
            final(rop).prec == old(rop).prec,
            final(self).wf(),
            ({
                let vb = if flip { neg_val(b.val()) } else { b.val() };
                let out = add_spec(a.val(), vb, old(rop).prec as nat, r,
                    old(self).emin as int, old(self).emax as int);
                &&& final(rop).val() == out.v
                &&& t as int == out.t
                &&& *final(self) == old(self).with_flags(out.f)
            }),
    {
        let bneg = if flip { !b.neg } else { b.neg };
        match (a.kind, b.kind) {
            (Kind::Nan, _) | (_, Kind::Nan) => {
                rop.set_nan();
                self.nanflag = true;
                0
            },
            (Kind::Inf, Kind::Inf) => {
                if a.neg == bneg {
                    rop.set_inf(a.neg);
                    0
                } else {
                    rop.set_nan();
                    self.nanflag = true;
                    0
                }
            },
            (Kind::Inf, _) => {
                rop.set_inf(a.neg);
                0
            },
            (_, Kind::Inf) => {
                rop.set_inf(bneg);
                0
            },
            (Kind::Zero, Kind::Zero) => {
                rop.set_zero(if a.neg == bneg { a.neg } else { matches!(r, rnd_t::RNDD) });
                0
            },
            (Kind::Zero, Kind::Regular) => self.copy_fin(rop, b, bneg, r),
            (Kind::Regular, Kind::Zero) => self.copy_fin(rop, a, a.neg, r),
            (Kind::Regular, Kind::Regular) => {
                proof {
                    lemma_fin_blen(a);
                    lemma_fin_blen(b);
                }
                let s1: i64 = a.exp - a.prec as i64;
                let s2: i64 = b.exp - b.prec as i64;
                self.sum2(rop, a.neg, &a.mant, s1, bneg, &b.mant, s2, r)
            },
        }
    }

    /// `rop <- a + b`, rounded into `rop`'s precision.
    pub fn add(&mut self, rop: &mut Number, a: &Number, b: &Number, r: rnd_t) -> (t: i32)
        requires
            old(self).wf(),
            old(rop).wf(),
            a.wf(),
            b.wf(),
        ensures
            final(rop).wf(),
            final(rop).prec == old(rop).prec,
            final(self).wf(),
            ({
                let out = add_spec(a.val(), b.val(), old(rop).prec as nat, r,
                    old(self).emin as int, old(self).emax as int);
                &&& final(rop).val() == out.v
                &&& t as int == out.t
                &&& *final(self) == old(self).with_flags(out.f)
            }),
    {
        self.addsub(rop, a, b, false, r)
    }

    /// `rop <- a - b`, rounded into `rop`'s precision.
    pub fn sub(&mut self, rop: &mut Number, a: &Number, b: &Number, r: rnd_t) -> (t: i32)
        requires
            old(self).wf(),
            old(rop).wf(),
            a.wf(),
            b.wf(),
        ensures
            final(rop).wf(),
            final(rop).prec == old(rop).prec,
            final(self).wf(),
            ({
                let out = sub_spec(a.val(), b.val(), old(rop).prec as nat, r,
                    old(self).emin as int, old(self).emax as int);
                &&& final(rop).val() == out.v
                &&& t as int == out.t
                &&& *final(self) == old(self).with_flags(out.f)
            }),
    {
        self.addsub(rop, a, b, true, r)
    }

    /// `rop <- a * b`, rounded into `rop`'s precision.
    pub fn mul(&mut self, rop: &mut Number, a: &Number, b: &Number, r: rnd_t) -> (t: i32)
        requires
            old(self).wf(),
            old(rop).wf(),
            a.wf(),
            b.wf(),
        ensures
            final(rop).wf(),
            final(rop).prec == old(rop).prec,
            final(self).wf(),
            ({
                let out = mul_spec(a.val(), b.val(), old(rop).prec as nat, r,
                    old(self).emin as int, old(self).emax as int);
                &&& final(rop).val() == out.v
                &&& t as int == out.t
                &&& *final(self) == old(self).with_flags(out.f)
            }),
    {
        match (a.kind, b.kind) {
            (Kind::Nan, _) | (_, Kind::Nan) => {
                rop.set_nan();
                self.nanflag = true;
                0
            },
            (Kind::Inf, Kind::Zero) | (Kind::Zero, Kind::Inf) => {
                rop.set_nan();
                self.nanflag = true;
                0
            },
            (Kind::Inf, _) | (_, Kind::Inf) => {
                rop.set_inf(a.neg != b.neg);
                0
            },
            (Kind::Zero, _) | (_, Kind::Zero) => {
                rop.set_zero(a.neg != b.neg);
                0
            },
            (Kind::Regular, Kind::Regular) => {
                proof {
                    lemma_fin_blen(a);
                    lemma_fin_blen(b);
                    lemma_wf_len(&a.mant, blen(a.mant@));
                    lemma_wf_len(&b.mant, blen(b.mant@));
                }
                let mag = a.mant.mul(&b.mant);
                proof {
                    lemma_pow2_adds(a.prec as nat, b.prec as nat);
                    assert(mag@ > 0 && mag@ < pow2((a.prec + b.prec) as nat)) by (nonlinear_arith)
                        requires
                            mag@ == a.mant@ * b.mant@,
                            0 < a.mant@ < pow2(a.prec as nat),
                            0 < b.mant@ < pow2(b.prec as nat),
                            pow2((a.prec + b.prec) as nat)
                                == pow2(a.prec as nat) * pow2(b.prec as nat),
                    ;
                    lemma_blen_le(mag@, (a.prec + b.prec) as nat);
                }
                let e0: i128 = (a.exp as i128 - a.prec as i128) + (b.exp as i128 - b.prec as i128);
                self.round_finish(rop, a.neg != b.neg, &mag, e0, false, r)
            },
        }
    }

    /// `rop <- a * a`, rounded into `rop`'s precision.
    pub fn sqr(&mut self, rop: &mut Number, a: &Number, r: rnd_t) -> (t: i32)
        requires
            old(self).wf(),
            old(rop).wf(),
            a.wf(),
        ensures
            final(rop).wf(),
            final(rop).prec == old(rop).prec,
            final(self).wf(),
            ({
                let out = mul_spec(a.val(), a.val(), old(rop).prec as nat, r,
                    old(self).emin as int, old(self).emax as int);
                &&& final(rop).val() == out.v
                &&& t as int == out.t
                &&& *final(self) == old(self).with_flags(out.f)
            }),
    {
        self.mul(rop, a, a, r)
    }

    /// `rop <- op`, rounded into `rop`'s precision.
    pub fn set(&mut self, rop: &mut Number, op: &Number, r: rnd_t) -> (t: i32)
        requires
            old(self).wf(),
            old(rop).wf(),
            op.wf(),
        ensures
            final(rop).wf(),
            final(rop).prec == old(rop).prec,
            final(self).wf(),
            ({
                let out = set_spec(op.val(), old(rop).prec as nat, r,
                    old(self).emin as int, old(self).emax as int);
                &&& final(rop).val() == out.v
                &&& t as int == out.t
                &&& *final(self) == old(self).with_flags(out.f)
            }),
    {
        match op.kind {
            Kind::Nan => {
                rop.set_nan();
                self.nanflag = true;
                0
            },
            Kind::Inf => {
                rop.set_inf(op.neg);
                0
            },
            Kind::Zero => {
                rop.set_zero(op.neg);
                0
            },
            Kind::Regular => self.copy_fin(rop, op, op.neg, r),
        }
    }

    /// `rop <- -op`, rounded into `rop`'s precision.
    pub fn neg(&mut self, rop: &mut Number, op: &Number, r: rnd_t) -> (t: i32)
        requires
            old(self).wf(),
            old(rop).wf(),
            op.wf(),
        ensures
            final(rop).wf(),
            final(rop).prec == old(rop).prec,
            final(self).wf(),
            ({
                let out = set_spec(neg_val(op.val()), old(rop).prec as nat, r,
                    old(self).emin as int, old(self).emax as int);
                &&& final(rop).val() == out.v
                &&& t as int == out.t
                &&& *final(self) == old(self).with_flags(out.f)
            }),
    {
        match op.kind {
            Kind::Nan => {
                rop.set_nan();
                self.nanflag = true;
                0
            },
            Kind::Inf => {
                rop.set_inf(!op.neg);
                0
            },
            Kind::Zero => {
                rop.set_zero(!op.neg);
                0
            },
            Kind::Regular => self.copy_fin(rop, op, !op.neg, r),
        }
    }

    /// `rop <- |op|`, rounded into `rop`'s precision.
    pub fn abs(&mut self, rop: &mut Number, op: &Number, r: rnd_t) -> (t: i32)
        requires
            old(self).wf(),
            old(rop).wf(),
            op.wf(),
        ensures
            final(rop).wf(),
            final(rop).prec == old(rop).prec,
            final(self).wf(),
            ({
                let va = op.val();
                let vabs = match va {
                    Val::Nan => Val::Nan,
                    Val::Inf { .. } => Val::Inf { neg: false },
                    Val::Zero { .. } => Val::Zero { neg: false },
                    Val::Fin { m, e, .. } => Val::Fin { neg: false, m, e },
                };
                let out = set_spec(vabs, old(rop).prec as nat, r,
                    old(self).emin as int, old(self).emax as int);
                &&& final(rop).val() == out.v
                &&& t as int == out.t
                &&& *final(self) == old(self).with_flags(out.f)
            }),
    {
        match op.kind {
            Kind::Nan => {
                rop.set_nan();
                self.nanflag = true;
                0
            },
            Kind::Inf => {
                rop.set_inf(false);
                0
            },
            Kind::Zero => {
                rop.set_zero(false);
                0
            },
            Kind::Regular => self.copy_fin(rop, op, false, r),
        }
    }

    /// `rop <- v` for an unsigned integer `v`, rounded into `rop`'s
    /// precision.  Zero becomes a positive zero.
    pub fn set_ui(&mut self, rop: &mut Number, v: u64, r: rnd_t) -> (t: i32)
        requires
            old(self).wf(),
            old(rop).wf(),
        ensures
            final(rop).wf(),
            final(rop).prec == old(rop).prec,
            final(self).wf(),
            ({
                let out = set_ui_spec(v as nat, old(rop).prec as nat, r,
                    old(self).emin as int, old(self).emax as int);
                &&& final(rop).val() == out.v
                &&& t as int == out.t
                &&& *final(self) == old(self).with_flags(out.f)
            }),
    {
        if v == 0 {
            rop.set_zero(false);
            0
        } else {
            let mag = Big::from_u64(v);
            proof {
                lemma2_to64();
                lemma2_to64_rest();
                lemma_blen_le(mag@, 64);
            }
            self.round_finish(rop, false, &mag, 0, false, r)
        }
    }

    /// `rop <- v` for a signed integer `v`, rounded into `rop`'s precision.
    /// Zero becomes a positive zero.
    pub fn set_si(&mut self, rop: &mut Number, v: i64, r: rnd_t) -> (t: i32)
        requires
            old(self).wf(),
            old(rop).wf(),
        ensures
            final(rop).wf(),
            final(rop).prec == old(rop).prec,
            final(self).wf(),
            ({
                let out = set_si_spec(v as int, old(rop).prec as nat, r,
                    old(self).emin as int, old(self).emax as int);
                &&& final(rop).val() == out.v
                &&& t as int == out.t
                &&& *final(self) == old(self).with_flags(out.f)
            }),
    {
        if v == 0 {
            rop.set_zero(false);
            0
        } else {
            let m: u64 = if v < 0 {
                (-(v as i128)) as u64
            } else {
                v as u64
            };
            let mag = Big::from_u64(m);
            proof {
                lemma2_to64();
                lemma2_to64_rest();
                lemma_blen_le(mag@, 64);
            }
            self.round_finish(rop, v < 0, &mag, 0, false, r)
        }
    }

    /// Re-rounds `x` in place to a new precision, keeping its value as far
    /// as the new precision and the exponent range allow.
    pub fn prec_round(&mut self, x: &mut Number, prec: usize, r: rnd_t) -> (t: i32)
        requires
            old(self).wf(),
            old(x).wf(),
            crate::PREC_MIN <= prec <= crate::PREC_MAX,
        ensures
            final(x).wf(),
            final(x).prec == prec,
            final(self).wf(),
            ({
                let out = set_spec(old(x).val(), prec as nat, r,
                    old(self).emin as int, old(self).emax as int);
                &&& final(x).val() == out.v
                &&& t as int == out.t
                &&& *final(self) == old(self).with_flags(out.f)
            }),
    {
        match x.kind {
            Kind::Nan => {
                x.prec = prec;
                x.neg = false;
                x.exp = 0;
                x.kind = Kind::Nan;
                x.mant = Big::zero();
                self.nanflag = true;
                0
            },
            Kind::Inf => {
                x.prec = prec;
                0
            },
            Kind::Zero => {
                x.prec = prec;
                0
            },
            Kind::Regular => {
                proof {
                    lemma_fin_blen(x);
                }
                let mag = x.mant.clone_big();
                let e0: i128 = x.exp as i128 - x.prec as i128;
                let neg = x.neg;
                x.prec = prec;
                self.round_finish(x, neg, &mag, e0, false, r)
            },
        }
    }

    /// `rop <- a / b`, rounded into `rop`'s precision.  A finite nonzero
    /// value divided by zero gives a signed infinity and raises the
    /// divide-by-zero flag; `0 / 0` and `Inf / Inf` give NaN with the
    /// invalid flag.
    #[verifier::rlimit(100)]
    pub fn div(&mut self, rop: &mut Number, a: &Number, b: &Number, r: rnd_t) -> (t: i32)
        requires
            old(self).wf(),
            old(rop).wf(),
            a.wf(),
            b.wf(),
        ensures
            final(rop).wf(),
            final(rop).prec == old(rop).prec,
            final(self).wf(),
            ({
                let out = div_spec(a.val(), b.val(), old(rop).prec as nat, r,
                    old(self).emin as int, old(self).emax as int);
                &&& final(rop).val() == out.v
                &&& t as int == out.t
                &&& *final(self) == old(self).with_flags(out.f)
            }),
    {
        match (a.kind, b.kind) {
            (Kind::Nan, _) | (_, Kind::Nan) | (Kind::Inf, Kind::Inf) | (Kind::Zero, Kind::Zero) => {
                rop.set_nan();
                self.nanflag = true;
                0
            },
            (Kind::Inf, _) => {
                rop.set_inf(a.neg != b.neg);
                0
            },
            (_, Kind::Inf) => {
                rop.set_zero(a.neg != b.neg);
                0
            },
            (Kind::Zero, Kind::Regular) => {
                rop.set_zero(a.neg != b.neg);
                0
            },
            (Kind::Regular, Kind::Zero) => {
                rop.set_inf(a.neg != b.neg);
                self.divby0 = true;
                0
            },
            (Kind::Regular, Kind::Regular) => {
                proof {
                    lemma_fin_blen(a);
                    lemma_fin_blen(b);
                    lemma_wf_len(&a.mant, a.prec as nat);
                    lemma_wf_len(&b.mant, b.prec as nat);
                }
                let p = rop.prec;
                let k: usize = if p + 2 + b.prec >= a.prec {
                    p + 2 + b.prec - a.prec
                } else {
                    0
                };
                let aa = a.mant.shl(k);
                proof {
                    lemma_pow2_pos(k as nat);
                    lemma_pow2_adds(a.prec as nat, k as nat);
                    lemma_pow2_adds((a.prec - 1) as nat, k as nat);
                    assert(aa@ >= pow2(((a.prec - 1) + k) as nat)
                        && aa@ < pow2((a.prec + k) as nat)) by (nonlinear_arith)
                        requires
                            aa@ == a.mant@ * pow2(k as nat),
                            pow2((a.prec - 1) as nat) <= a.mant@ < pow2(a.prec as nat),
                            pow2(k as nat) > 0,
                            pow2(((a.prec - 1) + k) as nat)
                                == pow2((a.prec - 1) as nat) * pow2(k as nat),
                            pow2((a.prec + k) as nat) == pow2(a.prec as nat) * pow2(k as nat),
                    ;
                    lemma_blen_le(aa@, (a.prec + k) as nat);
                    lemma_wf_len(&aa, (a.prec + k) as nat);
                }
                let (q, rem) = aa.divrem(&b.mant);
                let sticky = !rem.is_zero();
                proof {
                    lemma_fundamental_div_mod_converse(aa@ as int, b.mant@ as int, q@ as int,
                        rem@ as int);
                    let lb = pow2((p + 1) as nat);
                    lemma_pow2_pos((p + 1) as nat);
                    lemma_pow2_adds((p + 1) as nat, b.prec as nat);
                    lemma_pow2_le(((p + 1) + b.prec) as nat, ((a.prec - 1) + k) as nat);
                    assert(aa@ >= lb * pow2(b.prec as nat));
                    assert(q@ >= lb) by (nonlinear_arith)
                        requires
                            aa@ >= lb * pow2(b.prec as nat),
                            pow2(b.prec as nat) >= b.mant@ + 1,
                            q@ * b.mant@ + rem@ == aa@,
                            rem@ < b.mant@,
                            b.mant@ >= 1,
                            lb >= 1,
                    ;
                    lemma_blen_bounds(q@);
                    if blen(q@) < p + 2 {
                        lemma_pow2_le(blen(q@), (p + 1) as nat);
                        assert(false);
                    }
                    assert(q@ <= aa@) by (nonlinear_arith)
                        requires
                            q@ * b.mant@ + rem@ == aa@,
                            b.mant@ >= 1,
                            rem@ >= 0,
                            q@ >= 0,
                    ;
                    lemma_blen_le(q@, (a.prec + k) as nat);
                }
                let e0: i128 = (a.exp as i128 - a.prec as i128)
                    - (b.exp as i128 - b.prec as i128) - k as i128;
                self.round_finish(rop, a.neg != b.neg, &q, e0, sticky, r)
            },
        }
    }

    /// `rop <- sqrt(a)`, rounded into `rop`'s precision.  The square root
    /// of a negative value (minus infinity included) is NaN with the invalid
    /// flag; the square root of a zero is that zero, sign kept.
    #[verifier::rlimit(100)]
    pub fn sqrt(&mut self, rop: &mut Number, a: &Number, r: rnd_t) -> (t: i32)
        requires
            old(self).wf(),
            old(rop).wf(),
            a.wf(),
        ensures
            final(rop).wf(),
            final(rop).prec == old(rop).prec,
            final(self).wf(),
            ({
                let out = sqrt_spec(a.val(), old(rop).prec as nat, r,
                    old(self).emin as int, old(self).emax as int);
                &&& final(rop).val() == out.v
                &&& t as int == out.t
                &&& *final(self) == old(self).with_flags(out.f)
            }),
    {
        match a.kind {
            Kind::Nan => {
                rop.set_nan();
                self.nanflag = true;
                0
            },
            Kind::Zero => {
                rop.set_zero(a.neg);
                0
            },
            Kind::Inf => {
                if a.neg {
                    rop.set_nan();
                    self.nanflag = true;
                    0
                } else {
                    rop.set_inf(false);
                    0
                }
            },
            Kind::Regular => {
                if a.neg {
                    rop.set_nan();
                    self.nanflag = true;
                    return 0;
                }
                proof {
                    lemma_fin_blen(a);
                    lemma_wf_len(&a.mant, a.prec as nat);
                }
                let p = rop.prec;
                let k0: usize = if 2 * p + 4 >= a.prec {
                    2 * p + 4 - a.prec
                } else {
                    0
                };
                let s: i64 = a.exp - a.prec as i64;
                let u: u64 = ((s - k0 as i64) + 0x1000_0000) as u64;
                let even = u % 2 == 0;
                proof {
                    lemma_mod_multiples_vanish(0x800_0000, s as int - k0 as int, 2);
                }
                let k = if even {
                    k0
                } else {
                    k0 + 1
                };
                let aa = a.mant.shl(k);
                proof {
                    lemma_pow2_pos(k as nat);
                    lemma_pow2_adds(a.prec as nat, k as nat);
                    lemma_pow2_adds((a.prec - 1) as nat, k as nat);
                    assert(aa@ >= pow2(((a.prec - 1) + k) as nat)
                        && aa@ < pow2((a.prec + k) as nat)) by (nonlinear_arith)
                        requires
                            aa@ == a.mant@ * pow2(k as nat),
                            pow2((a.prec - 1) as nat) <= a.mant@ < pow2(a.prec as nat),
                            pow2(k as nat) > 0,
                            pow2(((a.prec - 1) + k) as nat)
                                == pow2((a.prec - 1) as nat) * pow2(k as nat),
                            pow2((a.prec + k) as nat) == pow2(a.prec as nat) * pow2(k as nat),
                    ;
                    lemma_blen_le(aa@, (a.prec + k) as nat);
                    lemma_wf_len(&aa, (a.prec + k) as nat);
                }
                let rt = aa.isqrt();
                proof {
                    lemma_sqrt_unique(aa@, rt@);
                    // the root has at least p + 2 bits
                    let lb = pow2((p + 1) as nat);
                    lemma_pow2_pos((p + 1) as nat);
                    lemma_pow2_adds((p + 1) as nat, (p + 1) as nat);
                    lemma_pow2_le((2 * p + 3) as nat, ((a.prec - 1) + k) as nat);
                    lemma_pow2_adds((2 * p + 2) as nat, 1);
                    lemma2_to64();
                    assert(rt@ >= lb) by (nonlinear_arith)
                        requires
                            aa@ < (rt@ + 1) * (rt@ + 1),
                            aa@ >= pow2((2 * p + 3) as nat),
                            pow2((2 * p + 3) as nat) == pow2((2 * p + 2) as nat) * 2,
                            pow2((2 * p + 2) as nat) == lb * lb,
                            lb >= 1,
                    ;
                    lemma_blen_bounds(rt@);
                    if blen(rt@) < p + 2 {
                        lemma_pow2_le(blen(rt@), (p + 1) as nat);
                        assert(false);
                    }
                    assert(rt@ <= aa@) by (nonlinear_arith)
                        requires rt@ * rt@ <= aa@, rt@ >= 1,
                    ;
                    lemma_blen_le(rt@, (a.prec + k) as nat);
                    lemma_wf_len(&rt, (a.prec + k) as nat);
                }
                let sq = rt.mul(&rt);
                let sticky = sq.cmp(&aa) != 0;
                let diff: i64 = s - k as i64;
                let h: i64 = if diff >= 0 {
                    diff / 2
                } else {
                    -((-diff) / 2)
                };
                proof {
                    lemma_fundamental_div_mod(diff as int, 2);
                    lemma_fundamental_div_mod(-(diff as int), 2);
                    assert(2 * (h as int) == diff);
                    assert((diff as int) / 2 == h as int) by (nonlinear_arith)
                        requires 2 * (h as int) == diff as int,
                    ;
                }
                self.round_finish(rop, false, &rt, h as i128, sticky, r)
            },
        }
    }

    /// The fused operation `rop <- a * b + (-1)^{flip} c`: the product and
    /// the sum are exact, and a single rounding happens at the end.
    #[verifier::rlimit(100)]
    fn fma_inner(&mut self, rop: &mut Number, a: &Number, b: &Number, c: &Number, flip: bool, r: rnd_t) -> (t: i32)
        requires
            old(self).wf(),
            old(rop).wf(),
            a.wf(),
            b.wf(),
            c.wf(),
        ensures
            final(rop).wf(),
            final(rop).prec == old(rop).prec,
            final(self).wf(),
            ({
                let vc = if flip { neg_val(c.val()) } else { c.val() };
                let out = fma_spec(a.val(), b.val(), vc, old(rop).prec as nat, r,
                    old(self).emin as int, old(self).emax as int);
                &&& final(rop).val() == out.v
                &&& t as int == out.t
                &&& *final(self) == old(self).with_flags(out.f)
            }),
    {
        let cneg = if flip { !c.neg } else { c.neg };
        if matches!(a.kind, Kind::Nan) || matches!(b.kind, Kind::Nan) || matches!(c.kind, Kind::Nan) {
            rop.set_nan();
            self.nanflag = true;
            return 0;
        }
        if (matches!(a.kind, Kind::Inf) && matches!(b.kind, Kind::Zero))
            || (matches!(a.kind, Kind::Zero) && matches!(b.kind, Kind::Inf)) {
            rop.set_nan();
            self.nanflag = true;
            return 0;
        }
        let pneg = a.neg != b.neg;
        if matches!(a.kind, Kind::Inf) || matches!(b.kind, Kind::Inf) {
            if matches!(c.kind, Kind::Inf) && cneg != pneg {
                rop.set_nan();
                self.nanflag = true;
                0
            } else {
                rop.set_inf(pneg);
                0
            }
        } else if matches!(c.kind, Kind::Inf) {
            rop.set_inf(cneg);
            0
        } else if matches!(a.kind, Kind::Zero) || matches!(b.kind, Kind::Zero) {
            if matches!(c.kind, Kind::Zero) {
                rop.set_zero(if pneg == cneg { pneg } else { matches!(r, rnd_t::RNDD) });
                0
            } else {
                self.copy_fin(rop, c, cneg, r)
            }
        } else {
            proof {
                lemma_fin_blen(a);
                lemma_fin_blen(b);
                lemma_wf_len(&a.mant, a.prec as nat);
                lemma_wf_len(&b.mant, b.prec as nat);
            }
            let prod = a.mant.mul(&b.mant);
            proof {
                lemma_pow2_adds(a.prec as nat, b.prec as nat);
                assert(prod@ > 0 && prod@ < pow2((a.prec + b.prec) as nat)) by (nonlinear_arith)
                    requires
                        prod@ == a.mant@ * b.mant@,
                        0 < a.mant@ < pow2(a.prec as nat),
                        0 < b.mant@ < pow2(b.prec as nat),
                        pow2((a.prec + b.prec) as nat)
                            == pow2(a.prec as nat) * pow2(b.prec as nat),
                ;
                lemma_blen_le(prod@, (a.prec + b.prec) as nat);
            }
            let s12: i64 = (a.exp - a.prec as i64) + (b.exp - b.prec as i64);
            if matches!(c.kind, Kind::Zero) {
                self.round_finish(rop, pneg, &prod, s12 as i128, false, r)
            } else {
                proof {
                    lemma_fin_blen(c);
                }
                let sc: i64 = c.exp - c.prec as i64;
                self.sum2(rop, pneg, &prod, s12, cneg, &c.mant, sc, r)
            }
        }
    }

    /// `rop <- a * b + c` with a single rounding of the exact result.
    pub fn fma(&mut self, rop: &mut Number, a: &Number, b: &Number, c: &Number, r: rnd_t) -> (t: i32)
        requires
            old(self).wf(),
            old(rop).wf(),
            a.wf(),
            b.wf(),
            c.wf(),
        ensures
            final(rop).wf(),
            final(rop).prec == old(rop).prec,
            final(self).wf(),
            ({
                let out = fma_spec(a.val(), b.val(), c.val(), old(rop).prec as nat, r,
                    old(self).emin as int, old(self).emax as int);
                &&& final(rop).val() == out.v
                &&& t as int == out.t
                &&& *final(self) == old(self).with_flags(out.f)
            }),
    {
        self.fma_inner(rop, a, b, c, false, r)
    }

    /// `rop <- a * b - c` with a single rounding of the exact result.
    pub fn fms(&mut self, rop: &mut Number, a: &Number, b: &Number, c: &Number, r: rnd_t) -> (t: i32)
        requires
            old(self).wf(),
            old(rop).wf(),
            a.wf(),
            b.wf(),
            c.wf(),
        ensures
            final(rop).wf(),
            final(rop).prec == old(rop).prec,
            final(self).wf(),
            ({
                let out = fma_spec(a.val(), b.val(), neg_val(c.val()), old(rop).prec as nat, r,
                    old(self).emin as int, old(self).emax as int);
                &&& final(rop).val() == out.v
                &&& t as int == out.t
                &&& *final(self) == old(self).with_flags(out.f)
            }),
    {
        self.fma_inner(rop, a, b, c, true, r)
    }

    /// `rop <- a^k`, the exact power rounded once into `rop`'s precision.
    /// The width of the exact power, about `k` times the operand's
    /// precision, must stay allocatable.
    pub fn pow_ui(&mut self, rop: &mut Number, a: &Number, k: u64, r: rnd_t) -> (t: i32)
        requires
            old(self).wf(),
            old(rop).wf(),
            a.wf(),
            a.kind is Regular ==> k as int * a.prec as int <= 0x400_0000,
        ensures
            final(rop).wf(),
            final(rop).prec == old(rop).prec,
            final(self).wf(),
            ({
                let out = pow_ui_spec(a.val(), k as nat, old(rop).prec as nat, r,
                    old(self).emin as int, old(self).emax as int);
                &&& final(rop).val() == out.v
                &&& t as int == out.t
                &&& *final(self) == old(self).with_flags(out.f)
            }),
    {
        if k == 0 {
            let one = Big::from_u64(1);
            proof {
                lemma2_to64();
                lemma_blen_le(one@, 1);
            }
            return self.round_finish(rop, false, &one, 0, false, r);
        }
        match a.kind {
            Kind::Nan => {
                rop.set_nan();
                self.nanflag = true;
                0
            },
            Kind::Inf => {
                rop.set_inf(a.neg && k % 2 == 1);
                0
            },
            Kind::Zero => {
                rop.set_zero(a.neg && k % 2 == 1);
                0
            },
            Kind::Regular => {
                proof {
                    lemma_fin_blen(a);
                    lemma_pow_lt_pow2(a.mant@, a.prec as nat, k as nat);
                    lemma_pow2_le((a.prec * k) as nat, 0x400_0000);
                    lemma_pow2_le(0x400_0000, 0x800_0000);
                    lemma_pow2_pos(0x400_0000);
                    assert(a.prec * k == k * a.prec) by (nonlinear_arith);
                    assert(k as int <= 0x200_0000) by (nonlinear_arith)
                        requires
                            k as int * a.prec as int <= 0x400_0000,
                            a.prec >= 2,
                            k as int >= 1,
                    ;
                    assert(-0x1000_0000_0000_0000 <= (a.exp as int - a.prec as int) * (k as int)
                        <= 0x1000_0000_0000_0000) by (nonlinear_arith)
                        requires
                            -0x100_0000 <= a.exp as int - a.prec as int <= 0x100_0000,
                            1 <= k as int <= 0x200_0000,
                    ;
                }
                let mag = big_pow(&a.mant, k);
                proof {
                    lemma_pow_positive(a.mant@ as int, k as nat);
                    lemma_blen_le(mag@, 0x400_0000);
                }
                let e0: i128 = (a.exp as i128 - a.prec as i128) * k as i128;
                self.round_finish(rop, a.neg && k % 2 == 1, &mag, e0, false, r)
            },
        }
    }

    /// `rop <- b^k` for integer base and exponent, rounded once.
    pub fn ui_pow_ui(&mut self, rop: &mut Number, b: u64, k: u64, r: rnd_t) -> (t: i32)
        requires
            old(self).wf(),
            old(rop).wf(),
            k <= 0x8_0000,
        ensures
            final(rop).wf(),
            final(rop).prec == old(rop).prec,
            final(self).wf(),
            ({
                let out = ui_pow_ui_spec(b as nat, k as nat, old(rop).prec as nat, r,
                    old(self).emin as int, old(self).emax as int);
                &&& final(rop).val() == out.v
                &&& t as int == out.t
                &&& *final(self) == old(self).with_flags(out.f)
            }),
    {
        if k == 0 {
            let one = Big::from_u64(1);
            proof {
                lemma2_to64();
                lemma_blen_le(one@, 1);
            }
            return self.round_finish(rop, false, &one, 0, false, r);
        }
        if b == 0 {
            rop.set_zero(false);
            return 0;
        }
        let base = Big::from_u64(b);
        proof {
            lemma2_to64();
            lemma2_to64_rest();
            lemma_blen_le(base@, 64);
            lemma_pow_lt_pow2(base@, 64, k as nat);
            lemma_pow2_le((64 * k) as nat, 0x400_0000);
            lemma_pow2_le(0x400_0000, 0x800_0000);
            lemma_pow2_pos(0x400_0000);
        }
        let mag = big_pow(&base, k);
        proof {
            lemma_pow_positive(base@ as int, k as nat);
            lemma_blen_le(mag@, 0x400_0000);
        }
        self.round_finish(rop, false, &mag, 0, false, r)
    }
}

} // verus!
