//! Laws of the engine, stated and proved over the operation outcomes.

use vstd::prelude::*;
use vstd::arithmetic::power2::*;
use crate::big::{blen, lemma_blen_bounds, lemma_blen_is, lemma_blen_shift};
use crate::num::{Val, Flags};
use crate::round::{round_mag, finish_mag, lemma_round_mag_bounds, lemma_round_exact_val,
    lemma_finish_of_equal, lemma_same_scaled_refl, same_scaled};
use crate::ops::{add_spec, sub_spec, sum2_out, neg_val, fin_out};
use crate::compare::val_cmp;
use crate::rnd_t;

verus! {

/// Law: comparison is reflexive for every non-NaN value, and zeros of both
/// signs compare equal — `cmp(+0, -0)` is "equal".
pub proof fn lemma_cmp_reflexive(v: Val)
    requires
        !(v is Nan),
    ensures
        val_cmp(v, v) == 0,
{
}

/// Law: a zero of either sign compares equal to a zero of either sign.
pub proof fn lemma_cmp_zeros(n1: bool, n2: bool)
    ensures
        val_cmp(Val::Zero { neg: n1 }, Val::Zero { neg: n2 }) == 0,
{
}

/// `(m * 2^a) * 2^b == m * 2^(a + b)`.
proof fn lemma_scale_up(m: nat, a: nat, b: nat)
    ensures
        (m * pow2(a)) * pow2(b) == m * pow2(a + b),
{
    lemma_pow2_adds(a, b);
    assert((m * pow2(a)) * pow2(b) == m * (pow2(a) * pow2(b))) by (nonlinear_arith);
}

/// Two scaled magnitudes agreeing at a common finer scale stand for the
/// same value.
proof fn lemma_cancel_scaled(x: nat, ex: int, y: nat, ey: int, s0: int)
    requires
        s0 <= ex,
        s0 <= ey,
        x * pow2((ex - s0) as nat) == y * pow2((ey - s0) as nat),
    ensures
        same_scaled(x, ex, y, ey),
{
    if ex <= ey {
        lemma_scale_up(y, (ey - ex) as nat, (ex - s0) as nat);
        assert((ey - ex) as nat + (ex - s0) as nat == (ey - s0) as nat);
        lemma_pow2_pos((ex - s0) as nat);
        assert(x == y * pow2((ey - ex) as nat)) by (nonlinear_arith)
            requires
                x * pow2((ex - s0) as nat) == (y * pow2((ey - ex) as nat)) * pow2((ex - s0) as nat),
                pow2((ex - s0) as nat) > 0,
        ;
    } else {
        lemma_scale_up(x, (ex - ey) as nat, (ey - s0) as nat);
        assert((ex - ey) as nat + (ey - s0) as nat == (ex - s0) as nat);
        lemma_pow2_pos((ey - s0) as nat);
        assert(x * pow2((ex - ey) as nat) == y) by (nonlinear_arith)
            requires
                (x * pow2((ex - ey) as nat)) * pow2((ey - s0) as nat)
                    == y * pow2((ey - s0) as nat),
                pow2((ey - s0) as nat) > 0,
        ;
    }
}

/// The converse: a same-value statement rescales to any common finer scale.
proof fn lemma_rescale(x: nat, ex: int, y: nat, ey: int, s0: int)
    requires
        s0 <= ex,
        s0 <= ey,
        same_scaled(x, ex, y, ey),
    ensures
        x * pow2((ex - s0) as nat) == y * pow2((ey - s0) as nat),
{
    if ex <= ey {
        lemma_scale_up(y, (ey - ex) as nat, (ex - s0) as nat);
        assert((ey - ex) as nat + (ex - s0) as nat == (ey - s0) as nat);
    } else {
        lemma_scale_up(x, (ex - ey) as nat, (ey - s0) as nat);
        assert((ex - ey) as nat + (ey - s0) as nat == (ex - s0) as nat);
    }
}

/// Law: adding an operand and then subtracting it again returns the first
/// operand exactly, whenever the addition was exact (ternary zero) and
/// neither overflowed nor underflowed.  Both operands are finite values at
/// the working precision, and the first lies inside the exponent range.
pub proof fn lemma_add_sub_roundtrip(va: Val, vb: Val, p: nat, r: rnd_t, emin: int, emax: int)
    requires
        p >= 1,
        va is Fin,
        vb is Fin,
        blen(va->Fin_m) == p,
        blen(vb->Fin_m) == p,
        emin <= va->Fin_e <= emax,
        add_spec(va, vb, p, r, emin, emax).t == 0,
        !add_spec(va, vb, p, r, emin, emax).f.overflow,
        !add_spec(va, vb, p, r, emin, emax).f.underflow,
    ensures
        ({
            let o1 = add_spec(va, vb, p, r, emin, emax);
            let o2 = sub_spec(o1.v, vb, p, r, emin, emax);
            &&& o2.v == va
            &&& o2.t == 0
            &&& o2.f == Flags::none()
        }),
{
    let n1 = va->Fin_neg;
    let m1 = va->Fin_m;
    let e1 = va->Fin_e;
    let n2 = vb->Fin_neg;
    let m2 = vb->Fin_m;
    let e2 = vb->Fin_e;
    let s1 = e1 - p;
    let s2 = e2 - p;
    if m1 == 0 {
        assert(blen(0nat) == 0);
        assert(false);
    }
    if m2 == 0 {
        assert(blen(0nat) == 0);
        assert(false);
    }
    lemma_blen_bounds(m1);
    lemma_blen_bounds(m2);
    let s = if s1 <= s2 { s1 } else { s2 };
    let sha = (s1 - s) as nat;
    let shb = (s2 - s) as nat;
    let aa = m1 * pow2(sha);
    let bb = m2 * pow2(shb);
    lemma_pow2_pos(sha);
    lemma_pow2_pos(shb);
    assert(aa > 0 && bb > 0) by (nonlinear_arith)
        requires
            m1 > 0,
            m2 > 0,
            pow2(sha) > 0,
            pow2(shb) > 0,
            aa == m1 * pow2(sha),
            bb == m2 * pow2(shb),
    ;
    lemma_blen_shift(m1, sha);
    lemma_blen_shift(m2, shb);
    let z: int = (if n1 { -(aa as int) } else { aa as int })
        + (if n2 { -(bb as int) } else { bb as int });
    let o1 = add_spec(va, vb, p, r, emin, emax);
    assert(o1 == sum2_out(n1, m1, s1, n2, m2, s2, p, r, emin, emax));
    if z == 0 {
        // exact cancellation: the operands are exact opposites
        assert(n1 != n2);
        assert(aa == bb);
        assert(blen(aa) == p + sha && blen(bb) == p + shb);
        assert(sha == shb);
        assert(s1 == s2 && e1 == e2);
        assert(m1 == m2) by (nonlinear_arith)
            requires
                m1 * pow2(sha) == m2 * pow2(sha),
                pow2(sha) > 0,
        ;
        let o2 = sub_spec(o1.v, vb, p, r, emin, emax);
        assert(o1.v is Zero);
        assert(neg_val(vb) == (Val::Fin { neg: !n2, m: m2, e: e2 }));
        assert(o2 == fin_out(!n2, m2, e2, p, r, emin, emax));
        lemma_same_scaled_refl(m2, s2);
        lemma_finish_of_equal(m2, s2, m2, e2, p, !n2, r, emin, emax);
        assert(o2.v == (Val::Fin { neg: !n2, m: m2, e: e2 }));
        assert(o2.v == va);
    } else {
        lemma_roundtrip_nonzero(va, vb, p, r, emin, emax);
    }
}

/// The case of the round-trip law in which the exact sum is not zero.
#[verifier::rlimit(100)]
proof fn lemma_roundtrip_nonzero(va: Val, vb: Val, p: nat, r: rnd_t, emin: int, emax: int)
    requires
        p >= 1,
        va is Fin,
        vb is Fin,
        blen(va->Fin_m) == p,
        blen(vb->Fin_m) == p,
        emin <= va->Fin_e <= emax,
        add_spec(va, vb, p, r, emin, emax).t == 0,
        !add_spec(va, vb, p, r, emin, emax).f.overflow,
        !add_spec(va, vb, p, r, emin, emax).f.underflow,
        ({
            let s1 = va->Fin_e - p;
            let s2 = vb->Fin_e - p;
            let s = if s1 <= s2 { s1 } else { s2 };
            let aa = va->Fin_m * pow2((s1 - s) as nat);
            let bb = vb->Fin_m * pow2((s2 - s) as nat);
            (if va->Fin_neg { -(aa as int) } else { aa as int })
                + (if vb->Fin_neg { -(bb as int) } else { bb as int }) != 0
        }),
    ensures
        ({
            let o1 = add_spec(va, vb, p, r, emin, emax);
            let o2 = sub_spec(o1.v, vb, p, r, emin, emax);
            &&& o2.v == va
            &&& o2.t == 0
            &&& o2.f == Flags::none()
        }),
{
    let n1 = va->Fin_neg;
    let m1 = va->Fin_m;
    let e1 = va->Fin_e;
    let n2 = vb->Fin_neg;
    let m2 = vb->Fin_m;
    let e2 = vb->Fin_e;
    let s1 = e1 - p;
    let s2 = e2 - p;
    if m1 == 0 {
        assert(blen(0nat) == 0);
        assert(false);
    }
    if m2 == 0 {
        assert(blen(0nat) == 0);
        assert(false);
    }
    lemma_blen_bounds(m1);
    lemma_blen_bounds(m2);
    let s = if s1 <= s2 { s1 } else { s2 };
    let sha = (s1 - s) as nat;
    let shb = (s2 - s) as nat;
    let aa = m1 * pow2(sha);
    let bb = m2 * pow2(shb);
    lemma_pow2_pos(sha);
    lemma_pow2_pos(shb);
    let z: int = (if n1 { -(aa as int) } else { aa as int })
        + (if n2 { -(bb as int) } else { bb as int });
    let o1 = add_spec(va, vb, p, r, emin, emax);
    assert(o1 == sum2_out(n1, m1, s1, n2, m2, s2, p, r, emin, emax));
    let zn = z < 0;
    let az = (if z < 0 { -z } else { z }) as nat;
    assert(o1 == finish_mag(zn, az, s, false, p, r, emin, emax));
    let rr = round_mag(az, s, false, p, zn, r);
    lemma_round_mag_bounds(az, s, false, p, zn, r);
    assert(emin <= rr.e <= emax);
    assert(o1.t == rr.t && rr.t == 0);
    assert(o1.v == (Val::Fin { neg: zn, m: rr.m, e: rr.e }));
    lemma_round_exact_val(az, s, p, zn, r);
    lemma_blen_is(rr.m, p);
    let sr = rr.e - p;
    let o2 = sub_spec(o1.v, vb, p, r, emin, emax);
    assert(neg_val(vb) == (Val::Fin { neg: !n2, m: m2, e: e2 }));
    assert(o2 == sum2_out(zn, rr.m, sr, !n2, m2, s2, p, r, emin, emax));
    let s9 = if sr <= s2 { sr } else { s2 };
    let shr2 = (sr - s9) as nat;
    let shb2 = (s2 - s9) as nat;
    let aa2 = rr.m * pow2(shr2);
    let bb2 = m2 * pow2(shb2);
    let z2: int = (if zn { -(aa2 as int) } else { aa2 as int })
        + (if !n2 { -(bb2 as int) } else { bb2 as int });
    // everything at the common scale s0
    let s0 = if s <= s9 { s } else { s9 };
    let ds = (s - s0) as nat;
    let ds9 = (s9 - s0) as nat;
    lemma_pow2_pos(ds);
    lemma_pow2_pos(ds9);
    lemma_pow2_pos((s1 - s0) as nat);
    lemma_pow2_pos((s2 - s0) as nat);
    lemma_pow2_pos((sr - s0) as nat);
    // aligned first sum
    lemma_scale_up(m1, sha, ds);
    lemma_scale_up(m2, shb, ds);
    assert(sha + ds == (s1 - s0) as nat);
    assert(shb + ds == (s2 - s0) as nat);
    let w1: int = m1 as int * pow2((s1 - s0) as nat) as int;
    let w2: int = m2 as int * pow2((s2 - s0) as nat) as int;
    let wr: int = rr.m as int * pow2((sr - s0) as nat) as int;
    assert(z * pow2(ds) as int == (if n1 { -w1 } else { w1 }) + (if n2 { -w2 } else { w2 }))
        by (nonlinear_arith)
        requires
            z == (if n1 { -(aa as int) } else { aa as int })
                + (if n2 { -(bb as int) } else { bb as int }),
            aa * pow2(ds) == m1 * pow2((s1 - s0) as nat),
            bb * pow2(ds) == m2 * pow2((s2 - s0) as nat),
            w1 == m1 as int * pow2((s1 - s0) as nat) as int,
            w2 == m2 as int * pow2((s2 - s0) as nat) as int,
    ;
    // exactness carries the magnitude to the rounded representation
    lemma_rescale(az, s, rr.m, sr, s0);
    assert(az * pow2(ds) == rr.m * pow2((sr - s0) as nat));
    // signed form of the same fact
    assert(z * pow2(ds) as int == (if zn { -wr } else { wr })) by (nonlinear_arith)
        requires
            z == (if zn { -(az as int) } else { az as int }),
            az * pow2(ds) == rr.m * pow2((sr - s0) as nat),
            wr == rr.m as int * pow2((sr - s0) as nat) as int,
    ;
    // aligned second sum
    lemma_scale_up(rr.m, shr2, ds9);
    lemma_scale_up(m2, shb2, ds9);
    assert(shr2 + ds9 == (sr - s0) as nat);
    assert(shb2 + ds9 == (s2 - s0) as nat);
    assert(z2 * pow2(ds9) as int == (if zn { -wr } else { wr }) + (if !n2 { -w2 } else { w2 }))
        by (nonlinear_arith)
        requires
            z2 == (if zn { -(aa2 as int) } else { aa2 as int })
                + (if !n2 { -(bb2 as int) } else { bb2 as int }),
            aa2 * pow2(ds9) == rr.m * pow2((sr - s0) as nat),
            bb2 * pow2(ds9) == m2 * pow2((s2 - s0) as nat),
            wr == rr.m as int * pow2((sr - s0) as nat) as int,
            w2 == m2 as int * pow2((s2 - s0) as nat) as int,
    ;
    // combine: the second sum is the first operand again
    assert(z2 * pow2(ds9) as int == (if n1 { -w1 } else { w1 }));
    assert(w1 > 0) by (nonlinear_arith)
        requires
            m1 > 0,
            pow2((s1 - s0) as nat) > 0,
            w1 == m1 as int * pow2((s1 - s0) as nat) as int,
    ;
    assert(z2 != 0 && (z2 < 0 <==> n1)) by (nonlinear_arith)
        requires
            z2 * pow2(ds9) as int == (if n1 { -w1 } else { w1 }),
            w1 > 0,
            pow2(ds9) > 0,
    ;
    let az2 = (if z2 < 0 { -z2 } else { z2 }) as nat;
    assert(az2 * pow2(ds9) == m1 * pow2((s1 - s0) as nat)) by (nonlinear_arith)
        requires
            z2 * pow2(ds9) as int == (if n1 { -w1 } else { w1 }),
            w1 == m1 as int * pow2((s1 - s0) as nat) as int,
            az2 == (if z2 < 0 { -z2 } else { z2 }) as nat,
            (z2 < 0 <==> n1),
            z2 != 0,
    ;
    // cancel down to a same-value statement and round
    lemma_cancel_scaled(az2, s9, m1, s1, s0);
    assert(az2 > 0) by (nonlinear_arith)
        requires
            az2 * pow2(ds9) == m1 * pow2((s1 - s0) as nat),
            m1 > 0,
            pow2((s1 - s0) as nat) > 0,
            pow2(ds9) > 0,
    ;
    lemma_finish_of_equal(az2, s9, m1, e1, p, n1, r, emin, emax);
    assert(o2 == finish_mag(z2 < 0, az2, s9, false, p, r, emin, emax));
    assert(o2.v == (Val::Fin { neg: n1, m: m1, e: e1 }));
    assert(o2.v == va);
}

} // verus!
