//! Limb store: arbitrary-precision natural numbers kept as little-endian
//! sequences of 32-bit limbs, with a mathematical value view.  All the
//! significand arithmetic of the engine is built on this module.

use vstd::prelude::*;
use vstd::arithmetic::power2::*;
use vstd::arithmetic::power::*;
use vstd::arithmetic::div_mod::*;
use vstd::arithmetic::mul::*;

verus! {

/// Number of value bits in one limb.
pub const LIMB_BITS: usize = 32;

/// Mathematical value of a little-endian limb sequence.
pub open spec fn limbs_val(s: Seq<u32>) -> nat
    decreases s.len(),
{
    if s.len() == 0 {
        0
    } else {
        s[0] as nat + pow2(32) * limbs_val(s.subrange(1, s.len() as int))
    }
}

/// An arbitrary-precision natural number.
pub struct Big {
    pub limbs: Vec<u32>,
}

impl View for Big {
    type V = nat;

    open spec fn view(&self) -> nat {
        limbs_val(self.limbs@)
    }
}

impl Big {
    /// Canonical form: no leading (high-order) zero limb.
    pub open spec fn wf(&self) -> bool {
        self.limbs@.len() == 0 || self.limbs@.last() != 0
    }
}

/// Appending a limb adds its value scaled by the current width.
pub proof fn lemma_val_snoc(s: Seq<u32>, x: u32)
    ensures
        limbs_val(s.push(x)) == limbs_val(s) + (x as nat) * pow2(32 * s.len()),
    decreases s.len(),
{
    if s.len() == 0 {
        lemma2_to64();
        let ps = s.push(x);
        assert(ps[s.len() as int] == x);
        assert(ps.subrange(1, ps.len() as int) =~= Seq::<u32>::empty());
        assert(limbs_val(ps) == x as nat + pow2(32) * limbs_val(ps.subrange(1, ps.len() as int)));
        assert(32 * s.len() == 0);
    } else {
        let t = s.subrange(1, s.len() as int);
        assert(s.push(x).subrange(1, s.push(x).len() as int) =~= t.push(x));
        lemma_val_snoc(t, x);
        assert(limbs_val(s.push(x)) == s[0] as nat
            + pow2(32) * (limbs_val(t) + (x as nat) * pow2(32 * t.len())));
        assert(pow2(32) * ((x as nat) * pow2(32 * t.len()))
            == (x as nat) * (pow2(32) * pow2(32 * t.len()))) by (nonlinear_arith);
        lemma_pow2_adds(32, 32 * t.len());
        assert(32 + 32 * t.len() == 32 * s.len());
        assert(pow2(32) * (limbs_val(t) + (x as nat) * pow2(32 * t.len()))
            == pow2(32) * limbs_val(t) + pow2(32) * ((x as nat) * pow2(32 * t.len())))
            by (nonlinear_arith);
    }
}

/// The value of a single limb.
pub proof fn lemma_val_one(x: u32)
    ensures
        limbs_val(seq![x]) == x as nat,
{
    lemma2_to64();
    let e = Seq::<u32>::empty();
    assert(seq![x] =~= e.push(x));
    lemma_val_snoc(e, x);
    assert(limbs_val(e) == 0);
    assert(32 * e.len() == 0);
    assert(pow2(0) == 1);
    assert((x as nat) * 1 == x as nat) by (nonlinear_arith);
}

/// The value of a sequence is bounded by the width of its limbs.
pub proof fn lemma_val_bound(s: Seq<u32>)
    ensures
        limbs_val(s) < pow2(32 * s.len()),
    decreases s.len(),
{
    if s.len() == 0 {
        lemma2_to64();
    } else {
        let t = s.subrange(1, s.len() as int);
        lemma_val_bound(t);
        lemma_pow2_adds(32, 32 * t.len());
        assert(32 + 32 * t.len() == 32 * s.len());
        lemma2_to64();
        assert(s[0] as nat <= pow2(32) - 1);
        assert(pow2(32) * limbs_val(t) <= pow2(32) * (pow2(32 * t.len()) - 1)) by (nonlinear_arith)
            requires limbs_val(t) <= pow2(32 * t.len()) - 1, pow2(32) > 0;
        assert(pow2(32) * (pow2(32 * t.len()) - 1) == pow2(32) * pow2(32 * t.len()) - pow2(32))
            by (nonlinear_arith);
    }
}

/// A sequence whose top limb is nonzero reaches the value of that limb's place.
pub proof fn lemma_val_lower(s: Seq<u32>)
    requires
        s.len() > 0,
        s.last() != 0,
    ensures
        limbs_val(s) >= pow2((32 * (s.len() - 1)) as nat),
    decreases s.len(),
{
    if s.len() == 1 {
        lemma2_to64();
        assert(limbs_val(s) == s[0] as nat + pow2(32) * limbs_val(s.subrange(1, 1)));
        assert(s.subrange(1, 1) =~= Seq::<u32>::empty());
    } else {
        let t = s.subrange(1, s.len() as int);
        assert(t.last() == s.last());
        lemma_val_lower(t);
        lemma2_to64();
        lemma_pow2_adds(32, 32 * (t.len() - 1) as nat);
        assert((32 * (t.len() - 1)) as nat == 32 * (t.len() - 1) as nat);
        assert(pow2(32) * limbs_val(t) >= pow2(32) * pow2(32 * (t.len() - 1) as nat))
            by (nonlinear_arith)
            requires limbs_val(t) >= pow2(32 * (t.len() - 1) as nat), pow2(32) > 0;
    }
}

/// A value is zero exactly when all its limbs are zero.
pub proof fn lemma_val_zero(s: Seq<u32>)
    ensures
        limbs_val(s) == 0 <==> (forall|i: int| 0 <= i < s.len() ==> s[i] == 0),
    decreases s.len(),
{
    lemma2_to64();
    if s.len() > 0 {
        let t = s.subrange(1, s.len() as int);
        lemma_val_zero(t);
        assert(pow2(32) * limbs_val(t) == 0 <==> limbs_val(t) == 0) by (nonlinear_arith)
            requires pow2(32) > 0;
        if limbs_val(s) == 0 {
            assert(forall|i: int| 1 <= i < s.len() ==> s[i] == t[i - 1] && t[i - 1] == 0);
        }
        if forall|i: int| 0 <= i < s.len() ==> s[i] == 0 {
            assert(forall|j: int| 0 <= j < t.len() ==> t[j] == s[j + 1] && s[j + 1] == 0);
        }
    }
}

/// Value of the first `i` limbs (all of them, past the end).
pub open spec fn valp(s: Seq<u32>, i: nat) -> nat {
    if i <= s.len() {
        limbs_val(s.subrange(0, i as int))
    } else {
        limbs_val(s)
    }
}

/// Limb at position `i`, zero-extended past the end.
pub open spec fn getl(s: Seq<u32>, i: nat) -> u32 {
    if i < s.len() {
        s[i as int]
    } else {
        0
    }
}

pub proof fn lemma_valp_step(s: Seq<u32>, i: nat)
    ensures
        valp(s, i + 1) == valp(s, i) + (getl(s, i) as nat) * pow2(32 * i),
{
    if i < s.len() {
        assert(s.subrange(0, i as int + 1) =~= s.subrange(0, i as int).push(s[i as int]));
        lemma_val_snoc(s.subrange(0, i as int), s[i as int]);
    } else {
        if i == s.len() {
            assert(s.subrange(0, i as int) =~= s);
        }
        assert(getl(s, i) == 0);
    }
}

pub proof fn lemma_valp_full(s: Seq<u32>, i: nat)
    requires
        i >= s.len(),
    ensures
        valp(s, i) == limbs_val(s),
{
    if i == s.len() {
        assert(s.subrange(0, i as int) =~= s);
    }
}

/// Splitting a sequence splits its value.
pub proof fn lemma_val_split(s: Seq<u32>, i: nat)
    requires
        i <= s.len(),
    ensures
        limbs_val(s) == limbs_val(s.subrange(0, i as int))
            + pow2(32 * i) * limbs_val(s.subrange(i as int, s.len() as int)),
    decreases i,
{
    lemma2_to64();
    if i == 0 {
        assert(s.subrange(0, 0) =~= Seq::<u32>::empty());
        assert(s.subrange(0, s.len() as int) =~= s);
        assert(pow2(0) == 1);
        assert(pow2(0) * limbs_val(s.subrange(0, s.len() as int))
            == limbs_val(s.subrange(0, s.len() as int))) by (nonlinear_arith)
            requires pow2(0) == 1,
        ;
    } else {
        let t = s.subrange(1, s.len() as int);
        lemma_val_split(t, (i - 1) as nat);
        assert(t.subrange(0, i - 1) =~= s.subrange(1, i as int));
        assert(t.subrange(i - 1, t.len() as int) =~= s.subrange(i as int, s.len() as int));
        let head = s.subrange(0, i as int);
        assert(head.subrange(1, head.len() as int) =~= s.subrange(1, i as int));
        assert(limbs_val(head) == s[0] as nat + pow2(32) * limbs_val(s.subrange(1, i as int)));
        let hi = limbs_val(s.subrange(i as int, s.len() as int));
        let mid = limbs_val(s.subrange(1, i as int));
        assert(limbs_val(t) == mid + pow2(32 * (i - 1) as nat) * hi);
        lemma_pow2_adds(32, 32 * (i - 1) as nat);
        assert(32 + 32 * (i - 1) as nat == 32 * i);
        assert(pow2(32 * i) == pow2(32) * pow2(32 * (i - 1) as nat));
        assert(pow2(32) * (mid + pow2(32 * (i - 1) as nat) * hi)
            == pow2(32) * mid + (pow2(32) * pow2(32 * (i - 1) as nat)) * hi) by (nonlinear_arith);
        assert(limbs_val(s) == s[0] as nat + pow2(32) * limbs_val(t));
        assert(limbs_val(s) == s[0] as nat + pow2(32) * mid + pow2(32 * i) * hi);
        assert(limbs_val(head) == s[0] as nat + pow2(32) * mid);
    }
}

/// If two equally long sequences agree above position `i` and differ there,
/// the one with the larger limb at `i` has the larger value.
pub proof fn lemma_val_cmp_at(a: Seq<u32>, b: Seq<u32>, i: nat)
    requires
        a.len() == b.len(),
        i < a.len(),
        forall|j: int| i < j < a.len() ==> a[j] == b[j],
        a[i as int] < b[i as int],
    ensures
        limbs_val(a) < limbs_val(b),
{
    lemma_val_split(a, i);
    lemma_val_split(b, i);
    let ta = a.subrange(i as int, a.len() as int);
    let tb = b.subrange(i as int, b.len() as int);
    assert(ta.subrange(1, ta.len() as int) =~= tb.subrange(1, tb.len() as int));
    let r = limbs_val(ta.subrange(1, ta.len() as int));
    assert(limbs_val(ta) == a[i as int] as nat + pow2(32) * r);
    assert(limbs_val(tb) == b[i as int] as nat + pow2(32) * r);
    lemma_val_bound(a.subrange(0, i as int));
    let p = pow2(32 * i);
    let la = limbs_val(a.subrange(0, i as int));
    let lb = limbs_val(b.subrange(0, i as int));
    assert(la < p);
    assert(limbs_val(a) < p + p * limbs_val(ta));
    assert(p + p * limbs_val(ta) <= p * (1 + a[i as int] as nat + pow2(32) * r)) by (nonlinear_arith)
        requires limbs_val(ta) == a[i as int] as nat + pow2(32) * r, p > 0,
    ;
    assert(p * (1 + a[i as int] as nat + pow2(32) * r) <= p * limbs_val(tb)) by (nonlinear_arith)
        requires
            limbs_val(tb) == b[i as int] as nat + pow2(32) * r,
            a[i as int] as nat + 1 <= b[i as int] as nat,
            p > 0,
    ;
    assert(p * limbs_val(tb) <= lb + p * limbs_val(tb));
    proof_pow2_pos(32 * i);
}

/// pow2 is positive.
pub proof fn proof_pow2_pos(k: nat)
    ensures
        pow2(k) > 0,
{
    lemma_pow2_pos(k);
}

/// pow2 is monotone.
pub proof fn lemma_pow2_le(e1: nat, e2: nat)
    requires
        e1 <= e2,
    ensures
        pow2(e1) <= pow2(e2),
{
    if e1 < e2 {
        lemma_pow2_strictly_increases(e1, e2);
    }
}

/// A canonical number below 2^bits has few limbs.
pub proof fn lemma_wf_len(b: &Big, bits: nat)
    requires
        b.wf(),
        b@ < pow2(bits),
    ensures
        32 * b.limbs@.len() < bits + 32,
{
    if b.limbs@.len() > 0 {
        lemma_val_lower(b.limbs@);
        if 32 * (b.limbs@.len() - 1) >= bits {
            lemma_pow2_le(bits, (32 * (b.limbs@.len() - 1)) as nat);
        }
    }
}

/// Removes high zero limbs; the value is unchanged.
fn trim(v: &mut Vec<u32>)
    ensures
        limbs_val(final(v)@) == limbs_val(old(v)@),
        final(v)@.len() == 0 || final(v)@.last() != 0,
{
    while v.len() > 0 && v[v.len() - 1] == 0
        invariant
            limbs_val(v@) == limbs_val(old(v)@),
        decreases v.len(),
    {
        proof {
            lemma2_to64();
            assert(v@ =~= v@.drop_last().push(v@.last()));
            lemma_val_snoc(v@.drop_last(), v@.last());
        }
        v.pop();
    }
}

impl Big {
    /// Three-way comparison of values: -1, 0 or 1.
    pub fn cmp(&self, other: &Big) -> (r: i32)
        requires
            self.wf(),
            other.wf(),
        ensures
            (r == -1 <==> self@ < other@),
            (r == 0 <==> self@ == other@),
            (r == 1 <==> self@ > other@),
    {
        let a = &self.limbs;
        let b = &other.limbs;
        if a.len() < b.len() {
            proof {
                lemma_val_bound(a@);
                lemma_val_lower(b@);
                if 32 * a@.len() < 32 * (b@.len() - 1) {
                    lemma_pow2_strictly_increases(32 * a@.len(), (32 * (b@.len() - 1)) as nat);
                }
            }
            return -1;
        }
        if a.len() > b.len() {
            proof {
                lemma_val_bound(b@);
                lemma_val_lower(a@);
                if 32 * b@.len() < 32 * (a@.len() - 1) {
                    lemma_pow2_strictly_increases(32 * b@.len(), (32 * (a@.len() - 1)) as nat);
                }
            }
            return 1;
        }
        let mut i: usize = a.len();
        while i > 0
            invariant
                a@ == self.limbs@,
                b@ == other.limbs@,
                a@.len() == b@.len(),
                i <= a@.len(),
                forall|j: int| i <= j < a@.len() ==> a@[j] == b@[j],
            decreases i,
        {
            i = i - 1;
            if a[i] < b[i] {
                proof {
                    assert(i < a@.len());
                    assert(forall|j: int| i < j < a@.len() ==> a@[j] == b@[j]);
                    lemma_val_cmp_at(a@, b@, i as nat);
                    assert(limbs_val(a@) < limbs_val(b@));
                }
                return -1;
            }
            if a[i] > b[i] {
                proof {
                    assert(forall|j: int| i < j < b@.len() ==> b@[j] == a@[j]);
                    lemma_val_cmp_at(b@, a@, i as nat);
                    assert(limbs_val(b@) < limbs_val(a@));
                }
                return 1;
            }
        }
        proof {
            assert(a@ =~= b@);
        }
        0
    }

    /// Sum of two values.
    pub fn add(&self, other: &Big) -> (r: Big)
        requires
            self.wf(),
            other.wf(),
        ensures
            r.wf(),
            r@ == self@ + other@,
    {
        let a = &self.limbs;
        let b = &other.limbs;
        let n = if a.len() >= b.len() { a.len() } else { b.len() };
        let mut out: Vec<u32> = Vec::new();
        let mut carry: u32 = 0;
        let mut i: usize = 0;
        while i < n
            invariant
                n >= a@.len() && n >= b@.len() && n <= usize::MAX,
                i <= n,
                out@.len() == i,
                carry <= 1,
                limbs_val(out@) + (carry as nat) * pow2(32 * i as nat)
                    == valp(a@, i as nat) + valp(b@, i as nat),
            decreases n - i,
        {
            let ga: u32 = if i < a.len() { a[i] } else { 0 };
            let gb: u32 = if i < b.len() { b[i] } else { 0 };
            let t: u64 = ga as u64 + gb as u64 + carry as u64;
            let lo: u32 = (t % 0x1_0000_0000) as u32;
            let c2: u32 = (t / 0x1_0000_0000) as u32;
            proof {
                lemma2_to64();
                lemma_valp_step(a@, i as nat);
                lemma_valp_step(b@, i as nat);
                lemma_val_snoc(out@, lo);
                lemma_pow2_adds(32 * i as nat, 32);
                lemma_fundamental_div_mod(t as int, 0x1_0000_0000);
                let p = pow2(32 * i as nat);
                assert(t == lo as nat + (c2 as nat) * 0x1_0000_0000);
                assert((lo as nat + (c2 as nat) * pow2(32)) * p
                    == (lo as nat) * p + (c2 as nat) * (pow2(32) * p)) by (nonlinear_arith);
                assert((ga as nat + gb as nat + carry as nat) * p
                    == (ga as nat) * p + (gb as nat) * p + (carry as nat) * p) by (nonlinear_arith);
                assert(pow2(32) * p == p * pow2(32)) by (nonlinear_arith);
            }
            out.push(lo);
            carry = c2;
            i = i + 1;
        }
        proof {
            lemma_valp_full(a@, i as nat);
            lemma_valp_full(b@, i as nat);
        }
        if carry != 0 {
            proof {
                lemma_val_snoc(out@, carry);
            }
            out.push(carry);
        }
        let mut out2 = out;
        trim(&mut out2);
        Big { limbs: out2 }
    }

    /// Difference of two values; the subtrahend may not exceed the minuend.
    pub fn sub(&self, other: &Big) -> (r: Big)
        requires
            self.wf(),
            other.wf(),
            other@ <= self@,
        ensures
            r.wf(),
            r@ == self@ - other@,
    {
        let a = &self.limbs;
        let b = &other.limbs;
        proof {
            if b@.len() > a@.len() {
                lemma_val_bound(a@);
                lemma_val_lower(b@);
                if 32 * a@.len() < 32 * (b@.len() - 1) {
                    lemma_pow2_strictly_increases(32 * a@.len(), (32 * (b@.len() - 1)) as nat);
                }
            }
        }
        let n = a.len();
        let mut out: Vec<u32> = Vec::new();
        let mut brw: u32 = 0;
        let mut i: usize = 0;
        while i < n
            invariant
                n == a@.len(),
                b@.len() <= n,
                i <= n,
                out@.len() == i,
                brw <= 1,
                limbs_val(out@) + valp(b@, i as nat)
                    == valp(a@, i as nat) + (brw as nat) * pow2(32 * i as nat),
            decreases n - i,
        {
            let ga: u32 = a[i];
            let gb: u32 = if i < b.len() { b[i] } else { 0 };
            let t: u64 = (ga as u64 + 0x1_0000_0000) - gb as u64 - brw as u64;
            let lo: u32 = (t % 0x1_0000_0000) as u32;
            let q: u64 = t / 0x1_0000_0000;
            let b2: u32 = if q == 0 { 1 } else { 0 };
            proof {
                lemma2_to64();
                lemma_valp_step(a@, i as nat);
                lemma_valp_step(b@, i as nat);
                lemma_val_snoc(out@, lo);
                lemma_pow2_adds(32 * i as nat, 32);
                lemma_fundamental_div_mod(t as int, 0x1_0000_0000);
                let p = pow2(32 * i as nat);
                assert(t == lo as nat + (q as nat) * 0x1_0000_0000);
                assert(q <= 1);
                assert(lo as int == ga as int - gb as int - brw as int + (b2 as int) * 0x1_0000_0000);
                assert((lo as int) * p == (ga as int) * p - (gb as int) * p - (brw as int) * p
                    + (b2 as int) * (pow2(32) * p)) by (nonlinear_arith)
                    requires
                        lo as int == ga as int - gb as int - brw as int + (b2 as int) * 0x1_0000_0000,
                        pow2(32) == 0x1_0000_0000,
                ;
                assert(pow2(32) * p == p * pow2(32)) by (nonlinear_arith);
            }
            out.push(lo);
            brw = b2;
            i = i + 1;
        }
        proof {
            lemma_valp_full(a@, i as nat);
            lemma_valp_full(b@, i as nat);
            lemma_val_bound(out@);
            if brw == 1 {
                assert(false);
            }
        }
        let mut out2 = out;
        trim(&mut out2);
        Big { limbs: out2 }
    }

    /// Product with a single limb.
    pub fn mul_u32(&self, c: u32) -> (r: Big)
        requires
            self.wf(),
        ensures
            r.wf(),
            r@ == self@ * c as nat,
    {
        let a = &self.limbs;
        let n = a.len();
        let mut out: Vec<u32> = Vec::new();
        let mut carry: u32 = 0;
        let mut i: usize = 0;
        proof {
            lemma2_to64();
            assert(a@.subrange(0, 0) =~= Seq::<u32>::empty());
            assert(valp(a@, 0) == 0);
            assert(valp(a@, 0) * c as nat == 0) by (nonlinear_arith)
                requires valp(a@, 0) == 0,
            ;
        }
        while i < n
            invariant
                a@ == self.limbs@,
                n == a@.len(),
                i <= n,
                out@.len() == i,
                limbs_val(out@) + (carry as nat) * pow2(32 * i as nat)
                    == valp(a@, i as nat) * c as nat,
            decreases n - i,
        {
            proof {
                assert((a@[i as int] as nat) * (c as nat) + (carry as nat)
                    <= 0xffff_ffff_ffff_ffff) by (nonlinear_arith)
                    requires
                        a@[i as int] as nat <= 0xffff_ffff,
                        c as nat <= 0xffff_ffff,
                        carry as nat <= 0xffff_ffff,
                ;
            }
            let t: u64 = a[i] as u64 * c as u64 + carry as u64;
            let lo: u32 = (t % 0x1_0000_0000) as u32;
            let c2: u32 = (t / 0x1_0000_0000) as u32;
            proof {
                lemma2_to64();
                lemma_valp_step(a@, i as nat);
                lemma_val_snoc(out@, lo);
                lemma_pow2_adds(32 * i as nat, 32);
                lemma_fundamental_div_mod(t as int, 0x1_0000_0000);
                let p = pow2(32 * i as nat);
                let ai = a@[i as int] as nat;
                assert(t == lo as nat + (c2 as nat) * 0x1_0000_0000);
                assert((valp(a@, i as nat) + ai * p) * c as nat
                    == valp(a@, i as nat) * c as nat + (ai * c as nat) * p) by (nonlinear_arith);
                assert((lo as nat + (c2 as nat) * pow2(32)) * p
                    == (lo as nat) * p + (c2 as nat) * (pow2(32) * p)) by (nonlinear_arith);
                assert((ai * c as nat + carry as nat) * p
                    == (ai * c as nat) * p + (carry as nat) * p) by (nonlinear_arith);
                assert(pow2(32) * p == p * pow2(32)) by (nonlinear_arith);
            }
            out.push(lo);
            carry = c2;
            i = i + 1;
        }
        proof {
            lemma_valp_full(a@, i as nat);
        }
        if carry != 0 {
            proof {
                lemma_val_snoc(out@, carry);
            }
            out.push(carry);
        }
        let mut out2 = out;
        trim(&mut out2);
        Big { limbs: out2 }
    }

    /// Shift left: multiplies the value by 2^k.
    pub fn shl(&self, k: usize) -> (r: Big)
        requires
            self.wf(),
            k + 32 * self.limbs@.len() + 32 <= usize::MAX,
        ensures
            r.wf(),
            r@ == self@ * pow2(k as nat),
    {
        let z = k / 32;
        let j = k % 32;
        proof {
            lemma_fundamental_div_mod(k as int, 32);
        }
        let mut out: Vec<u32> = Vec::new();
        let mut i: usize = 0;
        while i < z
            invariant
                i <= z,
                out@.len() == i,
                limbs_val(out@) == 0,
            decreases z - i,
        {
            proof {
                lemma_val_snoc(out@, 0u32);
            }
            out.push(0);
            i = i + 1;
        }
        let a = &self.limbs;
        proof {
            assert(a@.subrange(0, 0) =~= Seq::<u32>::empty());
        }
        let mut t: usize = 0;
        while t < a.len()
            invariant
                a@ == self.limbs@,
                out@.len() == z + t,
                z <= usize::MAX - a@.len() - 1,
                t <= a@.len(),
                limbs_val(out@) == valp(a@, t as nat) * pow2(32 * z as nat),
            decreases a@.len() - t,
        {
            let limb = a[t];
            proof {
                lemma_val_snoc(out@, limb);
                lemma_valp_step(a@, t as nat);
                lemma_pow2_adds(32 * z as nat, 32 * t as nat);
                let pz = pow2(32 * z as nat);
                let pt = pow2(32 * t as nat);
                assert((valp(a@, t as nat) + (limb as nat) * pt) * pz
                    == valp(a@, t as nat) * pz + (limb as nat) * (pt * pz)) by (nonlinear_arith);
                assert(32 * (z + t) as nat == 32 * z as nat + 32 * t as nat);
            }
            out.push(limb);
            t = t + 1;
        }
        proof {
            lemma_valp_full(a@, t as nat);
        }
        let mut out2 = out;
        trim(&mut out2);
        let base = Big { limbs: out2 };
        let mut f: u32 = 1;
        let mut jj: usize = 0;
        proof {
            lemma2_to64();
        }
        while jj < j
            invariant
                jj <= j,
                j < 32,
                f as nat == pow2(jj as nat),
            decreases j - jj,
        {
            proof {
                lemma2_to64();
                lemma_pow2_adds(jj as nat, 1);
                lemma_pow2_strictly_increases((jj + 1) as nat, 32);
            }
            f = f * 2;
            jj = jj + 1;
        }
        let r = base.mul_u32(f);
        proof {
            lemma_pow2_adds(32 * z as nat, j as nat);
            assert(32 * z as nat + j as nat == k as nat) by {
                lemma_fundamental_div_mod(k as int, 32);
            }
            let pz = pow2(32 * z as nat);
            let pj = pow2(j as nat);
            assert((self@ * pz) * pj == self@ * (pz * pj)) by (nonlinear_arith);
        }
        r
    }

    /// The value 2^k.
    pub fn power_of_two(k: usize) -> (r: Big)
        requires
            k + 64 <= usize::MAX,
        ensures
            r.wf(),
            r@ == pow2(k as nat),
    {
        let one = Big::from_u64(1);
        proof {
            lemma2_to64();
            lemma_wf_len(&one, 1);
        }
        let r = one.shl(k);
        proof {
            assert(1 * pow2(k as nat) == pow2(k as nat)) by (nonlinear_arith);
        }
        r
    }

    /// Product of two values.
    pub fn mul(&self, other: &Big) -> (r: Big)
        requires
            self.wf(),
            other.wf(),
            32 * (self.limbs@.len() + other.limbs@.len() + 2) <= usize::MAX,
        ensures
            r.wf(),
            r@ == self@ * other@,
    {
        let b = &other.limbs;
        let mut acc = Big::zero();
        let mut i: usize = 0;
        while i < b.len()
            invariant
                b@ == other.limbs@,
                i <= b@.len(),
                32 * (self.limbs@.len() + b@.len() + 2) <= usize::MAX,
                self.wf(),
                acc.wf(),
                acc@ == self@ * valp(b@, i as nat),
            decreases b@.len() - i,
        {
            let part = self.mul_u32(b[i]);
            proof {
                lemma2_to64();
                lemma_val_bound(self.limbs@);
                lemma_pow2_adds(32 * self.limbs@.len(), 32);
                assert(self@ * (b@[i as int] as nat)
                    < pow2(32 * self.limbs@.len()) * pow2(32)) by (nonlinear_arith)
                    requires
                        self@ < pow2(32 * self.limbs@.len()),
                        (b@[i as int] as nat) < pow2(32),
                        pow2(32 * self.limbs@.len()) > 0,
                ;
                lemma_wf_len(&part, 32 * self.limbs@.len() + 32);
            }
            let shifted = part.shl(32 * i);
            proof {
                lemma_valp_step(b@, i as nat);
                let pi = pow2(32 * i as nat);
                assert((self@ * (b@[i as int] as nat)) * pi
                    == self@ * ((b@[i as int] as nat) * pi)) by (nonlinear_arith);
                assert(self@ * (valp(b@, i as nat) + (b@[i as int] as nat) * pi)
                    == self@ * valp(b@, i as nat) + self@ * ((b@[i as int] as nat) * pi))
                    by (nonlinear_arith);
            }
            acc = acc.add(&shifted);
            i = i + 1;
        }
        proof {
            lemma_valp_full(b@, i as nat);
        }
        acc
    }

    /// The zero value.
    pub fn zero() -> (r: Big)
        ensures
            r.wf(),
            r@ == 0,
    {
        Big { limbs: Vec::new() }
    }

    pub fn is_zero(&self) -> (r: bool)
        requires
            self.wf(),
        ensures
            r <==> self@ == 0,
    {
        proof {
            if self.limbs@.len() > 0 {
                lemma_val_lower(self.limbs@);
                lemma_pow2_pos(32 * (self.limbs@.len() - 1) as nat);
            }
        }
        self.limbs.len() == 0
    }

    /// Builds the value of a 64-bit integer.
    pub fn from_u64(v: u64) -> (r: Big)
        ensures
            r.wf(),
            r@ == v as nat,
    {
        let lo: u32 = (v % 0x1_0000_0000) as u32;
        let hi: u32 = (v / 0x1_0000_0000) as u32;
        let mut limbs: Vec<u32> = Vec::new();
        if hi != 0 {
            limbs.push(lo);
            limbs.push(hi);
        } else if lo != 0 {
            limbs.push(lo);
        }
        proof {
            lemma2_to64();
            let s = limbs@;
            if hi != 0 {
                assert(s =~= seq![lo].push(hi));
                lemma_val_snoc(seq![lo], hi);
                lemma_val_one(lo);
                assert(limbs_val(s) == lo as nat + (hi as nat) * pow2(32));
            } else if lo != 0 {
                assert(s =~= seq![lo]);
                lemma_val_one(lo);
            }
        }
        Big { limbs }
    }
}

/// Number of binary digits of a natural number.
pub open spec fn blen(n: nat) -> nat
    decreases n,
{
    if n == 0 {
        0
    } else {
        1 + blen(n / 2)
    }
}

/// A positive number lies between the powers of two given by its bit length.
pub proof fn lemma_blen_bounds(n: nat)
    requires
        n > 0,
    ensures
        blen(n) >= 1,
        pow2((blen(n) - 1) as nat) <= n < pow2(blen(n)),
    decreases n,
{
    lemma2_to64();
    if n == 1 {
        assert(blen(1nat) == 1 + blen(0nat));
        assert(blen(0nat) == 0);
    } else {
        lemma_blen_bounds(n / 2);
        let k = blen(n / 2);
        lemma_pow2_adds((k - 1) as nat, 1);
        lemma_pow2_adds(k, 1);
        assert(n == 2 * (n / 2) + n % 2) by {
            lemma_fundamental_div_mod(n as int, 2);
        }
        assert(n % 2 < 2) by (nonlinear_arith);
        assert(2 * (n / 2) >= 2 * pow2((k - 1) as nat)) by (nonlinear_arith)
            requires n / 2 >= pow2((k - 1) as nat),
        ;
        assert(2 * (n / 2) <= 2 * (pow2(k) - 1)) by (nonlinear_arith)
            requires n / 2 <= pow2(k) - 1,
        ;
        assert(pow2((k - 1) as nat) * 2 == pow2(k));
        assert(pow2(k) * 2 == pow2(k + 1));
        assert(blen(n) == k + 1);
        assert(pow2(k) <= n);
        assert(n < pow2(k + 1));
    }
}

/// A number below 2^k has at most k binary digits.
pub proof fn lemma_blen_le(n: nat, k: nat)
    requires
        n < pow2(k),
    ensures
        blen(n) <= k,
{
    if n > 0 {
        lemma_blen_bounds(n);
        if blen(n) > k {
            lemma_pow2_le(k, (blen(n) - 1) as nat);
        }
    }
}

/// Shifting left adds to the bit length.
pub proof fn lemma_blen_shift(m: nat, k: nat)
    requires
        m > 0,
    ensures
        blen(m * pow2(k)) == blen(m) + k,
{
    lemma_blen_bounds(m);
    lemma_pow2_pos(k);
    lemma_pow2_adds((blen(m) - 1) as nat, k);
    lemma_pow2_adds(blen(m), k);
    assert(m * pow2(k) >= pow2((blen(m) - 1) as nat) * pow2(k)) by (nonlinear_arith)
        requires m >= pow2((blen(m) - 1) as nat), pow2(k) > 0,
    ;
    assert(m * pow2(k) < pow2(blen(m)) * pow2(k)) by (nonlinear_arith)
        requires m < pow2(blen(m)), pow2(k) > 0,
    ;
    lemma_blen_is(m * pow2(k), blen(m) + k);
}

/// Floor of the square root, as a mathematical function.
pub open spec fn sqrt_nat(n: nat) -> nat
    decreases n,
{
    if n == 0 {
        0
    } else {
        let s = sqrt_nat((n - 1) as nat);
        if (s + 1) * (s + 1) <= n {
            s + 1
        } else {
            s
        }
    }
}

/// The floor square root brackets its argument.
pub proof fn lemma_sqrt_nat_bounds(n: nat)
    ensures
        sqrt_nat(n) * sqrt_nat(n) <= n,
        n < (sqrt_nat(n) + 1) * (sqrt_nat(n) + 1),
    decreases n,
{
    if n > 0 {
        lemma_sqrt_nat_bounds((n - 1) as nat);
        let s = sqrt_nat((n - 1) as nat);
        assert(sqrt_nat(n) == if (s + 1) * (s + 1) <= n { s + 1 } else { s });
        if (s + 1) * (s + 1) <= n {
            assert((s + 2) * (s + 2) > (s + 1) * (s + 1) + 1) by (nonlinear_arith);
            assert(sqrt_nat(n) == s + 1);
            assert(n <= (s + 1) * (s + 1));
            assert((sqrt_nat(n) + 1) * (sqrt_nat(n) + 1) == (s + 2) * (s + 2));
        } else {
            assert(sqrt_nat(n) == s);
            assert((sqrt_nat(n) + 1) * (sqrt_nat(n) + 1) == (s + 1) * (s + 1));
        }
    } else {
        assert(sqrt_nat(0nat) == 0);
        assert(sqrt_nat(n) * sqrt_nat(n) == 0) by (nonlinear_arith)
            requires sqrt_nat(n) == 0,
        ;
        assert((sqrt_nat(n) + 1) * (sqrt_nat(n) + 1) == 1) by (nonlinear_arith)
            requires sqrt_nat(n) == 0,
        ;
    }
}

/// Only one value brackets a square root.
pub proof fn lemma_sqrt_unique(n: nat, s: nat)
    requires
        s * s <= n,
        n < (s + 1) * (s + 1),
    ensures
        s == sqrt_nat(n),
{
    lemma_sqrt_nat_bounds(n);
    let t = sqrt_nat(n);
    if s < t {
        assert((s + 1) * (s + 1) <= t * t) by (nonlinear_arith)
            requires s + 1 <= t,
        ;
    }
    if t < s {
        assert((t + 1) * (t + 1) <= s * s) by (nonlinear_arith)
            requires t + 1 <= s,
        ;
    }
}

/// The bit length is pinned by such a bracket.
pub proof fn lemma_blen_is(n: nat, len: nat)
    requires
        len >= 1,
        pow2((len - 1) as nat) <= n < pow2(len),
    ensures
        blen(n) == len,
{
    lemma_pow2_pos((len - 1) as nat);
    lemma_blen_bounds(n);
    if blen(n) < len {
        lemma_pow2_le(blen(n), (len - 1) as nat);
    }
    if blen(n) > len {
        lemma_pow2_le(len, (blen(n) - 1) as nat);
    }
}

impl Big {
    /// An identical copy.
    pub fn clone_big(&self) -> (r: Big)
        ensures
            r.limbs@ == self.limbs@,
    {
        let mut l: Vec<u32> = Vec::new();
        let mut i: usize = 0;
        while i < self.limbs.len()
            invariant
                i <= self.limbs@.len(),
                l@ == self.limbs@.subrange(0, i as int),
            decreases self.limbs@.len() - i,
        {
            proof {
                assert(self.limbs@.subrange(0, i as int + 1)
                    =~= self.limbs@.subrange(0, i as int).push(self.limbs@[i as int]));
            }
            l.push(self.limbs[i]);
            i = i + 1;
        }
        proof {
            assert(l@ =~= self.limbs@);
        }
        Big { limbs: l }
    }

    /// Number of binary digits of the value.
    pub fn bitlen(&self) -> (r: usize)
        requires
            self.wf(),
            32 * self.limbs@.len() + 32 <= usize::MAX,
        ensures
            r == blen(self@),
    {
        let n = self.limbs.len();
        if n == 0 {
            return 0;
        }
        let t = self.limbs[n - 1];
        let mut k: usize = 0;
        let mut p: u64 = 1;
        proof {
            lemma2_to64();
        }
        while p <= t as u64
            invariant
                t as nat == self.limbs@.last() as nat,
                k <= 32,
                p == pow2(k as nat),
                k == 0 || pow2((k - 1) as nat) <= t as nat,
            decreases 33 - k,
        {
            proof {
                lemma2_to64();
                lemma_pow2_adds(k as nat, 1);
                if k >= 32 {
                    lemma_pow2_le(32, k as nat);
                }
            }
            p = p * 2;
            k = k + 1;
        }
        proof {
            lemma2_to64();
            let s = self.limbs@;
            assert(t != 0);
            assert(k >= 1) by {
                if k == 0 {
                    assert(p == pow2(0));
                }
            }
            lemma_val_split(s, (n - 1) as nat);
            let top = s.subrange(n - 1, n as int);
            assert(top =~= seq![s[n - 1]]);
            lemma_val_one(s[n - 1]);
            let pp = pow2((32 * (n - 1)) as nat);
            let low = limbs_val(s.subrange(0, n - 1));
            lemma_val_bound(s.subrange(0, n - 1));
            assert(self@ == low + pp * t as nat);
            lemma_pow2_adds((32 * (n - 1)) as nat, (k - 1) as nat);
            lemma_pow2_adds((32 * (n - 1)) as nat, k as nat);
            assert(pp * t as nat >= pp * pow2((k - 1) as nat)) by (nonlinear_arith)
                requires t as nat >= pow2((k - 1) as nat), pp > 0,
            ;
            assert((low + pp * (t as nat)) < (pp + pp * (t as nat)));
            assert(pp + pp * t as nat == pp * (1 + t as nat)) by (nonlinear_arith);
            assert(pp * (1 + t as nat) <= pp * pow2(k as nat)) by (nonlinear_arith)
                requires 1 + t as nat <= pow2(k as nat), pp > 0,
            ;
            lemma_blen_is(self@, (32 * (n - 1) + k) as nat);
        }
        32 * (n - 1) + k
    }

    /// Quotient and remainder of division by a positive value.
    pub fn divrem(&self, d: &Big) -> (qr: (Big, Big))
        requires
            self.wf(),
            d.wf(),
            d@ > 0,
            32 * (self.limbs@.len() + d.limbs@.len() + 4) <= usize::MAX,
        ensures
            qr.0.wf(),
            qr.1.wf(),
            self@ == qr.0@ * d@ + qr.1@,
            qr.1@ < d@,
    {
        let n = self.bitlen();
        let mut q = Big::zero();
        let mut r = self.clone_big();
        let mut i: usize = n;
        proof {
            lemma_pow2_pos(n as nat);
            if self@ > 0 {
                lemma_blen_bounds(self@);
            }
            assert(self@ < pow2(n as nat));
            assert(d@ * pow2(n as nat) >= pow2(n as nat)) by (nonlinear_arith)
                requires d@ >= 1, pow2(n as nat) > 0,
            ;
            assert(0 * d@ == 0) by (nonlinear_arith);
            lemma_val_bound(self.limbs@);
            if n >= 1 && (n - 1) as nat >= 32 * self.limbs@.len() {
                lemma_pow2_le(32 * self.limbs@.len(), (n - 1) as nat);
            }
            assert(n <= 32 * self.limbs@.len() + 32);
        }
        while i > 0
            invariant
                d.wf(),
                d@ > 0,
                q.wf(),
                r.wf(),
                i <= n,
                n <= 32 * self.limbs@.len() + 32,
                32 * (self.limbs@.len() + d.limbs@.len() + 4) <= usize::MAX,
                q@ * d@ + r@ == self@,
                r@ < d@ * pow2(i as nat),
            decreases i,
        {
            i = i - 1;
            let dd = d.shl(i);
            let c = r.cmp(&dd);
            proof {
                lemma2_to64();
                lemma_pow2_adds(i as nat, 1);
                lemma_pow2_pos(i as nat);
                assert(pow2((i + 1) as nat) == pow2(i as nat) * 2);
                assert(d@ * pow2((i + 1) as nat) == d@ * pow2(i as nat) * 2) by (nonlinear_arith)
                    requires pow2((i + 1) as nat) == pow2(i as nat) * 2,
                ;
            }
            if c >= 0 {
                r = r.sub(&dd);
                let step = Big::power_of_two(i);
                proof {
                    assert((q@ + pow2(i as nat)) * d@ == q@ * d@ + pow2(i as nat) * d@)
                        by (nonlinear_arith);
                    assert(pow2(i as nat) * d@ == d@ * pow2(i as nat)) by (nonlinear_arith);
                }
                q = q.add(&step);
            }
        }
        proof {
            lemma2_to64();
            assert(d@ * pow2(0) == d@) by (nonlinear_arith)
                requires pow2(0) == 1,
            ;
        }
        (q, r)
    }

    /// Integer square root: the greatest value whose square does not exceed
    /// the argument.
    pub fn isqrt(&self) -> (r: Big)
        requires
            self.wf(),
            32 * self.limbs@.len() + 512 <= usize::MAX,
        ensures
            r.wf(),
            r@ * r@ <= self@,
            self@ < (r@ + 1) * (r@ + 1),
    {
        let n = self.bitlen();
        let h = n / 2 + 1;
        let mut s = Big::zero();
        let mut i: usize = h;
        proof {
            lemma_pow2_pos(n as nat);
            if self@ > 0 {
                lemma_blen_bounds(self@);
            }
            assert(self@ < pow2(n as nat));
            lemma_val_bound(self.limbs@);
            if n >= 1 && (n - 1) as nat >= 32 * self.limbs@.len() {
                lemma_pow2_le(32 * self.limbs@.len(), (n - 1) as nat);
            }
            assert(n <= 32 * self.limbs@.len() + 32);
            lemma_fundamental_div_mod(n as int, 32);
            lemma_fundamental_div_mod(n as int, 2);
            lemma_pow2_le(n as nat, (2 * h) as nat);
            lemma_pow2_adds(h as nat, h as nat);
            assert(self@ < pow2(h as nat) * pow2(h as nat));
            assert((0 + pow2(h as nat)) * (0 + pow2(h as nat)) == pow2(h as nat) * pow2(h as nat));
        }
        while i > 0
            invariant
                self.wf(),
                s.wf(),
                i <= h,
                h == n / 2 + 1,
                n <= 32 * self.limbs@.len() + 32,
                2 * h >= n,
                32 * self.limbs@.len() + 512 <= usize::MAX,
                self@ < pow2(h as nat) * pow2(h as nat),
                s@ * s@ <= self@,
                self@ < (s@ + pow2(i as nat)) * (s@ + pow2(i as nat)),
            decreases i,
        {
            i = i - 1;
            proof {
                // bound s and the candidate so the multiplication stays small
                lemma_pow2_pos(i as nat);
                lemma_pow2_pos(h as nat);
                if s@ >= pow2(h as nat) {
                    assert(s@ * s@ >= pow2(h as nat) * pow2(h as nat)) by (nonlinear_arith)
                        requires s@ >= pow2(h as nat), pow2(h as nat) > 0,
                    ;
                    assert(false);
                }
                lemma_pow2_le(i as nat, h as nat);
            }
            let step = Big::power_of_two(i);
            let c = s.add(&step);
            proof {
                lemma2_to64();
                lemma_pow2_adds(h as nat, 1);
                assert(pow2((h + 1) as nat) == pow2(h as nat) * 2);
                assert(c@ < pow2((h + 1) as nat));
                lemma_wf_len(&c, (h + 1) as nat);
            }
            let sq = c.mul(&c);
            let cm = sq.cmp(self);
            proof {
                lemma_pow2_adds(i as nat, 1);
            }
            if cm <= 0 {
                proof {
                    assert(s@ + pow2((i + 1) as nat) == c@ + pow2(i as nat));
                }
                s = c;
            }
        }
        proof {
            lemma2_to64();
        }
        s
    }

    /// The value as a 64-bit integer.
    pub fn to_u64(&self) -> (r: u64)
        requires
            self.wf(),
            self@ < 0x1_0000_0000_0000_0000,
        ensures
            r as nat == self@,
    {
        proof {
            lemma2_to64();
            lemma2_to64_rest();
            lemma_wf_len(self, 64);
        }
        let s = &self.limbs;
        if s.len() == 0 {
            0
        } else if s.len() == 1 {
            proof {
                assert(s@ =~= seq![s@[0]]);
                lemma_val_one(s@[0]);
            }
            s[0] as u64
        } else {
            proof {
                lemma_val_split(s@, 1);
                assert(s@.subrange(0, 1) =~= seq![s@[0]]);
                assert(s@.subrange(1, 2) =~= seq![s@[1]]);
                lemma_val_one(s@[0]);
                lemma_val_one(s@[1]);
            }
            s[0] as u64 + s[1] as u64 * 0x1_0000_0000
        }
    }
}

} // verus!
