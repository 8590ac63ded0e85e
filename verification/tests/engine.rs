use bigfloat::num::{Ctx, Number};
use bigfloat::rnd_t;

fn num_u64(ctx: &mut Ctx, prec: usize, v: u64) -> Number {
    let mut n = Number::new(prec);
    ctx.set_ui(&mut n, v, rnd_t::RNDN);
    n
}

#[test]
fn fresh_number_is_nan() {
    let n = Number::new(53);
    assert!(n.nan_p());
    assert_eq!(n.get_prec(), 53);
}

#[test]
fn kind_and_sign_after_each_setter() {
    let mut n = Number::new(24);
    n.set_nan();
    assert!(n.nan_p());
    n.set_inf(false);
    assert!(n.inf_p());
    assert!(!n.signbit());
    n.set_zero(true);
    assert!(n.zero_p());
    assert!(n.signbit());
    assert_eq!(n.get_prec(), 24);
}

#[test]
fn set_ui_exact_and_back() {
    let mut ctx = Ctx::new();
    let mut n = Number::new(53);
    let t = ctx.set_ui(&mut n, 5, rnd_t::RNDN);
    assert_eq!(t, 0);
    assert!(!ctx.inexflag_p());
    assert_eq!(ctx.get_ui(&n, rnd_t::RNDN), 5);
    assert_eq!(n.get_exp(), 3);
}

#[test]
fn add_small_integers_exactly() {
    let mut ctx = Ctx::new();
    let a = num_u64(&mut ctx, 53, 2);
    let b = num_u64(&mut ctx, 53, 3);
    let mut r = Number::new(53);
    let t = ctx.add(&mut r, &a, &b, rnd_t::RNDN);
    assert_eq!(t, 0);
    assert_eq!(ctx.get_ui(&r, rnd_t::RNDN), 5);
}

#[test]
fn rounding_modes_on_a_five_bit_value() {
    // 17 = 10001 binary; at 4 bits of precision the neighbours are 16 and 18
    let mut ctx = Ctx::new();
    for (mode, expect, tern) in [
        (rnd_t::RNDN, 16u64, -1i32),
        (rnd_t::RNDZ, 16, -1),
        (rnd_t::RNDD, 16, -1),
        (rnd_t::RNDU, 18, 1),
        (rnd_t::RNDA, 18, 1),
    ] {
        let mut n = Number::new(4);
        let t = ctx.set_ui(&mut n, 17, mode);
        assert_eq!(t, tern);
        assert_eq!(ctx.get_ui(&n, rnd_t::RNDN), expect);
    }
    assert!(ctx.inexflag_p());
}

#[test]
fn nearest_ties_go_to_even() {
    let mut ctx = Ctx::new();
    // 20 = 10100: tie between 20 -> 4-bit neighbours 20 is exact (10100 has
    // 5 bits, neighbours 20->?): use 18 = 10010: neighbours 16 and 20 at 3 bits
    let mut n = Number::new(3);
    let t = ctx.set_ui(&mut n, 18, rnd_t::RNDN);
    // 18 -> 3 bits: quotient 100 (16) rem 2 == half -> tie -> even (16)
    assert_eq!(ctx.get_ui(&n, rnd_t::RNDN), 16);
    assert_eq!(t, -1);
    let mut m = Number::new(3);
    let t2 = ctx.set_ui(&mut m, 22, rnd_t::RNDN);
    // 22 = 10110 -> quotient 101 (20) rem 2 == half -> tie -> even (24? 101 is odd -> up to 110)
    assert_eq!(ctx.get_ui(&m, rnd_t::RNDN), 24);
    assert_eq!(t2, 1);
}

#[test]
fn division_by_zero_signs_and_flags() {
    let mut ctx = Ctx::new();
    let one = num_u64(&mut ctx, 53, 1);
    let mut zero = Number::new(53);
    zero.set_zero(false);
    let mut r = Number::new(53);
    ctx.div(&mut r, &one, &zero, rnd_t::RNDN);
    assert!(r.inf_p());
    assert!(!r.signbit());
    assert!(ctx.divby0_p());
    assert!(!ctx.nanflag_p());

    let mut zero2 = Number::new(53);
    zero2.set_zero(false);
    let mut r2 = Number::new(53);
    ctx.div(&mut r2, &zero2, &zero, rnd_t::RNDN);
    assert!(r2.nan_p());
    assert!(ctx.nanflag_p());
}

#[test]
fn cmp_is_reflexive_and_zero_signs_are_equal() {
    let mut ctx = Ctx::new();
    let a = num_u64(&mut ctx, 53, 7);
    assert_eq!(ctx.cmp(&a, &a), 0);
    let mut pz = Number::new(53);
    pz.set_zero(false);
    let mut nz = Number::new(53);
    nz.set_zero(true);
    assert_eq!(ctx.cmp(&pz, &nz), 0);
    assert_eq!(ctx.cmp(&nz, &pz), 0);
    assert!(!ctx.nanflag_p());
}

#[test]
fn cmp_orders_values() {
    let mut ctx = Ctx::new();
    let two = num_u64(&mut ctx, 53, 2);
    let three = num_u64(&mut ctx, 53, 3);
    let mut mtwo = Number::new(53);
    ctx.set_si(&mut mtwo, -2, rnd_t::RNDN);
    let mut mthree = Number::new(53);
    ctx.set_si(&mut mthree, -3, rnd_t::RNDN);
    let mut inf = Number::new(53);
    inf.set_inf(false);
    let mut zero = Number::new(53);
    zero.set_zero(false);
    assert_eq!(ctx.cmp(&two, &three), -1);
    assert_eq!(ctx.cmp(&mtwo, &mthree), 1);
    assert_eq!(ctx.cmp(&mtwo, &two), -1);
    assert_eq!(ctx.cmp(&zero, &two), -1);
    assert_eq!(ctx.cmp(&inf, &three), 1);
    assert!(two.less_p(&three));
    assert!(three.greater_p(&two));
    assert!(two.lessequal_p(&two));
    assert!(two.equal_p(&two));
    assert!(two.lessgreater_p(&three));
}

#[test]
fn nan_comparisons_are_unordered() {
    let mut ctx = Ctx::new();
    let a = num_u64(&mut ctx, 53, 1);
    let nan = Number::new(53);
    assert!(nan.unordered_p(&a));
    assert!(!nan.equal_p(&nan));
    assert!(!nan.less_p(&a));
    assert!(!a.greaterequal_p(&nan));
    assert!(!ctx.nanflag_p());
    assert_eq!(ctx.cmp(&a, &nan), 0);
    assert!(ctx.nanflag_p());
}

#[test]
fn add_then_sub_round_trip_when_exact() {
    let mut ctx = Ctx::new();
    let a = num_u64(&mut ctx, 8, 5);
    let b = num_u64(&mut ctx, 8, 3);
    let mut sum = Number::new(8);
    let t1 = ctx.add(&mut sum, &a, &b, rnd_t::RNDN);
    assert_eq!(t1, 0);
    let mut back = Number::new(8);
    let t2 = ctx.sub(&mut back, &sum, &b, rnd_t::RNDN);
    assert_eq!(t2, 0);
    assert!(back.same_repr(&a));
}

#[test]
fn fma_rounds_once_where_two_steps_lose() {
    // at precision 24: a = b = 1 + 2^-23, c = -(1 + 2^-22);
    // a*b + c == 2^-46 exactly, while round(a*b) + c == 0
    let mut ctx = Ctx::new();
    let mut a = Number::new(24);
    let num = num_u64(&mut ctx, 24, (1 << 23) + 1);
    let den = num_u64(&mut ctx, 24, 1 << 23);
    assert_eq!(ctx.div(&mut a, &num, &den, rnd_t::RNDN), 0);
    let mut c = Number::new(24);
    let num2 = num_u64(&mut ctx, 24, (1 << 22) + 1);
    let den2 = num_u64(&mut ctx, 24, 1 << 22);
    assert_eq!(ctx.div(&mut c, &num2, &den2, rnd_t::RNDN), 0);
    let mut negc = Number::new(24);
    assert_eq!(ctx.neg(&mut negc, &c, rnd_t::RNDN), 0);

    let mut fused = Number::new(24);
    let t = ctx.fma(&mut fused, &a, &a, &negc, rnd_t::RNDN);
    assert_eq!(t, 0);
    assert!(fused.regular_p());
    assert_eq!(fused.get_exp(), -45); // value 2^-46 lies in [2^-46, 2^-45)

    let mut prod = Number::new(24);
    ctx.mul(&mut prod, &a, &a, rnd_t::RNDN);
    let mut two_step = Number::new(24);
    ctx.add(&mut two_step, &prod, &negc, rnd_t::RNDN);
    assert!(two_step.zero_p());
    assert!(!fused.equal_p(&two_step));
}

#[test]
fn overflow_against_a_small_exponent_range() {
    let mut ctx = Ctx::new();
    assert_eq!(ctx.set_emax(10), 0);
    let a = num_u64(&mut ctx, 53, 768); // 1.5 * 2^9, inside the range
    let mut r = Number::new(53);
    let t = ctx.mul(&mut r, &a, &a, rnd_t::RNDN);
    assert!(r.inf_p());
    assert!(!r.signbit());
    assert_eq!(t, 1);
    assert!(ctx.overflow_p());
    assert!(ctx.inexflag_p());

    let mut ctx2 = Ctx::new();
    assert_eq!(ctx2.set_emax(10), 0);
    let a2 = num_u64(&mut ctx2, 53, 768);
    let mut r2 = Number::new(53);
    let t2 = ctx2.mul(&mut r2, &a2, &a2, rnd_t::RNDZ);
    assert!(r2.regular_p());
    assert_eq!(r2.get_exp(), 10); // the largest finite value at emax
    assert_eq!(t2, -1);
    assert!(ctx2.overflow_p());
}

#[test]
fn underflow_flushes_to_zero() {
    let mut ctx = Ctx::new();
    assert_eq!(ctx.set_emin(-10), 0);
    let one = num_u64(&mut ctx, 53, 1);
    let big = num_u64(&mut ctx, 53, 1 << 20);
    let mut r = Number::new(53);
    let t = ctx.div(&mut r, &one, &big, rnd_t::RNDN);
    assert!(r.zero_p());
    assert!(!r.signbit());
    assert!(ctx.underflow_p());
    assert!(ctx.inexflag_p());
    assert_eq!(t, -1);

    // away-from-zero lands on the smallest positive value instead
    let mut ctx2 = Ctx::new();
    assert_eq!(ctx2.set_emin(-10), 0);
    let one2 = num_u64(&mut ctx2, 53, 1);
    let big2 = num_u64(&mut ctx2, 53, 1 << 20);
    let mut r2 = Number::new(53);
    let t2 = ctx2.div(&mut r2, &one2, &big2, rnd_t::RNDA);
    assert!(r2.regular_p());
    assert_eq!(r2.get_exp(), -10);
    assert_eq!(t2, 1);
    assert!(ctx2.underflow_p());
}

#[test]
fn sqrt_of_squares_and_domain_errors() {
    let mut ctx = Ctx::new();
    let nine = num_u64(&mut ctx, 53, 9);
    let mut r = Number::new(53);
    let t = ctx.sqrt(&mut r, &nine, rnd_t::RNDN);
    assert_eq!(t, 0);
    assert_eq!(ctx.get_ui(&r, rnd_t::RNDN), 3);

    let two = num_u64(&mut ctx, 12, 2);
    let mut s2 = Number::new(12);
    let t2 = ctx.sqrt(&mut s2, &two, rnd_t::RNDN);
    assert_ne!(t2, 0);
    assert_eq!(s2.get_exp(), 1); // sqrt(2) lies in [1, 2)

    let mut minus = Number::new(53);
    ctx.set_si(&mut minus, -1, rnd_t::RNDN);
    let mut r3 = Number::new(53);
    ctx.sqrt(&mut r3, &minus, rnd_t::RNDN);
    assert!(r3.nan_p());
    assert!(ctx.nanflag_p());

    let mut nz = Number::new(53);
    nz.set_zero(true);
    let mut r4 = Number::new(53);
    assert_eq!(ctx.sqrt(&mut r4, &nz, rnd_t::RNDN), 0);
    assert!(r4.zero_p());
    assert!(r4.signbit());
}

#[test]
fn powers_of_integers() {
    let mut ctx = Ctx::new();
    let two = num_u64(&mut ctx, 53, 2);
    let mut r = Number::new(53);
    assert_eq!(ctx.pow_ui(&mut r, &two, 10, rnd_t::RNDN), 0);
    assert_eq!(ctx.get_ui(&r, rnd_t::RNDN), 1024);

    let mut r2 = Number::new(53);
    assert_eq!(ctx.ui_pow_ui(&mut r2, 3, 4, rnd_t::RNDN), 0);
    assert_eq!(ctx.get_ui(&r2, rnd_t::RNDN), 81);

    // anything to the zeroth power is one, NaN included
    let nan = Number::new(53);
    let mut r3 = Number::new(53);
    assert_eq!(ctx.pow_ui(&mut r3, &nan, 0, rnd_t::RNDN), 0);
    assert_eq!(ctx.get_ui(&r3, rnd_t::RNDN), 1);

    // a negative base keeps its sign on odd exponents
    let mut m2 = Number::new(53);
    ctx.set_si(&mut m2, -2, rnd_t::RNDN);
    let mut r4 = Number::new(53);
    assert_eq!(ctx.pow_ui(&mut r4, &m2, 3, rnd_t::RNDN), 0);
    assert_eq!(ctx.get_si(&r4, rnd_t::RNDN), -8);
}

#[test]
fn neg_abs_and_signed_conversions() {
    let mut ctx = Ctx::new();
    let five = num_u64(&mut ctx, 53, 5);
    let mut m = Number::new(53);
    assert_eq!(ctx.neg(&mut m, &five, rnd_t::RNDN), 0);
    assert!(m.signbit());
    assert_eq!(ctx.get_si(&m, rnd_t::RNDN), -5);
    let mut back = Number::new(53);
    assert_eq!(ctx.abs(&mut back, &m, rnd_t::RNDN), 0);
    assert_eq!(ctx.get_ui(&back, rnd_t::RNDN), 5);
    assert!(five.fits_slong_p(rnd_t::RNDN));
    assert!(m.fits_slong_p(rnd_t::RNDN));
    assert!(!m.fits_ulong_p(rnd_t::RNDN));
}

#[test]
fn conversions_clamp_and_flag_out_of_range() {
    let mut ctx = Ctx::new();
    let two = num_u64(&mut ctx, 80, 2);
    let mut big = Number::new(80);
    assert_eq!(ctx.pow_ui(&mut big, &two, 70, rnd_t::RNDN), 0);
    assert!(!big.fits_ulong_p(rnd_t::RNDN));
    assert!(!ctx.erangeflag_p());
    assert_eq!(ctx.get_ui(&big, rnd_t::RNDN), u64::MAX);
    assert!(ctx.erangeflag_p());

    let mut ctx2 = Ctx::new();
    let nan = Number::new(53);
    assert_eq!(ctx2.get_ui(&nan, rnd_t::RNDN), 0);
    assert!(ctx2.erangeflag_p());
}

#[test]
fn conversion_rounds_fractions_per_mode() {
    let mut ctx = Ctx::new();
    // 7/2 = 3.5
    let seven = num_u64(&mut ctx, 53, 7);
    let twob = num_u64(&mut ctx, 53, 2);
    let mut half7 = Number::new(53);
    assert_eq!(ctx.div(&mut half7, &seven, &twob, rnd_t::RNDN), 0);
    assert_eq!(ctx.get_ui(&half7, rnd_t::RNDN), 4); // tie to even
    assert_eq!(ctx.get_ui(&half7, rnd_t::RNDZ), 3);
    assert_eq!(ctx.get_ui(&half7, rnd_t::RNDU), 4);
    assert_eq!(ctx.get_ui(&half7, rnd_t::RNDD), 3);
    assert_eq!(ctx.get_ui(&half7, rnd_t::RNDNA), 4);
}

#[test]
fn swap_exchanges_whole_state() {
    let mut ctx = Ctx::new();
    let mut a = num_u64(&mut ctx, 24, 7);
    let mut b = Number::new(53);
    b.set_inf(true);
    a.swap(&mut b);
    assert!(a.inf_p());
    assert!(a.signbit());
    assert_eq!(a.get_prec(), 53);
    assert!(b.regular_p());
    assert_eq!(b.get_prec(), 24);
    assert_eq!(ctx.get_ui(&b, rnd_t::RNDN), 7);
}

#[test]
fn prec_round_and_set_round_to_new_precision() {
    let mut ctx = Ctx::new();
    let mut x = num_u64(&mut ctx, 8, 17);
    let t = ctx.prec_round(&mut x, 4, rnd_t::RNDN);
    assert_eq!(x.get_prec(), 4);
    assert_eq!(t, -1);
    assert_eq!(ctx.get_ui(&x, rnd_t::RNDN), 16);

    let y = num_u64(&mut ctx, 53, 17);
    let mut narrow = Number::new(4);
    let t2 = ctx.set(&mut narrow, &y, rnd_t::RNDN);
    assert_eq!(t2, -1);
    assert_eq!(ctx.get_ui(&narrow, rnd_t::RNDN), 16);
}

#[test]
fn exact_zero_sign_follows_the_mode() {
    let mut ctx = Ctx::new();
    let three = num_u64(&mut ctx, 53, 3);
    let mut r = Number::new(53);
    assert_eq!(ctx.sub(&mut r, &three, &three, rnd_t::RNDN), 0);
    assert!(r.zero_p());
    assert!(!r.signbit());
    let mut r2 = Number::new(53);
    assert_eq!(ctx.sub(&mut r2, &three, &three, rnd_t::RNDD), 0);
    assert!(r2.zero_p());
    assert!(r2.signbit());

    let mut pz = Number::new(53);
    pz.set_zero(false);
    let mut nz = Number::new(53);
    nz.set_zero(true);
    let mut r3 = Number::new(53);
    ctx.add(&mut r3, &pz, &nz, rnd_t::RNDN);
    assert!(r3.zero_p() && !r3.signbit());
    let mut r4 = Number::new(53);
    ctx.add(&mut r4, &pz, &nz, rnd_t::RNDD);
    assert!(r4.zero_p() && r4.signbit());
    let mut r5 = Number::new(53);
    ctx.add(&mut r5, &nz, &nz, rnd_t::RNDN);
    assert!(r5.zero_p() && r5.signbit());
}

#[test]
fn special_kind_tables() {
    let mut ctx = Ctx::new();
    let mut pinf = Number::new(53);
    pinf.set_inf(false);
    let mut ninf = Number::new(53);
    ninf.set_inf(true);
    let mut r = Number::new(53);
    ctx.add(&mut r, &pinf, &ninf, rnd_t::RNDN);
    assert!(r.nan_p());
    assert!(ctx.nanflag_p());

    let mut ctx2 = Ctx::new();
    let mut zero = Number::new(53);
    zero.set_zero(false);
    let mut r2 = Number::new(53);
    ctx2.mul(&mut r2, &pinf, &zero, rnd_t::RNDN);
    assert!(r2.nan_p());
    assert!(ctx2.nanflag_p());

    let mut r3 = Number::new(53);
    ctx2.add(&mut r3, &pinf, &pinf, rnd_t::RNDN);
    assert!(r3.inf_p() && !r3.signbit());

    let five = num_u64(&mut ctx2, 53, 5);
    let mut r4 = Number::new(53);
    ctx2.div(&mut r4, &five, &pinf, rnd_t::RNDN);
    assert!(r4.zero_p());
}

#[test]
fn fms_subtracts_the_addend() {
    let mut ctx = Ctx::new();
    let a = num_u64(&mut ctx, 53, 2);
    let b = num_u64(&mut ctx, 53, 3);
    let c = num_u64(&mut ctx, 53, 5);
    let mut r = Number::new(53);
    assert_eq!(ctx.fms(&mut r, &a, &b, &c, rnd_t::RNDN), 0);
    assert_eq!(ctx.get_ui(&r, rnd_t::RNDN), 1);

    let mut sq = Number::new(53);
    assert_eq!(ctx.sqr(&mut sq, &b, rnd_t::RNDN), 0);
    assert_eq!(ctx.get_ui(&sq, rnd_t::RNDN), 9);
}

#[test]
fn sticky_flags_accumulate_and_clear() {
    let mut ctx = Ctx::new();
    let mut n = Number::new(4);
    ctx.set_ui(&mut n, 17, rnd_t::RNDN);
    assert!(ctx.inexflag_p());
    let one = num_u64(&mut ctx, 53, 1);
    let mut zero = Number::new(53);
    zero.set_zero(false);
    let mut r = Number::new(53);
    ctx.div(&mut r, &one, &zero, rnd_t::RNDN);
    assert!(ctx.divby0_p() && ctx.inexflag_p());
    ctx.clear_inexflag();
    assert!(!ctx.inexflag_p() && ctx.divby0_p());
    ctx.clear_flags();
    assert!(!ctx.divby0_p() && !ctx.overflow_p() && !ctx.underflow_p());
    assert!(!ctx.nanflag_p() && !ctx.erangeflag_p());
}

#[test]
fn context_configuration_surface() {
    let mut ctx = Ctx::new();
    assert_eq!(ctx.get_default_prec(), 53);
    ctx.set_default_prec(100);
    assert_eq!(ctx.get_default_prec(), 100);
    ctx.set_default_rounding_mode(rnd_t::RNDZ);
    assert!(matches!(ctx.get_default_rounding_mode(), rnd_t::RNDZ));
    let emax = ctx.get_emax();
    assert_eq!(ctx.set_emax(emax + 1), -1); // beyond the platform bound
    assert_eq!(ctx.set_emin(5), 0);
    assert_eq!(ctx.get_emin(), 5);
    assert_eq!(ctx.set_emax(4), -1); // may not cross emin
}
