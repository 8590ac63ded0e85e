use bigfloat::num::{Ctx, Number};
use bigfloat::rnd_t;

#[test]
fn it_runs() {
    let d: f64 = 1.0 / 3.0;
    let mut ctx = Ctx::new();
    let mut fr = Number::new(53);
    assert!(ctx.set_f64_bits(&mut fr, d.to_bits(), rnd_t::RNDN) == 0);
    assert!(ctx.get_f64_bits(&fr, rnd_t::RNDN) == d.to_bits());
}

#[test]
fn double_round_trip_of_specials() {
    let mut ctx = Ctx::new();
    let mut n = Number::new(53);

    ctx.set_f64_bits(&mut n, f64::NAN.to_bits(), rnd_t::RNDN);
    assert!(n.nan_p());
    assert!(ctx.nanflag_p());
    assert!(f64::from_bits(ctx.get_f64_bits(&n, rnd_t::RNDN)).is_nan());

    ctx.set_f64_bits(&mut n, f64::NEG_INFINITY.to_bits(), rnd_t::RNDN);
    assert!(n.inf_p() && n.signbit());
    assert_eq!(ctx.get_f64_bits(&n, rnd_t::RNDN), f64::NEG_INFINITY.to_bits());

    ctx.set_f64_bits(&mut n, (-0.0f64).to_bits(), rnd_t::RNDN);
    assert!(n.zero_p() && n.signbit());
    assert_eq!(ctx.get_f64_bits(&n, rnd_t::RNDN), (-0.0f64).to_bits());
}

#[test]
fn subnormal_doubles_decode_exactly() {
    // the smallest positive double, 2^-1074
    let tiny = f64::from_bits(1);
    let mut ctx = Ctx::new();
    let mut n = Number::new(53);
    let t = ctx.set_f64_bits(&mut n, tiny.to_bits(), rnd_t::RNDN);
    assert_eq!(t, 0);
    assert!(n.regular_p());
    assert_eq!(n.get_exp(), -1073);
    // reading it back underflows the binary64 normal range: this engine
    // carries no subnormals, so the value flushes to zero with the flag set
    let bits = ctx.get_f64_bits(&n, rnd_t::RNDN);
    assert_eq!(f64::from_bits(bits), 0.0);
    assert!(ctx.underflow_p());
}

#[test]
fn doubles_round_at_narrow_precision() {
    let mut ctx = Ctx::new();
    let mut n = Number::new(4);
    let t = ctx.set_f64_bits(&mut n, 17.0f64.to_bits(), rnd_t::RNDN);
    assert_eq!(t, -1);
    assert_eq!(ctx.get_ui(&n, rnd_t::RNDN), 16);

    let mut wide = Number::new(53);
    assert_eq!(ctx.set_f64_bits(&mut wide, 0.5f64.to_bits(), rnd_t::RNDN), 0);
    assert_eq!(ctx.get_f64_bits(&wide, rnd_t::RNDN), 0.5f64.to_bits());
    assert_eq!(wide.get_exp(), 0);
}
