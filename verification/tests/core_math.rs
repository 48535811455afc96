use alloy_primitives::{I256 as AI256, U256 as AU256};
use llamma_math::constants::wad;
use llamma_math::core_math::{get_dynamic_fee, get_p, get_y0, p_oracle_down, p_oracle_up, sqrt_int};
use llamma_math::exp::wad_exp;
use llamma_math::uint::{I256, U256};

fn u(x: AU256) -> U256 {
    U256::from_limbs(x.into_limbs())
}

fn au(x: U256) -> AU256 {
    AU256::from_limbs(x.into_limbs())
}

fn i(x: AI256) -> I256 {
    I256::from_raw_limbs(x.into_raw().into_limbs())
}

fn w() -> AU256 {
    au(wad())
}

fn exp(x: AI256) -> Option<AU256> {
    wad_exp(i(x)).map(au)
}

#[test]
fn sqrt_int_basic() {
    assert_eq!(au(sqrt_int(u(AU256::ZERO))), AU256::ZERO);
    assert_eq!(au(sqrt_int(u(AU256::from(1u64)))), AU256::from(1u64));
    assert_eq!(au(sqrt_int(u(AU256::from(4u64)))), AU256::from(2u64));
    assert_eq!(au(sqrt_int(u(AU256::from(9u64)))), AU256::from(3u64));
    // floor(sqrt(10)) = 3
    assert_eq!(au(sqrt_int(u(AU256::from(10u64)))), AU256::from(3u64));
}

#[test]
fn sqrt_int_large() {
    let x = AU256::from(10u64).pow(AU256::from(36));
    assert_eq!(au(sqrt_int(u(x))), AU256::from(10u64).pow(AU256::from(18)));
}

#[test]
fn sqrt_int_near_max_is_floor() {
    // 2^256 - 2 is the largest accepted input; its floor square root is 2^128 - 1.
    let x = AU256::MAX - AU256::from(1u64);
    let r = au(sqrt_int(u(x)));
    assert_eq!(r, AU256::from(u128::MAX));
    let r2 = AU256::from(1_000_000_007u64) * AU256::from(1_000_000_007u64);
    assert_eq!(au(sqrt_int(u(r2 - AU256::from(1u64)))), AU256::from(1_000_000_006u64));
    assert_eq!(au(sqrt_int(u(r2))), AU256::from(1_000_000_007u64));
}

#[test]
fn wad_exp_zero() {
    let result = exp(AI256::ZERO).unwrap();
    assert_eq!(result, w());
}

#[test]
fn wad_exp_one() {
    let result = exp(AI256::try_from(w()).unwrap()).unwrap();
    let expected_low = AU256::from(2_718_281_828_000_000_000u128);
    let expected_high = AU256::from(2_718_281_829_000_000_000u128);
    assert!(result >= expected_low && result <= expected_high, "e^1 = {result}");
}

#[test]
fn wad_exp_negative_large_returns_zero() {
    let result = exp(AI256::try_from(-50_000_000_000_000_000_000i128).unwrap()).unwrap();
    assert_eq!(result, AU256::ZERO);
}

#[test]
fn wad_exp_overflow_returns_none() {
    let result = exp(AI256::try_from(136_000_000_000_000_000_000i128).unwrap());
    assert!(result.is_none());
}

#[test]
fn wad_exp_negative_one() {
    let neg_wad = -AI256::try_from(w()).unwrap();
    let result = exp(neg_wad).unwrap();
    let expected_low = AU256::from(367_879_441_000_000_000u128);
    let expected_high = AU256::from(367_879_442_000_000_000u128);
    assert!(result >= expected_low && result <= expected_high, "e^(-1) = {result}");
}

#[test]
fn wad_exp_two() {
    let two_wad = AI256::try_from(2_000_000_000_000_000_000i128).unwrap();
    let result = exp(two_wad).unwrap();
    let expected_low = AU256::from(7_389_056_098_000_000_000u128);
    let expected_high = AU256::from(7_389_056_099_000_000_000u128);
    assert!(result >= expected_low && result <= expected_high, "e^2 = {result}");
}

#[test]
fn wad_exp_ten() {
    let ten_wad = AI256::try_from(10_000_000_000_000_000_000i128).unwrap();
    let result = exp(ten_wad).unwrap();
    let expected_low = AU256::from(22_026_465_794_000_000_000_000u128);
    let expected_high = AU256::from(22_026_465_795_000_000_000_000u128);
    assert!(result >= expected_low && result <= expected_high, "e^10 = {result}");
}

#[test]
fn wad_exp_negative_two() {
    let neg_two_wad = AI256::try_from(-2_000_000_000_000_000_000i128).unwrap();
    let result = exp(neg_two_wad).unwrap();
    let expected_low = AU256::from(135_335_283_000_000_000u128);
    let expected_high = AU256::from(135_335_284_000_000_000u128);
    assert!(result >= expected_low && result <= expected_high, "e^(-2) = {result}");
}

#[test]
fn wad_exp_negative_ten() {
    let neg_ten_wad = AI256::try_from(-10_000_000_000_000_000_000i128).unwrap();
    let result = exp(neg_ten_wad).unwrap();
    let expected_low = AU256::from(45_399_929_000_000u128);
    let expected_high = AU256::from(45_399_930_000_000u128);
    assert!(result >= expected_low && result <= expected_high, "e^(-10) = {result}");
}

#[test]
fn wad_exp_half() {
    let half_wad = AI256::try_from(500_000_000_000_000_000i128).unwrap();
    let result = exp(half_wad).unwrap();
    let expected_low = AU256::from(1_648_721_270_000_000_000u128);
    let expected_high = AU256::from(1_648_721_271_000_000_000u128);
    assert!(result >= expected_low && result <= expected_high, "e^0.5 = {result}");
}

#[test]
fn wad_exp_monotonic() {
    let a = AI256::try_from(-5_000_000_000_000_000_000i128).unwrap();
    let b = AI256::try_from(-1_000_000_000_000_000_000i128).unwrap();
    let c_val = AI256::ZERO;
    let d = AI256::try_from(1_000_000_000_000_000_000i128).unwrap();
    let e = AI256::try_from(5_000_000_000_000_000_000i128).unwrap();

    let ra = exp(a).unwrap();
    let rb = exp(b).unwrap();
    let rc = exp(c_val).unwrap();
    let rd = exp(d).unwrap();
    let re = exp(e).unwrap();

    assert!(ra < rb, "e^(-5) < e^(-1): {ra} vs {rb}");
    assert!(rb < rc, "e^(-1) < e^(0): {rb} vs {rc}");
    assert!(rc < rd, "e^(0) < e^(1): {rc} vs {rd}");
    assert!(rd < re, "e^(1) < e^(5): {rd} vs {re}");
}

#[test]
fn wad_exp_truncation_step_between_neighbours() {
    // Two inputs about 1e3 apart on either side of a range-reduction step:
    // the larger input gives the smaller result, by one unit of truncation.
    let lo = AI256::try_from(-15_595_811_562_598_769_664i128).unwrap();
    let hi = AI256::try_from(-15_595_811_562_598_768_667i128).unwrap();
    assert_eq!(exp(lo).unwrap(), AU256::from(168_587_394_043u64));
    assert_eq!(exp(hi).unwrap(), AU256::from(168_587_394_042u64));
}

#[test]
fn wad_exp_boundary_negative() {
    let x = AI256::try_from(-41_000_000_000_000_000_000i128).unwrap();
    let result = exp(x).unwrap();
    assert!(result > AU256::ZERO, "e^(-41e18) should be > 0: {result}");
    assert!(result < AU256::from(1000u64), "e^(-41e18) should be tiny: {result}");
}

#[test]
fn wad_exp_boundary_zero_threshold() {
    let x = AI256::try_from(-42_139_678_854_452_767_551i128).unwrap();
    let result = exp(x).unwrap();
    assert_eq!(result, AU256::ZERO);
}

#[test]
fn wad_exp_product_rule() {
    let a = AI256::try_from(2_000_000_000_000_000_000i128).unwrap();
    let b = AI256::try_from(3_000_000_000_000_000_000i128).unwrap();
    let a_plus_b = AI256::try_from(5_000_000_000_000_000_000i128).unwrap();

    let ea = exp(a).unwrap();
    let eb = exp(b).unwrap();
    let eab = exp(a_plus_b).unwrap();

    let product = ea * eb / w();
    let diff = if product > eab { product - eab } else { eab - product };
    let max_err = eab / AU256::from(100_000u64);
    assert!(
        diff <= max_err,
        "product rule: e^2 * e^3 = {product}, e^5 = {eab}, diff = {diff}"
    );
}

#[test]
fn wad_exp_bounds_exact() {
    // the last input that returns zero and the first that overflows
    assert_eq!(exp(AI256::try_from(-41_446_531_673_892_822_313i128).unwrap()), Some(AU256::ZERO));
    assert!(exp(AI256::try_from(-41_446_531_673_892_822_312i128).unwrap()).is_some());
    assert!(exp(AI256::try_from(135_305_999_368_893_231_589i128).unwrap()).is_none());
    assert!(exp(AI256::try_from(135_305_999_368_893_231_588i128).unwrap()).is_some());
}

#[test]
fn get_dynamic_fee_in_range_returns_zero() {
    let a = AU256::from(100u64);
    let a_minus_1 = AU256::from(99u64);
    let p_o_up = w() * AU256::from(3000u64);
    let p_o = p_o_up * AU256::from(99u64) / AU256::from(100u64);
    let fee = au(get_dynamic_fee(u(p_o), u(p_o_up), u(a), u(a_minus_1)));
    assert!(fee <= w() / AU256::from(4u64), "fee = {fee}");
}

#[test]
fn get_dynamic_fee_exact_values() {
    let a = AU256::from(100u64);
    let a_minus_1 = AU256::from(99u64);
    let p_o_up = w() * AU256::from(3000u64);
    // p_o = p_o_up: p_c_d = p_o, fee-free range, fee 0
    assert_eq!(au(get_dynamic_fee(u(p_o_up), u(p_o_up), u(a), u(a_minus_1))), AU256::ZERO);
    // p_o far below the band: p_c_d = p_o^3 / p_o_up^2 = p_o / 4 for p_o = p_o_up / 2
    let p_o = p_o_up / AU256::from(2u64);
    let p_c_d = p_o * p_o / p_o_up * p_o / p_o_up;
    let p_c_u = p_c_d * a / a_minus_1 * a / a_minus_1;
    let expected = (p_o - p_c_u) * (w() / AU256::from(4u64)) / p_o;
    assert_eq!(au(get_dynamic_fee(u(p_o), u(p_o_up), u(a), u(a_minus_1))), expected);
    // p_o above the band: p_c_d > p_o
    let p_o_hi = p_o_up * AU256::from(2u64);
    let p_c_d_hi = p_o_hi * p_o_hi / p_o_up * p_o_hi / p_o_up;
    let expected_hi = (p_c_d_hi - p_o_hi) * (w() / AU256::from(4u64)) / p_c_d_hi;
    assert_eq!(au(get_dynamic_fee(u(p_o_hi), u(p_o_up), u(a), u(a_minus_1))), expected_hi);
    assert!(expected_hi < w() / AU256::from(4u64));
}

#[test]
fn get_y0_zero_amounts() {
    let a = AU256::from(100u64);
    let a_minus_1 = AU256::from(99u64);
    let p_o = w() * AU256::from(3000u64);
    let p_o_up = w() * AU256::from(3010u64);
    let y0 = get_y0(u(AU256::ZERO), u(AU256::ZERO), u(p_o), u(p_o_up), u(a), u(a_minus_1)).unwrap();
    assert_eq!(au(y0), AU256::ZERO);
}

#[test]
fn get_y0_only_x() {
    let a = AU256::from(100u64);
    let a_minus_1 = AU256::from(99u64);
    let p_o = w() * AU256::from(3000u64);
    let p_o_up = w() * AU256::from(3010u64);
    let x = w() * AU256::from(1000u64);
    let y0 = get_y0(u(x), u(AU256::ZERO), u(p_o), u(p_o_up), u(a), u(a_minus_1)).unwrap();
    assert!(au(y0) > AU256::ZERO);
}

#[test]
fn get_y0_only_y() {
    let a = AU256::from(100u64);
    let a_minus_1 = AU256::from(99u64);
    let p_o = w() * AU256::from(3000u64);
    let p_o_up = w() * AU256::from(3010u64);
    let y = w();
    let y0 = get_y0(u(AU256::ZERO), u(y), u(p_o), u(p_o_up), u(a), u(a_minus_1)).unwrap();
    assert!(au(y0) > AU256::ZERO);
}

#[test]
fn get_y0_both_xy() {
    let a = AU256::from(100u64);
    let a_minus_1 = AU256::from(99u64);
    let p_o = w() * AU256::from(3000u64);
    let p_o_up = w() * AU256::from(3010u64);
    let x = w() * AU256::from(1000u64);
    let y = w();
    let y0 = get_y0(u(x), u(y), u(p_o), u(p_o_up), u(a), u(a_minus_1)).unwrap();
    assert!(au(y0) > AU256::ZERO);
}

#[test]
fn get_y0_exact_value() {
    let a = AU256::from(100u64);
    let a_minus_1 = AU256::from(99u64);
    let p_o = w() * AU256::from(3000u64);
    let p_o_up = w() * AU256::from(3010u64);
    let x = w() * AU256::from(1000u64);
    let y = w();
    let mut b = p_o_up * a_minus_1 * x / p_o;
    b += a * p_o * p_o / p_o_up * y / w();
    let d = b * b + (AU256::from(4u64) * a * p_o) * y / w() * x;
    let expected = (b + d.root(2)) * w() / (AU256::from(2u64) * a * p_o);
    let y0 = get_y0(u(x), u(y), u(p_o), u(p_o_up), u(a), u(a_minus_1)).unwrap();
    assert_eq!(au(y0), expected);
    let only_x = get_y0(u(x), u(AU256::ZERO), u(p_o), u(p_o_up), u(a), u(a_minus_1)).unwrap();
    assert_eq!(au(only_x), p_o_up * a_minus_1 * x / p_o * w() / (a * p_o));
}

#[test]
fn get_y0_rejects_zero_p_o() {
    let a = AU256::from(100u64);
    let a_minus_1 = AU256::from(99u64);
    assert!(get_y0(u(w()), u(w()), u(AU256::ZERO), u(w()), u(a), u(a_minus_1)).is_none());
}

#[test]
fn get_p_both_zero_returns_midband() {
    let a = AU256::from(100u64);
    let a_minus_1 = AU256::from(99u64);
    let p_o = w() * AU256::from(3000u64);
    let p_o_up = w() * AU256::from(3010u64);
    let price = get_p(u(AU256::ZERO), u(AU256::ZERO), u(p_o), u(p_o_up), u(a), u(a_minus_1)).unwrap();
    assert!(au(price) > AU256::ZERO);
}

#[test]
fn get_p_only_y_returns_p_current_down() {
    let a = AU256::from(100u64);
    let a_minus_1 = AU256::from(99u64);
    let p_o = w() * AU256::from(3000u64);
    let p_o_up = w() * AU256::from(3010u64);
    let price = get_p(u(AU256::ZERO), u(w()), u(p_o), u(p_o_up), u(a), u(a_minus_1)).unwrap();
    assert!(au(price) > AU256::ZERO);
}

#[test]
fn get_p_only_x_returns_p_current_up() {
    let a = AU256::from(100u64);
    let a_minus_1 = AU256::from(99u64);
    let p_o = w() * AU256::from(3000u64);
    let p_o_up = w() * AU256::from(3010u64);
    let price = get_p(
        u(w() * AU256::from(1000u64)),
        u(AU256::ZERO),
        u(p_o),
        u(p_o_up),
        u(a),
        u(a_minus_1),
    )
    .unwrap();
    assert!(au(price) > AU256::ZERO);
}

#[test]
fn get_p_exact_values() {
    let a = AU256::from(100u64);
    let a_minus_1 = AU256::from(99u64);
    let p_o = w() * AU256::from(3000u64);
    let p_o_up = w() * AU256::from(3010u64);
    let p_c_d = p_o * p_o / p_o_up * p_o / p_o_up;
    let mid = get_p(u(AU256::ZERO), u(AU256::ZERO), u(p_o), u(p_o_up), u(a), u(a_minus_1)).unwrap();
    assert_eq!(au(mid), p_c_d * a / a_minus_1);
    let down = get_p(u(AU256::ZERO), u(w()), u(p_o), u(p_o_up), u(a), u(a_minus_1)).unwrap();
    assert_eq!(au(down), p_c_d);
    let p_o_down = p_o_up * a_minus_1 / a;
    let up = get_p(u(w()), u(AU256::ZERO), u(p_o), u(p_o_up), u(a), u(a_minus_1)).unwrap();
    assert_eq!(au(up), p_o * p_o / p_o_down * p_o / p_o_down);
    assert!(get_p(u(w()), u(w()), u(p_o), u(AU256::ZERO), u(a), u(a_minus_1)).is_none());
}

#[test]
fn p_oracle_up_and_down() {
    let base = w() * AU256::from(2000u64);
    let log = AI256::try_from(10_050_335_853_501_431i128).unwrap();
    // band 0: e^0 = 1e18, price = base
    assert_eq!(au(p_oracle_up(0, u(base), i(log)).unwrap()), base);
    // band 1 upper price is below the base price
    let up1 = au(p_oracle_up(1, u(base), i(log)).unwrap());
    let e = exp(-log).unwrap();
    assert_eq!(up1, base * e / w());
    assert!(up1 < base);
    // the lower price of band n is the upper price of band n + 1
    assert_eq!(au(p_oracle_down(0, u(base), i(log)).unwrap()), up1);
    assert_eq!(
        au(p_oracle_down(-5, u(base), i(log)).unwrap()),
        au(p_oracle_up(-4, u(base), i(log)).unwrap())
    );
    // a band so high that e^power is at most 1000: None
    assert!(p_oracle_up(5000, u(base), i(log)).is_none());
}

#[test]
fn sqrt_int_of_max_value() {
    assert_eq!(au(sqrt_int(u(AU256::MAX))), AU256::from(u128::MAX));
}
