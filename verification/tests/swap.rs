use alloy_primitives::U256 as AU256;
use llamma_math::constants::wad;
use llamma_math::swap::{calc_swap_out, SwapState};
use llamma_math::uint::U256;
use std::collections::HashMap;

fn u(x: AU256) -> U256 {
    U256::from_limbs(x.into_limbs())
}

fn au(x: U256) -> AU256 {
    AU256::from_limbs(x.into_limbs())
}

fn w() -> AU256 {
    au(wad())
}

fn make_state<'a>(
    bands_x: &'a HashMap<i64, U256>,
    bands_y: &'a HashMap<i64, U256>,
    p_oracle: AU256,
    p_oracle_up_active: AU256,
) -> SwapState<'a> {
    let a = AU256::from(100u64);
    let a_minus_1 = AU256::from(99u64);
    let mut pow = w();
    for _ in 0..50 {
        pow = pow * a / a_minus_1;
    }
    SwapState {
        a: u(a),
        a_minus_1: u(a_minus_1),
        fee: u(AU256::from(10u64) * w() / AU256::from(10000u64)),
        bands_x,
        bands_y,
        active_band: 0,
        min_band: -10,
        max_band: 10,
        p_oracle: u(p_oracle),
        oracle_fee: u(AU256::ZERO),
        p_oracle_up_active: u(p_oracle_up_active),
        max_oracle_dn_pow: u(pow),
        in_precision: u(AU256::from(1u64)),
        out_precision: u(AU256::from(1u64)),
        static_antifee: false,
    }
}

#[test]
fn calc_swap_out_zero_input_returns_zero_output() {
    let mut bx = HashMap::new();
    let mut by = HashMap::new();
    bx.insert(0i64, u(w() * AU256::from(1000u64)));
    by.insert(0i64, u(w()));

    let p_o = w() * AU256::from(3000u64);
    let p_o_up = w() * AU256::from(3010u64);

    let state = make_state(&bx, &by, p_o, p_o_up);
    let result = calc_swap_out(true, u(AU256::ZERO), &state).unwrap();
    assert_eq!(au(result.out_amount), AU256::ZERO);
    assert_eq!(au(result.in_amount), AU256::ZERO);
}

#[test]
fn calc_swap_out_pump_produces_output() {
    let mut bx = HashMap::new();
    let mut by = HashMap::new();
    bx.insert(0i64, u(w() * AU256::from(100u64)));
    by.insert(0i64, u(w() * AU256::from(10u64)));

    let p_o = w() * AU256::from(2000u64);
    let p_o_up = w() * AU256::from(2010u64);

    let state = make_state(&bx, &by, p_o, p_o_up);
    let dx = w() * AU256::from(100u64);
    let result = calc_swap_out(true, u(dx), &state).unwrap();

    assert!(au(result.out_amount) > AU256::ZERO, "should get some output");
    assert!(au(result.in_amount) > AU256::ZERO, "should consume some input");
    assert!(au(result.in_amount) <= dx, "should not consume more than input");
}

#[test]
fn calc_swap_out_dump_produces_output() {
    let mut bx = HashMap::new();
    let mut by = HashMap::new();
    bx.insert(0i64, u(w() * AU256::from(10000u64)));
    by.insert(0i64, u(w() * AU256::from(5u64)));

    let p_o = w() * AU256::from(2000u64);
    let p_o_up = w() * AU256::from(2010u64);

    let state = make_state(&bx, &by, p_o, p_o_up);
    let dy = w();
    let result = calc_swap_out(false, u(dy), &state).unwrap();

    assert!(au(result.out_amount) > AU256::ZERO, "should get some output");
    assert!(au(result.in_amount) > AU256::ZERO, "should consume some input");
}

#[test]
fn calc_swap_out_no_liquidity_returns_zero() {
    let bx = HashMap::new();
    let by = HashMap::new();

    let p_o = w() * AU256::from(2000u64);
    let p_o_up = w() * AU256::from(2010u64);

    let state = make_state(&bx, &by, p_o, p_o_up);
    let result = calc_swap_out(true, u(w() * AU256::from(100u64)), &state).unwrap();
    assert_eq!(au(result.out_amount), AU256::ZERO);
}

#[test]
fn calc_swap_out_zero_oracle_price_is_math_error() {
    let mut bx = HashMap::new();
    let mut by = HashMap::new();
    bx.insert(0i64, u(w()));
    by.insert(0i64, u(w()));
    let state = make_state(&bx, &by, AU256::ZERO, w() * AU256::from(2010u64));
    let result = calc_swap_out(true, u(w()), &state);
    assert_eq!(result.unwrap_err(), llamma_math::pool::PoolError::MathError);
}

#[test]
fn calc_swap_out_touches_bands_in_order() {
    // liquidity in bands 0 and 1; a large pump drains band 0 and moves up
    let bx = HashMap::new();
    let mut by = HashMap::new();
    by.insert(0i64, u(w()));
    by.insert(1i64, u(w()));
    let p_o = w() * AU256::from(2000u64);
    let p_o_up = w() * AU256::from(2010u64);
    let state = make_state(&bx, &by, p_o, p_o_up);
    let result = calc_swap_out(true, u(w() * AU256::from(1_000_000u64)), &state).unwrap();
    assert_eq!(result.n1, 0);
    assert!(result.n2 >= 1);
    assert_eq!(result.ticks_in.len() as i64, result.n2 - result.n1 + 1);
    assert!(au(result.out_amount) <= w() * AU256::from(2u64));
    assert!(au(result.in_amount) <= w() * AU256::from(1_000_000u64));
}

#[test]
fn detailed_trade_default_is_empty() {
    let t = llamma_math::swap::DetailedTrade::default();
    assert_eq!(au(t.in_amount), AU256::ZERO);
    assert_eq!(au(t.out_amount), AU256::ZERO);
    assert_eq!((t.n1, t.n2), (0, 0));
    assert!(t.ticks_in.is_empty());
    assert_eq!(au(t.last_tick_j), AU256::ZERO);
}

#[test]
fn calc_swap_out_static_antifee_and_precision_rounding() {
    let mut bx = HashMap::new();
    let mut by = HashMap::new();
    bx.insert(0i64, u(w() * AU256::from(100u64)));
    by.insert(0i64, u(w() * AU256::from(10u64)));
    let p_o = w() * AU256::from(2000u64);
    let p_o_up = w() * AU256::from(2010u64);
    let mut state = make_state(&bx, &by, p_o, p_o_up);
    state.static_antifee = true;
    state.in_precision = u(AU256::from(1_000_000_000_000u64));
    state.out_precision = u(AU256::from(1_000u64));
    let dx = w() * AU256::from(100u64);
    let result = calc_swap_out(true, u(dx), &state).unwrap();
    let prec_in = AU256::from(1_000_000_000_000u64);
    let prec_out = AU256::from(1_000u64);
    assert_eq!(au(result.in_amount) % prec_in, AU256::ZERO);
    assert_eq!(au(result.out_amount) % prec_out, AU256::ZERO);
    assert!(au(result.in_amount) <= dx);
    assert!(au(result.out_amount) <= w() * AU256::from(10u64));
}

#[test]
fn calc_swap_out_first_band_with_liquidity_is_n1() {
    // the active band and band 1 are empty; collateral sits in bands 2 and 3
    let bx = HashMap::new();
    let mut by = HashMap::new();
    by.insert(2i64, u(w()));
    by.insert(3i64, u(w()));
    let p_o = w() * AU256::from(2000u64);
    let p_o_up = w() * AU256::from(2010u64);
    let state = make_state(&bx, &by, p_o, p_o_up);
    let result = calc_swap_out(true, u(w() * AU256::from(1_000_000u64)), &state).unwrap();
    assert_eq!(result.n1, 2);
    assert!(result.n2 >= 2);
    assert_eq!(result.ticks_in.len() as i64, result.n2 - result.n1 + 1);
    assert!(au(result.out_amount) > AU256::ZERO);
}

#[test]
fn calc_swap_out_more_input_or_lower_fee_pays_no_less() {
    let mut bx = HashMap::new();
    let mut by = HashMap::new();
    bx.insert(0i64, u(w() * AU256::from(100u64)));
    by.insert(0i64, u(w() * AU256::from(10u64)));
    by.insert(1i64, u(w() * AU256::from(10u64)));
    let p_o = w() * AU256::from(2000u64);
    let p_o_up = w() * AU256::from(2010u64);
    let state = make_state(&bx, &by, p_o, p_o_up);
    let small = calc_swap_out(true, u(w() * AU256::from(1000u64)), &state).unwrap();
    let large = calc_swap_out(true, u(w() * AU256::from(30000u64)), &state).unwrap();
    assert!(au(small.out_amount) < au(large.out_amount));

    let mut cheap = make_state(&bx, &by, p_o, p_o_up);
    cheap.fee = u(AU256::ZERO);
    let lower_fee = calc_swap_out(true, u(w() * AU256::from(1000u64)), &cheap).unwrap();
    assert!(au(small.out_amount) < au(lower_fee.out_amount));
}

#[test]
fn calc_swap_out_static_and_per_band_antifee_agree_under_high_fee() {
    // with a fee well above the dynamic fee of every band passed, computing
    // the antifee once or per band gives the same trade
    let mut bx = HashMap::new();
    let mut by = HashMap::new();
    bx.insert(0i64, u(w() * AU256::from(100u64)));
    by.insert(0i64, u(w() * AU256::from(10u64)));
    by.insert(1i64, u(w() * AU256::from(10u64)));
    let p_o = w() * AU256::from(2000u64);
    let p_o_up = w() * AU256::from(2010u64);
    let mut per_band = make_state(&bx, &by, p_o, p_o_up);
    per_band.fee = u(w() / AU256::from(10u64));
    let mut once = make_state(&bx, &by, p_o, p_o_up);
    once.fee = u(w() / AU256::from(10u64));
    once.static_antifee = true;
    let dx = u(w() * AU256::from(30000u64));
    let a = calc_swap_out(true, dx, &per_band).unwrap();
    let b = calc_swap_out(true, dx, &once).unwrap();
    assert_eq!(au(a.out_amount), au(b.out_amount));
    assert_eq!(au(a.in_amount), au(b.in_amount));
    assert_eq!((a.n1, a.n2), (b.n1, b.n2));
    assert_eq!(au(a.last_tick_j), au(b.last_tick_j));
    assert!(au(a.out_amount) > AU256::ZERO);
}
