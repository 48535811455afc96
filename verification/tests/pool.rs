use alloy_primitives::{I256 as AI256, U256 as AU256};
use llamma_math::constants::wad;
use llamma_math::pool::{LlammaPool, PoolError};
use llamma_math::uint::{I256, U256};
use std::collections::HashMap;

fn u(x: AU256) -> U256 {
    U256::from_limbs(x.into_limbs())
}

fn au(x: U256) -> AU256 {
    AU256::from_limbs(x.into_limbs())
}

fn w() -> AU256 {
    au(wad())
}

fn test_pool(
    a: u64,
    base_price: AU256,
    bands_x: HashMap<i64, U256>,
    bands_y: HashMap<i64, U256>,
    p_oracle: AU256,
) -> LlammaPool {
    let a_val = AU256::from(a);
    let a_minus_1 = AU256::from(a - 1);
    let log_a_ratio = AI256::try_from(10_050_335_853_501i128).unwrap();
    let mut pow = w();
    for _ in 0..50 {
        pow = pow * a_val / a_minus_1;
    }
    let sqrt_band_ratio = w() * AU256::from(10050u64) / AU256::from(10000u64);

    LlammaPool::new(
        u(a_val),
        u(a_minus_1),
        u(base_price),
        I256::from_raw_limbs(log_a_ratio.into_raw().into_limbs()),
        u(pow),
        u(sqrt_band_ratio),
        u(AU256::from(1u64)),
        u(AU256::from(1u64)),
        u(w() / AU256::from(1000u64)),
        0,
        -10,
        10,
        bands_x,
        bands_y,
        u(p_oracle),
        u(AU256::ZERO),
        false,
    )
    .expect("test pool params are valid")
}

#[test]
fn get_amount_out_invalid_index() {
    let pool = test_pool(100, w() * AU256::from(2000u64), HashMap::new(), HashMap::new(), w() * AU256::from(2000u64));
    assert_eq!(pool.get_amount_out(0, 0, u(w())).unwrap_err(), PoolError::InvalidIndex);
    assert_eq!(pool.get_amount_out(2, 0, u(w())).unwrap_err(), PoolError::InvalidIndex);
}

#[test]
fn get_amount_out_zero_returns_zero() {
    let pool = test_pool(100, w() * AU256::from(2000u64), HashMap::new(), HashMap::new(), w() * AU256::from(2000u64));
    assert_eq!(au(pool.get_amount_out(0, 1, u(AU256::ZERO)).unwrap()), AU256::ZERO);
    assert_eq!(au(pool.get_amount_out(1, 0, u(AU256::ZERO)).unwrap()), AU256::ZERO);
}

#[test]
fn get_amount_out_no_liquidity_returns_zero() {
    let pool = test_pool(100, w() * AU256::from(2000u64), HashMap::new(), HashMap::new(), w() * AU256::from(2000u64));
    let result = pool.get_amount_out(0, 1, u(w() * AU256::from(100u64))).unwrap();
    assert_eq!(au(result), AU256::ZERO);
}

#[test]
fn get_amount_out_pump_produces_output() {
    let mut bx = HashMap::new();
    let mut by = HashMap::new();
    bx.insert(0i64, u(w() * AU256::from(100u64)));
    by.insert(0i64, u(w() * AU256::from(10u64)));
    let base_price = w() * AU256::from(2000u64);
    let p_oracle = w() * AU256::from(2000u64);
    let pool = test_pool(100, base_price, bx, by, p_oracle);
    let dx = w() * AU256::from(100u64);
    let dy = au(pool.get_amount_out(0, 1, u(dx)).unwrap());
    assert!(dy > AU256::ZERO, "should get collateral output, got {dy}");
}

#[test]
fn get_amount_out_dump_produces_output() {
    let mut bx = HashMap::new();
    let mut by = HashMap::new();
    bx.insert(0i64, u(w() * AU256::from(10000u64)));
    by.insert(0i64, u(w() * AU256::from(5u64)));
    let base_price = w() * AU256::from(2000u64);
    let p_oracle = w() * AU256::from(2000u64);
    let pool = test_pool(100, base_price, bx, by, p_oracle);
    let dy = w();
    let dx = au(pool.get_amount_out(1, 0, u(dy)).unwrap());
    assert!(dx > AU256::ZERO, "should get borrowed output, got {dx}");
}

#[test]
fn spot_price_returns_nonzero() {
    let mut bx = HashMap::new();
    let mut by = HashMap::new();
    bx.insert(0i64, u(w() * AU256::from(1000u64)));
    by.insert(0i64, u(w() * AU256::from(5u64)));
    let base_price = w() * AU256::from(2000u64);
    let p_oracle = w() * AU256::from(2000u64);
    let pool = test_pool(100, base_price, bx, by, p_oracle);
    let price = au(pool.spot_price().unwrap());
    assert!(price > AU256::ZERO, "spot price should be > 0, got {price}");
}

#[test]
fn get_amount_out_larger_input_gives_more_output() {
    let mut bx = HashMap::new();
    let mut by = HashMap::new();
    bx.insert(0i64, u(w() * AU256::from(1000u64)));
    by.insert(0i64, u(w() * AU256::from(50u64)));
    let base_price = w() * AU256::from(2000u64);
    let p_oracle = w() * AU256::from(2000u64);
    let pool = test_pool(100, base_price, bx, by, p_oracle);
    let small_dx = w() * AU256::from(10u64);
    let large_dx = w() * AU256::from(100u64);
    let small_dy = au(pool.get_amount_out(0, 1, u(small_dx)).unwrap());
    let large_dy = au(pool.get_amount_out(0, 1, u(large_dx)).unwrap());
    assert!(large_dy > small_dy, "larger input should give more output: {small_dy} vs {large_dy}");
}

#[test]
fn new_rejects_invalid_params() {
    let one = u(AU256::from(1u64));
    let zero = u(AU256::ZERO);
    let log = I256::from_u128(10_050_335_853_501);
    let mk = |a: U256, am1: U256, bp: U256, cp: U256| {
        LlammaPool::new(
            a, am1, u(w()), log, u(w()), zero, bp, cp, zero, 0, 0, 0, HashMap::new(), HashMap::new(),
            u(w()), zero, true,
        )
    };
    assert_eq!(mk(one, zero, one, one).unwrap_err(), PoolError::InvalidParams);
    assert_eq!(mk(u(AU256::from(2u64)), zero, one, one).unwrap_err(), PoolError::InvalidParams);
    assert_eq!(mk(u(AU256::from(2u64)), one, zero, one).unwrap_err(), PoolError::InvalidParams);
    assert_eq!(mk(u(AU256::from(2u64)), one, one, zero).unwrap_err(), PoolError::InvalidParams);
    let pool = mk(u(AU256::from(2u64)), one, one, one).unwrap();
    assert_eq!(au(pool.a), AU256::from(2u64));
    assert!(pool.static_antifee);
}

#[test]
fn spot_price_of_empty_band_is_band_price() {
    // no liquidity in the active band: the mid-band price from the oracle
    let base_price = w() * AU256::from(2000u64);
    let pool = test_pool(100, base_price, HashMap::new(), HashMap::new(), base_price);
    let p_o_up = base_price; // band 0
    let p_c_d = base_price * base_price / p_o_up * base_price / p_o_up;
    let expected = p_c_d * AU256::from(100u64) / AU256::from(99u64);
    assert_eq!(au(pool.spot_price().unwrap()), expected);
}

#[test]
fn pool_error_messages() {
    assert_eq!(PoolError::InvalidIndex.message(), "invalid token index: must be 0 or 1");
    assert_eq!(PoolError::InvalidParams.message(), "invalid pool parameters");
    assert_eq!(PoolError::MathError.message(), "math error during computation");
}

#[test]
fn get_amount_out_band_price_out_of_range_is_math_error() {
    // band 5000 lies so far up that e^(-n * log_a_ratio) is at most 1000
    let mut pool = test_pool(100, w() * AU256::from(2000u64), HashMap::new(), HashMap::new(), w() * AU256::from(2000u64));
    let log = I256::from_raw_limbs(AI256::try_from(10_050_335_853_501_431i128).unwrap().into_raw().into_limbs());
    pool.log_a_ratio = log;
    pool.active_band = 5000;
    assert_eq!(pool.get_amount_out(0, 1, u(w())).unwrap_err(), PoolError::MathError);
    assert_eq!(pool.spot_price().unwrap_err(), PoolError::MathError);
}

#[test]
fn get_amount_out_scales_by_precision() {
    // a collateral token with 6 decimals: precision 10^12
    let mut by = HashMap::new();
    by.insert(0i64, u(w() * AU256::from(10u64)));
    let base_price = w() * AU256::from(2000u64);
    let mut pool = test_pool(100, base_price, HashMap::new(), by, base_price);
    let dy_18 = au(pool.get_amount_out(0, 1, u(w() * AU256::from(100u64))).unwrap());
    pool.collateral_precision = u(AU256::from(1_000_000_000_000u64));
    let dy_6 = au(pool.get_amount_out(0, 1, u(w() * AU256::from(100u64))).unwrap());
    assert_eq!(dy_6, dy_18 / AU256::from(1_000_000_000_000u64));
}

#[test]
fn get_amount_out_lower_fee_pays_no_less() {
    let mut bx = HashMap::new();
    let mut by = HashMap::new();
    bx.insert(0i64, u(w() * AU256::from(1000u64)));
    by.insert(0i64, u(w() * AU256::from(10u64)));
    let base_price = w() * AU256::from(2000u64);
    let p_oracle = w() * AU256::from(2000u64);
    let high = test_pool(100, base_price, bx, by, p_oracle);
    let mut low = high.clone();
    low.fee = u(AU256::ZERO);
    let dx = w() * AU256::from(5u64);
    let out_high = au(high.get_amount_out(0, 1, u(dx)).unwrap());
    let out_low = au(low.get_amount_out(0, 1, u(dx)).unwrap());
    assert!(out_high < out_low, "a lower fee should pay more: {out_high} vs {out_low}");
}
