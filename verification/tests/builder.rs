use alloy_primitives::U256 as AU256;
use llamma_math::builder::{build_pool, RawLlammaState};
use llamma_math::constants::wad;
use llamma_math::pool::PoolError;
use llamma_math::uint::{I256, U256};
use std::collections::HashMap;

fn u(x: AU256) -> U256 {
    U256::from_limbs(x.into_limbs())
}

fn au(x: U256) -> AU256 {
    AU256::from_limbs(x.into_limbs())
}

fn raw(a: u64, bp: u64, cp: u64) -> RawLlammaState {
    let mut by = HashMap::new();
    by.insert(0i64, u(au(wad()) * AU256::from(10u64)));
    RawLlammaState {
        a: u(AU256::from(a)),
        log_a_ratio: I256::from_u128(10_050_335_853_501_431),
        collateral_precision: u(AU256::from(cp)),
        borrowed_precision: u(AU256::from(bp)),
        static_antifee: true,
        fee: u(au(wad()) / AU256::from(1000u64)),
        active_band: 0,
        min_band: -3,
        max_band: 3,
        p_oracle: u(au(wad()) * AU256::from(2000u64)),
        base_price: u(au(wad()) * AU256::from(2000u64)),
        oracle_fee: u(AU256::ZERO),
        bands_x: HashMap::new(),
        bands_y: by,
    }
}

#[test]
fn build_pool_derives_immutables() {
    let pool = build_pool(&raw(100, 1, 1)).unwrap();
    assert_eq!(au(pool.a), AU256::from(100u64));
    assert_eq!(au(pool.a_minus_1), AU256::from(99u64));
    let mut pow = au(wad());
    for _ in 0..50 {
        pow = pow * AU256::from(100u64) / AU256::from(99u64);
    }
    assert_eq!(au(pool.max_oracle_dn_pow), pow);
    assert_eq!(au(pool.sqrt_band_ratio), AU256::ZERO);
    assert_eq!(pool.bands_y.len(), 1);
    assert!(pool.static_antifee);
}

#[test]
fn build_pool_rejects_invalid() {
    assert_eq!(build_pool(&raw(1, 1, 1)).unwrap_err(), PoolError::InvalidParams);
    assert_eq!(build_pool(&raw(0, 1, 1)).unwrap_err(), PoolError::InvalidParams);
    assert_eq!(build_pool(&raw(100, 0, 1)).unwrap_err(), PoolError::InvalidParams);
    assert_eq!(build_pool(&raw(100, 1, 0)).unwrap_err(), PoolError::InvalidParams);
}

#[test]
fn build_pool_quotes_swaps() {
    let pool = build_pool(&raw(100, 1, 1)).unwrap();
    let dy = au(pool.get_amount_out(0, 1, u(au(wad()) * AU256::from(100u64))).unwrap());
    assert!(dy > AU256::ZERO);
    assert!(dy <= au(wad()) * AU256::from(10u64));
}
