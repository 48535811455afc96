use alloy_primitives::U256 as AU256;
use llamma_math::constants::{dead_shares, max_p_o_chg, prev_p_o_delay, wad, MAX_SKIP_TICKS, MAX_TICKS};

fn au(x: llamma_math::uint::U256) -> AU256 {
    AU256::from_limbs(x.into_limbs())
}

#[test]
fn wad_is_1e18() {
    assert_eq!(au(wad()), AU256::from(10u64).pow(AU256::from(18)));
}

#[test]
fn max_p_o_chg_is_12500e14() {
    assert_eq!(
        au(max_p_o_chg()),
        AU256::from(12500u64) * AU256::from(10u64).pow(AU256::from(14))
    );
}

#[test]
fn prev_p_o_delay_is_120() {
    assert_eq!(au(prev_p_o_delay()), AU256::from(120u64));
}

#[test]
fn dead_shares_and_tick_limits() {
    assert_eq!(au(dead_shares()), AU256::from(1000u64));
    assert_eq!(MAX_TICKS, 50);
    assert_eq!(MAX_SKIP_TICKS, 1024);
}
