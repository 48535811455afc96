//! Protocol constants.
use vstd::prelude::*;
use crate::uint::U256;

verus! {

/// 1e18, the fixed-point unit.
pub const WAD_U64: u64 = 1_000_000_000_000_000_000;

/// Max bands per user position.
pub const MAX_TICKS: i64 = 50;

/// Max bands per user position, unsigned.
pub const MAX_TICKS_UINT: u64 = 50;

/// Max empty bands to skip during a swap.
pub const MAX_SKIP_TICKS: i64 = 1024;

/// Max empty bands to skip during a swap, unsigned.
pub const MAX_SKIP_TICKS_UINT: u64 = 1024;

/// The fixed-point unit 1e18 as a spec value.
pub open spec fn wad_spec() -> nat {
    1_000_000_000_000_000_000
}

/// 1e18 ("WAD").
pub fn wad() -> (r: U256)
    ensures
        r@ == wad_spec(),
{
    U256::from_u64(WAD_U64)
}

/// Oracle EMA smoothing delay in seconds (120).
pub fn prev_p_o_delay() -> (r: U256)
    ensures
        r@ == 120,
{
    U256::from_u64(120)
}

/// Max oracle price change per update (`12500 * 10^14`).
pub fn max_p_o_chg() -> (r: U256)
    ensures
        r@ == 1_250_000_000_000_000_000,
{
    U256::from_u64(1_250_000_000_000_000_000)
}

/// Dead shares for initial band deposits (1000).
pub fn dead_shares() -> (r: U256)
    ensures
        r@ == 1000,
{
    U256::from_u64(1000)
}

} // verus!
