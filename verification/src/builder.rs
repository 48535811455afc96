//! Build a [`LlammaPool`] from raw, data-source agnostic pool state.
use vstd::prelude::*;
use std::collections::HashMap;
use crate::constants::{wad, wad_spec};
use crate::pool::{invalid_params, LlammaPool, PoolError};
use crate::uint::{group_uint, mul_w, I256, U256};

verus! {

broadcast use group_uint, vstd::std_specs::hash::group_hash_axioms;

/// Raw LLAMMA pool state, filled in from any data source.
#[derive(Debug, Clone)]
pub struct RawLlammaState {
    pub a: U256,
    /// `ln(A / (A-1)) * 1e18`
    pub log_a_ratio: I256,
    /// `10^(18 - collateral_decimals)`
    pub collateral_precision: U256,
    /// `10^(18 - borrowed_decimals)`
    pub borrowed_precision: U256,
    pub static_antifee: bool,
    pub fee: U256,
    pub active_band: i64,
    pub min_band: i64,
    pub max_band: i64,
    pub p_oracle: U256,
    /// `BASE_PRICE * rate_mul / 1e18`
    pub base_price: U256,
    /// Dynamic fee from oracle limiting.
    pub oracle_fee: U256,
    pub bands_x: HashMap<i64, U256>,
    pub bands_y: HashMap<i64, U256>,
}

/// `1e18 * (A / (A - 1))^k`, each factor applied with wrapping multiplication
/// and truncating division.
pub open spec fn dn_pow_spec(a: nat, a_minus_1: nat, k: nat) -> nat
    decreases k,
{
    if k == 0 {
        wad_spec()
    } else {
        mul_w(dn_pow_spec(a, a_minus_1, (k - 1) as nat), a) / a_minus_1
    }
}

/// Build a `LlammaPool` from raw state: `A - 1` and `MAX_ORACLE_DN_POW =
/// 1e18 * (A / (A - 1))^50` are derived from `A`; the square root band ratio
/// is left at zero. `InvalidParams` when `A <= 1` or a precision is zero.
pub fn build_pool(state: &RawLlammaState) -> (r: Result<LlammaPool, PoolError>)
    ensures
        (state.a@ <= 1 || state.borrowed_precision@ == 0 || state.collateral_precision@ == 0)
            ==> r == Err::<LlammaPool, PoolError>(PoolError::InvalidParams),
        !(state.a@ <= 1 || state.borrowed_precision@ == 0 || state.collateral_precision@ == 0)
            ==> (r matches Ok(pool) && pool.a == state.a && pool.a_minus_1@ == state.a@ - 1
            && pool.max_oracle_dn_pow@ == dn_pow_spec(state.a@, (state.a@ - 1) as nat, 50)
            && pool.sqrt_band_ratio@ == 0 && pool.base_price == state.base_price
            && pool.log_a_ratio == state.log_a_ratio && pool.borrowed_precision
            == state.borrowed_precision && pool.collateral_precision == state.collateral_precision
            && pool.fee == state.fee && pool.active_band == state.active_band && pool.min_band
            == state.min_band && pool.max_band == state.max_band && pool.bands_x@ == state.bands_x@
            && pool.bands_y@ == state.bands_y@ && pool.p_oracle == state.p_oracle
            && pool.oracle_fee == state.oracle_fee && pool.static_antifee == state.static_antifee),
{
    let one = U256::from_u64(1);
    if !one.lt(&state.a) {
        return Err(PoolError::InvalidParams);
    }
    let a = state.a;
    let a_minus_1 = a.sub(one);
    proof {
        crate::uint::lemma_wrap_u(a@ - 1);
    }
    let mut max_oracle_dn_pow = wad();
    let mut k: u64 = 0;
    while k < 50
        invariant
            k <= 50,
            a_minus_1@ == a@ - 1,
            a_minus_1@ > 0,
            max_oracle_dn_pow@ == dn_pow_spec(a@, a_minus_1@, k as nat),
        decreases 50 - k,
    {
        max_oracle_dn_pow = max_oracle_dn_pow.mul(a).div(a_minus_1);
        k = k + 1;
    }
    proof {
        assert(!invalid_params(a@, a_minus_1@, state.borrowed_precision@, state.collateral_precision@)
            <==> !(state.borrowed_precision@ == 0 || state.collateral_precision@ == 0));
    }
    LlammaPool::new(
        a,
        a_minus_1,
        state.base_price,
        state.log_a_ratio,
        max_oracle_dn_pow,
        U256::zero(),
        state.borrowed_precision,
        state.collateral_precision,
        state.fee,
        state.active_band,
        state.min_band,
        state.max_band,
        state.bands_x.clone(),
        state.bands_y.clone(),
        state.p_oracle,
        state.oracle_fee,
        state.static_antifee,
    )
}

} // verus!
