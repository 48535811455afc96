//! `LlammaPool`: a pool snapshot with the swap quote and spot price.
//!
//! Token indexing: `i = 0` is the borrowed token, `i = 1` the collateral.
//! Amounts passed to and returned from `get_amount_out` are in native token
//! decimals; they are scaled with `borrowed_precision` and
//! `collateral_precision` internally.
use vstd::prelude::*;
use std::collections::HashMap;
use crate::core_math::{
    band_power_in_range, get_p, get_p_computable, get_p_spec, p_oracle_up, p_oracle_up_spec,
};
use crate::swap::{
    band_amount, calc_swap_out, calc_swap_out_spec, lemma_band_sum_mono,
    lemma_swap_output_bounded_by_liquidity, total_liquidity, SwapParams, SwapState,
};
use crate::swap::{initial_loop, lemma_swap_rounding};
use crate::swap_order::{
    lemma_swap_output_fee_antitone, lemma_swap_output_monotone, reachable_liquidity, run_exact,
};
use crate::constants::wad_spec;
use crate::uint::{group_uint, lemma_wrap_u, modulus, mul_w, I256, U256};

verus! {

broadcast use group_uint, vstd::std_specs::hash::group_hash_axioms;

/// Error returned by `LlammaPool` methods.
#[derive(Debug, Clone, Copy, PartialEq, Eq, Structural)]
pub enum PoolError {
    /// Invalid token index (must be 0 or 1).
    InvalidIndex,
    /// Invalid pool parameters (e.g. A <= 1, zero precision).
    InvalidParams,
    /// Math error during computation.
    MathError,
}

impl PoolError {
    /// A human-readable description of the error.
    pub fn message(&self) -> (r: &'static str)
        ensures
            r@ == (match *self {
                PoolError::InvalidIndex => "invalid token index: must be 0 or 1"@,
                PoolError::InvalidParams => "invalid pool parameters"@,
                PoolError::MathError => "math error during computation"@,
            }),
    {
        match self {
            PoolError::InvalidIndex => "invalid token index: must be 0 or 1",
            PoolError::InvalidParams => "invalid pool parameters",
            PoolError::MathError => "math error during computation",
        }
    }
}

/// A LLAMMA pool state snapshot at a specific block.
///
/// All fields correspond to on-chain storage variables of the AMM contract;
/// the oracle price is an external input.
#[derive(Debug, Clone)]
#[non_exhaustive]
pub struct LlammaPool {
    /// Amplification parameter `A`.
    pub a: U256,
    /// `A - 1`.
    pub a_minus_1: U256,
    /// Price of band 0, already adjusted for the rate multiplier.
    pub base_price: U256,
    /// `ln(A / (A - 1)) * 1e18`.
    pub log_a_ratio: I256,
    /// `(A / (A - 1))^50`, bounding the band traversal.
    pub max_oracle_dn_pow: U256,
    /// `sqrt(A / (A - 1)) * 1e18`.
    pub sqrt_band_ratio: U256,
    /// Precision multiplier of the borrowed token: `10^(18 - decimals)`.
    pub borrowed_precision: U256,
    /// Precision multiplier of the collateral token: `10^(18 - decimals)`.
    pub collateral_precision: U256,
    /// Static fee.
    pub fee: U256,
    /// Current active band.
    pub active_band: i64,
    /// Lowest non-empty band.
    pub min_band: i64,
    /// Highest non-empty band.
    pub max_band: i64,
    /// Borrowed token (x) amounts per band.
    pub bands_x: HashMap<i64, U256>,
    /// Collateral token (y) amounts per band.
    pub bands_y: HashMap<i64, U256>,
    /// Oracle price, already limited.
    pub p_oracle: U256,
    /// Dynamic fee component from oracle price limiting.
    pub oracle_fee: U256,
    /// Static antifee (computed once per swap) versus per-band dynamic antifee.
    pub static_antifee: bool,
}

/// The parameters `new` rejects: `A <= 1`, `A - 1 == 0`, or a zero precision.
pub open spec fn invalid_params(
    a: nat,
    a_minus_1: nat,
    borrowed_precision: nat,
    collateral_precision: nat,
) -> bool {
    a <= 1 || a_minus_1 == 0 || borrowed_precision == 0 || collateral_precision == 0
}

/// The swap parameters of a pool for a given direction's precisions and the
/// active band's upper price.
pub open spec fn pool_swap_params(pool: LlammaPool, in_precision: nat, out_precision: nat, p_o_up: nat) -> SwapParams {
    SwapParams {
        a: pool.a@,
        a_minus_1: pool.a_minus_1@,
        fee: pool.fee@,
        bands_x: pool.bands_x@,
        bands_y: pool.bands_y@,
        active_band: pool.active_band as int,
        min_band: pool.min_band as int,
        max_band: pool.max_band as int,
        p_oracle: pool.p_oracle@,
        oracle_fee: pool.oracle_fee@,
        p_oracle_up_active: p_o_up,
        max_oracle_dn_pow: pool.max_oracle_dn_pow@,
        in_precision,
        out_precision,
        static_antifee: pool.static_antifee,
    }
}

/// Whether `(i, j)` names a swap between the two tokens.
pub open spec fn valid_pair(i: nat, j: nat) -> bool {
    (i == 0 && j == 1) || (i == 1 && j == 0)
}

/// The output of swapping `dx` of token `i` for token `j`, in native decimals.
/// `None` where the computation would divide by zero or leave its integer
/// ranges.
pub open spec fn get_amount_out_spec(pool: LlammaPool, i: nat, j: nat, dx: nat) -> Option<
    Result<nat, PoolError>,
> {
    if !valid_pair(i, j) {
        Some(Err(PoolError::InvalidIndex))
    } else if dx == 0 {
        Some(Ok(0))
    } else {
        let in_precision = if i == 0 {
            pool.borrowed_precision@
        } else {
            pool.collateral_precision@
        };
        let out_precision = if i == 0 {
            pool.collateral_precision@
        } else {
            pool.borrowed_precision@
        };
        if !band_power_in_range(pool.active_band as int, pool.log_a_ratio@) {
            None
        } else {
            match p_oracle_up_spec(pool.active_band as int, pool.base_price@, pool.log_a_ratio@) {
                None => Some(Err(PoolError::MathError)),
                Some(p_o_up) => match calc_swap_out_spec(
                    i == 0,
                    mul_w(dx, in_precision),
                    pool_swap_params(pool, in_precision, out_precision, p_o_up),
                ) {
                    None => None,
                    Some(Err(_)) => Some(Err(PoolError::MathError)),
                    Some(Ok(t)) => Some(Ok(t.out_amount / out_precision)),
                },
            }
        }
    }
}

/// The current price in the active band (1e18 base). `None` where the
/// computation would divide by zero or leave its integer ranges.
pub open spec fn spot_price_spec(pool: LlammaPool) -> Option<Result<nat, PoolError>> {
    if !band_power_in_range(pool.active_band as int, pool.log_a_ratio@) {
        None
    } else {
        match p_oracle_up_spec(pool.active_band as int, pool.base_price@, pool.log_a_ratio@) {
            None => Some(Err(PoolError::MathError)),
            Some(p_o_up) => {
                let x = band_amount(pool.bands_x@, pool.active_band as int);
                let y = band_amount(pool.bands_y@, pool.active_band as int);
                if !get_p_computable(x, y, pool.p_oracle@, p_o_up, pool.a@, pool.a_minus_1@) {
                    None
                } else {
                    match get_p_spec(x, y, pool.p_oracle@, p_o_up, pool.a@, pool.a_minus_1@) {
                        None => Some(Err(PoolError::MathError)),
                        Some(v) => Some(Ok(v)),
                    }
                }
            },
        }
    }
}

impl LlammaPool {
    /// Create a new `LlammaPool` from all required parameters.
    ///
    /// Returns `Err(PoolError::InvalidParams)` if `a <= 1`, `a_minus_1` is
    /// zero, or a precision is zero.
    pub fn new(
        a: U256,
        a_minus_1: U256,
        base_price: U256,
        log_a_ratio: I256,
        max_oracle_dn_pow: U256,
        sqrt_band_ratio: U256,
        borrowed_precision: U256,
        collateral_precision: U256,
        fee: U256,
        active_band: i64,
        min_band: i64,
        max_band: i64,
        bands_x: HashMap<i64, U256>,
        bands_y: HashMap<i64, U256>,
        p_oracle: U256,
        oracle_fee: U256,
        static_antifee: bool,
    ) -> (r: Result<Self, PoolError>)
        ensures
            invalid_params(a@, a_minus_1@, borrowed_precision@, collateral_precision@) ==> r == Err::<
                LlammaPool,
                PoolError,
            >(PoolError::InvalidParams),
            !invalid_params(a@, a_minus_1@, borrowed_precision@, collateral_precision@) ==> (r matches Ok(
                pool,
            ) && pool.a == a && pool.a_minus_1 == a_minus_1 && pool.base_price == base_price
                && pool.log_a_ratio == log_a_ratio && pool.max_oracle_dn_pow == max_oracle_dn_pow
                && pool.sqrt_band_ratio == sqrt_band_ratio && pool.borrowed_precision
                == borrowed_precision && pool.collateral_precision == collateral_precision
                && pool.fee == fee && pool.active_band == active_band && pool.min_band == min_band
                && pool.max_band == max_band && pool.bands_x@ == bands_x@ && pool.bands_y@
                == bands_y@ && pool.p_oracle == p_oracle && pool.oracle_fee == oracle_fee
                && pool.static_antifee == static_antifee),
    {
        if !U256::from_u64(1).lt(&a) || a_minus_1.is_zero() || borrowed_precision.is_zero()
            || collateral_precision.is_zero() {
            return Err(PoolError::InvalidParams);
        }
        Ok(
            LlammaPool {
                a,
                a_minus_1,
                base_price,
                log_a_ratio,
                max_oracle_dn_pow,
                sqrt_band_ratio,
                borrowed_precision,
                collateral_precision,
                fee,
                active_band,
                min_band,
                max_band,
                bands_x,
                bands_y,
                p_oracle,
                oracle_fee,
                static_antifee,
            },
        )
    }

    /// Amount of token `j` received for swapping `dx` of token `i`
    /// (0 = borrowed, 1 = collateral), both in native token decimals.
    pub fn get_amount_out(&self, i: usize, j: usize, dx: U256) -> (r: Result<U256, PoolError>)
        requires
            get_amount_out_spec(*self, i as nat, j as nat, dx@) is Some,
        ensures
            match get_amount_out_spec(*self, i as nat, j as nat, dx@).unwrap() {
                Ok(v) => r matches Ok(w) && w@ == v,
                Err(e) => r == Err::<U256, PoolError>(e),
            },
            r == Err::<U256, PoolError>(PoolError::InvalidIndex) <==> !valid_pair(i as nat, j as nat),
            valid_pair(i as nat, j as nat) && dx@ == 0 ==> (r matches Ok(w) && w@ == 0),
    {
        if !((i == 0 && j == 1) || (i == 1 && j == 0)) {
            return Err(PoolError::InvalidIndex);
        }
        if dx.is_zero() {
            return Ok(U256::zero());
        }
        let (in_precision, out_precision) = if i == 0 {
            (self.borrowed_precision, self.collateral_precision)
        } else {
            (self.collateral_precision, self.borrowed_precision)
        };
        let pump = i == 0;
        let scaled_in = dx.mul(in_precision);
        let p_o_up = self.compute_p_oracle_up(self.active_band)?;
        let state = SwapState {
            a: self.a,
            a_minus_1: self.a_minus_1,
            fee: self.fee,
            bands_x: &self.bands_x,
            bands_y: &self.bands_y,
            active_band: self.active_band,
            min_band: self.min_band,
            max_band: self.max_band,
            p_oracle: self.p_oracle,
            oracle_fee: self.oracle_fee,
            p_oracle_up_active: p_o_up,
            max_oracle_dn_pow: self.max_oracle_dn_pow,
            in_precision,
            out_precision,
            static_antifee: self.static_antifee,
        };
        assert(state@ == pool_swap_params(*self, in_precision@, out_precision@, p_o_up@));
        let result = match calc_swap_out(pump, scaled_in, &state) {
            Ok(t) => t,
            Err(_) => {
                return Err(PoolError::MathError);
            },
        };
        Ok(result.out_amount.div(out_precision))
    }

    /// Current spot price in the active band (1e18 base).
    pub fn spot_price(&self) -> (r: Result<U256, PoolError>)
        requires
            spot_price_spec(*self) is Some,
        ensures
            match spot_price_spec(*self).unwrap() {
                Ok(v) => r matches Ok(w) && w@ == v,
                Err(e) => r == Err::<U256, PoolError>(e),
            },
    {
        let p_o_up = self.compute_p_oracle_up(self.active_band)?;
        let x = match self.bands_x.get(&self.active_band) {
            Some(v) => *v,
            None => U256::zero(),
        };
        let y = match self.bands_y.get(&self.active_band) {
            Some(v) => *v,
            None => U256::zero(),
        };
        match get_p(x, y, self.p_oracle, p_o_up, self.a, self.a_minus_1) {
            Some(v) => Ok(v),
            None => Err(PoolError::MathError),
        }
    }

    /// Upper oracle price of band `n` for this pool.
    fn compute_p_oracle_up(&self, n: i64) -> (r: Result<U256, PoolError>)
        requires
            band_power_in_range(n as int, self.log_a_ratio@),
        ensures
            match p_oracle_up_spec(n as int, self.base_price@, self.log_a_ratio@) {
                Some(v) => r matches Ok(w) && w@ == v,
                None => r == Err::<U256, PoolError>(PoolError::MathError),
            },
    {
        match p_oracle_up(n, self.base_price, self.log_a_ratio) {
            Some(v) => Ok(v),
            None => Err(PoolError::MathError),
        }
    }
}

/// The pool never pays out more than its bands hold: swapping borrowed tokens
/// in, the output (in native decimals) is at most the collateral held in all
/// bands; swapping collateral in, at most the borrowed tokens held in all bands.
pub proof fn lemma_amount_out_bounded_by_liquidity(pool: LlammaPool, i: nat, j: nat, dx: nat)
    ensures
        get_amount_out_spec(pool, i, j, dx) matches Some(Ok(v)) ==> v <= (if i == 0 {
            total_liquidity(pool.bands_y@)
        } else {
            total_liquidity(pool.bands_x@)
        }),
{
    if valid_pair(i, j) && dx != 0 && band_power_in_range(pool.active_band as int, pool.log_a_ratio@) {
        let in_precision = if i == 0 {
            pool.borrowed_precision@
        } else {
            pool.collateral_precision@
        };
        let out_precision = if i == 0 {
            pool.collateral_precision@
        } else {
            pool.borrowed_precision@
        };
        match p_oracle_up_spec(pool.active_band as int, pool.base_price@, pool.log_a_ratio@) {
            Some(p_o_up) => {
                let params = pool_swap_params(pool, in_precision, out_precision, p_o_up);
                let amount = mul_w(dx, in_precision);
                lemma_swap_output_bounded_by_liquidity(i == 0, amount, params);
                match calc_swap_out_spec(i == 0, amount, params) {
                    Some(Ok(t)) => {
                        if out_precision > 0 {
                            vstd::arithmetic::div_mod::lemma_div_is_ordered_by_denominator(
                                t.out_amount as int,
                                1,
                                out_precision as int,
                            );
                        }
                        if i == 0 {
                            lemma_band_sum_mono(
                                pool.bands_y@,
                                pool.active_band as int,
                                t.n2 + 1,
                                i64::MIN as int,
                                i64::MAX + 1,
                            );
                        } else {
                            lemma_band_sum_mono(
                                pool.bands_x@,
                                t.n2,
                                pool.active_band + 1,
                                i64::MIN as int,
                                i64::MAX + 1,
                            );
                        }
                    },
                    _ => {},
                }
            },
            None => {},
        }
    }
}


/// The precision of the input token of a swap of token `i`.
pub open spec fn in_precision_of(pool: LlammaPool, i: nat) -> nat {
    if i == 0 {
        pool.borrowed_precision@
    } else {
        pool.collateral_precision@
    }
}

/// The precision of the output token of a swap of token `i`.
pub open spec fn out_precision_of(pool: LlammaPool, i: nat) -> nat {
    if i == 0 {
        pool.collateral_precision@
    } else {
        pool.borrowed_precision@
    }
}

/// Swapping `dx` of token `i` stays inside 256 bits: `dx` in internal
/// precision times `1e18`, the output token held in the bands in reach, and
/// the invariant of every band the swap passes all fit.
pub open spec fn swap_fits(pool: LlammaPool, i: nat, dx: nat) -> bool {
    let ip = in_precision_of(pool, i);
    let amount = dx * ip;
    &&& amount * wad_spec() < modulus()
    &&& p_oracle_up_spec(pool.active_band as int, pool.base_price@, pool.log_a_ratio@) matches Some(
        pu,
    ) ==> {
        let p = pool_swap_params(pool, ip, out_precision_of(pool, i), pu);
        &&& reachable_liquidity(p, i == 0) < modulus()
        &&& run_exact(p, i == 0, amount, initial_loop(p, amount), 0)
    }
}

proof fn lemma_amount_exact(dx: nat, ip: nat)
    requires
        dx * ip * wad_spec() < modulus(),
    ensures
        mul_w(dx, ip) == dx * ip,
{
    assert(dx * ip <= dx * ip * wad_spec()) by (nonlinear_arith);
    lemma_wrap_u((dx * ip) as int);
}

/// A larger input never yields less output: for a fixed pool and direction,
/// `get_amount_out(i, j, dx1) <= get_amount_out(i, j, dx2)` whenever
/// `dx1 <= dx2` and both quotes succeed, where swapping `dx2` stays inside 256
/// bits.
pub proof fn lemma_amount_out_monotone(pool: LlammaPool, i: nat, j: nat, dx1: nat, dx2: nat)
    requires
        dx1 <= dx2,
        pool.min_band <= pool.active_band <= pool.max_band,
        swap_fits(pool, i, dx2),
    ensures
        get_amount_out_spec(pool, i, j, dx1) matches Some(Ok(v1)) ==> (get_amount_out_spec(
            pool,
            i,
            j,
            dx2,
        ) matches Some(Ok(v2)) ==> v1 <= v2),
{
    if valid_pair(i, j) && dx1 != 0 && band_power_in_range(pool.active_band as int, pool.log_a_ratio@) {
        let ip = in_precision_of(pool, i);
        let op = out_precision_of(pool, i);
        assert(dx1 * ip <= dx2 * ip) by (nonlinear_arith)
            requires
                dx1 <= dx2,
        ;
        assert(dx1 * ip * wad_spec() <= dx2 * ip * wad_spec()) by (nonlinear_arith)
            requires
                dx1 * ip <= dx2 * ip,
        ;
        lemma_amount_exact(dx1, ip);
        lemma_amount_exact(dx2, ip);
        match p_oracle_up_spec(pool.active_band as int, pool.base_price@, pool.log_a_ratio@) {
            Some(pu) => {
                let p = pool_swap_params(pool, ip, op, pu);
                lemma_swap_output_monotone(i == 0, dx1 * ip, dx2 * ip, p);
                match (calc_swap_out_spec(i == 0, dx1 * ip, p), calc_swap_out_spec(i == 0, dx2 * ip, p)) {
                    (Some(Ok(t1)), Some(Ok(t2))) => {
                        if op > 0 {
                            vstd::arithmetic::div_mod::lemma_div_is_ordered(
                                t1.out_amount as int,
                                t2.out_amount as int,
                                op as int,
                            );
                        }
                    },
                    _ => {},
                }
            },
            None => {},
        }
    }
}

/// A higher fee never yields more output: of two pools that differ only in
/// their static fee, the one with the lower fee quotes at least as much for
/// the same swap, where both quotes succeed and the swap in the lower-fee pool
/// stays inside 256 bits.
pub proof fn lemma_amount_out_fee_antitone(low: LlammaPool, high: LlammaPool, i: nat, j: nat, dx: nat)
    requires
        high == (LlammaPool { fee: high.fee, ..low }),
        low.fee@ <= high.fee@,
        low.min_band <= low.active_band <= low.max_band,
        swap_fits(low, i, dx),
    ensures
        get_amount_out_spec(high, i, j, dx) matches Some(Ok(vh)) ==> (get_amount_out_spec(
            low,
            i,
            j,
            dx,
        ) matches Some(Ok(vl)) ==> vh <= vl),
{
    if valid_pair(i, j) && dx != 0 && band_power_in_range(low.active_band as int, low.log_a_ratio@) {
        let ip = in_precision_of(low, i);
        let op = out_precision_of(low, i);
        lemma_amount_exact(dx, ip);
        match p_oracle_up_spec(low.active_band as int, low.base_price@, low.log_a_ratio@) {
            Some(pu) => {
                let pl = pool_swap_params(low, ip, op, pu);
                let ph = pool_swap_params(high, ip, op, pu);
                assert(ph == (SwapParams { fee: ph.fee, oracle_fee: ph.oracle_fee, ..pl }));
                lemma_swap_output_fee_antitone(i == 0, dx * ip, ph, pl);
                match (calc_swap_out_spec(i == 0, dx * ip, ph), calc_swap_out_spec(i == 0, dx * ip, pl)) {
                    (Some(Ok(th)), Some(Ok(tl))) => {
                        if op > 0 {
                            vstd::arithmetic::div_mod::lemma_div_is_ordered(
                                th.out_amount as int,
                                tl.out_amount as int,
                                op as int,
                            );
                        }
                    },
                    _ => {},
                }
            },
            None => {},
        }
    }
}


/// A quote is the swap's output converted to the output token's native
/// decimals: for a valid pair and `dx > 0`, the swap runs on `dx` scaled by
/// the input token's precision, and the quote times the output token's
/// precision (the collateral's when borrowed tokens go in, the borrowed
/// token's when collateral goes in) is exactly the swap's internal output.
pub proof fn lemma_amount_out_converts_precision(pool: LlammaPool, i: nat, j: nat, dx: nat)
    ensures
        valid_pair(i, j) && dx > 0 ==> (get_amount_out_spec(pool, i, j, dx) matches Some(Ok(v)) ==> {
            let ip = if i == 0 {
                pool.borrowed_precision@
            } else {
                pool.collateral_precision@
            };
            let op = if i == 0 {
                pool.collateral_precision@
            } else {
                pool.borrowed_precision@
            };
            &&& p_oracle_up_spec(pool.active_band as int, pool.base_price@, pool.log_a_ratio@) matches Some(pu)
            &&& calc_swap_out_spec(i == 0, mul_w(dx, ip), pool_swap_params(pool, ip, op, pu)) matches Some(Ok(t))
            &&& v * op == t.out_amount
            &&& v * op <= t.out_amount < (v + 1) * op
        }),
{
    if valid_pair(i, j) && dx > 0 && band_power_in_range(pool.active_band as int, pool.log_a_ratio@) {
        let ip = in_precision_of(pool, i);
        let op = out_precision_of(pool, i);
        match p_oracle_up_spec(pool.active_band as int, pool.base_price@, pool.log_a_ratio@) {
            Some(pu) => {
                let p = pool_swap_params(pool, ip, op, pu);
                let amount = mul_w(dx, ip);
                lemma_wrap_u((dx * ip) as int);
                if ip > 0 && op > 0 {
                    lemma_swap_rounding(i == 0, amount, p);
                }
                match calc_swap_out_spec(i == 0, amount, p) {
                    Some(Ok(t)) => {
                        vstd::arithmetic::div_mod::lemma_fundamental_div_mod(
                            t.out_amount as int,
                            op as int,
                        );
                        assert(op > 0);
                        assert(t.out_amount % op == 0);
                        let v = t.out_amount / op;
                        assert(v * op == t.out_amount && t.out_amount < (v + 1) * op)
                            by (nonlinear_arith)
                            requires
                                t.out_amount == op * v + t.out_amount % op,
                                t.out_amount % op == 0,
                                op > 0,
                        ;
                        assert(get_amount_out_spec(pool, i, j, dx) == Some(
                            Ok::<nat, PoolError>(v),
                        ));
                    },
                    _ => {},
                }
            },
            None => {},
        }
    }
}

} // verus!




