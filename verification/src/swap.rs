//! Swap math for LLAMMA: band traversal and amount computation
//! (`calc_swap_out`).
//!
//! The traversal is specified step by step over a mathematical model of the
//! loop state ([`SwapLoop`]); `calc_swap_out` is proved to compute exactly the
//! outcome of that model.
use vstd::prelude::*;
use std::collections::HashMap;
use crate::constants::{wad, wad_spec, MAX_SKIP_TICKS_UINT, MAX_TICKS_UINT};
use crate::core_math::{dynamic_fee_spec, get_dynamic_fee, get_y0, y0_computable, y0_spec};
use crate::pool::PoolError;
use crate::uint::{add_w, group_uint, lemma_wrap_u, modulus, mul_w, sub_w, wrap_u, U256};

verus! {

broadcast use group_uint, vstd::std_specs::hash::group_hash_axioms;

/// Result of a swap calculation.
#[derive(Debug, Clone)]
pub struct DetailedTrade {
    /// Amount of input token actually consumed (may be less than requested).
    pub in_amount: U256,
    /// Amount of output token received.
    pub out_amount: U256,
    /// First band with liquidity (initial band of the swap).
    pub n1: i64,
    /// Last band reached by the swap.
    pub n2: i64,
    /// New token amounts in each band touched by the swap.
    pub ticks_in: Vec<U256>,
    /// Remaining amount of output token in the last band.
    pub last_tick_j: U256,
}

impl Default for DetailedTrade {
    /// An empty trade: nothing in or out, band 0, no ticks.
    fn default() -> (r: DetailedTrade)
        ensures
            r@ == (TradeView {
                in_amount: 0,
                out_amount: 0,
                n1: 0,
                n2: 0,
                ticks_in: Seq::empty(),
                last_tick_j: 0,
            }),
    {
        let r = DetailedTrade {
            in_amount: U256::zero(),
            out_amount: U256::zero(),
            n1: 0,
            n2: 0,
            ticks_in: Vec::new(),
            last_tick_j: U256::zero(),
        };
        assert(values_of(r.ticks_in@) =~= Seq::<nat>::empty());
        r
    }
}

/// The mathematical content of a [`DetailedTrade`].
pub struct TradeView {
    pub in_amount: nat,
    pub out_amount: nat,
    pub n1: int,
    pub n2: int,
    pub ticks_in: Seq<nat>,
    pub last_tick_j: nat,
}

/// The values of a sequence of 256-bit integers.
pub open spec fn values_of(s: Seq<U256>) -> Seq<nat> {
    s.map_values(|t: U256| t@)
}

impl View for DetailedTrade {
    type V = TradeView;

    open spec fn view(&self) -> TradeView {
        TradeView {
            in_amount: self.in_amount@,
            out_amount: self.out_amount@,
            n1: self.n1 as int,
            n2: self.n2 as int,
            ticks_in: values_of(self.ticks_in@),
            last_tick_j: self.last_tick_j@,
        }
    }
}

/// Parameters describing the current state of a LLAMMA pool, needed to
/// compute a swap.
pub struct SwapState<'a> {
    /// Amplification parameter.
    pub a: U256,
    /// A - 1
    pub a_minus_1: U256,
    /// Static fee (from pool storage).
    pub fee: U256,
    /// Borrowed token amounts per band.
    pub bands_x: &'a HashMap<i64, U256>,
    /// Collateral token amounts per band.
    pub bands_y: &'a HashMap<i64, U256>,
    /// Current active band.
    pub active_band: i64,
    /// Lowest non-empty band.
    pub min_band: i64,
    /// Highest non-empty band.
    pub max_band: i64,
    /// Oracle price (p_o), already limited by the caller.
    pub p_oracle: U256,
    /// Dynamic fee component from oracle price limiting.
    pub oracle_fee: U256,
    /// Upper oracle price for band `active_band`.
    pub p_oracle_up_active: U256,
    /// `(A / (A-1))^50`, the max oracle down power.
    pub max_oracle_dn_pow: U256,
    /// Precision of the input token (10^(18-decimals)).
    pub in_precision: U256,
    /// Precision of the output token (10^(18-decimals)).
    pub out_precision: U256,
    /// Static antifee (computed once) versus per-band dynamic antifee.
    pub static_antifee: bool,
}

/// The mathematical content of a [`SwapState`].
pub struct SwapParams {
    pub a: nat,
    pub a_minus_1: nat,
    pub fee: nat,
    pub bands_x: Map<i64, U256>,
    pub bands_y: Map<i64, U256>,
    pub active_band: int,
    pub min_band: int,
    pub max_band: int,
    pub p_oracle: nat,
    pub oracle_fee: nat,
    pub p_oracle_up_active: nat,
    pub max_oracle_dn_pow: nat,
    pub in_precision: nat,
    pub out_precision: nat,
    pub static_antifee: bool,
}

impl<'a> View for SwapState<'a> {
    type V = SwapParams;

    open spec fn view(&self) -> SwapParams {
        SwapParams {
            a: self.a@,
            a_minus_1: self.a_minus_1@,
            fee: self.fee@,
            bands_x: self.bands_x@,
            bands_y: self.bands_y@,
            active_band: self.active_band as int,
            min_band: self.min_band as int,
            max_band: self.max_band as int,
            p_oracle: self.p_oracle@,
            oracle_fee: self.oracle_fee@,
            p_oracle_up_active: self.p_oracle_up_active@,
            max_oracle_dn_pow: self.max_oracle_dn_pow@,
            in_precision: self.in_precision@,
            out_precision: self.out_precision@,
            static_antifee: self.static_antifee,
        }
    }
}

/// The amount a band holds in a per-band map (zero when absent).
pub open spec fn band_amount(m: Map<i64, U256>, n: int) -> nat {
    if m.contains_key(n as i64) {
        m[n as i64]@
    } else {
        0
    }
}

/// Number of loop iterations: bands with liquidity plus skipped empty bands.
pub open spec fn max_iter() -> nat {
    (MAX_TICKS_UINT + MAX_SKIP_TICKS_UINT) as nat
}

/// The state carried from one band to the next during a swap.
pub struct SwapLoop {
    /// Index of the current band among the touched ones (50 until the first
    /// band with liquidity is reached).
    pub j: nat,
    pub n1: int,
    pub n2: int,
    pub p_o_up: nat,
    pub x: nat,
    pub y: nat,
    /// Input not yet consumed.
    pub left: nat,
    pub in_amount: nat,
    pub out_amount: nat,
    pub ticks: Seq<nat>,
    pub last_tick_j: nat,
}

/// The outcome of one band of the traversal.
pub enum StepOutcome {
    /// Go on to the next band with this state.
    Continue(SwapLoop),
    /// The traversal ends with this state.
    Stop(SwapLoop),
    /// The band invariant could not be computed (zero oracle price).
    Fail,
    /// The computation would divide by zero or leave the `i64` band range.
    Undefined,
}

/// The outcome of the whole traversal.
pub enum RunOutcome {
    Done(SwapLoop),
    Failed,
    Undefined,
}

/// The fee charged: the larger of the static and the oracle fee.
pub open spec fn swap_fee(p: SwapParams) -> nat {
    if p.fee > p.oracle_fee {
        p.fee
    } else {
        p.oracle_fee
    }
}

/// `1e36 / (1e18 - fee)`, with the fee capped at `1e18 - 1`.
pub open spec fn antifee_of(fee: nat) -> nat {
    let capped: nat = if fee < (wad_spec() - 1) as nat {
        fee
    } else {
        (wad_spec() - 1) as nat
    };
    mul_w(wad_spec(), wad_spec()) / ((wad_spec() - capped) as nat)
}

/// The quantities of the current band.
pub struct BandCalc {
    pub j: nat,
    pub n1: int,
    pub f: nat,
    pub g: nat,
    pub inv: nat,
    pub antifee: nat,
    pub ticks: Seq<nat>,
    pub p_ratio: nat,
}

/// Whether a band holds any liquidity.
pub open spec fn is_liquid(st: SwapLoop) -> bool {
    st.x > 0 || st.y > 0
}

/// The band invariant quantities `f`, `g`, `Inv`, the antifee and the price
/// ratio of the current band, with the new tick recorded; `None` where the
/// computation would divide by zero.
pub open spec fn band_calc_spec(p: SwapParams, pump: bool, st: SwapLoop) -> Option<
    Result<BandCalc, PoolError>,
> {
    let liquid = is_liquid(st);
    if liquid && p.p_oracle == 0 {
        Some(Err(PoolError::MathError))
    } else if liquid && !(y0_computable(st.x, st.y, p.p_oracle, st.p_o_up, p.a, p.a_minus_1)
        && st.p_o_up != 0 && (p.static_antifee || p.a_minus_1 != 0)) {
        None
    } else if p.p_oracle == 0 {
        None
    } else {
        let j1: nat = if liquid && st.j == MAX_TICKS_UINT {
            0
        } else {
            st.j
        };
        let n1 = if liquid && st.j == MAX_TICKS_UINT {
            st.n2
        } else {
            st.n1
        };
        let y0 = y0_spec(st.x, st.y, p.p_oracle, st.p_o_up, p.a, p.a_minus_1).unwrap();
        let f: nat = if liquid {
            mul_w(mul_w(mul_w(p.a, y0), p.p_oracle) / st.p_o_up, p.p_oracle) / wad_spec()
        } else {
            0
        };
        let g: nat = if liquid {
            mul_w(mul_w(p.a_minus_1, y0), st.p_o_up) / p.p_oracle
        } else {
            0
        };
        let inv: nat = if liquid {
            mul_w(add_w(f, st.x), add_w(g, st.y))
        } else {
            0
        };
        let fee = swap_fee(p);
        let dyn_fee = if liquid && !p.static_antifee {
            let df = dynamic_fee_spec(p.p_oracle, st.p_o_up, p.a, p.a_minus_1);
            if df > fee {
                df
            } else {
                fee
            }
        } else {
            fee
        };
        let ticks = if j1 != MAX_TICKS_UINT {
            st.ticks.push(
                if pump {
                    st.x
                } else {
                    st.y
                },
            )
        } else {
            st.ticks
        };
        Some(
            Ok(
                BandCalc {
                    j: j1,
                    n1,
                    f,
                    g,
                    inv,
                    antifee: antifee_of(dyn_fee),
                    ticks,
                    p_ratio: mul_w(st.p_o_up, wad_spec()) / p.p_oracle,
                },
            ),
        )
    }
}

/// The trade within the current band: either the input is used up here
/// (`Stop`), or the whole band is exchanged and the traversal moves on.
pub open spec fn trade_spec(pump: bool, amount: nat, st: SwapLoop, b: BandCalc) -> StepOutcome {
    let st1 = SwapLoop { j: b.j, n1: b.n1, ticks: b.ticks, ..st };
    if pump {
        if st.y != 0 && b.g != 0 {
            let x_dest = sub_w(sub_w(b.inv / b.g, b.f), st.x);
            let dx = mul_w(x_dest, b.antifee) / wad_spec();
            if dx >= st.left {
                let x_dest2 = mul_w(st.left, wad_spec()) / b.antifee;
                let den = add_w(b.f, add_w(st.x, x_dest2));
                if den == 0 {
                    StepOutcome::Undefined
                } else {
                    let rem = add_w(sub_w(b.inv / den, b.g), 1);
                    let last: nat = if rem < st.y {
                        rem
                    } else {
                        st.y
                    };
                    let x2 = add_w(st.x, st.left);
                    StepOutcome::Stop(
                        SwapLoop {
                            x: x2,
                            out_amount: add_w(st.out_amount, sub_w(st.y, last)),
                            ticks: b.ticks.update(b.j as int, x2),
                            in_amount: amount,
                            last_tick_j: last,
                            ..st1
                        },
                    )
                }
            } else {
                let dx1: nat = if dx > 1 {
                    dx
                } else {
                    1
                };
                StepOutcome::Continue(
                    SwapLoop {
                        left: sub_w(st.left, dx1),
                        ticks: b.ticks.update(b.j as int, add_w(st.x, dx1)),
                        in_amount: add_w(st.in_amount, dx1),
                        out_amount: add_w(st.out_amount, st.y),
                        ..st1
                    },
                )
            }
        } else {
            StepOutcome::Continue(st1)
        }
    } else {
        if st.x != 0 && b.f != 0 {
            let y_dest = sub_w(sub_w(b.inv / b.f, b.g), st.y);
            let dy = mul_w(y_dest, b.antifee) / wad_spec();
            if dy >= st.left {
                let y_dest2 = mul_w(st.left, wad_spec()) / b.antifee;
                let den = add_w(b.g, add_w(st.y, y_dest2));
                if den == 0 {
                    StepOutcome::Undefined
                } else {
                    let rem = add_w(sub_w(b.inv / den, b.f), 1);
                    let last: nat = if rem < st.x {
                        rem
                    } else {
                        st.x
                    };
                    let y2 = add_w(st.y, st.left);
                    StepOutcome::Stop(
                        SwapLoop {
                            y: y2,
                            out_amount: add_w(st.out_amount, sub_w(st.x, last)),
                            ticks: b.ticks.update(b.j as int, y2),
                            in_amount: amount,
                            last_tick_j: last,
                            ..st1
                        },
                    )
                }
            } else {
                let dy1: nat = if dy > 1 {
                    dy
                } else {
                    1
                };
                StepOutcome::Continue(
                    SwapLoop {
                        left: sub_w(st.left, dy1),
                        ticks: b.ticks.update(b.j as int, add_w(st.y, dy1)),
                        in_amount: add_w(st.in_amount, dy1),
                        out_amount: add_w(st.out_amount, st.x),
                        ..st1
                    },
                )
            }
        } else {
            StepOutcome::Continue(st1)
        }
    }
}

/// Counts one more touched band once the first band with liquidity is reached.
pub open spec fn bump_j(st: SwapLoop) -> SwapLoop {
    if st.j != MAX_TICKS_UINT {
        SwapLoop { j: st.j + 1, ..st }
    } else {
        st
    }
}

/// Moving on to the next band: stops at the last band with liquidity, after
/// 50 touched bands, or when the band price leaves the oracle's reach.
pub open spec fn advance_spec(p: SwapParams, pump: bool, st: SwapLoop, p_ratio: nat, i: nat) -> StepOutcome {
    if i == max_iter() - 1 {
        StepOutcome::Continue(bump_j(st))
    } else if pump {
        if st.n2 == p.max_band || st.j == MAX_TICKS_UINT - 1 {
            StepOutcome::Stop(st)
        } else if p.max_oracle_dn_pow == 0 {
            StepOutcome::Undefined
        } else if p_ratio < mul_w(wad_spec(), wad_spec()) / p.max_oracle_dn_pow {
            StepOutcome::Stop(st)
        } else if st.n2 + 1 > i64::MAX || p.a == 0 {
            StepOutcome::Undefined
        } else {
            let n2 = st.n2 + 1;
            StepOutcome::Continue(
                bump_j(
                    SwapLoop {
                        n2,
                        p_o_up: mul_w(st.p_o_up, p.a_minus_1) / p.a,
                        x: 0,
                        y: band_amount(p.bands_y, n2),
                        ..st
                    },
                ),
            )
        }
    } else {
        if st.n2 == p.min_band || st.j == MAX_TICKS_UINT - 1 {
            StepOutcome::Stop(st)
        } else if p_ratio > p.max_oracle_dn_pow {
            StepOutcome::Stop(st)
        } else if st.n2 - 1 < i64::MIN || p.a_minus_1 == 0 {
            StepOutcome::Undefined
        } else {
            let n2 = st.n2 - 1;
            StepOutcome::Continue(
                bump_j(
                    SwapLoop {
                        n2,
                        p_o_up: mul_w(st.p_o_up, p.a) / p.a_minus_1,
                        x: band_amount(p.bands_x, n2),
                        y: 0,
                        ..st
                    },
                ),
            )
        }
    }
}

/// One band of the traversal (iteration `i`).
pub open spec fn swap_step_spec(p: SwapParams, pump: bool, amount: nat, st: SwapLoop, i: nat) -> StepOutcome {
    match band_calc_spec(p, pump, st) {
        None => StepOutcome::Undefined,
        Some(Err(_)) => StepOutcome::Fail,
        Some(Ok(b)) => match trade_spec(pump, amount, st, b) {
            StepOutcome::Continue(st1) => advance_spec(p, pump, st1, b.p_ratio, i),
            other => other,
        },
    }
}

/// The traversal from iteration `i` on.
pub open spec fn swap_run(p: SwapParams, pump: bool, amount: nat, st: SwapLoop, i: nat) -> RunOutcome
    decreases max_iter() - i,
{
    if i >= max_iter() {
        RunOutcome::Done(st)
    } else {
        match swap_step_spec(p, pump, amount, st, i) {
            StepOutcome::Continue(st2) => swap_run(p, pump, amount, st2, i + 1),
            StepOutcome::Stop(st2) => RunOutcome::Done(st2),
            StepOutcome::Fail => RunOutcome::Failed,
            StepOutcome::Undefined => RunOutcome::Undefined,
        }
    }
}

/// The loop state before the first band.
pub open spec fn initial_loop(p: SwapParams, amount: nat) -> SwapLoop {
    SwapLoop {
        j: MAX_TICKS_UINT as nat,
        n1: 0,
        n2: p.active_band,
        p_o_up: p.p_oracle_up_active,
        x: band_amount(p.bands_x, p.active_band),
        y: band_amount(p.bands_y, p.active_band),
        left: amount,
        in_amount: 0,
        out_amount: 0,
        ticks: Seq::empty(),
        last_tick_j: 0,
    }
}

/// The result of a swap of `amount` (in internal precision) in direction
/// `pump`: the input rounded up and the output rounded down to the tokens'
/// precisions. `None` where the computation would divide by zero or leave the
/// `i64` band range.
pub open spec fn calc_swap_out_spec(pump: bool, amount: nat, p: SwapParams) -> Option<
    Result<TradeView, PoolError>,
> {
    match swap_run(p, pump, amount, initial_loop(p, amount), 0) {
        RunOutcome::Undefined => None,
        RunOutcome::Failed => Some(Err(PoolError::MathError)),
        RunOutcome::Done(st) => if p.in_precision == 0 || p.out_precision == 0 {
            None
        } else {
            Some(
                Ok(
                    TradeView {
                        in_amount: mul_w(
                            sub_w(add_w(st.in_amount, p.in_precision), 1) / p.in_precision,
                            p.in_precision,
                        ),
                        out_amount: mul_w(st.out_amount / p.out_precision, p.out_precision),
                        n1: st.n1,
                        n2: st.n2,
                        ticks_in: st.ticks,
                        last_tick_j: st.last_tick_j,
                    },
                ),
            )
        },
    }
}

/// The loop state as it stands in the band traversal.
struct SwapCursor {
    j: u64,
    n1: i64,
    n2: i64,
    p_o_up: U256,
    x: U256,
    y: U256,
    left: U256,
    in_amount: U256,
    out_amount: U256,
    ticks: Vec<U256>,
    last_tick_j: U256,
}

impl View for SwapCursor {
    type V = SwapLoop;

    closed spec fn view(&self) -> SwapLoop {
        SwapLoop {
            j: self.j as nat,
            n1: self.n1 as int,
            n2: self.n2 as int,
            p_o_up: self.p_o_up@,
            x: self.x@,
            y: self.y@,
            left: self.left@,
            in_amount: self.in_amount@,
            out_amount: self.out_amount@,
            ticks: values_of(self.ticks@),
            last_tick_j: self.last_tick_j@,
        }
    }
}

/// The band counter and the recorded ticks agree.
pub open spec fn loop_wf(st: SwapLoop, i: nat) -> bool {
    &&& st.j <= MAX_TICKS_UINT
    &&& st.j < MAX_TICKS_UINT ==> st.ticks.len() == st.j
    &&& st.j == MAX_TICKS_UINT ==> (st.ticks.len() == 0 || i >= max_iter())
}

/// The quantities of the current band, as computed.
struct BandQuantities {
    f: U256,
    g: U256,
    inv: U256,
    antifee: U256,
    p_ratio: U256,
}

proof fn lemma_values_of_push(s: Seq<U256>, v: U256)
    ensures
        values_of(s.push(v)) == values_of(s).push(v@),
{
    assert(values_of(s.push(v)) =~= values_of(s).push(v@));
}

proof fn lemma_values_of_update(s: Seq<U256>, i: int, v: U256)
    requires
        0 <= i < s.len(),
    ensures
        values_of(s.update(i, v)) == values_of(s).update(i, v@),
{
    assert(values_of(s.update(i, v)) =~= values_of(s).update(i, v@));
}

/// The antifee is at least `1e18`.
pub(crate) proof fn lemma_antifee_of(fee: nat)
    ensures
        antifee_of(fee) >= wad_spec(),
{
    lemma_wrap_u((wad_spec() * wad_spec()) as int);
    let capped: nat = if fee < (wad_spec() - 1) as nat {
        fee
    } else {
        (wad_spec() - 1) as nat
    };
    assert(mul_w(wad_spec(), wad_spec()) / ((wad_spec() - capped) as nat) >= wad_spec())
        by (nonlinear_arith)
        requires
            mul_w(wad_spec(), wad_spec()) == wad_spec() * wad_spec(),
            1 <= wad_spec() - capped <= wad_spec(),
    ;
}

/// `1e36 / (1e18 - fee)`, with the fee capped at `1e18 - 1`; at least `1e18`.
fn antifee(fee: U256) -> (r: U256)
    ensures
        r@ == antifee_of(fee@),
        r@ >= wad_spec(),
{
    let w = wad();
    let one = U256::from_u64(1);
    let wm1 = w.sub(one);
    proof {
        lemma_wrap_u(wad_spec() - 1);
        lemma_wrap_u((wad_spec() * wad_spec()) as int);
    }
    let capped = if fee.lt(&wm1) {
        fee
    } else {
        wm1
    };
    proof {
        lemma_wrap_u(wad_spec() - capped@);
        assert(mul_w(wad_spec(), wad_spec()) / ((wad_spec() - capped@) as nat) >= wad_spec())
            by (nonlinear_arith)
            requires
                mul_w(wad_spec(), wad_spec()) == wad_spec() * wad_spec(),
                1 <= wad_spec() - capped@ <= wad_spec(),
        ;
    }
    w.mul(w).div(w.sub(capped))
}

/// The amount a band holds in a per-band map (zero when absent).
fn band_amount_of(m: &HashMap<i64, U256>, n: i64) -> (r: U256)
    ensures
        r@ == band_amount(m@, n as int),
{
    match m.get(&n) {
        Some(v) => *v,
        None => U256::zero(),
    }
}

/// Computes the current band's quantities and records its tick.
fn band_calc(
    s: &SwapState,
    pump: bool,
    fee: U256,
    static_af: Option<U256>,
    c: &mut SwapCursor,
    Ghost(i): Ghost<nat>,
) -> (r: Result<BandQuantities, PoolError>)
    requires
        fee@ == swap_fee(s@),
        s.static_antifee <==> static_af is Some,
        static_af matches Some(v) ==> v@ == antifee_of(fee@),
        band_calc_spec(s@, pump, old(c)@) is Some,
        loop_wf(old(c)@, i),
        i < max_iter(),
    ensures
        match band_calc_spec(s@, pump, old(c)@).unwrap() {
            Err(e) => r == Err::<BandQuantities, PoolError>(e),
            Ok(b) => r matches Ok(q) && q.f@ == b.f && q.g@ == b.g && q.inv@ == b.inv
                && q.antifee@ == b.antifee && q.p_ratio@ == b.p_ratio && final(c)@ == (SwapLoop {
                j: b.j,
                n1: b.n1,
                ticks: b.ticks,
                ..old(c)@
            }),
        },
{
    let ghost st = c@;
    let w = wad();
    let liquid = !c.x.is_zero() || !c.y.is_zero();
    let mut f = U256::zero();
    let mut g = U256::zero();
    let mut inv = U256::zero();
    let mut dynamic_fee = fee;
    if liquid {
        if c.j == MAX_TICKS_UINT {
            c.n1 = c.n2;
            c.j = 0;
        }
        let y0 = match get_y0(c.x, c.y, s.p_oracle, c.p_o_up, s.a, s.a_minus_1) {
            Some(v) => v,
            None => {
                return Err(PoolError::MathError);
            },
        };
        f = s.a.mul(y0).mul(s.p_oracle).div(c.p_o_up).mul(s.p_oracle).div(w);
        g = s.a_minus_1.mul(y0).mul(c.p_o_up).div(s.p_oracle);
        inv = f.add(c.x).mul(g.add(c.y));
        if !s.static_antifee {
            let df = get_dynamic_fee(s.p_oracle, c.p_o_up, s.a, s.a_minus_1);
            dynamic_fee = if fee.lt(&df) {
                df
            } else {
                fee
            };
        }
    }
    let af = match static_af {
        Some(v) => v,
        None => antifee(dynamic_fee),
    };
    if c.j != MAX_TICKS_UINT {
        let tick = if pump {
            c.x
        } else {
            c.y
        };
        proof {
            lemma_values_of_push(c.ticks@, tick);
        }
        c.ticks.push(tick);
    }
    let p_ratio = c.p_o_up.mul(w).div(s.p_oracle);
    Ok(BandQuantities { f, g, inv, antifee: af, p_ratio })
}

/// The trade within the current band; `true` when the input is used up here.
fn trade(
    pump: bool,
    amount: U256,
    c: &mut SwapCursor,
    q: &BandQuantities,
    Ghost(st0): Ghost<SwapLoop>,
    Ghost(b): Ghost<BandCalc>,
) -> (stopped: bool)
    requires
        old(c)@ == (SwapLoop { j: b.j, n1: b.n1, ticks: b.ticks, ..st0 }),
        q.f@ == b.f,
        q.g@ == b.g,
        q.inv@ == b.inv,
        q.antifee@ == b.antifee,
        b.antifee >= 1,
        is_liquid(st0) ==> b.j < b.ticks.len(),
        trade_spec(pump, amount@, st0, b) !is Undefined,
        b.j <= MAX_TICKS_UINT,
    ensures
        trade_spec(pump, amount@, st0, b) == (if stopped {
            StepOutcome::Stop(final(c)@)
        } else {
            StepOutcome::Continue(final(c)@)
        }),
{
    let w = wad();
    let one = U256::from_u64(1);
    assert(c.ticks@.len() == b.ticks.len());
    if pump {
        if !c.y.is_zero() && !q.g.is_zero() {
            assert(is_liquid(st0));
            let x_dest = q.inv.div(q.g).sub(q.f).sub(c.x);
            let dx = x_dest.mul(q.antifee).div(w);
            if !dx.lt(&c.left) {
                let x_dest2 = c.left.mul(w).div(q.antifee);
                let rem = q.inv.div(q.f.add(c.x.add(x_dest2))).sub(q.g).add(one);
                c.last_tick_j = if rem.lt(&c.y) {
                    rem
                } else {
                    c.y
                };
                c.x = c.x.add(c.left);
                c.out_amount = c.out_amount.add(c.y.sub(c.last_tick_j));
                proof {
                    lemma_values_of_update(c.ticks@, c.j as int, c.x);
                }
                c.ticks.set(c.j as usize, c.x);
                c.in_amount = amount;
                return true;
            } else {
                let dx1 = if one.lt(&dx) {
                    dx
                } else {
                    one
                };
                c.left = c.left.sub(dx1);
                let t = c.x.add(dx1);
                proof {
                    lemma_values_of_update(c.ticks@, c.j as int, t);
                }
                c.ticks.set(c.j as usize, t);
                c.in_amount = c.in_amount.add(dx1);
                c.out_amount = c.out_amount.add(c.y);
            }
        }
        false
    } else {
        if !c.x.is_zero() && !q.f.is_zero() {
            assert(is_liquid(st0));
            let y_dest = q.inv.div(q.f).sub(q.g).sub(c.y);
            let dy = y_dest.mul(q.antifee).div(w);
            if !dy.lt(&c.left) {
                let y_dest2 = c.left.mul(w).div(q.antifee);
                let rem = q.inv.div(q.g.add(c.y.add(y_dest2))).sub(q.f).add(one);
                c.last_tick_j = if rem.lt(&c.x) {
                    rem
                } else {
                    c.x
                };
                c.y = c.y.add(c.left);
                c.out_amount = c.out_amount.add(c.x.sub(c.last_tick_j));
                proof {
                    lemma_values_of_update(c.ticks@, c.j as int, c.y);
                }
                c.ticks.set(c.j as usize, c.y);
                c.in_amount = amount;
                return true;
            } else {
                let dy1 = if one.lt(&dy) {
                    dy
                } else {
                    one
                };
                c.left = c.left.sub(dy1);
                let t = c.y.add(dy1);
                proof {
                    lemma_values_of_update(c.ticks@, c.j as int, t);
                }
                c.ticks.set(c.j as usize, t);
                c.in_amount = c.in_amount.add(dy1);
                c.out_amount = c.out_amount.add(c.x);
            }
        }
        false
    }
}

/// Moves on to the next band; `true` when the traversal stops here.
fn advance(s: &SwapState, pump: bool, c: &mut SwapCursor, p_ratio: U256, i: u64) -> (stop: bool)
    requires
        (i as nat) < max_iter(),
        old(c)@.j <= MAX_TICKS_UINT,
        advance_spec(s@, pump, old(c)@, p_ratio@, i as nat) !is Undefined,
    ensures
        advance_spec(s@, pump, old(c)@, p_ratio@, i as nat) == (if stop {
            StepOutcome::Stop(final(c)@)
        } else {
            StepOutcome::Continue(final(c)@)
        }),
{
    if i != MAX_TICKS_UINT + MAX_SKIP_TICKS_UINT - 1 {
        if pump {
            if c.n2 == s.max_band {
                return true;
            }
            if c.j == MAX_TICKS_UINT - 1 {
                return true;
            }
            let w = wad();
            if p_ratio.lt(&w.mul(w).div(s.max_oracle_dn_pow)) {
                return true;
            }
            c.n2 = c.n2 + 1;
            c.p_o_up = c.p_o_up.mul(s.a_minus_1).div(s.a);
            c.x = U256::zero();
            c.y = band_amount_of(s.bands_y, c.n2);
        } else {
            if c.n2 == s.min_band {
                return true;
            }
            if c.j == MAX_TICKS_UINT - 1 {
                return true;
            }
            if s.max_oracle_dn_pow.lt(&p_ratio) {
                return true;
            }
            c.n2 = c.n2 - 1;
            c.p_o_up = c.p_o_up.mul(s.a).div(s.a_minus_1);
            c.x = band_amount_of(s.bands_x, c.n2);
            c.y = U256::zero();
        }
    }
    if c.j != MAX_TICKS_UINT {
        c.j = c.j + 1;
    }
    false
}

/// Lemma: a band step that continues keeps the band counter and the ticks in
/// agreement.
proof fn lemma_step_wf(p: SwapParams, pump: bool, amount: nat, st: SwapLoop, i: nat)
    requires
        loop_wf(st, i),
        i < max_iter(),
        swap_step_spec(p, pump, amount, st, i) matches StepOutcome::Continue(_),
    ensures
        swap_step_spec(p, pump, amount, st, i) matches StepOutcome::Continue(st2) && loop_wf(
            st2,
            i + 1,
        ),
{
}

/// Calculate the swap output via band traversal.
///
/// `pump` is `true` for buying collateral (borrowed token in, collateral out,
/// moving up through the bands) and `false` for selling collateral.
/// `in_amount` is in internal precision. The result is exactly the outcome of
/// the band-by-band model [`calc_swap_out_spec`]; the error is `MathError`
/// when a band's invariant cannot be computed (zero oracle price).
pub fn calc_swap_out(pump: bool, in_amount: U256, state: &SwapState) -> (r: Result<
    DetailedTrade,
    PoolError,
>)
    requires
        calc_swap_out_spec(pump, in_amount@, state@) is Some,
    ensures
        match calc_swap_out_spec(pump, in_amount@, state@).unwrap() {
            Ok(t) => r matches Ok(d) && d@ == t,
            Err(e) => r == Err::<DetailedTrade, PoolError>(e),
        },
{
    let fee = if state.oracle_fee.lt(&state.fee) {
        state.fee
    } else {
        state.oracle_fee
    };
    let static_af = if state.static_antifee {
        Some(antifee(fee))
    } else {
        None
    };
    let mut c = SwapCursor {
        j: MAX_TICKS_UINT,
        n1: 0,
        n2: state.active_band,
        p_o_up: state.p_oracle_up_active,
        x: band_amount_of(state.bands_x, state.active_band),
        y: band_amount_of(state.bands_y, state.active_band),
        left: in_amount,
        in_amount: U256::zero(),
        out_amount: U256::zero(),
        ticks: Vec::new(),
        last_tick_j: U256::zero(),
    };
    let ghost p = state@;
    let ghost total = swap_run(p, pump, in_amount@, initial_loop(p, in_amount@), 0);
    assert(values_of(c.ticks@) =~= Seq::<nat>::empty());
    assert(c@ == initial_loop(p, in_amount@));
    let iterations: u64 = MAX_TICKS_UINT + MAX_SKIP_TICKS_UINT;
    let mut i: u64 = 0;
    while i < iterations
        invariant_except_break
            swap_run(p, pump, in_amount@, c@, i as nat) == total,
            loop_wf(c@, i as nat),
        invariant
            p == state@,
            total == swap_run(p, pump, in_amount@, initial_loop(p, in_amount@), 0),
            total !is Undefined,
            fee@ == swap_fee(p),
            state.static_antifee <==> static_af is Some,
            static_af matches Some(v) ==> v@ == antifee_of(fee@),
            iterations == max_iter(),
            i <= iterations,
        ensures
            total == RunOutcome::Done(c@),
        decreases iterations - i,
    {
        let ghost st = c@;
        assert(swap_run(p, pump, in_amount@, st, i as nat) == match swap_step_spec(
            p,
            pump,
            in_amount@,
            st,
            i as nat,
        ) {
            StepOutcome::Continue(st2) => swap_run(p, pump, in_amount@, st2, i as nat + 1),
            StepOutcome::Stop(st2) => RunOutcome::Done(st2),
            StepOutcome::Fail => RunOutcome::Failed,
            StepOutcome::Undefined => RunOutcome::Undefined,
        });
        let q = match band_calc(state, pump, fee, static_af, &mut c, Ghost(i as nat)) {
            Ok(q) => q,
            Err(e) => {
                assert(calc_swap_out_spec(pump, in_amount@, p) == Some(Err::<TradeView, PoolError>(PoolError::MathError)));
                return Err(e);
            },
        };
        let ghost b = band_calc_spec(p, pump, st).unwrap()->Ok_0;
        proof {
            assert(b.antifee >= 1) by {
                let liquid = is_liquid(st);
                let fee_s = swap_fee(p);
                let dyn_fee = if liquid && !p.static_antifee {
                    let df = dynamic_fee_spec(p.p_oracle, st.p_o_up, p.a, p.a_minus_1);
                    if df > fee_s {
                        df
                    } else {
                        fee_s
                    }
                } else {
                    fee_s
                };
                lemma_antifee_of(dyn_fee);
            }
            if is_liquid(st) {
                assert(b.j < b.ticks.len());
            }
        }
        if trade(pump, in_amount, &mut c, &q, Ghost(st), Ghost(b)) {
            break;
        }
        if advance(state, pump, &mut c, q.p_ratio, i) {
            break;
        }
        proof {
            lemma_step_wf(p, pump, in_amount@, st, i as nat);
        }
        i = i + 1;
    }
    let one = U256::from_u64(1);
    let in_prec = state.in_precision;
    let out_prec = state.out_precision;
    let in_rounded = c.in_amount.add(in_prec).sub(one).div(in_prec).mul(in_prec);
    let out_rounded = c.out_amount.div(out_prec).mul(out_prec);
    let res = DetailedTrade {
        in_amount: in_rounded,
        out_amount: out_rounded,
        n1: c.n1,
        n2: c.n2,
        ticks_in: c.ticks,
        last_tick_j: c.last_tick_j,
    };
    Ok(res)
}

/// Input accounting of the traversal: what was consumed plus what is left is
/// the requested amount.
pub open spec fn input_accounted(st: SwapLoop, amount: nat) -> bool {
    st.in_amount + st.left == amount
}

proof fn lemma_step_input(p: SwapParams, pump: bool, amount: nat, st: SwapLoop, i: nat)
    requires
        input_accounted(st, amount),
        amount < modulus(),
    ensures
        match swap_step_spec(p, pump, amount, st, i) {
            StepOutcome::Continue(s2) => input_accounted(s2, amount),
            StepOutcome::Stop(s2) => s2.in_amount <= amount,
            _ => true,
        },
{
    match band_calc_spec(p, pump, st) {
        Some(Ok(b)) => {
            let dxy = if pump {
                mul_w(sub_w(sub_w(b.inv / b.g, b.f), st.x), b.antifee) / wad_spec()
            } else {
                mul_w(sub_w(sub_w(b.inv / b.f, b.g), st.y), b.antifee) / wad_spec()
            };
            let d1: nat = if dxy > 1 {
                dxy
            } else {
                1
            };
            if dxy < st.left {
                lemma_wrap_u(st.left - d1);
                lemma_wrap_u(st.in_amount + d1 as int);
            }
        },
        _ => {},
    }
}

proof fn lemma_run_input(p: SwapParams, pump: bool, amount: nat, st: SwapLoop, i: nat)
    requires
        input_accounted(st, amount),
        amount < modulus(),
    ensures
        swap_run(p, pump, amount, st, i) matches RunOutcome::Done(s2) ==> s2.in_amount <= amount,
    decreases max_iter() - i,
{
    if i < max_iter() {
        lemma_step_input(p, pump, amount, st, i);
        match swap_step_spec(p, pump, amount, st, i) {
            StepOutcome::Continue(s2) => lemma_run_input(p, pump, amount, s2, i + 1),
            _ => {},
        }
    }
}

/// Rounding a consumed amount up to the precision (with the wrapping
/// arithmetic used) never exceeds an offered amount that is a multiple of it.
proof fn lemma_round_up_within(c: int, q: int, am: int)
    requires
        0 <= c <= am < modulus(),
        0 < q < modulus(),
        am % q == 0,
    ensures
        mul_w(sub_w(add_w(c as nat, q as nat), 1) / (q as nat), q as nat) <= am,
{
    let mm = modulus() as int;
    let m = am / q;
    vstd::arithmetic::div_mod::lemma_fundamental_div_mod(am, q);
    assert(am == m * q) by (nonlinear_arith)
        requires
            am == q * m + am % q,
            am % q == 0,
    ;
    lemma_wrap_u(c + q);
    if c + q < mm {
        lemma_wrap_u(c + q - 1);
        let k = (c + q - 1) / q;
        assert(c + q - 1 < (m + 1) * q) by (nonlinear_arith)
            requires
                c <= am,
                am == m * q,
        ;
        vstd::arithmetic::div_mod::lemma_div_by_multiple_is_strongly_ordered(
            c + q - 1,
            (m + 1) * q,
            m + 1,
            q,
        );
        vstd::arithmetic::div_mod::lemma_div_by_multiple(m + 1, q);
        assert(k * q <= m * q) by (nonlinear_arith)
            requires
                k <= m,
                q > 0,
        ;
        vstd::arithmetic::div_mod::lemma_div_pos_is_pos(c + q - 1, q);
        lemma_wrap_u(k * q);
        assert(add_w(c as nat, q as nat) == c + q);
        assert(sub_w(add_w(c as nat, q as nat), 1) == c + q - 1);
        assert(sub_w(add_w(c as nat, q as nat), 1) / (q as nat) == k);
        assert(mul_w(k as nat, q as nat) == k * q);
    } else if c + q == mm {
        lemma_wrap_u(-1);
        let k = (mm - 1) / q;
        vstd::arithmetic::div_mod::lemma_fundamental_div_mod(mm - 1, q);
        vstd::arithmetic::div_mod::lemma_mod_bound(mm - 1, q);
        vstd::arithmetic::div_mod::lemma_div_pos_is_pos(mm - 1, q);
        assert(k * q <= mm - 1) by (nonlinear_arith)
            requires
                mm - 1 == q * k + (mm - 1) % q,
                (mm - 1) % q >= 0,
        ;
        assert(k <= m) by (nonlinear_arith)
            requires
                k * q <= mm - 1,
                mm == c + q,
                c <= am,
                am == m * q,
                q > 0,
        ;
        assert(k * q <= m * q) by (nonlinear_arith)
            requires
                k <= m,
                q > 0,
        ;
        lemma_wrap_u(k * q);
        assert(add_w(c as nat, q as nat) == 0);
        assert(sub_w(add_w(c as nat, q as nat), 1) == mm - 1);
        assert(sub_w(add_w(c as nat, q as nat), 1) / (q as nat) == k);
        assert(mul_w(k as nat, q as nat) == k * q);
    } else {
        lemma_wrap_u(c + q - mm - 1);
        vstd::arithmetic::div_mod::lemma_basic_div(c + q - mm - 1, q);
        lemma_wrap_u(0);
        assert(add_w(c as nat, q as nat) == c + q - mm);
        assert(sub_w(add_w(c as nat, q as nat), 1) == c + q - mm - 1);
        assert(sub_w(add_w(c as nat, q as nat), 1) / (q as nat) == 0);
        assert(mul_w(0, q as nat) == 0);
    }
}

/// A swap never consumes more input than was offered: when the offered
/// amount is a multiple of the input precision (as the pool's scaled amounts
/// are), the consumed amount, rounded up to that precision, is at most the
/// offered amount.
pub proof fn lemma_swap_consumes_at_most_input(pump: bool, amount: nat, p: SwapParams)
    requires
        p.in_precision > 0,
        p.in_precision < modulus(),
        amount % p.in_precision == 0,
        amount < modulus(),
    ensures
        calc_swap_out_spec(pump, amount, p) matches Some(Ok(t)) ==> t.in_amount <= amount,
{
    let init = initial_loop(p, amount);
    lemma_run_input(p, pump, amount, init, 0);
    match swap_run(p, pump, amount, init, 0) {
        RunOutcome::Done(st) => {
            lemma_round_up_within(st.in_amount as int, p.in_precision as int, amount as int);
        },
        _ => {},
    }
}

/// Total amount held in the bands `lo..hi` of a per-band map.
pub open spec fn band_sum(m: Map<i64, U256>, lo: int, hi: int) -> nat
    decreases hi - lo,
{
    if hi <= lo {
        0
    } else {
        band_sum(m, lo, hi - 1) + band_amount(m, hi - 1)
    }
}

/// The amount held in all bands of a per-band map.
pub open spec fn total_liquidity(m: Map<i64, U256>) -> nat {
    band_sum(m, i64::MIN as int, i64::MAX + 1)
}

/// A sum over a range is at most the sum over any range containing it.
pub proof fn lemma_band_sum_mono(m: Map<i64, U256>, lo: int, hi: int, lo2: int, hi2: int)
    requires
        lo2 <= lo <= hi <= hi2,
    ensures
        band_sum(m, lo, hi) <= band_sum(m, lo2, hi2),
    decreases hi2 - hi, lo - lo2,
{
    if hi < hi2 {
        lemma_band_sum_mono(m, lo, hi, lo2, hi2 - 1);
    } else if lo2 < lo {
        lemma_band_sum_mono(m, lo, hi, lo2 + 1, hi2);
        if lo2 < hi2 {
            lemma_band_sum_low(m, lo2, hi2);
        }
    }
}

pub(crate) proof fn lemma_band_sum_low(m: Map<i64, U256>, lo: int, hi: int)
    requires
        lo < hi,
    ensures
        band_sum(m, lo, hi) == band_amount(m, lo) + band_sum(m, lo + 1, hi),
    decreases hi - lo,
{
    if lo + 1 < hi {
        lemma_band_sum_low(m, lo, hi - 1);
        assert(band_sum(m, lo + 1, hi) == band_sum(m, lo + 1, hi - 1) + band_amount(m, hi - 1));
    } else {
        assert(band_sum(m, lo, lo) == 0);
        assert(band_sum(m, lo + 1, hi) == 0);
    }
}

/// The output accumulated so far is covered by the liquidity of the bands
/// already passed (up to the current band `n2`, which is included once the
/// loop has ended).
pub open spec fn output_covered(p: SwapParams, pump: bool, st: SwapLoop, i: nat) -> bool {
    &&& i64::MIN <= st.n2 <= i64::MAX
    &&& if pump {
        &&& st.n2 >= p.active_band
        &&& i < max_iter() ==> st.out_amount <= band_sum(p.bands_y, p.active_band, st.n2) && st.y
            == band_amount(p.bands_y, st.n2)
        &&& i >= max_iter() ==> st.out_amount <= band_sum(p.bands_y, p.active_band, st.n2 + 1)
    } else {
        &&& st.n2 <= p.active_band
        &&& i < max_iter() ==> st.out_amount <= band_sum(p.bands_x, st.n2 + 1, p.active_band + 1)
            && st.x == band_amount(p.bands_x, st.n2)
        &&& i >= max_iter() ==> st.out_amount <= band_sum(p.bands_x, st.n2, p.active_band + 1)
    }
}

/// The liquidity bound on the output of a finished traversal.
pub open spec fn output_bound(p: SwapParams, pump: bool, st: SwapLoop) -> nat {
    if pump {
        band_sum(p.bands_y, p.active_band, st.n2 + 1)
    } else {
        band_sum(p.bands_x, st.n2, p.active_band + 1)
    }
}

pub(crate) proof fn lemma_step_output(p: SwapParams, pump: bool, amount: nat, st: SwapLoop, i: nat)
    requires
        output_covered(p, pump, st, i),
        i < max_iter(),
        st.out_amount < modulus(),
    ensures
        match swap_step_spec(p, pump, amount, st, i) {
            StepOutcome::Continue(s2) => output_covered(p, pump, s2, i + 1) && s2.out_amount
                < modulus(),
            StepOutcome::Stop(s2) => s2.out_amount <= output_bound(p, pump, s2) && s2.n2 == st.n2
                && (st.last_tick_j == 0 ==> s2.out_amount + s2.last_tick_j <= output_bound(
                p,
                pump,
                s2,
            )),
            _ => true,
        },
{
    if !pump {
        lemma_band_sum_low(p.bands_x, st.n2, p.active_band + 1);
    }
    match band_calc_spec(p, pump, st) {
        Some(Ok(b)) => {
            let u = if pump {
                st.y
            } else {
                st.x
            };
            let x_dest = if pump {
                mul_w(st.left, wad_spec()) / b.antifee
            } else {
                mul_w(st.left, wad_spec()) / b.antifee
            };
            let rem = if pump {
                add_w(sub_w(b.inv / add_w(b.f, add_w(st.x, x_dest)), b.g), 1)
            } else {
                add_w(sub_w(b.inv / add_w(b.g, add_w(st.y, x_dest)), b.f), 1)
            };
            let last: nat = if rem < u {
                rem
            } else {
                u
            };
            lemma_wrap_u(u - last);
            lemma_wrap_u(st.out_amount + (u - last));
            lemma_wrap_u(st.out_amount + u as int);
            match trade_spec(pump, amount, st, b) {
                StepOutcome::Continue(st1) => {
                    if pump {
                        if st1.n2 + 1 <= i64::MAX {
                            assert(band_sum(p.bands_y, p.active_band, st1.n2 + 1) == band_sum(
                                p.bands_y,
                                p.active_band,
                                st1.n2,
                            ) + band_amount(p.bands_y, st1.n2));
                        }
                    }
                },
                _ => {},
            }
        },
        _ => {},
    }
}

proof fn lemma_run_output(p: SwapParams, pump: bool, amount: nat, st: SwapLoop, i: nat)
    requires
        output_covered(p, pump, st, i),
        st.out_amount < modulus(),
        st.last_tick_j == 0,
    ensures
        swap_run(p, pump, amount, st, i) matches RunOutcome::Done(s2) ==> s2.out_amount
            + s2.last_tick_j <= output_bound(p, pump, s2) && i64::MIN <= s2.n2 <= i64::MAX && (if pump {
            s2.n2 >= p.active_band
        } else {
            s2.n2 <= p.active_band
        }),
    decreases max_iter() - i,
{
    if i < max_iter() {
        lemma_step_output(p, pump, amount, st, i);
        lemma_step_last(p, pump, amount, st, i);
        match swap_step_spec(p, pump, amount, st, i) {
            StepOutcome::Continue(s2) => lemma_run_output(p, pump, amount, s2, i + 1),
            _ => {},
        }
    }
}

/// A swap never pays out more than the bands it passes through hold: buying
/// collateral, the output is at most the collateral of bands
/// `active_band..=n2`; selling collateral, at most the borrowed tokens of
/// bands `n2..=active_band`. What is paid out together with what is left in
/// the last band (`last_tick_j`) is still within that liquidity: a partial
/// fill pays out of its band at most the band's holding less what stays.
pub proof fn lemma_swap_output_bounded_by_liquidity(pump: bool, amount: nat, p: SwapParams)
    requires
        i64::MIN <= p.active_band <= i64::MAX,
    ensures
        calc_swap_out_spec(pump, amount, p) matches Some(Ok(t)) ==> t.out_amount + t.last_tick_j
            <= (if pump {
            band_sum(p.bands_y, p.active_band, t.n2 + 1)
        } else {
            band_sum(p.bands_x, t.n2, p.active_band + 1)
        }),
        calc_swap_out_spec(pump, amount, p) matches Some(Ok(t)) ==> t.out_amount <= (if pump {
            band_sum(p.bands_y, p.active_band, t.n2 + 1)
        } else {
            band_sum(p.bands_x, t.n2, p.active_band + 1)
        }) && i64::MIN <= t.n2 <= i64::MAX && (if pump {
            t.n2 >= p.active_band
        } else {
            t.n2 <= p.active_band
        }),
{
    let init = initial_loop(p, amount);
    lemma_run_output(p, pump, amount, init, 0);
    match swap_run(p, pump, amount, init, 0) {
        RunOutcome::Done(st) => {
            if p.out_precision > 0 {
                let q = p.out_precision as int;
                let o = st.out_amount as int;
                vstd::arithmetic::div_mod::lemma_fundamental_div_mod(o, q);
                vstd::arithmetic::div_mod::lemma_mod_bound(o, q);
                vstd::arithmetic::mul::lemma_mul_is_commutative(o / q, q);
                vstd::arithmetic::div_mod::lemma_div_pos_is_pos(o, q);
                lemma_wrap_u((o / q) * q);
            }
        },
        _ => {},
    }
}

proof fn lemma_run_fail(p: SwapParams, pump: bool, amount: nat, st: SwapLoop, i: nat)
    ensures
        swap_run(p, pump, amount, st, i) is Failed ==> p.p_oracle == 0,
    decreases max_iter() - i,
{
    if i < max_iter() {
        match swap_step_spec(p, pump, amount, st, i) {
            StepOutcome::Continue(s2) => lemma_run_fail(p, pump, amount, s2, i + 1),
            _ => {},
        }
    }
}

/// A swap fails (with `MathError`) only when the oracle price is zero.
pub proof fn lemma_swap_error_needs_zero_oracle(pump: bool, amount: nat, p: SwapParams)
    ensures
        calc_swap_out_spec(pump, amount, p) matches Some(Err(e)) ==> e == PoolError::MathError
            && p.p_oracle == 0,
{
    lemma_run_fail(p, pump, amount, initial_loop(p, amount), 0);
}

/// What a finished traversal records of its last band: a partial fill uses
/// the whole input, and the output token left in that band is at most what
/// the band held.
pub open spec fn last_band_recorded(p: SwapParams, pump: bool, amount: nat, st: SwapLoop) -> bool {
    st.last_tick_j > 0 ==> st.in_amount == amount && st.last_tick_j <= (if pump {
        band_amount(p.bands_y, st.n2)
    } else {
        band_amount(p.bands_x, st.n2)
    })
}

proof fn lemma_step_last(p: SwapParams, pump: bool, amount: nat, st: SwapLoop, i: nat)
    requires
        st.last_tick_j == 0,
        output_covered(p, pump, st, i),
        i < max_iter(),
        st.out_amount < modulus(),
    ensures
        match swap_step_spec(p, pump, amount, st, i) {
            StepOutcome::Continue(s2) => s2.last_tick_j == 0,
            StepOutcome::Stop(s2) => last_band_recorded(p, pump, amount, s2) && s2.out_amount
                < modulus(),
            _ => true,
        },
{
    broadcast use crate::uint::lemma_wrap_u_bound;

}

proof fn lemma_run_last(p: SwapParams, pump: bool, amount: nat, st: SwapLoop, i: nat)
    requires
        st.last_tick_j == 0,
        output_covered(p, pump, st, i),
        st.out_amount < modulus(),
    ensures
        swap_run(p, pump, amount, st, i) matches RunOutcome::Done(s2) ==> last_band_recorded(
            p,
            pump,
            amount,
            s2,
        ) && s2.out_amount < modulus(),
    decreases max_iter() - i,
{
    if i < max_iter() {
        lemma_step_last(p, pump, amount, st, i);
        lemma_step_output(p, pump, amount, st, i);
        match swap_step_spec(p, pump, amount, st, i) {
            StepOutcome::Continue(s2) => lemma_run_last(p, pump, amount, s2, i + 1),
            _ => {},
        }
    }
}

/// A multiple of the precision survives the rounding up unchanged.
proof fn lemma_round_up_exact(am: int, q: int)
    requires
        0 <= am,
        0 < q,
        am + q <= modulus(),
        am % q == 0,
    ensures
        mul_w(sub_w(add_w(am as nat, q as nat), 1) / (q as nat), q as nat) == am,
{
    let mm = modulus() as int;
    let m = am / q;
    vstd::arithmetic::div_mod::lemma_fundamental_div_mod(am, q);
    assert(am == m * q) by (nonlinear_arith)
        requires
            am == q * m + am % q,
            am % q == 0,
    ;
    lemma_wrap_u(am + q);
    lemma_wrap_u(-1);
    lemma_wrap_u(am + q - 1);
    assert(sub_w(add_w(am as nat, q as nat), 1) == am + q - 1);
    vstd::arithmetic::div_mod::lemma_fundamental_div_mod_converse(am + q - 1, q, m, q - 1);
    lemma_wrap_u(m * q);
}

/// Rounding to a multiple of the precision with the wrapping arithmetic
/// used gives a multiple of the precision.
proof fn lemma_rounded_multiple(v: int, q: int)
    requires
        0 <= v < modulus(),
        0 < q,
    ensures
        mul_w((v / q) as nat, q as nat) % (q as nat) == 0,
        mul_w((v / q) as nat, q as nat) <= v,
{
    vstd::arithmetic::div_mod::lemma_fundamental_div_mod(v, q);
    vstd::arithmetic::div_mod::lemma_mod_bound(v, q);
    vstd::arithmetic::div_mod::lemma_div_pos_is_pos(v, q);
    vstd::arithmetic::mul::lemma_mul_is_commutative(v / q, q);
    lemma_wrap_u((v / q) * q);
    vstd::arithmetic::div_mod::lemma_mod_multiples_basic(v / q, q);
}

/// The consumed input is rounded up and the output rounded down to whole
/// multiples of the tokens' precisions; when the swap ends inside a band
/// (a partial fill, `last_tick_j > 0`), the output token left there is at
/// most what the band held, and the whole offered input is consumed (for an
/// offered amount that is a multiple of the input precision and leaves room
/// for the rounding below 2^256).
pub proof fn lemma_swap_rounding(pump: bool, amount: nat, p: SwapParams)
    requires
        0 < p.in_precision < modulus(),
        0 < p.out_precision < modulus(),
        amount < modulus(),
        i64::MIN <= p.active_band <= i64::MAX,
    ensures
        calc_swap_out_spec(pump, amount, p) matches Some(Ok(t)) ==> {
            &&& t.in_amount % p.in_precision == 0
            &&& t.out_amount % p.out_precision == 0
            &&& t.last_tick_j > 0 ==> t.last_tick_j <= (if pump {
                band_amount(p.bands_y, t.n2)
            } else {
                band_amount(p.bands_x, t.n2)
            })
            &&& t.last_tick_j > 0 && amount % p.in_precision == 0 && amount + p.in_precision
                <= modulus() ==> t.in_amount == amount
        },
{
    let init = initial_loop(p, amount);
    lemma_run_last(p, pump, amount, init, 0);
    match swap_run(p, pump, amount, init, 0) {
        RunOutcome::Done(st) => {
            let q = p.in_precision as int;
            let v = sub_w(add_w(st.in_amount, p.in_precision), 1);
            lemma_wrap_u(add_w(st.in_amount, p.in_precision) - 1);
            lemma_rounded_multiple(v as int, q);
            lemma_rounded_multiple(st.out_amount as int, p.out_precision as int);
            if st.last_tick_j > 0 && amount % p.in_precision == 0 && amount + p.in_precision
                <= modulus() {
                lemma_round_up_exact(amount as int, q);
            }
        },
        _ => {},
    }
}

proof fn lemma_run_congruent(p1: SwapParams, p2: SwapParams, pump: bool, amount: nat, st: SwapLoop, i: nat)
    requires
        forall|s: SwapLoop, k: nat|
            #[trigger] swap_step_spec(p1, pump, amount, s, k) == swap_step_spec(
                p2,
                pump,
                amount,
                s,
                k,
            ),
    ensures
        swap_run(p1, pump, amount, st, i) == swap_run(p2, pump, amount, st, i),
    decreases max_iter() - i,
{
    if i < max_iter() {
        match swap_step_spec(p1, pump, amount, st, i) {
            StepOutcome::Continue(s2) => lemma_run_congruent(p1, p2, pump, amount, s2, i + 1),
            _ => {},
        }
    }
}

/// The pool state with the other token's per-band amounts replaced.
pub open spec fn with_other_side(p: SwapParams, pump: bool, m: Map<i64, U256>) -> SwapParams {
    if pump {
        SwapParams { bands_x: m, ..p }
    } else {
        SwapParams { bands_y: m, ..p }
    }
}

/// Buying collateral reads the borrowed-token amount of the active band only,
/// and selling collateral reads the collateral amount of the active band only:
/// replacing the other token's amounts in all other bands changes nothing.
pub proof fn lemma_swap_ignores_other_side(pump: bool, amount: nat, p: SwapParams, m: Map<i64, U256>)
    requires
        pump ==> band_amount(m, p.active_band) == band_amount(p.bands_x, p.active_band),
        !pump ==> band_amount(m, p.active_band) == band_amount(p.bands_y, p.active_band),
    ensures
        calc_swap_out_spec(pump, amount, p) == calc_swap_out_spec(
            pump,
            amount,
            with_other_side(p, pump, m),
        ),
{
    let p2 = with_other_side(p, pump, m);
    assert forall|s: SwapLoop, k: nat|
        #[trigger] swap_step_spec(p, pump, amount, s, k) == swap_step_spec(
            p2,
            pump,
            amount,
            s,
            k,
        ) by {
        assert(band_calc_spec(p, pump, s) == band_calc_spec(p2, pump, s));
    }
    lemma_run_congruent(p, p2, pump, amount, initial_loop(p, amount), 0);
    assert(initial_loop(p, amount) == initial_loop(p2, amount));
}

proof fn lemma_band_sum_zero(m: Map<i64, U256>, lo: int, hi: int)
    requires
        forall|n: int| band_amount(m, n) == 0,
    ensures
        band_sum(m, lo, hi) == 0,
    decreases hi - lo,
{
    if lo < hi {
        lemma_band_sum_zero(m, lo, hi - 1);
        assert(band_amount(m, hi - 1) == 0);
    }
}

/// With no liquidity in the output token, a swap pays out nothing.
pub proof fn lemma_swap_no_liquidity(pump: bool, amount: nat, p: SwapParams)
    requires
        i64::MIN <= p.active_band <= i64::MAX,
        pump ==> forall|n: int| band_amount(p.bands_y, n) == 0,
        !pump ==> forall|n: int| band_amount(p.bands_x, n) == 0,
    ensures
        calc_swap_out_spec(pump, amount, p) matches Some(Ok(t)) ==> t.out_amount == 0,
{
    lemma_swap_output_bounded_by_liquidity(pump, amount, p);
    match calc_swap_out_spec(pump, amount, p) {
        Some(Ok(t)) => {
            if pump {
                lemma_band_sum_zero(p.bands_y, p.active_band, t.n2 + 1);
            } else {
                lemma_band_sum_zero(p.bands_x, t.n2, p.active_band + 1);
            }
        },
        _ => {},
    }
}

/// The effective fee is the larger of the static and the oracle fee: folding
/// the oracle fee into the static fee changes nothing.
pub proof fn lemma_swap_fee_is_max(pump: bool, amount: nat, p: SwapParams)
    ensures
        calc_swap_out_spec(pump, amount, p) == calc_swap_out_spec(
            pump,
            amount,
            SwapParams { fee: swap_fee(p), oracle_fee: 0, ..p },
        ),
{
    let p2 = SwapParams { fee: swap_fee(p), oracle_fee: 0, ..p };
    assert(swap_fee(p2) == swap_fee(p));
    assert forall|s: SwapLoop, k: nat|
        #[trigger] swap_step_spec(p, pump, amount, s, k) == swap_step_spec(
            p2,
            pump,
            amount,
            s,
            k,
        ) by {
        assert(band_calc_spec(p, pump, s) == band_calc_spec(p2, pump, s));
    }
    lemma_run_congruent(p, p2, pump, amount, initial_loop(p, amount), 0);
    assert(initial_loop(p, amount) == initial_loop(p2, amount));
}

/// At every band with liquidity that the traversal of `amount` passes from
/// iteration `i` on, the dynamic fee for that band's upper price is at most the
/// effective fee.
pub open spec fn dyn_fee_within_fee(p: SwapParams, pump: bool, amount: nat, st: SwapLoop, i: nat) -> bool
    decreases max_iter() - i,
{
    if i >= max_iter() {
        true
    } else {
        &&& is_liquid(st) ==> dynamic_fee_spec(p.p_oracle, st.p_o_up, p.a, p.a_minus_1) <= swap_fee(
            p,
        )
        &&& match swap_step_spec(p, pump, amount, st, i) {
            StepOutcome::Continue(s2) => dyn_fee_within_fee(p, pump, amount, s2, i + 1),
            _ => true,
        }
    }
}

proof fn lemma_run_static_antifee(p: SwapParams, pump: bool, amount: nat, st: SwapLoop, i: nat)
    requires
        p.a_minus_1 > 0,
        dyn_fee_within_fee(p, pump, amount, st, i),
    ensures
        swap_run(p, pump, amount, st, i) == swap_run(
            SwapParams { static_antifee: !p.static_antifee, ..p },
            pump,
            amount,
            st,
            i,
        ),
    decreases max_iter() - i,
{
    let p2 = SwapParams { static_antifee: !p.static_antifee, ..p };
    if i < max_iter() {
        assert(band_calc_spec(p, pump, st) == band_calc_spec(p2, pump, st));
        assert(swap_step_spec(p, pump, amount, st, i) == swap_step_spec(p2, pump, amount, st, i));
        match swap_step_spec(p, pump, amount, st, i) {
            StepOutcome::Continue(s2) => lemma_run_static_antifee(p, pump, amount, s2, i + 1),
            _ => {},
        }
    }
}

/// Static and per-band antifee agree when, at every band with liquidity that
/// the swap visits, the dynamic fee for that band's upper price does not exceed
/// the effective fee.
pub proof fn lemma_static_antifee_agrees(pump: bool, amount: nat, p: SwapParams)
    requires
        p.a_minus_1 > 0,
        dyn_fee_within_fee(p, pump, amount, initial_loop(p, amount), 0),
    ensures
        calc_swap_out_spec(pump, amount, p) == calc_swap_out_spec(
            pump,
            amount,
            SwapParams { static_antifee: !p.static_antifee, ..p },
        ),
{
    let p2 = SwapParams { static_antifee: !p.static_antifee, ..p };
    lemma_run_static_antifee(p, pump, amount, initial_loop(p, amount), 0);
    assert(initial_loop(p, amount) == initial_loop(p2, amount));
}

/// Bands moved from the first band with liquidity, in the swap direction.
pub open spec fn band_distance(pump: bool, st: SwapLoop) -> int {
    if pump {
        st.n2 - st.n1
    } else {
        st.n1 - st.n2
    }
}

/// The band lies between the active band and the last band with liquidity in
/// the swap direction.
pub open spec fn band_in_reach(p: SwapParams, pump: bool, n: int) -> bool {
    if pump {
        p.active_band <= n <= p.max_band
    } else {
        p.min_band <= n <= p.active_band
    }
}

/// Whether band `n` holds liquidity that a swap in direction `pump` trades
/// against: either token in the active band, the output token beyond it.
pub open spec fn band_liquid(p: SwapParams, pump: bool, n: int) -> bool {
    if n == p.active_band {
        band_amount(p.bands_x, n) > 0 || band_amount(p.bands_y, n) > 0
    } else if pump {
        band_amount(p.bands_y, n) > 0
    } else {
        band_amount(p.bands_x, n) > 0
    }
}

/// No band from the active band up to, not including, band `n` in the swap
/// direction holds liquidity.
pub open spec fn none_liquid_before(p: SwapParams, pump: bool, n: int) -> bool {
    forall|k: int|
        (if pump {
            p.active_band <= k < n
        } else {
            n < k <= p.active_band
        }) ==> !#[trigger] band_liquid(p, pump, k)
}

/// Band `n` is the first band with liquidity from the active band on, in the
/// swap direction.
pub open spec fn first_liquid(p: SwapParams, pump: bool, n: int) -> bool {
    &&& if pump {
        p.active_band <= n
    } else {
        n <= p.active_band
    }
    &&& band_liquid(p, pump, n)
    &&& none_liquid_before(p, pump, n)
}

/// The shape of the traversal state at the start of a band.
pub open spec fn shape_at_band(p: SwapParams, pump: bool, st: SwapLoop) -> bool {
    &&& band_in_reach(p, pump, st.n2)
    &&& st.j <= MAX_TICKS_UINT
    &&& is_liquid(st) == band_liquid(p, pump, st.n2)
    &&& st.ticks.len() == 0 ==> st.j == MAX_TICKS_UINT && st.out_amount == 0 && st.in_amount == 0
        && none_liquid_before(p, pump, st.n2)
    &&& st.ticks.len() > 0 ==> st.j < MAX_TICKS_UINT && st.ticks.len() == st.j && band_distance(
        pump,
        st,
    ) == st.j && first_liquid(p, pump, st.n1)
}

/// The shape of a finished traversal: one tick per band from the first band
/// with liquidity to the last band reached, at most 50; no ticks means no
/// trade.
pub open spec fn shape_done(p: SwapParams, pump: bool, st: SwapLoop) -> bool {
    &&& band_in_reach(p, pump, st.n2)
    &&& st.ticks.len() == 0 ==> st.out_amount == 0 && st.in_amount == 0
    &&& st.ticks.len() > 0 ==> st.ticks.len() == band_distance(pump, st) + 1 && st.ticks.len()
        <= MAX_TICKS_UINT && first_liquid(p, pump, st.n1)
}

proof fn lemma_step_shape(p: SwapParams, pump: bool, amount: nat, st: SwapLoop, i: nat)
    requires
        shape_at_band(p, pump, st),
        i < max_iter(),
    ensures
        match swap_step_spec(p, pump, amount, st, i) {
            StepOutcome::Continue(s2) => (i + 1 < max_iter() ==> shape_at_band(p, pump, s2)) && (i
                + 1 >= max_iter() ==> shape_done(p, pump, s2)),
            StepOutcome::Stop(s2) => shape_done(p, pump, s2),
            _ => true,
        },
{
    if pump {
        if st.n2 + 1 <= p.max_band {
            assert forall|k: int| p.active_band <= k < st.n2 + 1 && !is_liquid(st) && st.ticks.len()
                == 0 implies !#[trigger] band_liquid(p, pump, k) by {
                if k < st.n2 {
                    assert(p.active_band <= k < st.n2);
                }
            }
        }
    } else {
        if p.min_band <= st.n2 - 1 {
            assert forall|k: int| st.n2 - 1 < k <= p.active_band && !is_liquid(st) && st.ticks.len()
                == 0 implies !#[trigger] band_liquid(p, pump, k) by {
                if k > st.n2 {
                    assert(st.n2 < k <= p.active_band);
                }
            }
        }
    }
}

proof fn lemma_run_shape(p: SwapParams, pump: bool, amount: nat, st: SwapLoop, i: nat)
    requires
        i < max_iter() ==> shape_at_band(p, pump, st),
        i >= max_iter() ==> shape_done(p, pump, st),
    ensures
        swap_run(p, pump, amount, st, i) matches RunOutcome::Done(s2) ==> shape_done(p, pump, s2),
    decreases max_iter() - i,
{
    if i < max_iter() {
        lemma_step_shape(p, pump, amount, st, i);
        match swap_step_spec(p, pump, amount, st, i) {
            StepOutcome::Continue(s2) => lemma_run_shape(p, pump, amount, s2, i + 1),
            _ => {},
        }
    }
}

/// The structure of a trade: the last band reached lies between the active
/// band and the last band with liquidity in the swap direction; a trade that
/// touched no band with liquidity (no ticks) moves nothing; otherwise there is
/// one tick per band from the first band with liquidity `n1` to the last band
/// reached `n2`, at most 50, with `n1 <= n2` when buying collateral and
/// `n2 <= n1` when selling it; `n1` is the first band from the active band on,
/// in the swap direction, that holds liquidity.
pub proof fn lemma_swap_structure(pump: bool, amount: nat, p: SwapParams)
    requires
        p.min_band <= p.active_band <= p.max_band,
        0 < p.in_precision < modulus(),
    ensures
        calc_swap_out_spec(pump, amount, p) matches Some(Ok(t)) ==> {
            &&& band_in_reach(p, pump, t.n2)
            &&& t.ticks_in.len() == 0 ==> t.out_amount == 0 && t.in_amount == 0
            &&& t.ticks_in.len() > 0 ==> {
                &&& t.ticks_in.len() == (if pump {
                    t.n2 - t.n1
                } else {
                    t.n1 - t.n2
                }) + 1
                &&& t.ticks_in.len() <= MAX_TICKS_UINT
                &&& first_liquid(p, pump, t.n1)
            }
        },
{
    let init = initial_loop(p, amount);
    lemma_run_shape(p, pump, amount, init, 0);
    match swap_run(p, pump, amount, init, 0) {
        RunOutcome::Done(st) => {
            if st.ticks.len() == 0 {
                let q = p.in_precision as int;
                lemma_wrap_u(q);
                lemma_wrap_u(q - 1);
                vstd::arithmetic::div_mod::lemma_basic_div(q - 1, q);
                lemma_wrap_u(0);
                if p.out_precision > 0 {
                    vstd::arithmetic::div_mod::lemma_basic_div(0, p.out_precision as int);
                }
                assert(add_w(0, p.in_precision) == q);
                assert(sub_w(add_w(0, p.in_precision), 1) == q - 1);
                assert(mul_w(0, p.in_precision) == 0);
                assert(mul_w(0, p.out_precision) == 0);
            }
        },
        _ => {},
    }
}

/// Moving to the next band moves its upper price by the band ratio, rounded
/// down: one band up (buying collateral) multiplies it by `(A-1)/A`, one band
/// down (selling collateral) by `A/(A-1)`; staying in a band keeps it. So with
/// `A-1 <= A` the upper price falls going up and rises going down.
pub proof fn lemma_band_step_price(p: SwapParams, pump: bool, amount: nat, st: SwapLoop, i: nat)
    requires
        p.a > 0,
        p.a_minus_1 > 0,
        st.p_o_up * p.a < modulus(),
        st.p_o_up * p.a_minus_1 < modulus(),
    ensures
        swap_step_spec(p, pump, amount, st, i) matches StepOutcome::Continue(s2) ==> {
            &&& s2.n2 == st.n2 ==> s2.p_o_up == st.p_o_up
            &&& s2.n2 != st.n2 && pump ==> {
                &&& s2.n2 == st.n2 + 1
                &&& s2.p_o_up * p.a <= st.p_o_up * p.a_minus_1 < (s2.p_o_up + 1) * p.a
                &&& p.a_minus_1 <= p.a ==> s2.p_o_up <= st.p_o_up
            }
            &&& s2.n2 != st.n2 && !pump ==> {
                &&& s2.n2 == st.n2 - 1
                &&& s2.p_o_up * p.a_minus_1 <= st.p_o_up * p.a < (s2.p_o_up + 1) * p.a_minus_1
                &&& p.a_minus_1 <= p.a ==> s2.p_o_up >= st.p_o_up
            }
        },
{
    let u = st.p_o_up;
    let a = p.a;
    let am = p.a_minus_1;
    lemma_wrap_u((u * am) as int);
    let down = (u * am) / a;
    vstd::arithmetic::div_mod::lemma_fundamental_div_mod((u * am) as int, a as int);
    vstd::arithmetic::div_mod::lemma_mod_bound((u * am) as int, a as int);
    if am <= a {
        assert(down <= u) by (nonlinear_arith)
            requires
                down * a <= u * am,
                am <= a,
                a > 0,
        ;
    }
    lemma_wrap_u((u * a) as int);
    let up = (u * a) / am;
    vstd::arithmetic::div_mod::lemma_fundamental_div_mod((u * a) as int, am as int);
    vstd::arithmetic::div_mod::lemma_mod_bound((u * a) as int, am as int);
    assert(down * a <= u * am < (down + 1) * a) by (nonlinear_arith)
        requires
            u * am == a * down + (u * am) % a,
            0 <= (u * am) % a < a,
    ;
    assert(up * am <= u * a < (up + 1) * am) by (nonlinear_arith)
        requires
            u * a == am * up + (u * a) % am,
            0 <= (u * a) % am < am,
    ;
    match band_calc_spec(p, pump, st) {
        Some(Ok(b)) => {
            match trade_spec(pump, amount, st, b) {
                StepOutcome::Continue(st1) => {
                    assert(st1.p_o_up == st.p_o_up && st1.n2 == st.n2);
                },
                _ => {},
            }
        },
        _ => {},
    }
    if am <= a {
        assert(up >= u) by (nonlinear_arith)
            requires
                u * a < up * am + am,
                am <= a,
                am > 0,
        ;
    }
}

} // verus!







