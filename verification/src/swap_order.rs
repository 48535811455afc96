//! Order laws of the swap: more input, or a lower fee, never gives less
//! output.
//!
//! Both laws compare two traversals band by band, and are stated where the
//! band computations stay inside 256 bits: the comparison of two partial
//! fills of a band rests on the band invariant and the input that would empty
//! the band being computed exactly.
use vstd::prelude::*;
use crate::constants::wad_spec;
use crate::core_math::dynamic_fee_spec;
use crate::swap::{
    antifee_of, band_amount, band_calc_spec, is_liquid, band_in_reach, band_sum, calc_swap_out_spec, initial_loop,
    lemma_antifee_of, lemma_band_sum_low, lemma_band_sum_mono, lemma_step_output, max_iter,
    output_bound, output_covered, swap_fee, swap_run, swap_step_spec, RunOutcome, StepOutcome, SwapLoop,
    SwapParams,
};
use crate::uint::{add_w, group_uint, lemma_wrap_u, modulus, mul_w, sub_w};

verus! {

broadcast use group_uint;

/// The output token held in the bands a swap can reach: from the active band
/// to the last band with liquidity in the swap direction.
pub open spec fn reachable_liquidity(p: SwapParams, pump: bool) -> nat {
    if pump {
        band_sum(p.bands_y, p.active_band, p.max_band + 1)
    } else {
        band_sum(p.bands_x, p.min_band, p.active_band + 1)
    }
}

/// The current band's invariant `(f + x) * (g + y)` and the input that would
/// empty the band, scaled by the largest possible antifee `1e36`, fit in 256
/// bits.
pub open spec fn band_exact(p: SwapParams, pump: bool, st: SwapLoop) -> bool {
    band_calc_spec(p, pump, st) matches Some(Ok(b)) ==> {
        &&& b.f + st.x < modulus()
        &&& b.g + st.y < modulus()
        &&& (b.f + st.x) * (b.g + st.y) < modulus()
        &&& pump && b.g != 0 ==> (b.inv / b.g - b.f - st.x) * (wad_spec() * wad_spec())
            < modulus()
        &&& !pump && b.f != 0 ==> (b.inv / b.f - b.g - st.y) * (wad_spec() * wad_spec())
            < modulus()
    }
}

/// Every band that the traversal of `amount` passes from iteration `i` on is
/// computed without 256-bit wrap-around.
pub open spec fn run_exact(p: SwapParams, pump: bool, amount: nat, st: SwapLoop, i: nat) -> bool
    decreases max_iter() - i,
{
    if i >= max_iter() {
        true
    } else {
        band_exact(p, pump, st) && match swap_step_spec(p, pump, amount, st, i) {
            StepOutcome::Continue(s2) => run_exact(p, pump, amount, s2, i + 1),
            _ => true,
        }
    }
}

/// `pb` is the pool `pa` with an effective fee no larger than that of `pa`.
pub open spec fn fee_at_most(pb: SwapParams, pa: SwapParams) -> bool {
    &&& pa == SwapParams { fee: pa.fee, oracle_fee: pa.oracle_fee, ..pb }
    &&& swap_fee(pb) <= swap_fee(pa)
}

/// Two traversal states at the same band with the same output so far, the
/// second with at least as much input left.
pub open spec fn trails(sa: SwapLoop, sb: SwapLoop) -> bool {
    &&& sa.j == sb.j
    &&& sa.n1 == sb.n1
    &&& sa.n2 == sb.n2
    &&& sa.p_o_up == sb.p_o_up
    &&& sa.x == sb.x
    &&& sa.y == sb.y
    &&& sa.out_amount == sb.out_amount
    &&& sa.left <= sb.left
}

/// One band of two traversals: the second goes on wherever the first does,
/// the states keep trailing, and where the first stops it has paid out no
/// more than the second.
pub open spec fn step_trails(oa: StepOutcome, ob: StepOutcome) -> bool {
    match oa {
        StepOutcome::Continue(a2) => match ob {
            StepOutcome::Continue(b2) => trails(a2, b2),
            StepOutcome::Stop(_) => false,
            _ => true,
        },
        StepOutcome::Stop(a2) => match ob {
            StepOutcome::Continue(b2) => a2.out_amount <= b2.out_amount,
            StepOutcome::Stop(b2) => a2.out_amount <= b2.out_amount,
            _ => true,
        },
        _ => true,
    }
}

/// A higher fee gives a higher antifee, which lies between `1e18` and `1e36`.
proof fn lemma_antifee_mono(f1: nat, f2: nat)
    requires
        f1 <= f2,
    ensures
        wad_spec() <= antifee_of(f1) <= antifee_of(f2) <= wad_spec() * wad_spec(),
{
    lemma_antifee_of(f1);
    let w = wad_spec();
    lemma_wrap_u((w * w) as int);
    let c1: nat = if f1 < (w - 1) as nat {
        f1
    } else {
        (w - 1) as nat
    };
    let c2: nat = if f2 < (w - 1) as nat {
        f2
    } else {
        (w - 1) as nat
    };
    vstd::arithmetic::div_mod::lemma_div_is_ordered_by_denominator(
        (w * w) as int,
        (w - c2) as int,
        (w - c1) as int,
    );
    vstd::arithmetic::div_mod::lemma_div_is_ordered_by_denominator(
        (w * w) as int,
        1,
        (w - c2) as int,
    );
}

/// The arithmetic of a partial fill: with at least as much input and an
/// antifee no larger, the band's new input-side amount is at least as large,
/// and so the output left in the band is no larger.
proof fn lemma_fill_order(
    s: nat,
    own: nat,
    t: nat,
    other: nat,
    inv: nat,
    xdest: nat,
    af_a: nat,
    af_b: nat,
    la: nat,
    lb: nat,
)
    requires
        t > 0,
        s + own < modulus(),
        t + other < modulus(),
        (s + own) * (t + other) < modulus(),
        inv == mul_w(add_w(s, own), add_w(t, other)),
        xdest == sub_w(sub_w(inv / t, s), own),
        (inv / t - s - own) * (wad_spec() * wad_spec()) < modulus(),
        wad_spec() <= af_b <= af_a <= wad_spec() * wad_spec(),
        la <= lb,
        lb * wad_spec() < modulus(),
        mul_w(xdest, af_b) / wad_spec() >= lb,
    ensures
        add_w(s, add_w(own, mul_w(la, wad_spec()) / af_a)) <= add_w(
            s,
            add_w(own, mul_w(lb, wad_spec()) / af_b),
        ),
        add_w(s, add_w(own, mul_w(la, wad_spec()) / af_a)) > 0 ==> add_w(
            sub_w(inv / add_w(s, add_w(own, mul_w(la, wad_spec()) / af_a)), t),
            1,
        ) >= add_w(sub_w(inv / add_w(s, add_w(own, mul_w(lb, wad_spec()) / af_b)), t), 1),
{
    let w = wad_spec();
    let so = s + own;
    lemma_wrap_u(so as int);
    lemma_wrap_u((t + other) as int);
    lemma_wrap_u((so * (t + other)) as int);
    assert(inv == so * (t + other));
    // the invariant over t is at least s + own
    assert(so * t <= inv) by (nonlinear_arith)
        requires
            inv == so * (t + other),
    ;
    vstd::arithmetic::div_mod::lemma_div_is_ordered((so * t) as int, inv as int, t as int);
    vstd::arithmetic::div_mod::lemma_div_by_multiple(so as int, t as int);
    let k = inv / t;
    assert(k >= so);
    lemma_wrap_u((k - s) as int);
    lemma_wrap_u((k - s - own) as int);
    assert(xdest == k - so);
    // the exchange amount of the band is computed exactly
    assert(xdest * af_b <= xdest * (w * w)) by (nonlinear_arith)
        requires
            af_b <= w * w,
    ;
    lemma_wrap_u((xdest * af_b) as int);
    let dxb = (xdest * af_b) / w;
    vstd::arithmetic::div_mod::lemma_fundamental_div_mod((xdest * af_b) as int, w as int);
    assert(lb * w <= xdest * af_b) by (nonlinear_arith)
        requires
            dxb >= lb,
            dxb * w <= xdest * af_b,
    ;
    // the new input-side amounts
    assert(la * w <= lb * w) by (nonlinear_arith)
        requires
            la <= lb,
    ;
    lemma_wrap_u((la * w) as int);
    lemma_wrap_u((lb * w) as int);
    let db = (lb * w) / af_b;
    let da = (la * w) / af_a;
    vstd::arithmetic::div_mod::lemma_fundamental_div_mod((lb * w) as int, af_b as int);
    vstd::arithmetic::div_mod::lemma_mod_bound((lb * w) as int, af_b as int);
    assert(db <= xdest) by (nonlinear_arith)
        requires
            db * af_b <= lb * w,
            lb * w <= xdest * af_b,
            af_b > 0,
    ;
    vstd::arithmetic::div_mod::lemma_div_is_ordered((la * w) as int, (lb * w) as int, af_a as int);
    vstd::arithmetic::div_mod::lemma_div_is_ordered_by_denominator(
        (lb * w) as int,
        af_b as int,
        af_a as int,
    );
    assert(da <= db);
    lemma_wrap_u((own + da) as int);
    lemma_wrap_u((own + db) as int);
    lemma_wrap_u((s + (own + da)) as int);
    lemma_wrap_u((s + (own + db)) as int);
    let den_a = so + da;
    let den_b = so + db;
    assert(add_w(s, add_w(own, mul_w(la, w) / af_a)) == den_a);
    assert(add_w(s, add_w(own, mul_w(lb, w) / af_b)) == den_b);
    assert(den_b <= k);
    if den_a > 0 {
        vstd::arithmetic::div_mod::lemma_div_is_ordered_by_denominator(
            inv as int,
            den_a as int,
            den_b as int,
        );
        vstd::arithmetic::div_mod::lemma_div_is_ordered_by_denominator(
            inv as int,
            den_b as int,
            k as int,
        );
        // inv / k >= t, as k * t <= inv
        vstd::arithmetic::div_mod::lemma_fundamental_div_mod(inv as int, t as int);
        vstd::arithmetic::div_mod::lemma_mod_bound(inv as int, t as int);
        assert(k * t <= inv) by (nonlinear_arith)
            requires
                inv == t * k + inv % t,
                inv % t >= 0,
        ;
        vstd::arithmetic::div_mod::lemma_div_is_ordered((k * t) as int, inv as int, k as int);
        vstd::arithmetic::div_mod::lemma_div_by_multiple(t as int, k as int);
        let qa = inv / den_a;
        let qb = inv / den_b;
        assert(qb >= t);
        assert(qa >= qb);
        vstd::arithmetic::div_mod::lemma_div_is_ordered_by_denominator(inv as int, 1, den_a as int);
        vstd::arithmetic::div_mod::lemma_div_is_ordered_by_denominator(inv as int, 1, den_b as int);
        lemma_wrap_u((qa - t) as int);
        lemma_wrap_u((qb - t) as int);
        lemma_wrap_u((qa - t + 1) as int);
        lemma_wrap_u((qb - t + 1) as int);
    }
}

/// One band of a traversal whose output fits in 256 bits: the output never
/// decreases, and the band stays in reach.
proof fn lemma_step_grows(p: SwapParams, pump: bool, amount: nat, st: SwapLoop, i: nat)
    requires
        output_covered(p, pump, st, i),
        band_in_reach(p, pump, st.n2),
        reachable_liquidity(p, pump) < modulus(),
        st.out_amount < modulus(),
        i < max_iter(),
    ensures
        st.out_amount + (if pump {
            st.y
        } else {
            st.x
        }) < modulus(),
        match swap_step_spec(p, pump, amount, st, i) {
            StepOutcome::Continue(s2) => output_covered(p, pump, s2, i + 1) && band_in_reach(
                p,
                pump,
                s2.n2,
            ) && st.out_amount <= s2.out_amount < modulus(),
            StepOutcome::Stop(s2) => st.out_amount <= s2.out_amount < modulus(),
            _ => true,
        },
{
    lemma_step_output(p, pump, amount, st, i);
    if pump {
        lemma_band_sum_mono(p.bands_y, p.active_band, st.n2 + 1, p.active_band, p.max_band + 1);
    } else {
        lemma_band_sum_low(p.bands_x, st.n2, p.active_band + 1);
        lemma_band_sum_mono(p.bands_x, st.n2, p.active_band + 1, p.min_band, p.active_band + 1);
    }
    let u = if pump {
        st.y
    } else {
        st.x
    };
    assert(st.out_amount + u < modulus());
    lemma_wrap_u((st.out_amount + u) as int);
    match band_calc_spec(p, pump, st) {
        Some(Ok(b)) => {
            let x_dest = mul_w(st.left, wad_spec()) / b.antifee;
            let rem = if pump {
                add_w(sub_w(b.inv / add_w(b.f, add_w(st.x, x_dest)), b.g), 1)
            } else {
                add_w(sub_w(b.inv / add_w(b.g, add_w(st.y, x_dest)), b.f), 1)
            };
            let last: nat = if rem < u {
                rem
            } else {
                u
            };
            lemma_wrap_u(u - last);
            lemma_wrap_u(st.out_amount + (u - last));
        },
        _ => {},
    }
}

/// A traversal whose output fits in 256 bits never pays out less than it has
/// already accumulated.
proof fn lemma_run_grows(p: SwapParams, pump: bool, amount: nat, st: SwapLoop, i: nat)
    requires
        output_covered(p, pump, st, i),
        band_in_reach(p, pump, st.n2),
        reachable_liquidity(p, pump) < modulus(),
        st.out_amount < modulus(),
    ensures
        swap_run(p, pump, amount, st, i) matches RunOutcome::Done(s2) ==> st.out_amount
            <= s2.out_amount < modulus(),
    decreases max_iter() - i,
{
    if i < max_iter() {
        lemma_step_grows(p, pump, amount, st, i);
        match swap_step_spec(p, pump, amount, st, i) {
            StepOutcome::Continue(s2) => lemma_run_grows(p, pump, amount, s2, i + 1),
            _ => {},
        }
    }
}

/// The input that would empty a band is computed exactly, and so is its
/// product with any antifee up to `1e36`.
proof fn lemma_dest_exact(s: nat, own: nat, t: nat, other: nat, inv: nat, af: nat)
    requires
        t > 0,
        s + own < modulus(),
        t + other < modulus(),
        (s + own) * (t + other) < modulus(),
        inv == mul_w(add_w(s, own), add_w(t, other)),
        (inv / t - s - own) * (wad_spec() * wad_spec()) < modulus(),
        af <= wad_spec() * wad_spec(),
    ensures
        sub_w(sub_w(inv / t, s), own) == inv / t - s - own,
        mul_w(sub_w(sub_w(inv / t, s), own), af) == sub_w(sub_w(inv / t, s), own) * af,
{
    let w = wad_spec();
    let so = s + own;
    lemma_wrap_u(so as int);
    lemma_wrap_u((t + other) as int);
    lemma_wrap_u((so * (t + other)) as int);
    assert(so * t <= inv) by (nonlinear_arith)
        requires
            inv == so * (t + other),
    ;
    vstd::arithmetic::div_mod::lemma_div_is_ordered((so * t) as int, inv as int, t as int);
    vstd::arithmetic::div_mod::lemma_div_by_multiple(so as int, t as int);
    let k = inv / t;
    lemma_wrap_u((k - s) as int);
    lemma_wrap_u((k - s - own) as int);
    let xdest = (k - so) as nat;
    assert(xdest * af <= xdest * (w * w)) by (nonlinear_arith)
        requires
            af <= w * w,
    ;
    lemma_wrap_u((xdest * af) as int);
}

/// One band of two traversals of the same pool, the second with at least as
/// much input left and an effective fee no larger.
#[verifier::rlimit(60)]
proof fn lemma_step_trails(
    pa: SwapParams,
    pb: SwapParams,
    pump: bool,
    ama: nat,
    amb: nat,
    sa: SwapLoop,
    sb: SwapLoop,
    i: nat,
)
    requires
        fee_at_most(pb, pa),
        trails(sa, sb),
        band_exact(pb, pump, sb),
        sb.left * wad_spec() < modulus(),
        sb.out_amount + (if pump {
            sb.y
        } else {
            sb.x
        }) < modulus(),
        i < max_iter(),
    ensures
        step_trails(swap_step_spec(pa, pump, ama, sa, i), swap_step_spec(pb, pump, amb, sb, i)),
        swap_step_spec(pb, pump, amb, sb, i) matches StepOutcome::Continue(b2) ==> b2.left
            <= sb.left,
{
    let w = wad_spec();
    match (band_calc_spec(pa, pump, sa), band_calc_spec(pb, pump, sb)) {
        (Some(Ok(ba)), Some(Ok(bb))) => {
            let df = dynamic_fee_spec(pb.p_oracle, sb.p_o_up, pb.a, pb.a_minus_1);
            let fa = swap_fee(pa);
            let fb = swap_fee(pb);
            let liquid = is_liquid(sb);
            let dyn_a = if liquid && !pa.static_antifee {
                if df > fa {
                    df
                } else {
                    fa
                }
            } else {
                fa
            };
            let dyn_b = if liquid && !pb.static_antifee {
                if df > fb {
                    df
                } else {
                    fb
                }
            } else {
                fb
            };
            assert(ba.antifee == antifee_of(dyn_a));
            assert(bb.antifee == antifee_of(dyn_b));
            lemma_antifee_mono(dyn_b, dyn_a);
            let af_a = ba.antifee;
            let af_b = bb.antifee;
            let (s, own, t, other) = if pump {
                (bb.f, sb.x, bb.g, sb.y)
            } else {
                (bb.g, sb.y, bb.f, sb.x)
            };
            if other != 0 && t != 0 {
                assert((s + own) * (t + other) < modulus()) by (nonlinear_arith)
                    requires
                        (bb.f + sb.x) * (bb.g + sb.y) < modulus(),
                        pump ==> s + own == bb.f + sb.x && t + other == bb.g + sb.y,
                        !pump ==> s + own == bb.g + sb.y && t + other == bb.f + sb.x,
                ;
                lemma_dest_exact(s, own, t, other, bb.inv, af_a);
                lemma_dest_exact(s, own, t, other, bb.inv, af_b);
                let xdest = sub_w(sub_w(bb.inv / t, s), own);
                assert(xdest * af_b <= xdest * af_a) by (nonlinear_arith)
                    requires
                        af_b <= af_a,
                ;
                vstd::arithmetic::div_mod::lemma_div_is_ordered(
                    (xdest * af_b) as int,
                    (xdest * af_a) as int,
                    w as int,
                );
                let dxa = mul_w(xdest, af_a) / w;
                let dxb = mul_w(xdest, af_b) / w;
                assert(dxb <= dxa);
                lemma_wrap_u((sb.out_amount + other) as int);
                if dxa < sa.left {
                    let da: nat = if dxa > 1 {
                        dxa
                    } else {
                        1
                    };
                    let db: nat = if dxb > 1 {
                        dxb
                    } else {
                        1
                    };
                    lemma_wrap_u(sa.left - da);
                    lemma_wrap_u(sb.left - db);
                } else if dxb >= sb.left {
                    lemma_fill_order(s, own, t, other, bb.inv, xdest, af_a, af_b, sa.left, sb.left);
                    let den_a = add_w(s, add_w(own, mul_w(sa.left, w) / af_a));
                    let den_b = add_w(s, add_w(own, mul_w(sb.left, w) / af_b));
                    let rem_a = add_w(sub_w(bb.inv / den_a, t), 1);
                    let rem_b = add_w(sub_w(bb.inv / den_b, t), 1);
                    let last_a: nat = if rem_a < other {
                        rem_a
                    } else {
                        other
                    };
                    let last_b: nat = if rem_b < other {
                        rem_b
                    } else {
                        other
                    };
                    lemma_wrap_u(other - last_a);
                    lemma_wrap_u(other - last_b);
                    lemma_wrap_u(sb.out_amount + (other - last_a));
                    lemma_wrap_u(sb.out_amount + (other - last_b));
                } else {
                    let den_a = add_w(s, add_w(own, mul_w(sa.left, w) / af_a));
                    let rem_a = add_w(sub_w(bb.inv / den_a, t), 1);
                    let last_a: nat = if rem_a < other {
                        rem_a
                    } else {
                        other
                    };
                    let db: nat = if dxb > 1 {
                        dxb
                    } else {
                        1
                    };
                    lemma_wrap_u(sb.left - db);
                    lemma_wrap_u(other - last_a);
                    lemma_wrap_u(sb.out_amount + (other - last_a));
                }
            }
        },
        _ => {},
    }
}

/// Two traversals of the same pool, the second with at least as much input
/// left and an effective fee no larger: where both finish, the second has paid
/// out at least as much.
proof fn lemma_run_trails(
    pa: SwapParams,
    pb: SwapParams,
    pump: bool,
    ama: nat,
    amb: nat,
    sa: SwapLoop,
    sb: SwapLoop,
    i: nat,
)
    requires
        fee_at_most(pb, pa),
        trails(sa, sb),
        run_exact(pb, pump, amb, sb, i),
        sb.left * wad_spec() < modulus(),
        output_covered(pb, pump, sb, i),
        band_in_reach(pb, pump, sb.n2),
        reachable_liquidity(pb, pump) < modulus(),
        sb.out_amount < modulus(),
    ensures
        swap_run(pa, pump, ama, sa, i) matches RunOutcome::Done(a2) ==> (swap_run(
            pb,
            pump,
            amb,
            sb,
            i,
        ) matches RunOutcome::Done(b2) ==> a2.out_amount <= b2.out_amount < modulus()),
    decreases max_iter() - i,
{
    if i < max_iter() {
        lemma_step_grows(pb, pump, amb, sb, i);
        lemma_step_trails(pa, pb, pump, ama, amb, sa, sb, i);
        match swap_step_spec(pb, pump, amb, sb, i) {
            StepOutcome::Continue(b2) => {
                assert(b2.left * wad_spec() <= sb.left * wad_spec()) by (nonlinear_arith)
                    requires
                        b2.left <= sb.left,
                ;
                match swap_step_spec(pa, pump, ama, sa, i) {
                    StepOutcome::Continue(a2) => {
                        lemma_run_trails(pa, pb, pump, ama, amb, a2, b2, i + 1);
                    },
                    _ => {
                        lemma_run_grows(pb, pump, amb, b2, i + 1);
                    },
                }
            },
            _ => {},
        }
    }
}

/// The traversal state before the first band meets the conditions under
/// which outputs can be compared.
proof fn lemma_initial_on_track(p: SwapParams, pump: bool, amount: nat)
    requires
        i64::MIN <= p.min_band <= p.active_band <= p.max_band <= i64::MAX,
    ensures
        output_covered(p, pump, initial_loop(p, amount), 0),
        band_in_reach(p, pump, p.active_band),
{
    assert(band_sum(p.bands_y, p.active_band, p.active_band) == 0);
    assert(band_sum(p.bands_x, p.active_band + 1, p.active_band + 1) == 0);
}

/// Rounding an output down to the token's precision keeps the order of two
/// outputs below 2^256.
proof fn lemma_round_down_mono(o1: nat, o2: nat, q: nat)
    requires
        o1 <= o2 < modulus(),
        q > 0,
    ensures
        mul_w(o1 / q, q) <= mul_w(o2 / q, q),
        mul_w(o2 / q, q) == (o2 / q) * q,
{
    vstd::arithmetic::div_mod::lemma_div_is_ordered(o1 as int, o2 as int, q as int);
    vstd::arithmetic::div_mod::lemma_fundamental_div_mod(o1 as int, q as int);
    vstd::arithmetic::div_mod::lemma_fundamental_div_mod(o2 as int, q as int);
    vstd::arithmetic::div_mod::lemma_mod_bound(o1 as int, q as int);
    vstd::arithmetic::div_mod::lemma_mod_bound(o2 as int, q as int);
    assert((o1 / q) * q <= (o2 / q) * q) by (nonlinear_arith)
        requires
            o1 / q <= o2 / q,
    ;
    lemma_wrap_u(((o1 / q) * q) as int);
    lemma_wrap_u(((o2 / q) * q) as int);
}

/// A larger input never yields less output: for a fixed pool and direction,
/// swapping `amount2 >= amount1` pays out at least as much as swapping
/// `amount1`, where both swaps succeed. This holds where no 256-bit
/// computation wraps around: the liquidity in reach, `amount2 * 1e18`, and
/// each band invariant of the larger swap fit in 256 bits.
pub proof fn lemma_swap_output_monotone(pump: bool, amount1: nat, amount2: nat, p: SwapParams)
    requires
        amount1 <= amount2,
        amount2 * wad_spec() < modulus(),
        i64::MIN <= p.min_band <= p.active_band <= p.max_band <= i64::MAX,
        reachable_liquidity(p, pump) < modulus(),
        run_exact(p, pump, amount2, initial_loop(p, amount2), 0),
    ensures
        calc_swap_out_spec(pump, amount1, p) matches Some(Ok(t1)) ==> (calc_swap_out_spec(
            pump,
            amount2,
            p,
        ) matches Some(Ok(t2)) ==> t1.out_amount <= t2.out_amount),
{
    lemma_initial_on_track(p, pump, amount2);
    assert(fee_at_most(p, p));
    lemma_run_trails(
        p,
        p,
        pump,
        amount1,
        amount2,
        initial_loop(p, amount1),
        initial_loop(p, amount2),
        0,
    );
    lemma_outputs_rounded(p, p, pump, amount1, amount2);
}

/// A higher fee never yields more output: swapping the same amount in a pool
/// `pb` whose effective fee is no larger than that of the otherwise identical
/// pool `pa` pays out at least as much, where both swaps succeed. This holds
/// where no 256-bit computation wraps around: the liquidity in reach,
/// `amount * 1e18`, and each band invariant of the swap in `pb` fit in 256
/// bits.
pub proof fn lemma_swap_output_fee_antitone(pump: bool, amount: nat, pa: SwapParams, pb: SwapParams)
    requires
        fee_at_most(pb, pa),
        amount * wad_spec() < modulus(),
        i64::MIN <= pb.min_band <= pb.active_band <= pb.max_band <= i64::MAX,
        reachable_liquidity(pb, pump) < modulus(),
        run_exact(pb, pump, amount, initial_loop(pb, amount), 0),
    ensures
        calc_swap_out_spec(pump, amount, pa) matches Some(Ok(ta)) ==> (calc_swap_out_spec(
            pump,
            amount,
            pb,
        ) matches Some(Ok(tb)) ==> ta.out_amount <= tb.out_amount),
{
    lemma_initial_on_track(pb, pump, amount);
    assert(initial_loop(pa, amount) == initial_loop(pb, amount));
    lemma_run_trails(
        pa,
        pb,
        pump,
        amount,
        amount,
        initial_loop(pa, amount),
        initial_loop(pb, amount),
        0,
    );
    lemma_outputs_rounded(pa, pb, pump, amount, amount);
}

/// Where the raw outputs of two finished traversals are ordered, so are the
/// rounded outputs of the swaps.
proof fn lemma_outputs_rounded(pa: SwapParams, pb: SwapParams, pump: bool, ama: nat, amb: nat)
    requires
        pa.out_precision == pb.out_precision,
        swap_run(pa, pump, ama, initial_loop(pa, ama), 0) matches RunOutcome::Done(a2) ==> (swap_run(
            pb,
            pump,
            amb,
            initial_loop(pb, amb),
            0,
        ) matches RunOutcome::Done(b2) ==> a2.out_amount <= b2.out_amount < modulus()),
    ensures
        calc_swap_out_spec(pump, ama, pa) matches Some(Ok(ta)) ==> (calc_swap_out_spec(
            pump,
            amb,
            pb,
        ) matches Some(Ok(tb)) ==> ta.out_amount <= tb.out_amount),
{
    match (swap_run(pa, pump, ama, initial_loop(pa, ama), 0), swap_run(pb, pump, amb, initial_loop(pb, amb), 0)) {
        (RunOutcome::Done(a2), RunOutcome::Done(b2)) => {
            if pa.out_precision > 0 {
                lemma_round_down_mono(a2.out_amount, b2.out_amount, pa.out_precision);
            }
        },
        _ => {},
    }
}


/// At every band that the traversal of `amount` passes from iteration `i` on
/// and whose output token it holds, the band's price term for the output side
/// (`g` buying collateral, `f` selling it) is non-zero, so the band trades.
pub open spec fn pays_every_band(p: SwapParams, pump: bool, amount: nat, st: SwapLoop, i: nat) -> bool
    decreases max_iter() - i,
{
    if i >= max_iter() {
        true
    } else {
        &&& band_calc_spec(p, pump, st) matches Some(Ok(b)) ==> (if pump {
            st.y > 0 ==> b.g > 0
        } else {
            st.x > 0 ==> b.f > 0
        })
        &&& match swap_step_spec(p, pump, amount, st, i) {
            StepOutcome::Continue(s2) => pays_every_band(p, pump, amount, s2, i + 1),
            _ => true,
        }
    }
}

/// The output so far is exactly the output-token liquidity of the bands
/// already passed.
pub open spec fn paid_in_full(p: SwapParams, pump: bool, st: SwapLoop, i: nat) -> bool {
    &&& st.last_tick_j == 0
    &&& i < max_iter() ==> st.out_amount == (if pump {
        band_sum(p.bands_y, p.active_band, st.n2)
    } else {
        band_sum(p.bands_x, st.n2 + 1, p.active_band + 1)
    })
    &&& i >= max_iter() ==> st.out_amount == output_bound(p, pump, st)
}

proof fn lemma_step_pays(p: SwapParams, pump: bool, amount: nat, st: SwapLoop, i: nat)
    requires
        output_covered(p, pump, st, i),
        band_in_reach(p, pump, st.n2),
        reachable_liquidity(p, pump) < modulus(),
        st.out_amount < modulus(),
        i < max_iter(),
        paid_in_full(p, pump, st, i),
        pays_every_band(p, pump, amount, st, i),
    ensures
        match swap_step_spec(p, pump, amount, st, i) {
            StepOutcome::Continue(s2) => paid_in_full(p, pump, s2, i + 1),
            StepOutcome::Stop(s2) => s2.out_amount + s2.last_tick_j == output_bound(p, pump, s2),
            _ => true,
        },
{
    lemma_step_grows(p, pump, amount, st, i);
    let u = if pump {
        st.y
    } else {
        st.x
    };
    lemma_wrap_u((st.out_amount + u) as int);
    if pump {
        assert(band_sum(p.bands_y, p.active_band, st.n2 + 1) == band_sum(
            p.bands_y,
            p.active_band,
            st.n2,
        ) + band_amount(p.bands_y, st.n2));
    } else {
        lemma_band_sum_low(p.bands_x, st.n2, p.active_band + 1);
    }
    match band_calc_spec(p, pump, st) {
        Some(Ok(b)) => {
            let x_dest = mul_w(st.left, wad_spec()) / b.antifee;
            let rem = if pump {
                add_w(sub_w(b.inv / add_w(b.f, add_w(st.x, x_dest)), b.g), 1)
            } else {
                add_w(sub_w(b.inv / add_w(b.g, add_w(st.y, x_dest)), b.f), 1)
            };
            let last: nat = if rem < u {
                rem
            } else {
                u
            };
            lemma_wrap_u(u - last);
            lemma_wrap_u(st.out_amount + (u - last));
        },
        _ => {},
    }
}

proof fn lemma_run_pays(p: SwapParams, pump: bool, amount: nat, st: SwapLoop, i: nat)
    requires
        output_covered(p, pump, st, i),
        band_in_reach(p, pump, st.n2),
        reachable_liquidity(p, pump) < modulus(),
        st.out_amount < modulus(),
        paid_in_full(p, pump, st, i),
        pays_every_band(p, pump, amount, st, i),
    ensures
        swap_run(p, pump, amount, st, i) matches RunOutcome::Done(s2) ==> s2.out_amount
            + s2.last_tick_j == output_bound(p, pump, s2) && s2.out_amount < modulus(),
    decreases max_iter() - i,
{
    if i < max_iter() {
        lemma_step_grows(p, pump, amount, st, i);
        lemma_step_pays(p, pump, amount, st, i);
        match swap_step_spec(p, pump, amount, st, i) {
            StepOutcome::Continue(s2) => lemma_run_pays(p, pump, amount, s2, i + 1),
            _ => {},
        }
    }
}

/// Where every band passed that holds the output token trades (its output-side
/// price term is non-zero) and the liquidity in reach fits in 256 bits, a swap
/// pays out exactly the output-token liquidity of the bands it passes, less
/// what stays in the last band (`last_tick_j`), rounded down to the output
/// precision: buying collateral, bands `active_band..=n2`; selling it, bands
/// `n2..=active_band`.
pub proof fn lemma_swap_pays_bands_passed(pump: bool, amount: nat, p: SwapParams)
    requires
        i64::MIN <= p.min_band <= p.active_band <= p.max_band <= i64::MAX,
        reachable_liquidity(p, pump) < modulus(),
        pays_every_band(p, pump, amount, initial_loop(p, amount), 0),
    ensures
        calc_swap_out_spec(pump, amount, p) matches Some(Ok(t)) ==> {
            let passed = if pump {
                band_sum(p.bands_y, p.active_band, t.n2 + 1)
            } else {
                band_sum(p.bands_x, t.n2, p.active_band + 1)
            };
            t.out_amount + t.last_tick_j <= passed < t.out_amount + t.last_tick_j
                + p.out_precision
        },
{
    let init = initial_loop(p, amount);
    lemma_initial_on_track(p, pump, amount);
    assert(paid_in_full(p, pump, init, 0));
    lemma_run_pays(p, pump, amount, init, 0);
    match swap_run(p, pump, amount, init, 0) {
        RunOutcome::Done(st) => {
            if p.out_precision > 0 {
                let q = p.out_precision as int;
                let o = st.out_amount as int;
                vstd::arithmetic::div_mod::lemma_fundamental_div_mod(o, q);
                vstd::arithmetic::div_mod::lemma_mod_bound(o, q);
                vstd::arithmetic::div_mod::lemma_div_pos_is_pos(o, q);
                assert((o / q) * q == q * (o / q)) by (nonlinear_arith);
                lemma_wrap_u((o / q) * q);
            }
        },
        _ => {},
    }
}

} // verus!

