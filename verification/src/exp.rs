//! The fixed-point natural exponential `wad_exp` (1e18 precision), evaluated
//! with the (6, 7)-term rational approximation in base 2^96, using signed
//! wrapping arithmetic and truncating signed division throughout.
use vstd::prelude::*;
use crate::uint::{
    group_uint, half_modulus, in_i256, lemma_raw_of, lemma_wrap_i_small, limbs_value, mul_w,
    shr_spec, tdiv, wrap_i, wrap_u, I256, U256,
};

verus! {

broadcast use group_uint;

/// 2^96
pub open spec fn two96() -> int {
    79228162514264337593543950336
}

/// 2^95
pub open spec fn two95() -> int {
    39614081257132168796771975168
}

/// ln(2) * 2^96
pub open spec fn ln2_96() -> int {
    54916777467707473351141471128
}

/// Inputs at or below this return zero.
pub open spec fn exp_zero_bound() -> int {
    -41446531673892822313
}

/// Inputs at or above this overflow.
pub open spec fn exp_overflow_bound() -> int {
    135305999368893231589
}

/// The final scale factor (about 6.031367120, combined with the change from
/// base 2^96 to 1e18).
pub open spec fn exp_scale() -> nat {
    3822833074963236453042738258902158003155416615667nat
}

/// Wrapping signed multiplication.
pub open spec fn wmul(a: int, b: int) -> int {
    wrap_i(a * b)
}

/// Wrapping signed truncating division.
pub open spec fn wdiv(a: int, b: int) -> int {
    wrap_i(tdiv(a, b))
}

/// Wrapping signed addition.
pub open spec fn wadd(a: int, b: int) -> int {
    wrap_i(a + b)
}

/// Wrapping signed subtraction.
pub open spec fn wsub(a: int, b: int) -> int {
    wrap_i(a - b)
}

/// The input rescaled from base 1e18 to base 2^96.
pub open spec fn exp_x1(x: int) -> int {
    wdiv(wmul(x, two96()), 1_000_000_000_000_000_000)
}

/// `k = round(x1 / ln 2)`, the power of two split off.
pub open spec fn exp_k(x1: int) -> int {
    wdiv(wadd(wdiv(wmul(x1, two96()), ln2_96()), two95()), two96())
}

/// The reduced argument `x1 - k ln 2`.
pub open spec fn exp_xr(x1: int, k: int) -> int {
    wsub(x1, wmul(k, ln2_96()))
}

/// Numerator of the rational approximation.
pub open spec fn exp_p(x: int) -> int {
    let y1 = wadd(x, 1346386616545796478920950773328);
    let y2 = wadd(wdiv(wmul(y1, x), two96()), 57155421227552351082224309758442);
    let p1 = wsub(wadd(y2, x), 94201549194550492254356042504812);
    let p2 = wadd(wdiv(wmul(p1, y2), two96()), 28719021644029726153956944680412240);
    wadd(wmul(p2, x), wrap_i(4385272521454847904659076985693276int * crate::uint::pow2(96)))
}

/// First Horner step of the denominator.
pub open spec fn exp_q1(x: int) -> int {
    wsub(x, 2855989394907223263936484059900)
}

pub open spec fn exp_q2(x: int) -> int {
    wadd(wdiv(wmul(exp_q1(x), x), two96()), 50020603652535783019961831881945)
}

pub open spec fn exp_q3(x: int) -> int {
    wsub(wdiv(wmul(exp_q2(x), x), two96()), 533845033583426703283633433725380)
}

pub open spec fn exp_q4(x: int) -> int {
    wadd(wdiv(wmul(exp_q3(x), x), two96()), 3604857256930695427073651918091429)
}

pub open spec fn exp_q5(x: int) -> int {
    wsub(wdiv(wmul(exp_q4(x), x), two96()), 14423608567350463180887372962807573)
}

/// Denominator of the rational approximation.
pub open spec fn exp_q(x: int) -> int {
    wadd(wdiv(wmul(exp_q5(x), x), two96()), 26449188498355588339934803723976023)
}

/// The result for an input strictly between the two bounds.
pub open spec fn wad_exp_core(x: int) -> nat {
    let x1 = exp_x1(x);
    let k = exp_k(x1);
    let xr = exp_xr(x1, k);
    let r = wdiv(exp_p(xr), exp_q(xr));
    let shift = wsub(195, k);
    shr_spec(mul_w(wrap_u(r), exp_scale()), shift as nat)
}

/// `e^(x / 1e18) * 1e18`, as the on-chain approximation computes it: zero at
/// or below the lower bound, `None` (overflow) at or above the upper bound.
pub open spec fn wad_exp_spec(x: int) -> Option<nat> {
    if x <= exp_zero_bound() {
        Some(0)
    } else if x >= exp_overflow_bound() {
        None
    } else {
        Some(wad_exp_core(x))
    }
}

/// Bounds on a truncating division by a positive divisor.
proof fn lemma_tdiv_pos(a: int, b: int)
    requires
        b > 0,
    ensures
        a >= 0 ==> 0 <= a - tdiv(a, b) * b < b,
        a < 0 ==> -b < a - tdiv(a, b) * b <= 0,
{
    if a >= 0 {
        vstd::arithmetic::div_mod::lemma_fundamental_div_mod(a, b);
        vstd::arithmetic::div_mod::lemma_mod_bound(a, b);
        assert(tdiv(a, b) == a / b);
        vstd::arithmetic::mul::lemma_mul_is_commutative(a / b, b);
    } else {
        vstd::arithmetic::div_mod::lemma_fundamental_div_mod(-a, b);
        vstd::arithmetic::div_mod::lemma_mod_bound(-a, b);
        assert(tdiv(a, b) == -((-a) / b));
        vstd::arithmetic::mul::lemma_mul_is_commutative((-a) / b, b);
        vstd::arithmetic::mul::lemma_mul_unary_negation((-a) / b, b);
    }
}

/// `|a * x / 2^96| <= bound_a * bound_x / 2^96` for `|a| <= bound_a`, `|x| <= bound_x`.
proof fn lemma_scaled_product(a: int, x: int, ba: int, bx: int)
    requires
        -ba <= a <= ba,
        -bx <= x <= bx,
        ba * bx < half_modulus(),
    ensures
        in_i256(a * x),
        wdiv(wmul(a, x), two96()) == tdiv(a * x, two96()),
        -(ba * bx / two96()) <= tdiv(a * x, two96()) <= ba * bx / two96(),
{
    assert(-(ba * bx) <= a * x <= ba * bx) by (nonlinear_arith)
        requires
            -ba <= a <= ba,
            -bx <= x <= bx,
    ;
    lemma_wrap_i_small(a * x);
    let t = tdiv(a * x, two96());
    let m = ba * bx;
    if a * x >= 0 {
        vstd::arithmetic::div_mod::lemma_div_is_ordered(a * x, m, two96());
        vstd::arithmetic::div_mod::lemma_div_pos_is_pos(a * x, two96());
    } else {
        vstd::arithmetic::div_mod::lemma_div_is_ordered(-(a * x), m, two96());
        vstd::arithmetic::div_mod::lemma_div_pos_is_pos(-(a * x), two96());
    }
    lemma_wrap_i_small(t);
}

/// The argument reduction: the shift amount and the reduced argument stay in
/// range for every input strictly between the bounds.
proof fn lemma_exp_reduction(x: int)
    requires
        exp_zero_bound() < x < exp_overflow_bound(),
    ensures
        0 <= 195 - exp_k(exp_x1(x)) < 256,
        wsub(195, exp_k(exp_x1(x))) == 195 - exp_k(exp_x1(x)),
        -(two96() + two96() / 20) <= exp_xr(exp_x1(x), exp_k(exp_x1(x))) <= two96() + two96()
            / 20,
{
    let t96 = two96();
    let w = 1_000_000_000_000_000_000int;
    let l = ln2_96();
    // x1 = (x * 2^96) / 1e18
    let a1 = x * t96;
    lemma_wrap_i_small(a1);
    lemma_tdiv_pos(a1, w);
    let x1 = tdiv(a1, w);
    lemma_wrap_i_small(x1);
    assert(exp_x1(x) == x1);
    // t = (x1 * 2^96) / ln2
    let a2 = x1 * t96;
    lemma_wrap_i_small(a2);
    lemma_tdiv_pos(a2, l);
    let t = tdiv(a2, l);
    lemma_wrap_i_small(t);
    let u = t + two95();
    lemma_wrap_i_small(u);
    lemma_tdiv_pos(u, t96);
    let k = tdiv(u, t96);
    lemma_wrap_i_small(k);
    assert(exp_k(x1) == k);
    assert(-61 <= k <= 195);
    lemma_wrap_i_small(195 - k);
    let kl = k * l;
    lemma_wrap_i_small(kl);
    lemma_wrap_i_small(x1 - kl);
    assert(exp_xr(x1, k) == x1 - kl);
    assert(-(t96 + t96 / 20) <= x1 - kl <= t96 + t96 / 20);
}

proof fn lemma_exp_denominator(x: int)
    requires
        -(two96() + two96() / 20) <= x <= two96() + two96() / 20,
    ensures
        exp_q(x) > 0,
{
    let t = two96();
    let bx = t + t / 20;
    let q1 = x - 2855989394907223263936484059900;
    lemma_wrap_i_small(q1);
    assert(exp_q1(x) == q1);
    let b1 = 38 * t;
    lemma_scaled_product(q1, x, b1, bx);
    let q2 = tdiv(q1 * x, t) + 50020603652535783019961831881945;
    lemma_wrap_i_small(q2);
    assert(exp_q2(x) == q2);
    let b2 = 672 * t;
    lemma_scaled_product(q2, x, b2, bx);
    let q3 = tdiv(q2 * x, t) - 533845033583426703283633433725380;
    lemma_wrap_i_small(q3);
    assert(exp_q3(x) == q3);
    let b3 = 7444 * t;
    lemma_scaled_product(q3, x, b3, bx);
    let q4 = tdiv(q3 * x, t) + 3604857256930695427073651918091429;
    lemma_wrap_i_small(q4);
    assert(exp_q4(x) == q4);
    let b4 = 53316 * t;
    lemma_scaled_product(q4, x, b4, bx);
    let q5 = tdiv(q4 * x, t) - 14423608567350463180887372962807573;
    lemma_wrap_i_small(q5);
    assert(exp_q5(x) == q5);
    let b5 = 238034 * t;
    lemma_scaled_product(q5, x, b5, bx);
    let q6 = tdiv(q5 * x, t) + 26449188498355588339934803723976023;
    lemma_wrap_i_small(q6);
    assert(exp_q(x) == q6);
}

/// Natural exponential `e^x` with 1e18 precision.
///
/// Input `x` is a signed fixed-point number in 1e18 units. Returns `e^x` in
/// 1e18 units, zero for `x <= -41.446531673892822313e18`, or `None` (overflow)
/// for `x >= 135.305999368893231589e18`.
pub fn wad_exp(x: I256) -> (r: Option<U256>)
    ensures
        r is Some <==> wad_exp_spec(x@) is Some,
        r matches Some(v) ==> Some(v@) == wad_exp_spec(x@),
        x@ <= exp_zero_bound() ==> (r matches Some(v) && v@ == 0),
        x@ >= exp_overflow_bound() ==> r is None,
{
    let lo = I256::from_i128(-41_446_531_673_892_822_313i128).unwrap();
    if x.le(&lo) {
        return Some(U256::zero());
    }
    let hi = I256::from_u128(135_305_999_368_893_231_589u128);
    if hi.le(&x) {
        return None;
    }
    proof {
        lemma_exp_reduction(x@);
        lemma_exp_denominator(exp_xr(exp_x1(x@), exp_k(exp_x1(x@))));
    }
    let two_96 = I256::from_u128(79_228_162_514_264_337_593_543_950_336u128);
    let wad_i = I256::from_u128(1_000_000_000_000_000_000u128);
    let x1 = x.wrapping_mul(two_96).wrapping_div(wad_i);
    let ln2_96 = I256::from_u128(54_916_777_467_707_473_351_141_471_128u128);
    let half = I256::from_u128(39_614_081_257_132_168_796_771_975_168u128);
    let k = x1.wrapping_mul(two_96).wrapping_div(ln2_96).wrapping_add(half).wrapping_div(two_96);
    let xr = x1.wrapping_sub(k.wrapping_mul(ln2_96));
    // numerator
    let y1 = xr.wrapping_add(I256::from_u128(1_346_386_616_545_796_478_920_950_773_328u128));
    let y2 = y1.wrapping_mul(xr).wrapping_div(two_96).wrapping_add(
        I256::from_u128(57_155_421_227_552_351_082_224_309_758_442u128),
    );
    let p1 = y2.wrapping_add(xr).wrapping_sub(
        I256::from_u128(94_201_549_194_550_492_254_356_042_504_812u128),
    );
    let p2 = p1.wrapping_mul(y2).wrapping_div(two_96).wrapping_add(
        I256::from_u128(28_719_021_644_029_726_153_956_944_680_412_240u128),
    );
    let p = p2.wrapping_mul(xr).wrapping_add(
        I256::from_u128(4_385_272_521_454_847_904_659_076_985_693_276u128).wrapping_shl(96),
    );
    // denominator
    let q1 = xr.wrapping_sub(I256::from_u128(2_855_989_394_907_223_263_936_484_059_900u128));
    let q2 = q1.wrapping_mul(xr).wrapping_div(two_96).wrapping_add(
        I256::from_u128(50_020_603_652_535_783_019_961_831_881_945u128),
    );
    let q3 = q2.wrapping_mul(xr).wrapping_div(two_96).wrapping_sub(
        I256::from_u128(533_845_033_583_426_703_283_633_433_725_380u128),
    );
    let q4 = q3.wrapping_mul(xr).wrapping_div(two_96).wrapping_add(
        I256::from_u128(3_604_857_256_930_695_427_073_651_918_091_429u128),
    );
    let q5 = q4.wrapping_mul(xr).wrapping_div(two_96).wrapping_sub(
        I256::from_u128(14_423_608_567_350_463_180_887_372_962_807_573u128),
    );
    let q = q5.wrapping_mul(xr).wrapping_div(two_96).wrapping_add(
        I256::from_u128(26_449_188_498_355_588_339_934_803_723_976_023u128),
    );
    let r = p.wrapping_div(q);
    // scale, undo the power of two, and change base from 2^96 to 1e18
    let scale = U256::from_limbs([17181495799676635891u64, 7188640403681034642u64, 11234296709u64, 0u64]);
    assert(limbs_value([17181495799676635891u64, 7188640403681034642u64, 11234296709u64, 0u64])
        == exp_scale());
    let shift = I256::from_u128(195).wrapping_sub(k);
    let shift_u = shift.as_i64() as usize;
    let r_uint = U256::from_signed_raw(r);
    proof {
        lemma_raw_of(r);
    }
    let product = r_uint.mul(scale);
    Some(product.shr(shift_u))
}

} // verus!
