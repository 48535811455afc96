//! Stateless LLAMMA math: integer square root, the fixed-point exponential,
//! band prices, the dynamic fee, and the band invariant `y0` and price.
//!
//! All arithmetic follows EVM `uint256`/`int256` semantics: `+ - *` wrap at
//! 2^256 and division truncates.
use vstd::prelude::*;
use crate::uint::{add_w, group_uint, lemma_wrap_u, modulus, mul_w, pow2, U256};
use crate::constants::{wad, wad_spec};
pub use crate::exp::wad_exp;
use crate::exp::wad_exp_spec;
use crate::uint::{in_i256, I256};

verus! {

broadcast use group_uint;

/// `r` is the integer square root (floor) of `x`.
pub open spec fn is_isqrt(x: nat, r: nat) -> bool {
    r * r <= x && x < (r + 1) * (r + 1)
}

/// The integer square root (floor) of `x`.
pub open spec fn isqrt(x: nat) -> nat
    decreases x,
{
    if x == 0 {
        0
    } else {
        let r = isqrt((x - 1) as nat);
        if (r + 1) * (r + 1) <= x {
            r + 1
        } else {
            r
        }
    }
}

pub proof fn lemma_isqrt(x: nat)
    ensures
        is_isqrt(x, isqrt(x)),
    decreases x,
{
    if x > 0 {
        lemma_isqrt((x - 1) as nat);
        let r = isqrt((x - 1) as nat);
        if (r + 1) * (r + 1) <= x {
            assert(x < (r + 2) * (r + 2)) by (nonlinear_arith)
                requires
                    x - 1 < (r + 1) * (r + 1),
            ;
            assert(isqrt(x) == r + 1);
            assert(((r + 1) + 1) * ((r + 1) + 1) == (r + 2) * (r + 2));
        } else {
            assert(isqrt(x) == r);
        }
    } else {
        assert(isqrt(0) == 0);
        assert((0nat + 1) * (0nat + 1) == 1) by (nonlinear_arith);
    }
}

pub proof fn lemma_isqrt_unique(x: nat, r: nat)
    requires
        is_isqrt(x, r),
    ensures
        r == isqrt(x),
{
    lemma_isqrt(x);
    let s = isqrt(x);
    if r < s {
        assert((r + 1) * (r + 1) <= s * s) by (nonlinear_arith)
            requires
                r + 1 <= s,
        ;
    }
    if s < r {
        assert((s + 1) * (s + 1) <= r * r) by (nonlinear_arith)
            requires
                s + 1 <= r,
        ;
    }
}

/// One Babylonian step from `z >= 1` never lands below the square root.
proof fn lemma_babylonian_above(x: nat, z: nat)
    requires
        z >= 1,
    ensures
        x < ((x / z + z) / 2 + 1) * ((x / z + z) / 2 + 1),
{
    let q = x / z;
    let n = (q + z) / 2;
    assert(x < (q + 1) * z) by (nonlinear_arith)
        requires
            q == x / z,
            z >= 1,
    ;
    assert(2 * (n + 1) >= q + 1 + z);
    assert(4 * (q + 1) * z <= (q + 1 + z) * (q + 1 + z)) by (nonlinear_arith);
    assert(4 * x < (2 * (n + 1)) * (2 * (n + 1))) by (nonlinear_arith)
        requires
            x < (q + 1) * z,
            4 * (q + 1) * z <= (q + 1 + z) * (q + 1 + z),
            2 * (n + 1) >= q + 1 + z,
            q + 1 + z >= 0,
    ;
    assert(x < (n + 1) * (n + 1)) by (nonlinear_arith)
        requires
            4 * x < (2 * (n + 1)) * (2 * (n + 1)),
    ;
}

/// A Babylonian step that does not decrease stops at the floor square root.
proof fn lemma_babylonian_stop(x: nat, y: nat)
    requires
        y >= 1,
        (x / y + y) / 2 >= y,
    ensures
        y * y <= x,
{
    let q = x / y;
    assert(q >= y);
    assert(y * q <= x) by (nonlinear_arith)
        requires
            q == x / y,
            y >= 1,
    ;
    assert(y * y <= y * q) by (nonlinear_arith)
        requires
            q >= y,
    ;
}

/// The step stays below `x + 1` for `1 <= z <= x`.
proof fn lemma_babylonian_small(x: nat, z: nat)
    requires
        1 <= z <= x,
    ensures
        x / z + z <= x + 1,
{
    let q = x / z;
    assert(q * z <= x) by (nonlinear_arith)
        requires
            q == x / z,
            z >= 1,
    ;
    assert((z - 1) * (x - z) >= 0) by (nonlinear_arith)
        requires
            1 <= z <= x,
    ;
    assert((q + z) * z <= (x + 1) * z) by (nonlinear_arith)
        requires
            q * z <= x,
            (z - 1) * (x - z) >= 0,
    ;
    assert(q + z <= x + 1) by (nonlinear_arith)
        requires
            (q + z) * z <= (x + 1) * z,
            z >= 1,
    ;
}

/// Integer square root (floor), by the Babylonian method.
///
/// Defined on all 256-bit values, as the EVM `isqrt` is: the largest value
/// `2^256 - 1`, for which the iteration's `x + 1` would wrap to zero, has the
/// root `2^128 - 1`.
pub fn sqrt_int(x: U256) -> (r: U256)
    ensures
        is_isqrt(x@, r@),
        r@ == isqrt(x@),
{
    let max = U256::from_limbs([u64::MAX, u64::MAX, u64::MAX, u64::MAX]);
    if x.eq(&max) {
        let r = U256::from_u128(u128::MAX);
        proof {
            let m = 0xffff_ffff_ffff_ffff_ffff_ffff_ffff_ffffnat;
            assert(x@ == modulus() - 1);
            assert(m * m <= x@ && x@ < (m + 1) * (m + 1)) by (nonlinear_arith)
                requires
                    m == 0xffff_ffff_ffff_ffff_ffff_ffff_ffff_ffffnat,
                    x@ == modulus() - 1,
            ;
            lemma_isqrt_unique(x@, m);
        }
        return r;
    }
    if x.is_zero() {
        proof {
            assert(is_isqrt(0, 0)) by (nonlinear_arith);
            lemma_isqrt_unique(0, 0);
        }
        return U256::zero();
    }
    assert(pow2(1) == 2) by {
        reveal_with_fuel(pow2, 2);
    }
    let one = U256::from_u64(1);
    let mut z = x.add(one).shr(1);
    let mut y = x;
    proof {
        lemma_wrap_u(x@ + 1int);
        assert(x@ / x@ == 1) by (nonlinear_arith)
            requires
                x@ >= 1,
        ;
        lemma_babylonian_above(x@, x@);
        assert(x@ < (x@ + 1) * (x@ + 1)) by (nonlinear_arith)
            requires
                x@ >= 1,
        ;
    }
    while z.lt(&y)
        invariant
            1 <= y@ <= x@,
            x@ + 1 < modulus(),
            x@ < (y@ + 1) * (y@ + 1),
            z@ == (x@ / y@ + y@) / 2,
            x@ < (z@ + 1) * (z@ + 1),
            pow2(1) == 2,
        decreases y@,
    {
        proof {
            assert(z@ >= 1) by (nonlinear_arith)
                requires
                    x@ < (z@ + 1) * (z@ + 1),
                    x@ >= 1,
            ;
            lemma_babylonian_small(x@, z@);
            lemma_babylonian_above(x@, z@);
            lemma_wrap_u((x@ / z@ + z@) as int);
        }
        y = z;
        z = x.div(z).add(z).shr(1);
    }
    proof {
        lemma_babylonian_stop(x@, y@);
        lemma_isqrt_unique(x@, y@);
    }
    y
}

/// A quarter of the fixed-point unit.
pub open spec fn quarter_wad() -> nat {
    wad_spec() / 4
}

/// The lower bound `p_o^3 / p_o_up^2` of the fee-free price range.
pub open spec fn p_c_d_spec(p_o: nat, p_o_up: nat) -> nat {
    mul_w(mul_w(p_o, p_o) / p_o_up, p_o) / p_o_up
}

/// The upper bound `p_c_d * (A / (A - 1))^2` of the fee-free price range.
pub open spec fn p_c_u_spec(p_c_d: nat, a: nat, a_minus_1: nat) -> nat {
    mul_w(mul_w(p_c_d, a) / a_minus_1, a) / a_minus_1
}

/// Dynamic fee from the divergence between the oracle price `p_o` and the
/// band's fee-free range.
pub open spec fn dynamic_fee_spec(p_o: nat, p_o_up: nat, a: nat, a_minus_1: nat) -> nat {
    let p_c_d = p_c_d_spec(p_o, p_o_up);
    let p_c_u = p_c_u_spec(p_c_d, a, a_minus_1);
    if p_o < p_c_d {
        mul_w((p_c_d - p_o) as nat, quarter_wad()) / p_c_d
    } else if p_o > p_c_u {
        mul_w((p_o - p_c_u) as nat, quarter_wad()) / p_o
    } else {
        0
    }
}

proof fn lemma_fee_fraction(d: nat, den: nat)
    requires
        d <= den,
        den > 0,
    ensures
        mul_w(d, quarter_wad()) / den <= quarter_wad(),
{
    let q = quarter_wad();
    let m = mul_w(d, q);
    assert(m <= d * q) by {
        crate::uint::lemma_wrap_u(d as int * q as int);
    }
    assert(d * q <= den * q) by (nonlinear_arith)
        requires
            d <= den,
            q > 0,
    ;
    vstd::arithmetic::div_mod::lemma_div_is_ordered(m as int, (den * q) as int, den as int);
    vstd::arithmetic::mul::lemma_mul_is_commutative(den as int, q as int);
    vstd::arithmetic::div_mod::lemma_div_by_multiple(q as int, den as int);
}

/// Dynamic fee based on oracle/AMM price divergence.
///
/// Returns `(p_c_d - p_o) / p_c_d / 4` below the fee-free range,
/// `(p_o - p_c_u) / p_o / 4` above it, and zero inside it (in 1e18 units); the
/// fee never exceeds a quarter of the unit.
pub fn get_dynamic_fee(p_o: U256, p_o_up: U256, a: U256, a_minus_1: U256) -> (r: U256)
    requires
        p_o_up@ > 0,
        a_minus_1@ > 0,
    ensures
        r@ == dynamic_fee_spec(p_o@, p_o_up@, a@, a_minus_1@),
        r@ <= quarter_wad(),
{
    let p_c_d = p_o.mul(p_o).div(p_o_up).mul(p_o).div(p_o_up);
    let p_c_u = p_c_d.mul(a).div(a_minus_1).mul(a).div(a_minus_1);
    let quarter_wad = wad().div(U256::from_u64(4));
    if p_o.lt(&p_c_d) {
        proof {
            lemma_fee_fraction((p_c_d@ - p_o@) as nat, p_c_d@);
            lemma_wrap_u(p_c_d@ - p_o@);
        }
        p_c_d.sub(p_o).mul(quarter_wad).div(p_c_d)
    } else if p_c_u.lt(&p_o) {
        proof {
            lemma_fee_fraction((p_o@ - p_c_u@) as nat, p_o@);
            lemma_wrap_u(p_o@ - p_c_u@);
        }
        p_o.sub(p_c_u).mul(quarter_wad).div(p_o)
    } else {
        U256::zero()
    }
}

/// The intermediate `b` of `get_y0`.
pub open spec fn y0_b_spec(x: nat, y: nat, p_o: nat, p_o_up: nat, a: nat, a_minus_1: nat) -> nat {
    let b1: nat = if x != 0 {
        mul_w(mul_w(p_o_up, a_minus_1), x) / p_o
    } else {
        0
    };
    if y != 0 {
        add_w(b1, mul_w(mul_w(mul_w(a, p_o), p_o) / p_o_up, y) / wad_spec())
    } else {
        b1
    }
}

/// The discriminant `D = b^2 + 4 A p_o y x` of `get_y0` (both amounts non-zero).
pub open spec fn y0_d_spec(x: nat, y: nat, p_o: nat, b: nat, a: nat) -> nat {
    add_w(mul_w(b, b), mul_w(mul_w(mul_w(mul_w(4, a), p_o), y) / wad_spec(), x))
}

/// `y0`: the collateral a band would hold with no borrowed tokens when the
/// current price equals both the oracle price and the band's upper price.
/// `None` when the oracle price is zero.
pub open spec fn y0_spec(x: nat, y: nat, p_o: nat, p_o_up: nat, a: nat, a_minus_1: nat) -> Option<
    nat,
> {
    if p_o == 0 {
        None
    } else {
        let b = y0_b_spec(x, y, p_o, p_o_up, a, a_minus_1);
        if x != 0 && y != 0 {
            let d = y0_d_spec(x, y, p_o, b, a);
            Some(mul_w(add_w(b, isqrt(d)), wad_spec()) / mul_w(mul_w(2, a), p_o))
        } else {
            Some(mul_w(b, wad_spec()) / mul_w(a, p_o))
        }
    }
}

/// The inputs on which `get_y0` divides only by non-zero values.
pub open spec fn y0_computable(x: nat, y: nat, p_o: nat, p_o_up: nat, a: nat, a_minus_1: nat) -> bool {
    p_o == 0 || {
        &&& y != 0 ==> p_o_up != 0
        &&& x != 0 && y != 0 ==> {
            &&& mul_w(mul_w(2, a), p_o) != 0
        }
        &&& !(x != 0 && y != 0) ==> mul_w(a, p_o) != 0
    }
}

/// Calculate `y0`, the amount of collateral in a band when it holds no
/// borrowed tokens but the current price equals both the oracle price and
/// the band's upper price. Returns `None` when `p_o` is zero.
pub fn get_y0(x: U256, y: U256, p_o: U256, p_o_up: U256, a: U256, a_minus_1: U256) -> (r: Option<
    U256,
>)
    requires
        y0_computable(x@, y@, p_o@, p_o_up@, a@, a_minus_1@),
    ensures
        r is None <==> p_o@ == 0,
        r matches Some(v) ==> Some(v@) == y0_spec(x@, y@, p_o@, p_o_up@, a@, a_minus_1@),
{
    if p_o.is_zero() {
        return None;
    }
    let w = wad();
    let mut b = U256::zero();
    if !x.is_zero() {
        b = p_o_up.mul(a_minus_1).mul(x).div(p_o);
    }
    if !y.is_zero() {
        b = b.add(a.mul(p_o).mul(p_o).div(p_o_up).mul(y).div(w));
    }
    assert(b@ == y0_b_spec(x@, y@, p_o@, p_o_up@, a@, a_minus_1@));
    if !x.is_zero() && !y.is_zero() {
        let d = b.mul(b).add(U256::from_u64(4).mul(a).mul(p_o).mul(y).div(w).mul(x));
        let s = sqrt_int(d);
        Some(b.add(s).mul(w).div(U256::from_u64(2).mul(a).mul(p_o)))
    } else {
        Some(b.mul(w).div(a.mul(p_o)))
    }
}

/// The price inside a band holding `x` borrowed and `y` collateral tokens.
/// `None` when the band's upper price is zero, or when `get_y0` is `None`.
pub open spec fn get_p_spec(x: nat, y: nat, p_o: nat, p_o_up: nat, a: nat, a_minus_1: nat) -> Option<
    nat,
> {
    if p_o_up == 0 {
        None
    } else if x == 0 {
        if y == 0 {
            Some(mul_w(p_c_d_spec(p_o, p_o_up), a) / a_minus_1)
        } else {
            Some(p_c_d_spec(p_o, p_o_up))
        }
    } else if y == 0 {
        let p_o_down = mul_w(p_o_up, a_minus_1) / a;
        Some(mul_w(mul_w(p_o, p_o) / p_o_down, p_o) / p_o_down)
    } else {
        match y0_spec(x, y, p_o, p_o_up, a, a_minus_1) {
            None => None,
            Some(y0) => {
                let f = mul_w(mul_w(mul_w(a, y0), p_o) / p_o_up, p_o);
                let g = mul_w(mul_w(a_minus_1, y0), p_o_up) / p_o;
                Some(add_w(f, mul_w(x, wad_spec())) / add_w(g, y))
            },
        }
    }
}

/// The inputs on which `get_p` divides only by non-zero values.
pub open spec fn get_p_computable(x: nat, y: nat, p_o: nat, p_o_up: nat, a: nat, a_minus_1: nat) -> bool {
    p_o_up == 0 || {
        &&& x == 0 && y == 0 ==> a_minus_1 != 0
        &&& x != 0 && y == 0 ==> a != 0 && mul_w(p_o_up, a_minus_1) / a != 0
        &&& x != 0 && y != 0 ==> {
            &&& y0_computable(x, y, p_o, p_o_up, a, a_minus_1)
            &&& y0_spec(x, y, p_o, p_o_up, a, a_minus_1) matches Some(y0) ==> add_w(
                mul_w(mul_w(a_minus_1, y0), p_o_up) / p_o,
                y,
            ) != 0
        }
    }
}

/// Current AMM price in a band holding `x` borrowed and `y` collateral tokens,
/// given the oracle price `p_o` and the band's upper price `p_o_up`.
pub fn get_p(x: U256, y: U256, p_o: U256, p_o_up: U256, a: U256, a_minus_1: U256) -> (r: Option<
    U256,
>)
    requires
        get_p_computable(x@, y@, p_o@, p_o_up@, a@, a_minus_1@),
    ensures
        r is Some <==> get_p_spec(x@, y@, p_o@, p_o_up@, a@, a_minus_1@) is Some,
        r matches Some(v) ==> Some(v@) == get_p_spec(x@, y@, p_o@, p_o_up@, a@, a_minus_1@),
{
    if p_o_up.is_zero() {
        return None;
    }
    if x.is_zero() {
        if y.is_zero() {
            return Some(p_o.mul(p_o).div(p_o_up).mul(p_o).div(p_o_up).mul(a).div(a_minus_1));
        }
        return Some(p_o.mul(p_o).div(p_o_up).mul(p_o).div(p_o_up));
    }
    if y.is_zero() {
        let p_o_down = p_o_up.mul(a_minus_1).div(a);
        return Some(p_o.mul(p_o).div(p_o_down).mul(p_o).div(p_o_down));
    }
    let y0 = match get_y0(x, y, p_o, p_o_up, a, a_minus_1) {
        Some(v) => v,
        None => {
            return None;
        },
    };
    let f = a.mul(y0).mul(p_o).div(p_o_up).mul(p_o);
    let g = a_minus_1.mul(y0).mul(p_o_up).div(p_o);
    Some(f.add(x.mul(wad())).div(g.add(y)))
}

/// Upper oracle price of band `n`: `base_price * e^(-n * log_a_ratio) / 1e18`;
/// `None` when the exponential overflows or is at most 1000.
pub open spec fn p_oracle_up_spec(n: int, base_price: nat, log_a_ratio: int) -> Option<nat> {
    match wad_exp_spec(-n * log_a_ratio) {
        None => None,
        Some(e) => if e <= 1000 {
            None
        } else {
            Some(mul_w(base_price, e) / wad_spec())
        },
    }
}

/// The bands `n` for which `-n * log_a_ratio` is computed without overflow.
pub open spec fn band_power_in_range(n: int, log_a_ratio: int) -> bool {
    n > i64::MIN && in_i256(-n * log_a_ratio)
}

/// Upper oracle price for band `n`.
///
/// `base_price` is already adjusted for the rate multiplier by the caller.
pub fn p_oracle_up(n: i64, base_price: U256, log_a_ratio: I256) -> (r: Option<U256>)
    requires
        band_power_in_range(n as int, log_a_ratio@),
    ensures
        r is Some <==> p_oracle_up_spec(n as int, base_price@, log_a_ratio@) is Some,
        r matches Some(v) ==> Some(v@) == p_oracle_up_spec(n as int, base_price@, log_a_ratio@),
{
    let neg = match I256::from_i128((-n) as i128) {
        Some(v) => v,
        None => {
            return None;
        },
    };
    let power = neg.mul(log_a_ratio);
    let exp_result = match wad_exp(power) {
        Some(v) => v,
        None => {
            return None;
        },
    };
    if !U256::from_u64(1000).lt(&exp_result) {
        return None;
    }
    Some(base_price.mul(exp_result).div(wad()))
}

/// Lower oracle price for band `n`, which is the upper price of band `n + 1`.
pub fn p_oracle_down(n: i64, base_price: U256, log_a_ratio: I256) -> (r: Option<U256>)
    requires
        n < i64::MAX,
        band_power_in_range(n + 1, log_a_ratio@),
    ensures
        r is Some <==> p_oracle_up_spec(n + 1, base_price@, log_a_ratio@) is Some,
        r matches Some(v) ==> Some(v@) == p_oracle_up_spec(n + 1, base_price@, log_a_ratio@),
{
    p_oracle_up(n + 1, base_price, log_a_ratio)
}

proof fn lemma_floor_div_mono(x: int, y: int, d: int)
    requires
        0 <= x <= y,
        d > 0,
    ensures
        x / d <= y / d,
        0 <= x / d,
{
    vstd::arithmetic::div_mod::lemma_div_is_ordered(x, y, d);
    vstd::arithmetic::div_mod::lemma_div_pos_is_pos(x, d);
}

proof fn lemma_floor_div_le(x: int, d: int)
    requires
        0 <= x,
        d > 0,
    ensures
        (x / d) * d <= x,
        x < (x / d) * d + d,
        0 <= x / d,
{
    vstd::arithmetic::div_mod::lemma_fundamental_div_mod(x, d);
    vstd::arithmetic::div_mod::lemma_mod_bound(x, d);
    vstd::arithmetic::div_mod::lemma_div_pos_is_pos(x, d);
    vstd::arithmetic::mul::lemma_mul_is_commutative(x / d, d);
}

/// Prices within a band are ordered: the price of a band holding only
/// collateral (its lowest) is at most that of an empty band, which is at most
/// that of a band holding only borrowed tokens (its highest), for `A >= A - 1
/// >= 1` and magnitudes for which no 256-bit product overflows
/// (`p_o^3 * A < 2^256` and `p_o_up * (A - 1) < 2^256`).
pub proof fn lemma_band_prices_ordered(x: nat, y: nat, p_o: nat, p_o_up: nat, a: nat, a_minus_1: nat)
    requires
        x > 0,
        y > 0,
        p_o_up > 0,
        1 <= a_minus_1 <= a,
        p_o_up * a_minus_1 / a > 0,
        p_o * p_o * p_o * a < modulus(),
        p_o_up * a_minus_1 < modulus(),
    ensures
        get_p_spec(0, y, p_o, p_o_up, a, a_minus_1) matches Some(down) && get_p_spec(
            0,
            0,
            p_o,
            p_o_up,
            a,
            a_minus_1,
        ) matches Some(mid) && get_p_spec(x, 0, p_o, p_o_up, a, a_minus_1) matches Some(up) && down
            <= mid && mid <= up,
{
    let pp = p_o * p_o;
    let ppp = pp * p_o;
    assert(pp <= ppp && ppp <= ppp * a && pp * a <= ppp * a) by (nonlinear_arith)
        requires
            pp == p_o * p_o,
            ppp == pp * p_o,
            a >= 1,
    ;
    crate::uint::lemma_wrap_u(pp as int);
    let aa = pp / p_o_up;
    lemma_floor_div_le(pp as int, p_o_up as int);
    assert(aa * p_o <= ppp) by (nonlinear_arith)
        requires
            aa * p_o_up <= pp,
            p_o_up >= 1,
            ppp == pp * p_o,
    ;
    crate::uint::lemma_wrap_u((aa * p_o) as int);
    let c = aa * p_o / p_o_up;
    lemma_floor_div_le((aa * p_o) as int, p_o_up as int);
    assert(c <= ppp);
    assert(c * a <= ppp * a) by (nonlinear_arith)
        requires
            c <= ppp,
    ;
    crate::uint::lemma_wrap_u((c * a) as int);
    let mid = c * a / a_minus_1;
    assert(c <= mid) by {
        assert(c * a_minus_1 <= c * a) by (nonlinear_arith)
            requires
                a_minus_1 <= a,
        ;
        vstd::arithmetic::div_mod::lemma_div_by_multiple(c as int, a_minus_1 as int);
        lemma_floor_div_mono((c * a_minus_1) as int, (c * a) as int, a_minus_1 as int);
    }
    // the band's highest price
    crate::uint::lemma_wrap_u((p_o_up * a_minus_1) as int);
    let d = p_o_up * a_minus_1 / a;
    lemma_floor_div_le((p_o_up * a_minus_1) as int, a as int);
    let e = pp / d;
    lemma_floor_div_le(pp as int, d as int);
    // e >= aa * a / a_minus_1 since d * a <= p_o_up * a_minus_1
    let a2 = aa * a / a_minus_1;
    lemma_floor_div_le((aa * a) as int, a_minus_1 as int);
    assert(a2 <= e) by (nonlinear_arith)
        requires
            a2 * a_minus_1 <= aa * a,
            aa * p_o_up <= pp,
            d * a <= p_o_up * a_minus_1,
            pp < e * d + d,
            d >= 1,
            a >= 1,
            a_minus_1 >= 1,
            p_o_up >= 1,
    ;
    assert(aa <= a2) by {
        assert(aa * a_minus_1 <= aa * a) by (nonlinear_arith)
            requires
                a_minus_1 <= a,
        ;
        vstd::arithmetic::div_mod::lemma_div_by_multiple(aa as int, a_minus_1 as int);
        lemma_floor_div_mono((aa * a_minus_1) as int, (aa * a) as int, a_minus_1 as int);
    }
    assert(e * d <= pp);
    assert(e * p_o <= ppp) by (nonlinear_arith)
        requires
            e * d <= pp,
            d >= 1,
            ppp == pp * p_o,
    ;
    crate::uint::lemma_wrap_u((e * p_o) as int);
    let up = e * p_o / d;
    // up >= mid: mid * d <= c * p_o_up <= aa * p_o <= e * p_o < (up + 1) * d
    lemma_floor_div_le((e * p_o) as int, d as int);
    lemma_floor_div_le((c * a) as int, a_minus_1 as int);
    assert(mid * d * a_minus_1 <= c * p_o_up * a_minus_1) by (nonlinear_arith)
        requires
            mid * a_minus_1 <= c * a,
            d * a <= p_o_up * a_minus_1,
    ;
    assert(mid * d <= c * p_o_up) by (nonlinear_arith)
        requires
            mid * d * a_minus_1 <= c * p_o_up * a_minus_1,
            a_minus_1 >= 1,
    ;
    assert(aa * p_o <= e * p_o) by (nonlinear_arith)
        requires
            aa <= e,
    ;
    assert(mid <= up) by (nonlinear_arith)
        requires
            mid * d <= e * p_o,
            e * p_o < up * d + d,
            d >= 1,
    ;
}

/// For a band holding only collateral, `y0` is `y * p_o / p_o_up` up to
/// rounding: `y0 * p_o_up <= y * p_o`, and `y * p_o` falls short of
/// `(y0 + 1) * p_o_up` by less than `(1e18 + y) * p_o_up / (A * p_o)`; so `y0`
/// grows with `y` (with `p_o == p_o_up`, `y0` is `y` up to one unit for
/// `1e18 + y <= A * p_o`). Stated where no 256-bit product overflows.
pub proof fn lemma_y0_collateral_only(y: nat, p_o: nat, p_o_up: nat, a: nat, a_minus_1: nat)
    requires
        y > 0,
        p_o > 0,
        p_o_up > 0,
        a > 0,
        a * p_o * p_o * y < modulus(),
    ensures
        y0_spec(0, y, p_o, p_o_up, a, a_minus_1) matches Some(y0) && y0 * p_o_up <= y * p_o && y
            * p_o * (a * p_o) < (y0 + 1) * p_o_up * (a * p_o) + (wad_spec() + y) * p_o_up,
{
    let w = wad_spec();
    let ap = a * p_o;
    let app = ap * p_o;
    assert(ap <= app && app <= app * y && ap >= 1) by (nonlinear_arith)
        requires
            a > 0,
            p_o > 0,
            y > 0,
            ap == a * p_o,
            app == ap * p_o,
    ;
    lemma_wrap_u(ap as int);
    lemma_wrap_u(app as int);
    let c = app / p_o_up;
    lemma_floor_div_le(app as int, p_o_up as int);
    assert(c * y <= app * y) by (nonlinear_arith)
        requires
            c * p_o_up <= app,
            p_o_up >= 1,
    ;
    lemma_wrap_u((c * y) as int);
    let b = (c * y) / w;
    lemma_floor_div_le((c * y) as int, w as int);
    lemma_wrap_u((b * w) as int);
    lemma_wrap_u((0 + b) as int);
    assert(y0_b_spec(0, y, p_o, p_o_up, a, a_minus_1) == b);
    let y0 = (b * w) / ap;
    lemma_floor_div_le((b * w) as int, ap as int);
    assert(y0_spec(0, y, p_o, p_o_up, a, a_minus_1) == Some(y0));
    // upper: y0 * a * p_o <= b * w <= c * y, c * p_o_up <= a * p_o^2
    assert(y0 * p_o_up <= y * p_o) by (nonlinear_arith)
        requires
            y0 * ap <= b * w,
            b * w <= c * y,
            c * p_o_up <= ap * p_o,
            ap > 0,
            p_o_up > 0,
    ;
    // lower: a p_o^2 y < (c + 1) p_o_up y < ((b + 1) w + y) p_o_up
    //        < (y0 + 1) a p_o p_o_up + (w + y) p_o_up
    assert(y * p_o * ap < (y0 + 1) * p_o_up * ap + (w + y) * p_o_up) by (nonlinear_arith)
        requires
            app < c * p_o_up + p_o_up,
            c * y < b * w + w,
            b * w < y0 * ap + ap,
            app == ap * p_o,
            y > 0,
            p_o_up > 0,
    ;
}

/// The upper bound `U * A * x / p_o + A * p_o^2 * y / (U * 1e18)` on the
/// intermediate `b` of `get_y0`.
pub open spec fn y0_b_bound(x: nat, y: nat, p_o: nat, p_o_up: nat, a: nat) -> nat {
    p_o_up * a * x / p_o + a * p_o * p_o * y / (p_o_up * wad_spec())
}

/// Adding borrowed tokens to a band never lowers `y0`: the `y0` of a band
/// holding `x > 0` and `y > 0` is at least that of the band holding `y` alone.
proof fn lemma_y0_two_sided_ge(x: nat, y: nat, p_o: nat, p_o_up: nat, a: nat, a_minus_1: nat)
    requires
        x > 0,
        y > 0,
        p_o > 0,
        p_o_up > 0,
        1 <= a_minus_1 <= a,
        a * p_o * p_o * y < modulus(),
        p_o_up * a * x < modulus(),
        y0_b_bound(x, y, p_o, p_o_up, a) * y0_b_bound(x, y, p_o, p_o_up, a) + 4 * a * p_o * y * x
            < modulus(),
    ensures
        y0_spec(x, y, p_o, p_o_up, a, a_minus_1) matches Some(y2) && y0_spec(
            0,
            y,
            p_o,
            p_o_up,
            a,
            a_minus_1,
        ) matches Some(y1) && y1 <= y2,
{
    let w = wad_spec();
    let bb = y0_b_bound(x, y, p_o, p_o_up, a);
    // b1 = U (A-1) x / p_o, exactly
    assert(p_o_up * a_minus_1 * x <= p_o_up * a * x) by (nonlinear_arith)
        requires
            a_minus_1 <= a,
    ;
    assert(p_o_up * a_minus_1 <= p_o_up * a_minus_1 * x) by (nonlinear_arith)
        requires
            x >= 1,
    ;
    lemma_wrap_u((p_o_up * a_minus_1) as int);
    lemma_wrap_u((p_o_up * a_minus_1 * x) as int);
    let b1 = (p_o_up * a_minus_1 * x) / p_o;
    vstd::arithmetic::div_mod::lemma_div_is_ordered(
        (p_o_up * a_minus_1 * x) as int,
        (p_o_up * a * x) as int,
        p_o as int,
    );
    // b_y = (A p_o^2 / U) y / 1e18, exactly
    let ap = a * p_o;
    let app = ap * p_o;
    assert(ap <= app && app <= app * y) by (nonlinear_arith)
        requires
            p_o >= 1,
            y >= 1,
            ap == a * p_o,
            app == ap * p_o,
    ;
    lemma_wrap_u(ap as int);
    lemma_wrap_u(app as int);
    let c = app / p_o_up;
    lemma_floor_div_le(app as int, p_o_up as int);
    assert(c * y <= app * y) by (nonlinear_arith)
        requires
            c * p_o_up <= app,
            p_o_up >= 1,
    ;
    lemma_wrap_u((c * y) as int);
    let by_ = (c * y) / w;
    // c * y <= A p_o^2 y / U, so b_y <= A p_o^2 y / (U 1e18)
    assert(c * y * p_o_up <= app * y) by (nonlinear_arith)
        requires
            c * p_o_up <= app,
    ;
    vstd::arithmetic::div_mod::lemma_div_is_ordered(
        (c * y * p_o_up) as int,
        (app * y) as int,
        p_o_up as int,
    );
    vstd::arithmetic::div_mod::lemma_div_by_multiple((c * y) as int, p_o_up as int);
    vstd::arithmetic::div_mod::lemma_div_is_ordered(
        (c * y) as int,
        ((app * y) / p_o_up) as int,
        w as int,
    );
    vstd::arithmetic::div_mod::lemma_div_denominator((app * y) as int, p_o_up as int, w as int);
    assert(app * y == a * p_o * p_o * y) by (nonlinear_arith)
        requires
            ap == a * p_o,
            app == ap * p_o,
    ;
    assert(by_ <= a * p_o * p_o * y / (p_o_up * w));
    let b = b1 + by_;
    assert(b <= bb);
    assert(b < modulus()) by (nonlinear_arith)
        requires
            b <= bb,
            bb * bb + 4 * a * p_o * y * x < modulus(),
            a >= 1,
            p_o >= 1,
            y >= 1,
            x >= 1,
    ;
    lemma_wrap_u(b as int);
    assert(mul_w(mul_w(p_o_up, a_minus_1), x) / p_o == b1);
    assert(mul_w(mul_w(mul_w(a, p_o), p_o) / p_o_up, y) / wad_spec() == by_);
    assert(y0_b_spec(x, y, p_o, p_o_up, a, a_minus_1) == b);
    // the discriminant is computed exactly and is at least b^2
    assert(b * b <= bb * bb) by (nonlinear_arith)
        requires
            b <= bb,
    ;
    let q = 4 * a * p_o * y;
    assert(q <= q * x) by (nonlinear_arith)
        requires
            x >= 1,
    ;
    assert(4 * a <= q && 4 * a * p_o <= q) by (nonlinear_arith)
        requires
            q == 4 * a * p_o * y,
            p_o >= 1,
            y >= 1,
    ;
    lemma_wrap_u((4 * a) as int);
    lemma_wrap_u((4 * a * p_o) as int);
    lemma_wrap_u(q as int);
    lemma_floor_div_le(q as int, w as int);
    assert((q / w) * x <= q * x) by (nonlinear_arith)
        requires
            (q / w) * w <= q,
            w >= 1,
    ;
    lemma_wrap_u(((q / w) * x) as int);
    lemma_wrap_u((b * b) as int);
    let d = b * b + (q / w) * x;
    lemma_wrap_u(d as int);
    assert(y0_d_spec(x, y, p_o, b, a) == d);
    let sq = isqrt(d);
    lemma_isqrt(d);
    if sq < b {
        assert((sq + 1) * (sq + 1) <= b * b) by (nonlinear_arith)
            requires
                sq + 1 <= b,
        ;
    }
    assert(sq >= b);
    // both below 2^128, so (b + sq) * 1e18 fits
    let h: nat = 0x1_0000_0000_0000_0000_0000_0000_0000_0000nat;
    assert(h * h == modulus());
    if sq >= h {
        assert(sq * sq >= h * h) by (nonlinear_arith)
            requires
                sq >= h,
        ;
    }
    if b >= h {
        assert(b * b >= h * h) by (nonlinear_arith)
            requires
                b >= h,
        ;
    }
    lemma_wrap_u((b + sq) as int);
    lemma_wrap_u(((b + sq) * w) as int);
    assert(2 * a * p_o <= q) by (nonlinear_arith)
        requires
            q == 4 * a * p_o * y,
            y >= 1,
    ;
    lemma_wrap_u((2 * a) as int);
    lemma_wrap_u((2 * a * p_o) as int);
    let y2 = ((b + sq) * w) / (2 * a * p_o);
    assert(y0_spec(x, y, p_o, p_o_up, a, a_minus_1) == Some(y2));
    // y2 >= 2 b w / (2 A p_o) = b w / (A p_o) >= b_y w / (A p_o)
    assert(2 * a * p_o > 0) by (nonlinear_arith)
        requires
            a >= 1,
            p_o >= 1,
    ;
    assert(2 * b * w <= (b + sq) * w) by (nonlinear_arith)
        requires
            b <= sq,
    ;
    vstd::arithmetic::div_mod::lemma_div_is_ordered(
        (2 * b * w) as int,
        ((b + sq) * w) as int,
        (2 * a * p_o) as int,
    );
    assert(2 * b * w == 2 * (b * w) && 2 * a * p_o == 2 * ap) by (nonlinear_arith)
        requires
            ap == a * p_o,
    ;
    vstd::arithmetic::div_mod::lemma_div_multiples_vanish_quotient(2, (b * w) as int, ap as int);
    assert((b * w) / ap == (2 * b * w) / (2 * a * p_o));
    assert(by_ * w <= b * w) by (nonlinear_arith)
        requires
            by_ <= b,
    ;
    vstd::arithmetic::div_mod::lemma_div_is_ordered((by_ * w) as int, (b * w) as int, ap as int);
    lemma_y0_collateral_only(y, p_o, p_o_up, a, a_minus_1);
    lemma_wrap_u((by_ * w) as int);
    lemma_wrap_u((0 + by_) as int);
    assert(y0_b_spec(0, y, p_o, p_o_up, a, a_minus_1) == by_);
    assert(y0_spec(0, y, p_o, p_o_up, a, a_minus_1) == Some((by_ * w) / ap));
}

/// A band holding both tokens is priced no lower than the band's lowest price
/// `get_p(0, y)` (that of a band holding only collateral), up to rounding:
/// `A * U * y * (low - p - 1) < A * U * p_o + A * p_o^2 + (1e18 + y) * p_o`,
/// where `U` is the band's upper price, so the rounding term per unit of `y`
/// is a few multiples of `p_o / y`. Stated where no 256-bit product
/// overflows.
pub proof fn lemma_price_above_band_low(x: nat, y: nat, p_o: nat, p_o_up: nat, a: nat, a_minus_1: nat)
    requires
        x > 0,
        y > 0,
        p_o > 0,
        p_o_up > 0,
        1 <= a_minus_1 < a,
        a * p_o * p_o * y < modulus(),
        p_o * p_o * p_o < modulus(),
        p_o_up * a * x < modulus(),
        y0_b_bound(x, y, p_o, p_o_up, a) * y0_b_bound(x, y, p_o, p_o_up, a) + 4 * a * p_o * y * x
            < modulus(),
        y0_spec(x, y, p_o, p_o_up, a, a_minus_1) matches Some(y0) ==> a * y0 * p_o * p_o + x
            * wad_spec() < modulus() && a * y0 * p_o_up + y < modulus(),
    ensures
        get_p_spec(x, y, p_o, p_o_up, a, a_minus_1) matches Some(p) && get_p_spec(
            0,
            y,
            p_o,
            p_o_up,
            a,
            a_minus_1,
        ) matches Some(low) && a * p_o_up * y * low < a * p_o_up * y * (p + 1) + (a * p_o_up * p_o
            + a * p_o * p_o + (wad_spec() + y) * p_o),
{
    let w = wad_spec();
    let pp = p_o;
    let u = p_o_up;
    lemma_y0_two_sided_ge(x, y, pp, u, a, a_minus_1);
    lemma_y0_collateral_only(y, pp, u, a, a_minus_1);
    let y0 = y0_spec(x, y, pp, u, a, a_minus_1).unwrap();
    let y1 = y0_spec(0, y, pp, u, a, a_minus_1).unwrap();
    let ap = a * pp;
    // (A): y p_o (A p_o) < (y0 + 1) U (A p_o) + (1e18 + y) U
    assert(y * pp * ap < (y0 + 1) * u * ap + (w + y) * u) by (nonlinear_arith)
        requires
            y * pp * ap < (y1 + 1) * u * ap + (w + y) * u,
            y1 <= y0,
            u > 0,
            ap >= 0,
    ;
    // the lowest price c, with c U^2 <= p_o^3
    let p2 = pp * pp;
    let p3 = p2 * pp;
    assert(p2 <= p3) by (nonlinear_arith)
        requires
            pp >= 1,
            p3 == p2 * pp,
    ;
    lemma_wrap_u(p2 as int);
    let k = p2 / u;
    lemma_floor_div_le(p2 as int, u as int);
    assert(k * pp <= p3) by (nonlinear_arith)
        requires
            k * u <= p2,
            u >= 1,
            p3 == p2 * pp,
    ;
    lemma_wrap_u((k * pp) as int);
    let c = (k * pp) / u;
    lemma_floor_div_le((k * pp) as int, u as int);
    assert(get_p_spec(0, y, pp, u, a, a_minus_1) == Some(c));
    assert(c * u * u <= p3) by (nonlinear_arith)
        requires
            c * u <= k * pp,
            k * u <= p2,
            p3 == p2 * pp,
    ;
    // f = floor(A y0 p_o / U) p_o and g = floor((A-1) y0 U / p_o), exactly
    let ay = a * y0;
    assert(ay <= ay * pp && ay * pp <= ay * pp * pp && ay * pp * pp == a * y0 * pp * pp) by (
    nonlinear_arith)
        requires
            pp >= 1,
            ay == a * y0,
    ;
    lemma_wrap_u(ay as int);
    lemma_wrap_u((ay * pp) as int);
    let fl = (ay * pp) / u;
    lemma_floor_div_le((ay * pp) as int, u as int);
    assert(fl * pp <= ay * pp * pp) by (nonlinear_arith)
        requires
            fl * u <= ay * pp,
            u >= 1,
    ;
    lemma_wrap_u((fl * pp) as int);
    let f = fl * pp;
    assert(a_minus_1 * y0 * u <= a * y0 * u && a_minus_1 * y0 <= a_minus_1 * y0 * u) by (
    nonlinear_arith)
        requires
            a_minus_1 <= a,
            u >= 1,
    ;
    lemma_wrap_u((a_minus_1 * y0) as int);
    lemma_wrap_u((a_minus_1 * y0 * u) as int);
    let g = (a_minus_1 * y0 * u) / pp;
    lemma_floor_div_le((a_minus_1 * y0 * u) as int, pp as int);
    assert(x <= x * w) by (nonlinear_arith)
        requires
            w >= 1,
    ;
    lemma_wrap_u((x * w) as int);
    lemma_wrap_u((f + x * w) as int);
    assert(g <= a * y0 * u) by (nonlinear_arith)
        requires
            g * pp <= a_minus_1 * y0 * u,
            a_minus_1 * y0 * u <= a * y0 * u,
            pp >= 1,
    ;
    lemma_wrap_u((g + y) as int);
    let n = f + x * w;
    let d = g + y;
    assert(get_p_spec(x, y, pp, u, a, a_minus_1) == Some(n / d));
    let p = n / d;
    lemma_floor_div_le(n as int, d as int);
    // a c d U^2 p_o <= a p_o^3 (A-1) y0 U + a p_o^4 y
    let p4 = p3 * pp;
    let x1 = a * c * u * u * d * pp;
    let cu2 = c * u * u;
    let t = a * d * pp;
    assert(x1 == t * cu2) by (nonlinear_arith)
        requires
            x1 == a * c * u * u * d * pp,
            cu2 == c * u * u,
            t == a * d * pp,
    ;
    vstd::arithmetic::mul::lemma_mul_inequality(cu2 as int, p3 as int, t as int);
    let ap3 = a * p3;
    vstd::arithmetic::mul::lemma_mul_inequality(
        (g * pp) as int,
        (a_minus_1 * y0 * u) as int,
        ap3 as int,
    );
    assert(p3 * t == ap3 * (g * pp) + a * p4 * y) by (nonlinear_arith)
        requires
            t == a * d * pp,
            d == g + y,
            ap3 == a * p3,
            p4 == p3 * pp,
    ;
    assert(x1 <= ap3 * (a_minus_1 * y0 * u) + a * p4 * y) by (nonlinear_arith)
        requires
            x1 == t * cu2,
            cu2 * t <= p3 * t,
            (g * pp) * ap3 <= (a_minus_1 * y0 * u) * ap3,
            p3 * t == ap3 * (g * pp) + a * p4 * y,
    ;
    // a p_o^4 y < a (y0 + 1) U p_o^3 + (1e18 + y) U p_o^2
    let lhs = y * pp * ap;
    let rhs = (y0 + 1) * u * ap + (w + y) * u;
    assert(p2 > 0) by (nonlinear_arith)
        requires
            p2 == pp * pp,
            pp >= 1,
    ;
    vstd::arithmetic::mul::lemma_mul_strict_inequality(lhs as int, rhs as int, p2 as int);
    assert(lhs * p2 == a * p4 * y && rhs * p2 == a * (y0 + 1) * u * p3 + (w + y) * u * p2) by (
    nonlinear_arith)
        requires
            lhs == y * pp * ap,
            rhs == (y0 + 1) * u * ap + (w + y) * u,
            ap == a * pp,
            p2 == pp * pp,
            p3 == p2 * pp,
            p4 == p3 * pp,
    ;
    assert(a * p4 * y < a * (y0 + 1) * u * p3 + (w + y) * u * p2);
    assert(ap3 * (a_minus_1 * y0 * u) == a * p3 * (a_minus_1 * y0 * u));
    // (A-1) + 1 <= A
    assert(a * p3 * (a_minus_1 * y0 * u) + a * (y0 + 1) * u * p3 <= a * a * y0 * u * p3 + a * u
        * p3) by (nonlinear_arith)
        requires
            a_minus_1 + 1 <= a,
    ;
    // a f U^2 p_o > a^2 y0 U p_o^3 - a U^2 p_o^2
    assert(a * a * y0 * u * p3 < a * f * u * u * pp + a * u * u * p2) by (nonlinear_arith)
        requires
            ay * pp < fl * u + u,
            ay == a * y0,
            f == fl * pp,
            p2 == pp * pp,
            p3 == p2 * pp,
            a >= 1,
            u >= 1,
            pp >= 1,
    ;
    let e = a * u * pp + a * p2 + (w + y) * pp;
    let wy = w + y;
    let e1 = a * u * pp;
    let e2 = a * p2;
    let e3 = wy * pp;
    let kk = u * pp;
    assert(e == e1 + e2 + e3);
    assert((e1 + e2 + e3) * kk == e1 * kk + e2 * kk + e3 * kk) by (nonlinear_arith);
    assert(e1 * kk == a * u * u * p2) by (nonlinear_arith)
        requires
            e1 == a * u * pp,
            kk == u * pp,
            p2 == pp * pp,
    ;
    assert(e2 * kk == a * u * p3) by (nonlinear_arith)
        requires
            e2 == a * p2,
            kk == u * pp,
            p3 == p2 * pp,
    ;
    assert(e3 * kk == wy * u * p2) by (nonlinear_arith)
        requires
            e3 == wy * pp,
            kk == u * pp,
            p2 == pp * pp,
    ;
    assert(e * (u * pp) == a * u * u * p2 + a * u * p3 + wy * u * p2);
    assert((a * f * u) * (u * pp) == a * f * u * u * pp) by (nonlinear_arith);
    assert((a * f * u + e) * (u * pp) == (a * f * u) * (u * pp) + e * (u * pp)) by (
    nonlinear_arith);
    assert(x1 < (a * f * u + e) * (u * pp));
    assert(a * c * u * d < a * f * u + e) by (nonlinear_arith)
        requires
            x1 < (a * f * u + e) * (u * pp),
            x1 == a * c * u * u * d * pp,
            u >= 1,
            pp >= 1,
    ;
    // f <= n < (p + 1) d, and d >= y
    assert(a * u * pp > 0) by (nonlinear_arith)
        requires
            a >= 1,
            u >= 1,
            pp >= 1,
    ;
    if c > p {
        vstd::arithmetic::mul::lemma_mul_inequality(f as int, (p * d + d - 1) as int, (a * u) as int);
        assert(a * u * d * (c - p - 1) < e) by (nonlinear_arith)
            requires
                a * c * u * d < a * f * u + e,
                f * (a * u) <= (p * d + d - 1) * (a * u),
        ;
        vstd::arithmetic::mul::lemma_mul_inequality(y as int, d as int, (a * u * (c - p - 1)) as int);
        assert(a * u * y * c < a * u * y * (p + 1) + e) by (nonlinear_arith)
            requires
                a * u * d * (c - p - 1) < e,
                y * (a * u * (c - p - 1)) <= d * (a * u * (c - p - 1)),
                c > p,
        ;
    } else {
        vstd::arithmetic::mul::lemma_mul_inequality(c as int, (p + 1) as int, (a * u * y) as int);
        assert(a * u * y * c < a * u * y * (p + 1) + e) by (nonlinear_arith)
            requires
                c * (a * u * y) <= (p + 1) * (a * u * y),
                e >= 0,
                a * u * pp > 0,
                e == a * u * pp + a * p2 + (w + y) * pp,
        ;
    }
    assert(e == a * p_o_up * p_o + a * p_o * p_o + (wad_spec() + y) * p_o) by (nonlinear_arith)
        requires
            e == a * u * pp + a * p2 + (w + y) * pp,
            p2 == pp * pp,
            u == p_o_up,
            pp == p_o,
            w == wad_spec(),
    ;
    assert(a * u * y * c < a * u * y * (p + 1) + e);
}

} // verus!




