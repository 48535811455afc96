//! 256-bit unsigned and signed integers, held as four little-endian 64-bit
//! limbs, with the EVM-style arithmetic that the pool math is written in.
//!
//! The arithmetic itself is carried out by `alloy_primitives` (`ruint`); the
//! functions below that call it are trusted wrappers whose contracts state the
//! documented behaviour of each operation over the mathematical value of the
//! operands.
use vstd::prelude::*;

verus! {

/// 2^64
pub open spec fn limb_base() -> nat {
    0x1_0000_0000_0000_0000nat
}

/// 2^255
pub open spec fn half_modulus() -> nat {
    0x8000000000000000000000000000000000000000000000000000000000000000nat
}

/// 2^256
pub open spec fn modulus() -> nat {
    0x1_0000000000000000000000000000000000000000000000000000000000000000nat
}

/// Reduces an integer modulo 2^256 (the result of a wrapping operation).
#[verifier::opaque]
pub open spec fn wrap_u(v: int) -> nat {
    (v % (modulus() as int)) as nat
}

/// Wrapping addition on 256-bit values.
pub open spec fn add_w(a: nat, b: nat) -> nat {
    wrap_u(a as int + b as int)
}

/// Wrapping subtraction on 256-bit values.
pub open spec fn sub_w(a: nat, b: nat) -> nat {
    wrap_u(a - b)
}

/// Wrapping multiplication on 256-bit values.
pub open spec fn mul_w(a: nat, b: nat) -> nat {
    wrap_u(a as int * b as int)
}

/// The signed value of a 256-bit two's-complement bit pattern.
pub open spec fn to_signed(raw: nat) -> int {
    if raw < half_modulus() {
        raw as int
    } else {
        raw - modulus()
    }
}

/// Reduces an integer into the signed 256-bit range, as a wrapping signed
/// operation does.
#[verifier::opaque]
pub open spec fn wrap_i(v: int) -> int {
    to_signed(wrap_u(v))
}

/// Whether an integer lies in the signed 256-bit range.
pub open spec fn in_i256(v: int) -> bool {
    -(half_modulus() as int) <= v < half_modulus()
}

/// Division truncating toward zero.
pub open spec fn tdiv(a: int, b: int) -> int {
    if a >= 0 {
        if b > 0 {
            a / b
        } else {
            -(a / (-b))
        }
    } else {
        if b > 0 {
            -((-a) / b)
        } else {
            (-a) / (-b)
        }
    }
}

/// 2^n for `n < 256`.
pub open spec fn pow2(n: nat) -> nat
    decreases n,
{
    if n == 0 {
        1
    } else {
        2 * pow2((n - 1) as nat)
    }
}

/// Logical right shift of a 256-bit value: zero once the shift reaches the width.
pub open spec fn shr_spec(a: nat, s: nat) -> nat {
    if s < 256 {
        a / pow2(s)
    } else {
        0
    }
}

/// Unsigned 256-bit integer.
#[derive(Clone, Copy, Debug, PartialEq, Eq, Hash)]
pub struct U256 {
    limbs: [u64; 4],
}

/// Signed 256-bit integer in two's complement.
#[derive(Clone, Copy, Debug, PartialEq, Eq, Hash)]
pub struct I256 {
    limbs: [u64; 4],
}

/// The value of four little-endian limbs.
pub open spec fn limbs_value(l: [u64; 4]) -> nat {
    l[0] as nat + limb_base() * (l[1] as nat + limb_base() * (l[2] as nat + limb_base()
        * (l[3] as nat)))
}

pub proof fn lemma_limbs_value_bound(l: [u64; 4])
    ensures
        limbs_value(l) < modulus(),
{
    let b = limb_base() as int;
    let a0 = l[0] as int;
    let a1 = l[1] as int;
    let a2 = l[2] as int;
    let a3 = l[3] as int;
    assert(a3 <= b - 1);
    assert(b * a3 <= b * (b - 1)) by (nonlinear_arith)
        requires
            a3 <= b - 1,
            b > 0,
    ;
    let t2 = a2 + b * a3;
    assert(t2 <= b * b - 1);
    assert(b * t2 <= b * (b * b - 1)) by (nonlinear_arith)
        requires
            t2 <= b * b - 1,
            b > 0,
    ;
    let t1 = a1 + b * t2;
    assert(t1 <= b * b * b - 1) by (nonlinear_arith)
        requires
            t1 == a1 + b * t2,
            b * t2 <= b * (b * b - 1),
            a1 <= b - 1,
    ;
    assert(b * t1 <= b * (b * b * b - 1)) by (nonlinear_arith)
        requires
            t1 <= b * b * b - 1,
            b > 0,
    ;
    assert(a0 + b * t1 < modulus()) by (nonlinear_arith)
        requires
            b == limb_base(),
            b * t1 <= b * (b * b * b - 1),
            a0 <= b - 1,
    ;
}

impl View for U256 {
    type V = nat;

    closed spec fn view(&self) -> nat {
        limbs_value(self.limbs)
    }
}

impl View for I256 {
    type V = int;

    closed spec fn view(&self) -> int {
        to_signed(limbs_value(self.limbs))
    }
}

impl U256 {
    /// The unsigned value of a signed integer's bit pattern.
    pub closed spec fn raw_of(v: I256) -> nat {
        limbs_value(v.limbs)
    }
}


/// Big-endian value of a byte string.
pub open spec fn be_value(s: Seq<u8>) -> nat
    decreases s.len(),
{
    if s.len() == 0 {
        0
    } else {
        be_value(s.drop_last()) * 256 + s.last() as nat
    }
}

pub proof fn lemma_u128_split(v: u128)
    ensures
        v as nat == (v as u64) as nat + limb_base() * ((v >> 64u128) as u64) as nat,
{
    assert(v == (v as u64) as u128 + 0x1_0000_0000_0000_0000u128 * ((v >> 64u128) as u64) as u128)
        by (bit_vector);
}

impl U256 {
    /// Zero.
    pub fn zero() -> (r: U256)
        ensures
            r@ == 0,
    {
        U256 { limbs: [0, 0, 0, 0] }
    }

    /// A value that fits in 64 bits.
    pub fn from_u64(v: u64) -> (r: U256)
        ensures
            r@ == v,
    {
        U256 { limbs: [v, 0, 0, 0] }
    }

    /// A value that fits in 128 bits.
    pub fn from_u128(v: u128) -> (r: U256)
        ensures
            r@ == v,
    {
        proof {
            lemma_u128_split(v);
        }
        U256 { limbs: [v as u64, (v >> 64u128) as u64, 0, 0] }
    }

    /// Builds a value from its four little-endian 64-bit limbs.
    pub fn from_limbs(limbs: [u64; 4]) -> (r: U256)
        ensures
            r@ == limbs_value(limbs),
    {
        U256 { limbs }
    }

    /// The four little-endian 64-bit limbs.
    pub fn into_limbs(self) -> (r: [u64; 4])
        ensures
            limbs_value(r) == self@,
    {
        self.limbs
    }

    /// The two's-complement bit pattern of a signed value.
    pub fn from_signed_raw(v: I256) -> (r: U256)
        ensures
            r@ == U256::raw_of(v),
    {
        U256 { limbs: v.limbs }
    }

    /// `self + rhs` by `alloy_primitives::U256`'s `+` (ruint `wrapping_add`):
    /// trusted to be the sum modulo 2^256.
    #[verifier::external_body]
    pub(crate) fn add(self, rhs: U256) -> (r: U256)
        ensures
            r@ == add_w(self@, rhs@),
    {
        let a = alloy_primitives::U256::from_limbs(self.limbs);
        let b = alloy_primitives::U256::from_limbs(rhs.limbs);
        U256 { limbs: (a + b).into_limbs() }
    }

    /// `self - rhs` by `alloy_primitives::U256`'s `-` (ruint `wrapping_sub`):
    /// trusted to be the difference modulo 2^256.
    #[verifier::external_body]
    pub(crate) fn sub(self, rhs: U256) -> (r: U256)
        ensures
            r@ == sub_w(self@, rhs@),
    {
        let a = alloy_primitives::U256::from_limbs(self.limbs);
        let b = alloy_primitives::U256::from_limbs(rhs.limbs);
        U256 { limbs: (a - b).into_limbs() }
    }

    /// `self * rhs` by `alloy_primitives::U256`'s `*` (ruint `wrapping_mul`):
    /// trusted to be the product modulo 2^256.
    #[verifier::external_body]
    pub(crate) fn mul(self, rhs: U256) -> (r: U256)
        ensures
            r@ == mul_w(self@, rhs@),
    {
        let a = alloy_primitives::U256::from_limbs(self.limbs);
        let b = alloy_primitives::U256::from_limbs(rhs.limbs);
        U256 { limbs: (a * b).into_limbs() }
    }

    /// `self / rhs` by `alloy_primitives::U256`'s `/` (ruint `wrapping_div`):
    /// trusted to be the floor quotient; it panics on a zero divisor, which
    /// `requires` excludes.
    #[verifier::external_body]
    pub(crate) fn div(self, rhs: U256) -> (r: U256)
        requires
            rhs@ != 0,
        ensures
            r@ == self@ / rhs@,
    {
        let a = alloy_primitives::U256::from_limbs(self.limbs);
        let b = alloy_primitives::U256::from_limbs(rhs.limbs);
        U256 { limbs: (a / b).into_limbs() }
    }

    /// `self >> s` by `alloy_primitives::U256`'s `>>` with a `usize` shift (ruint
    /// `wrapping_shr`): trusted to be `floor(self / 2^s)`, zero once `s >= 256`.
    #[verifier::external_body]
    pub(crate) fn shr(self, s: usize) -> (r: U256)
        ensures
            r@ == shr_spec(self@, s as nat),
    {
        let a = alloy_primitives::U256::from_limbs(self.limbs);
        U256 { limbs: (a >> s).into_limbs() }
    }

    /// `self < rhs` by `alloy_primitives::U256`'s `PartialOrd`: trusted to
    /// compare the values.
    #[verifier::external_body]
    pub(crate) fn lt(&self, rhs: &U256) -> (r: bool)
        ensures
            r == (self@ < rhs@),
    {
        let a = alloy_primitives::U256::from_limbs(self.limbs);
        let b = alloy_primitives::U256::from_limbs(rhs.limbs);
        a < b
    }

    /// `self == rhs` by `alloy_primitives::U256`'s `PartialEq`: trusted to
    /// compare the values.
    #[verifier::external_body]
    pub(crate) fn eq(&self, rhs: &U256) -> (r: bool)
        ensures
            r == (self@ == rhs@),
    {
        let a = alloy_primitives::U256::from_limbs(self.limbs);
        let b = alloy_primitives::U256::from_limbs(rhs.limbs);
        a == b
    }

    /// `alloy_primitives::U256::is_zero`: trusted to tell whether the value is
    /// zero.
    #[verifier::external_body]
    pub(crate) fn is_zero(&self) -> (r: bool)
        ensures
            r == (self@ == 0),
    {
        alloy_primitives::U256::from_limbs(self.limbs).is_zero()
    }

    /// `alloy_primitives::U256::from_be_slice`: trusted to give the big-endian
    /// value of the bytes; it panics above 32 bytes, which `requires` excludes.
    #[verifier::external_body]
    pub(crate) fn from_be_slice(bytes: &[u8]) -> (r: U256)
        requires
            bytes@.len() <= 32,
        ensures
            r@ == be_value(bytes@),
    {
        U256 { limbs: alloy_primitives::U256::from_be_slice(bytes).into_limbs() }
    }
}

impl I256 {
    /// Builds a value from the four little-endian limbs of its two's-complement
    /// bit pattern.
    pub fn from_raw_limbs(limbs: [u64; 4]) -> (r: I256)
        ensures
            r@ == to_signed(limbs_value(limbs)),
            U256::raw_of(r) == limbs_value(limbs),
    {
        I256 { limbs }
    }

    /// The four little-endian limbs of the two's-complement bit pattern.
    pub fn into_raw_limbs(self) -> (r: [u64; 4])
        ensures
            limbs_value(r) == U256::raw_of(self),
    {
        self.limbs
    }

    /// Reinterprets an unsigned bit pattern as a signed value.
    pub fn from_raw(v: U256) -> (r: I256)
        ensures
            U256::raw_of(r) == v@,
            r@ == to_signed(v@),
    {
        I256 { limbs: v.limbs }
    }

    /// A non-negative value below 2^128.
    pub fn from_u128(v: u128) -> (r: I256)
        ensures
            r@ == v,
            U256::raw_of(r) == v,
    {
        proof {
            lemma_u128_split(v);
            lemma_limbs_value_bound([v as u64, (v >> 64u128) as u64, 0, 0]);
            assert(v < half_modulus());
        }
        I256 { limbs: [v as u64, (v >> 64u128) as u64, 0, 0] }
    }

    /// `alloy_primitives::I256::try_from(i128)`: trusted to succeed with the
    /// same value (every `i128` is representable).
    #[verifier::external_body]
    pub(crate) fn from_i128(v: i128) -> (r: Option<I256>)
        ensures
            r is Some,
            r.unwrap()@ == v as int,
    {
        alloy_primitives::I256::try_from(v).ok().map(|x| I256 { limbs: x.into_raw().into_limbs() })
    }

    /// `alloy_primitives::I256::wrapping_add`: trusted to be the sum wrapped
    /// into the signed 256-bit range.
    #[verifier::external_body]
    pub(crate) fn wrapping_add(self, rhs: I256) -> (r: I256)
        ensures
            r@ == wrap_i(self@ + rhs@),
    {
        let a = alloy_primitives::I256::from_raw(alloy_primitives::U256::from_limbs(self.limbs));
        let b = alloy_primitives::I256::from_raw(alloy_primitives::U256::from_limbs(rhs.limbs));
        I256 { limbs: a.wrapping_add(b).into_raw().into_limbs() }
    }

    /// `alloy_primitives::I256::wrapping_sub`: trusted to be the difference
    /// wrapped into the signed 256-bit range.
    #[verifier::external_body]
    pub(crate) fn wrapping_sub(self, rhs: I256) -> (r: I256)
        ensures
            r@ == wrap_i(self@ - rhs@),
    {
        let a = alloy_primitives::I256::from_raw(alloy_primitives::U256::from_limbs(self.limbs));
        let b = alloy_primitives::I256::from_raw(alloy_primitives::U256::from_limbs(rhs.limbs));
        I256 { limbs: a.wrapping_sub(b).into_raw().into_limbs() }
    }

    /// `alloy_primitives::I256::wrapping_mul`: trusted to be the product
    /// wrapped into the signed 256-bit range.
    #[verifier::external_body]
    pub(crate) fn wrapping_mul(self, rhs: I256) -> (r: I256)
        ensures
            r@ == wrap_i(self@ * rhs@),
    {
        let a = alloy_primitives::I256::from_raw(alloy_primitives::U256::from_limbs(self.limbs));
        let b = alloy_primitives::I256::from_raw(alloy_primitives::U256::from_limbs(rhs.limbs));
        I256 { limbs: a.wrapping_mul(b).into_raw().into_limbs() }
    }

    /// `alloy_primitives::I256::wrapping_div`: trusted to be the quotient
    /// truncated toward zero, wrapped into the signed range (only `MIN / -1`
    /// wraps); it panics on a zero divisor, which `requires` excludes.
    #[verifier::external_body]
    pub(crate) fn wrapping_div(self, rhs: I256) -> (r: I256)
        requires
            rhs@ != 0,
        ensures
            r@ == wrap_i(tdiv(self@, rhs@)),
    {
        let a = alloy_primitives::I256::from_raw(alloy_primitives::U256::from_limbs(self.limbs));
        let b = alloy_primitives::I256::from_raw(alloy_primitives::U256::from_limbs(rhs.limbs));
        I256 { limbs: a.wrapping_div(b).into_raw().into_limbs() }
    }

    /// `alloy_primitives::I256::wrapping_shl`: trusted to be `self * 2^s`
    /// wrapped into the signed range, and zero once `s >= 256`.
    #[verifier::external_body]
    pub(crate) fn wrapping_shl(self, s: usize) -> (r: I256)
        ensures
            r@ == (if s < 256 { wrap_i(self@ * pow2(s as nat)) } else { 0 }),
    {
        let a = alloy_primitives::I256::from_raw(alloy_primitives::U256::from_limbs(self.limbs));
        I256 { limbs: a.wrapping_shl(s).into_raw().into_limbs() }
    }

    /// `self * rhs` by `alloy_primitives::I256`'s `*`: trusted to be the exact
    /// product; it asserts (in debug builds) that the product is representable,
    /// which `requires` ensures.
    #[verifier::external_body]
    pub(crate) fn mul(self, rhs: I256) -> (r: I256)
        requires
            in_i256(self@ * rhs@),
        ensures
            r@ == self@ * rhs@,
    {
        let a = alloy_primitives::I256::from_raw(alloy_primitives::U256::from_limbs(self.limbs));
        let b = alloy_primitives::I256::from_raw(alloy_primitives::U256::from_limbs(rhs.limbs));
        I256 { limbs: (a * b).into_raw().into_limbs() }
    }

    /// `self <= rhs` by `alloy_primitives::I256`'s `PartialOrd`: trusted to
    /// compare the signed values.
    #[verifier::external_body]
    pub(crate) fn le(&self, rhs: &I256) -> (r: bool)
        ensures
            r == (self@ <= rhs@),
    {
        let a = alloy_primitives::I256::from_raw(alloy_primitives::U256::from_limbs(self.limbs));
        let b = alloy_primitives::I256::from_raw(alloy_primitives::U256::from_limbs(rhs.limbs));
        a <= b
    }

    /// `alloy_primitives::I256::as_i64`: trusted to give the same value; it
    /// panics outside the `i64` range, which `requires` excludes.
    #[verifier::external_body]
    pub(crate) fn as_i64(&self) -> (r: i64)
        requires
            i64::MIN <= self@ <= i64::MAX,
        ensures
            r == self@,
    {
        alloy_primitives::I256::from_raw(alloy_primitives::U256::from_limbs(self.limbs)).as_i64()
    }

}

pub broadcast proof fn lemma_u256_bound(a: U256)
    ensures
        #[trigger] a@ < modulus(),
{
    lemma_limbs_value_bound(a.limbs);
}

pub broadcast proof fn lemma_i256_raw_bound(a: I256)
    ensures
        #[trigger] U256::raw_of(a) < modulus(),
        a@ == to_signed(U256::raw_of(a)),
        in_i256(a@),
{
    lemma_limbs_value_bound(a.limbs);
}

/// A value already in the signed range is unchanged by wrapping.
pub proof fn lemma_wrap_i_small(v: int)
    requires
        in_i256(v),
    ensures
        wrap_i(v) == v,
{
    reveal(wrap_i);
    reveal(wrap_u);
    let m = modulus() as int;
    if v >= 0 {
        vstd::arithmetic::div_mod::lemma_small_mod(v as nat, modulus());
    } else {
        vstd::arithmetic::div_mod::lemma_fundamental_div_mod_converse(v, m, -1, v + m);
    }
}

/// The bit pattern of a signed value is its value reduced modulo 2^256.
pub proof fn lemma_raw_of(v: I256)
    ensures
        U256::raw_of(v) == wrap_u(v@),
{
    reveal(wrap_u);
    lemma_limbs_value_bound(v.limbs);
    let raw = U256::raw_of(v);
    let m = modulus() as int;
    if raw < half_modulus() {
        vstd::arithmetic::div_mod::lemma_small_mod(raw, modulus());
    } else {
        vstd::arithmetic::div_mod::lemma_fundamental_div_mod_converse(raw - m, m, -1, raw as int);
    }
}

/// A wrapped value is below 2^256 and no larger than a non-negative input.
pub proof fn lemma_wrap_u(v: int)
    ensures
        wrap_u(v) < modulus(),
        v >= 0 ==> wrap_u(v) <= v,
        0 <= v < modulus() ==> wrap_u(v) == v,
        modulus() <= v < 2 * modulus() ==> wrap_u(v) == v - modulus(),
        -(modulus() as int) <= v < 0 ==> wrap_u(v) == v + modulus(),
{
    reveal(wrap_u);
    let m = modulus() as int;
    if m <= v < 2 * m {
        vstd::arithmetic::div_mod::lemma_fundamental_div_mod_converse(v, m, 1, v - m);
    }
    if -m <= v < 0 {
        vstd::arithmetic::div_mod::lemma_fundamental_div_mod_converse(v, m, -1, v + m);
    }
    vstd::arithmetic::div_mod::lemma_mod_bound(v, modulus() as int);
    if v >= 0 {
        vstd::arithmetic::div_mod::lemma_mod_decreases(v as nat, modulus());
    }
    if 0 <= v < modulus() {
        vstd::arithmetic::div_mod::lemma_small_mod(v as nat, modulus());
    }
}

/// Every wrapped value is below 2^256.
pub broadcast proof fn lemma_wrap_u_bound(v: int)
    ensures
        #[trigger] wrap_u(v) < modulus(),
{
    lemma_wrap_u(v);
}

pub broadcast group group_uint {
    lemma_u256_bound,
    lemma_i256_raw_bound,
}

} // verus!
