//! Extract LLAMMA immutables from deployed contract bytecode.
//!
//! Vyper appends immutable values as 32-byte words at the end of the deployed
//! bytecode. Relative to the word holding `A`, the layout is:
//!
//! | Offset from A | Field                |
//! |:-------------:|:---------------------|
//! |     -2        | COLLATERAL_PRECISION |
//! |      0        | A                    |
//! |     +1        | A - 1                |
//! |     +2        | A²                   |
//! |     +3        | (A - 1)²             |
//! |     +5        | LOG_A_RATIO          |
//! |     +6        | MAX_ORACLE_DN_POW    |
use vstd::prelude::*;
use crate::uint::{be_value, group_uint, lemma_wrap_u, mul_w, sub_w, to_signed, I256, U256};

verus! {

broadcast use group_uint;

/// Immutable parameters extracted from a LLAMMA AMM contract's bytecode.
#[derive(Debug, Clone, PartialEq, Eq)]
pub struct LlammaImmutables {
    /// Amplification parameter.
    pub a: U256,
    /// `ln(A / (A - 1)) * 1e18`.
    pub log_a_ratio: I256,
    /// `(A / (A - 1))^50 * 1e18`.
    pub max_oracle_dn_pow: U256,
    /// `10^(18 - collateral_decimals)`.
    pub collateral_precision: U256,
    /// Static antifee (Vyper 0.3.x bytecode, not starting with `PUSH0`)
    /// versus per-band antifee (Vyper 0.4.x).
    pub static_antifee: bool,
}

/// The mathematical content of [`LlammaImmutables`].
pub struct ImmutablesView {
    pub a: nat,
    pub log_a_ratio: int,
    pub max_oracle_dn_pow: nat,
    pub collateral_precision: nat,
    pub static_antifee: bool,
}

impl View for LlammaImmutables {
    type V = ImmutablesView;

    open spec fn view(&self) -> ImmutablesView {
        ImmutablesView {
            a: self.a@,
            log_a_ratio: self.log_a_ratio@,
            max_oracle_dn_pow: self.max_oracle_dn_pow@,
            collateral_precision: self.collateral_precision@,
            static_antifee: self.static_antifee,
        }
    }
}

/// Number of trailing 32-byte words searched.
pub open spec fn tail_words() -> nat {
    20
}

/// 10^k
pub open spec fn pow10(k: nat) -> nat
    decreases k,
{
    if k == 0 {
        1
    } else {
        10 * pow10((k - 1) as nat)
    }
}

/// Whether `v` is one of 10^0, ..., 10^18.
pub open spec fn is_power_of_10_spec(v: nat) -> bool {
    exists|k: nat| k < 19 && v == #[trigger] pow10(k)
}

/// The `i`-th of the last 20 words of the code (big-endian).
pub open spec fn tail_word(code: Seq<u8>, i: int) -> nat {
    let start = code.len() - 32 * tail_words() + 32 * i;
    be_value(code.subrange(start, start + 32))
}

/// Word `i` holds `A` and word `i + 1` holds `A - 1`.
pub open spec fn is_a_anchor(code: Seq<u8>, a: nat, i: int) -> bool {
    tail_word(code, i) == a && tail_word(code, i + 1) == sub_w(a, 1)
}

/// The last anchor at an index below `k`.
pub open spec fn last_anchor_below(code: Seq<u8>, a: nat, k: nat) -> Option<nat>
    decreases k,
{
    if k == 0 {
        None
    } else if is_a_anchor(code, a, k - 1) {
        Some((k - 1) as nat)
    } else {
        last_anchor_below(code, a, (k - 1) as nat)
    }
}

/// Upper bound of a plausible `LOG_A_RATIO` (that of A = 4 is about 2.88e17).
pub open spec fn max_log_a_ratio() -> nat {
    300_000_000_000_000_000
}

/// The immutables the code holds for amplification `a`: `None` when the code
/// is shorter than 20 words, no word `A` is followed by `A - 1`, the words at
/// the offsets are missing or inconsistent (`A²`, `(A - 1)²`), the collateral
/// precision is not a power of ten up to 10^18, or `LOG_A_RATIO` is not in
/// `(0, 3e17]`.
pub open spec fn extract_immutables_spec(code: Seq<u8>, a: nat) -> Option<ImmutablesView> {
    let static_antifee = !(code.len() > 0 && code[0] == 0x5f);
    if code.len() < 32 * tail_words() {
        None
    } else {
        match last_anchor_below(code, a, (tail_words() - 1) as nat) {
            None => None,
            Some(idx) => {
                let i = idx as int;
                let a_minus_1 = sub_w(a, 1);
                if i + 6 >= tail_words() {
                    None
                } else if tail_word(code, i + 2) != mul_w(a, a) || tail_word(code, i + 3)
                    != mul_w(a_minus_1, a_minus_1) {
                    None
                } else if i < 2 {
                    None
                } else {
                    let cp = tail_word(code, i - 2);
                    let log_raw = tail_word(code, i + 5);
                    if !is_power_of_10_spec(cp) {
                        None
                    } else if to_signed(log_raw) <= 0 || log_raw > max_log_a_ratio() {
                        None
                    } else {
                        Some(
                            ImmutablesView {
                                a,
                                log_a_ratio: to_signed(log_raw),
                                max_oracle_dn_pow: tail_word(code, i + 6),
                                collateral_precision: cp,
                                static_antifee,
                            },
                        )
                    }
                }
            },
        }
    }
}

/// Whether `v` is `10^k` for some `k` in `0..19`.
pub fn is_power_of_10(v: U256) -> (r: bool)
    ensures
        r == is_power_of_10_spec(v@),
{
    let ten = U256::from_u64(10);
    let mut p = U256::from_u64(1);
    let mut k: u64 = 0;
    assert(pow10(0) == 1);
    while k < 19
        invariant
            k <= 19,
            p@ == pow10(k as nat),
            ten@ == 10,
            forall|m: nat| m < k ==> v@ != #[trigger] pow10(m),
        decreases 19 - k,
    {
        if v.eq(&p) {
            assert(pow10(k as nat) == v@);
            return true;
        }
        proof {
            lemma_pow10_bound(k as nat);
            lemma_wrap_u((pow10(k as nat) * 10) as int);
            assert(pow10((k + 1) as nat) == 10 * pow10(k as nat));
        }
        p = p.mul(ten);
        k = k + 1;
    }
    false
}

proof fn lemma_pow10_add(k: nat, m: nat)
    ensures
        pow10(k + m) == pow10(k) * pow10(m),
        pow10(m) >= 1,
    decreases k + m,
{
    if k > 0 {
        lemma_pow10_add((k - 1) as nat, m);
        let a = pow10((k - 1) as nat);
        let b = pow10(m);
        assert(pow10(k + m) == 10 * pow10((k - 1 + m) as nat));
        assert(pow10(k) == 10 * a);
        assert(10 * (a * b) == (10 * a) * b) by (nonlinear_arith);
        assert(pow10(k + m) == pow10(k) * pow10(m));
    } else {
        if m > 0 {
            lemma_pow10_add(k, (m - 1) as nat);
        }
        assert(pow10(0) == 1);
        assert(pow10(k + m) == pow10(m));
        assert(pow10(k) * pow10(m) == pow10(m));
    }
}

proof fn lemma_pow10_bound(k: nat)
    requires
        k <= 19,
    ensures
        pow10(k) <= 10_000_000_000_000_000_000,
{
    lemma_pow10_add(k, (19 - k) as nat);
    reveal_with_fuel(pow10, 20);
    assert(pow10(19) == 10_000_000_000_000_000_000);
    assert(pow10(k) <= pow10(k) * pow10((19 - k) as nat)) by (nonlinear_arith)
        requires
            pow10((19 - k) as nat) >= 1,
    ;
}

/// Reads the big-endian word at `start..start + 32`.
fn read_word(code: &[u8], start: usize) -> (r: U256)
    requires
        start + 32 <= code@.len(),
    ensures
        r@ == be_value(code@.subrange(start as int, start + 32)),
{
    let n = code.len();
    let mut bytes: Vec<u8> = Vec::new();
    let mut k: usize = 0;
    while k < 32
        invariant
            k <= 32,
            start + 32 <= code@.len(),
            n == code@.len(),
            bytes@ == code@.subrange(start as int, start + k),
        decreases 32 - k,
    {
        assert(start + k < code@.len());
        bytes.push(code[start + k]);
        k = k + 1;
        assert(bytes@ =~= code@.subrange(start as int, start + k));
    }
    U256::from_be_slice(bytes.as_slice())
}

/// Extract immutables from a LLAMMA AMM contract's deployed bytecode.
///
/// The last 20 words are read, the last word equal to `a` that is followed
/// by `a - 1` is located, `A²` and `(A - 1)²` are checked, and the fields
/// are read at their offsets from it and validated.
pub fn extract_immutables(bytecode: &[u8], a: U256) -> (r: Option<LlammaImmutables>)
    ensures
        r is Some <==> extract_immutables_spec(bytecode@, a@) is Some,
        r matches Some(v) ==> extract_immutables_spec(bytecode@, a@) == Some(v@),
{
    let static_antifee = !(bytecode.len() > 0 && bytecode[0] == 0x5f);
    let word_count: usize = 20;
    let tail_len: usize = word_count * 32;
    if bytecode.len() < tail_len {
        return None;
    }
    let n = bytecode.len();
    let base = n - tail_len;
    let mut words: Vec<U256> = Vec::new();
    let mut i: usize = 0;
    while i < word_count
        invariant
            word_count == tail_words(),
            base + 32 * tail_words() == bytecode@.len(),
            n == bytecode@.len(),
            i <= word_count,
            words@.len() == i,
            forall|m: int| 0 <= m < i ==> (#[trigger] words@[m])@ == tail_word(bytecode@, m),
        decreases word_count - i,
    {
        let w = read_word(bytecode, base + i * 32);
        words.push(w);
        i = i + 1;
    }
    let one = U256::from_u64(1);
    let a_minus_1 = a.sub(one);
    // search backwards for a word equal to A followed by A - 1
    let mut k: usize = word_count - 1;
    let mut found: Option<usize> = None;
    while k > 0 && found.is_none()
        invariant
            k <= word_count - 1,
            word_count == tail_words(),
            words@.len() == word_count,
            forall|m: int| 0 <= m < word_count ==> (#[trigger] words@[m])@ == tail_word(bytecode@, m),
            a_minus_1@ == sub_w(a@, 1),
            found is None ==> last_anchor_below(bytecode@, a@, (tail_words() - 1) as nat)
                == last_anchor_below(bytecode@, a@, k as nat),
            found matches Some(idx) ==> last_anchor_below(bytecode@, a@, (tail_words() - 1) as nat)
                == Some(idx as nat) && idx < word_count - 1,
        decreases k, if found is None { 1int } else { 0int },
    {
        if words[k - 1].eq(&a) && words[k].eq(&a_minus_1) {
            assert(is_a_anchor(bytecode@, a@, k - 1));
            assert(last_anchor_below(bytecode@, a@, k as nat) == Some((k - 1) as nat));
            found = Some(k - 1);
        } else {
            assert(!is_a_anchor(bytecode@, a@, k - 1));
            assert(last_anchor_below(bytecode@, a@, k as nat) == last_anchor_below(bytecode@, a@, (k - 1) as nat));
            k = k - 1;
        }
    }
    let a_index = match found {
        Some(idx) => idx,
        None => {
            return None;
        },
    };
    if a_index + 6 >= word_count {
        return None;
    }
    let a_sq = words[a_index + 2];
    let a_m1_sq = words[a_index + 3];
    if !a_sq.eq(&a.mul(a)) || !a_m1_sq.eq(&a_minus_1.mul(a_minus_1)) {
        return None;
    }
    let log_a_ratio_raw = words[a_index + 5];
    let max_oracle_dn_pow = words[a_index + 6];
    if a_index < 2 {
        return None;
    }
    let collateral_precision = words[a_index - 2];
    if !is_power_of_10(collateral_precision) {
        return None;
    }
    let log_a_ratio = I256::from_raw(log_a_ratio_raw);
    let zero = I256::from_u128(0);
    if log_a_ratio.le(&zero) || U256::from_u128(300_000_000_000_000_000u128).lt(&log_a_ratio_raw) {
        return None;
    }
    Some(LlammaImmutables { a, log_a_ratio, max_oracle_dn_pow, collateral_precision, static_antifee })
}

} // verus!
