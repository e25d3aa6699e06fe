//! Sorted-set scores.
//!
//! A score is a double. It is handled here by its IEEE 754 bits or by its decimal
//! text; turning one into the other is left to the caller.

use vstd::prelude::*;

use crate::bytes::copy_bytes;

verus! {

/// A sorted-set score.
#[derive(Debug, PartialEq, Eq)]
pub enum RdbScore {
    /// A double by its bits, with its decimal text. The text is used only where the
    /// double is no whole number within 10^18 and goes into a pack; it may be empty
    /// otherwise. What is read by its bits has no text until one is given to it.
    Double { bits: u64, text: Vec<u8> },
    /// A whole number, as packed collections store it.
    Integer(i64),
    /// A decimal number by its text.
    Decimal(Vec<u8>),
}

/// What a score says.
#[verifier::ext_equal]
pub enum ScoreView {
    Double { bits: u64, text: Seq<u8> },
    Integer(int),
    Decimal(Seq<u8>),
}

impl View for RdbScore {
    type V = ScoreView;

    open spec fn view(&self) -> ScoreView {
        match *self {
            RdbScore::Double { bits, text } => ScoreView::Double { bits, text: text@ },
            RdbScore::Integer(v) => ScoreView::Integer(v as int),
            RdbScore::Decimal(text) => ScoreView::Decimal(text@),
        }
    }
}

impl Clone for RdbScore {
    fn clone(&self) -> (copy: Self)
        ensures
            copy@ == self@,
    {
        match self {
            RdbScore::Double { bits, text } => RdbScore::Double {
                bits: *bits,
                text: copy_bytes(text.as_slice()),
            },
            RdbScore::Integer(v) => RdbScore::Integer(*v),
            RdbScore::Decimal(text) => RdbScore::Decimal(copy_bytes(text.as_slice())),
        }
    }
}

// ---------------------------------------------------------------------------
// Doubles by their bits
// ---------------------------------------------------------------------------

/// Bits without the sign bit.
pub open spec fn magnitude_bits(bits: u64) -> int {
    bits as int % 0x8000_0000_0000_0000
}

/// The sign bit is set.
pub open spec fn sign_bit(bits: u64) -> bool {
    bits >= 0x8000_0000_0000_0000
}

/// The exponent is all ones and the fraction is not zero.
pub open spec fn is_nan_bits(bits: u64) -> bool {
    magnitude_bits(bits) > 0x7ff0_0000_0000_0000
}

/// Two to the power `n`.
pub open spec fn pow2(n: nat) -> nat
    decreases n,
{
    if n == 0 {
        1
    } else {
        2 * pow2((n - 1) as nat)
    }
}

/// The fraction with its leading bit, for a normal double; the fraction itself
/// otherwise.
pub open spec fn significand(bits: u64) -> nat {
    let fraction = (magnitude_bits(bits) % 0x10_0000_0000_0000) as nat;
    if magnitude_bits(bits) / 0x10_0000_0000_0000 == 0 {
        fraction
    } else {
        fraction + 0x10_0000_0000_0000
    }
}

/// The power of two that the significand is multiplied by, plus 1075.
pub open spec fn biased_exponent(bits: u64) -> nat {
    let e = (magnitude_bits(bits) / 0x10_0000_0000_0000) as nat;
    if e == 0 {
        1
    } else {
        e
    }
}

/// The absolute value, if it is a whole number below 2^60: the significand times
/// two to the (biased exponent - 1075).
pub open spec fn whole_magnitude(bits: u64) -> Option<nat> {
    let m = significand(bits);
    let e = biased_exponent(bits);
    if m == 0 {
        Some(0)
    } else if e >= 1075 {
        if e < 1075 + 8 {
            Some(m * pow2((e - 1075) as nat))
        } else {
            None
        }
    } else if 1075 - e <= 52 && m % pow2((1075 - e) as nat) == 0 {
        Some(m / pow2((1075 - e) as nat))
    } else {
        None
    }
}

/// The value, if the double is a whole number within 10^18.
pub open spec fn whole_score(bits: u64) -> Option<int> {
    match whole_magnitude(bits) {
        None => None,
        Some(n) => if n > 1_000_000_000_000_000_000 {
            None
        } else if sign_bit(bits) {
            Some(-n)
        } else {
            Some(n as int)
        },
    }
}

/// A number that orders doubles: a greater double has a greater number, and both
/// zeros have the same.
pub open spec fn score_rank(bits: u64) -> nat {
    if sign_bit(bits) {
        (0x8000_0000_0000_0000 - magnitude_bits(bits)) as nat
    } else {
        (0x8000_0000_0000_0000 + magnitude_bits(bits)) as nat
    }
}

proof fn lemma_pow2_values()
    ensures
        pow2(0) == 1,
        pow2(1) == 2,
        pow2(2) == 4,
        pow2(3) == 8,
        pow2(4) == 16,
        pow2(5) == 32,
        pow2(6) == 64,
        pow2(7) == 128,
{
    reveal_with_fuel(pow2, 8);
}

proof fn lemma_pow2_bound(n: nat)
    requires
        n <= 52,
    ensures
        0 < pow2(n) <= 0x10_0000_0000_0000,
{
    reveal_with_fuel(pow2, 53);
    lemma_pow2_mono(n, 52);
}

proof fn lemma_pow2_mono(m: nat, n: nat)
    requires
        m <= n,
    ensures
        0 < pow2(m) <= pow2(n),
    decreases n,
{
    if m < n {
        lemma_pow2_mono(m, (n - 1) as nat);
    } else if n > 0 {
        lemma_pow2_mono((m - 1) as nat, (n - 1) as nat);
    }
}

fn power_of_two(n: u64) -> (p: u64)
    requires
        n <= 52,
    ensures
        p == pow2(n as nat),
        0 < p <= 0x10_0000_0000_0000,
{
    let mut p: u64 = 1;
    let mut k: u64 = 0;
    proof {
        lemma_pow2_bound(0);
    }
    while k < n
        invariant
            k <= n <= 52,
            p == pow2(k as nat),
            0 < p <= 0x10_0000_0000_0000,
        decreases n - k,
    {
        proof {
            lemma_pow2_bound((k + 1) as nat);
        }
        p = 2 * p;
        k = k + 1;
    }
    p
}

/// Whether the bits are those of a NaN.
pub fn is_nan(bits: u64) -> (r: bool)
    ensures
        r == is_nan_bits(bits),
{
    bits % 0x8000_0000_0000_0000 > 0x7ff0_0000_0000_0000
}

/// A number that orders doubles.
pub fn rank(bits: u64) -> (r: u64)
    requires
        !is_nan_bits(bits),
    ensures
        r == score_rank(bits),
{
    let m: u64 = bits % 0x8000_0000_0000_0000;
    if bits >= 0x8000_0000_0000_0000 {
        0x8000_0000_0000_0000 - m
    } else {
        0x8000_0000_0000_0000 + m
    }
}

/// The value of the double, if it is a whole number within 10^18.
pub fn zset_listpack_integer_score(bits: u64) -> (r: Option<i64>)
    ensures
        match r {
            Some(v) => whole_score(bits) == Some(v as int),
            None => whole_score(bits) is None,
        },
{
    let m: u64 = bits % 0x8000_0000_0000_0000;
    let field: u64 = m / 0x10_0000_0000_0000;
    let fraction: u64 = m % 0x10_0000_0000_0000;
    let e: u64 = if field == 0 {
        1
    } else {
        field
    };
    let sig: u64 = if field == 0 {
        fraction
    } else {
        fraction + 0x10_0000_0000_0000
    };
    let n: u64 = if sig == 0 {
        0
    } else if e >= 1075 {
        if e >= 1075 + 8 {
            return None;
        }
        proof {
            lemma_pow2_values();
        }
        let p: u64 = power_of_two(e - 1075);
        assert(sig * p <= 0x20_0000_0000_0000 * 128) by (nonlinear_arith)
            requires
                sig <= 0x20_0000_0000_0000,
                p <= 128,
        ;
        sig * p
    } else {
        if 1075 - e > 52 {
            return None;
        }
        let p: u64 = power_of_two(1075 - e);
        if sig % p != 0 {
            return None;
        }
        assert(sig / p <= sig) by (nonlinear_arith)
            requires
                p > 0,
        ;
        sig / p
    };
    if n > 1_000_000_000_000_000_000 {
        return None;
    }
    if bits >= 0x8000_0000_0000_0000 {
        Some(-(n as i64))
    } else {
        Some(n as i64)
    }
}

// ---------------------------------------------------------------------------
// Doubles by their text
// ---------------------------------------------------------------------------

/// The byte `b` is the letter `c`, in either case.
pub open spec fn is_letter(b: u8, c: u8) -> bool {
    b == c || b + 32 == c
}

/// The text is `word`, in any mix of cases.
pub open spec fn is_word(s: Seq<u8>, word: Seq<u8>) -> bool {
    &&& s.len() == word.len()
    &&& forall|i: int| 0 <= i < s.len() ==> is_letter(#[trigger] s[i], word[i])
}

/// The first offset at or behind `i` that holds no digit.
pub open spec fn digits_end(s: Seq<u8>, i: int) -> int
    decreases s.len() - i,
{
    if 0 <= i < s.len() && 48 <= s[i] <= 57 {
        digits_end(s, i + 1)
    } else {
        i
    }
}

/// Nothing, or an exponent: `e`, an optional sign, digits.
pub open spec fn is_exponent(s: Seq<u8>, i: int) -> bool {
    if i == s.len() {
        true
    } else if !is_letter(s[i], 101) {
        false
    } else {
        let j = if i + 1 < s.len() && (s[i + 1] == 43 || s[i + 1] == 45) {
            i + 2
        } else {
            i + 1
        };
        j < s.len() && digits_end(s, j) == s.len()
    }
}

/// Digits with at most one point among them, at least one digit, and an optional
/// exponent.
pub open spec fn is_number(s: Seq<u8>, i: int) -> bool {
    let whole = digits_end(s, i);
    if whole < s.len() && s[whole] == 46 {
        let part = digits_end(s, whole + 1);
        (whole > i || part > whole + 1) && is_exponent(s, part)
    } else {
        whole > i && is_exponent(s, whole)
    }
}

/// The offset behind an optional sign.
pub open spec fn sign_end(s: Seq<u8>) -> int {
    if s.len() > 0 && (s[0] == 43 || s[0] == 45) {
        1
    } else {
        0
    }
}

/// The word `nan`.
pub open spec fn nan_word() -> Seq<u8> {
    seq![110u8, 97u8, 110u8]
}

/// The word `inf`.
pub open spec fn inf_word() -> Seq<u8> {
    seq![105u8, 110u8, 102u8]
}

/// The word `infinity`.
pub open spec fn infinity_word() -> Seq<u8> {
    seq![105u8, 110u8, 102u8, 105u8, 110u8, 105u8, 116u8, 121u8]
}

/// The text of a NaN.
pub open spec fn is_nan_text(s: Seq<u8>) -> bool {
    is_word(s.skip(sign_end(s)), nan_word())
}

/// The text denotes a double: an optional sign, then `inf`, `infinity`, `nan` or a
/// number.
pub open spec fn is_double_text(s: Seq<u8>) -> bool {
    let rest = s.skip(sign_end(s));
    ||| is_word(rest, inf_word())
    ||| is_word(rest, infinity_word())
    ||| is_word(rest, nan_word())
    ||| is_number(s, sign_end(s))
}

proof fn lemma_digits_end(s: Seq<u8>, i: int)
    requires
        0 <= i <= s.len(),
    ensures
        i <= digits_end(s, i) <= s.len(),
    decreases s.len() - i,
{
    if i < s.len() && 48 <= s[i] <= 57 {
        lemma_digits_end(s, i + 1);
    }
}

fn skip_digits(s: &[u8], start: usize) -> (end: usize)
    requires
        start <= s@.len(),
    ensures
        end == digits_end(s@, start as int),
        start <= end <= s@.len(),
{
    let mut i: usize = start;
    while i < s.len() && 48 <= s[i] && s[i] <= 57
        invariant
            start <= i <= s@.len(),
            digits_end(s@, i as int) == digits_end(s@, start as int),
        decreases s@.len() - i,
    {
        i = i + 1;
    }
    i
}

fn matches_letter(b: u8, c: u8) -> (r: bool)
    requires
        97 <= c <= 122,
    ensures
        r == is_letter(b, c),
{
    b == c || b == c - 32
}

/// Whether `s[start..]` is `word`, in any mix of cases.
fn matches_word(s: &[u8], start: usize, word: &[u8]) -> (r: bool)
    requires
        start <= s@.len(),
        forall|i: int| 0 <= i < word@.len() ==> 97 <= #[trigger] word@[i] <= 122,
    ensures
        r == is_word(s@.skip(start as int), word@),
{
    let ghost rest = s@.skip(start as int);
    let len: usize = s.len();
    if len - start != word.len() {
        return false;
    }
    let mut i: usize = 0;
    while i < word.len()
        invariant
            start <= s@.len() == len,
            rest == s@.skip(start as int),
            rest.len() == word@.len(),
            i <= word@.len(),
            forall|k: int| 0 <= k < word@.len() ==> 97 <= #[trigger] word@[k] <= 122,
            forall|k: int| 0 <= k < i ==> is_letter(#[trigger] rest[k], word@[k]),
        decreases word@.len() - i,
    {
        assert(rest[i as int] == s@[start + i]);
        assert(97 <= word@[i as int] <= 122);
        if !matches_letter(s[start + i], word[i]) {
            return false;
        }
        i = i + 1;
    }
    true
}

fn matches_exponent(s: &[u8], i: usize) -> (r: bool)
    requires
        i <= s@.len(),
    ensures
        r == is_exponent(s@, i as int),
{
    if i == s.len() {
        return true;
    }
    if !matches_letter(s[i], 101) {
        return false;
    }
    let j: usize = if i + 1 < s.len() && (s[i + 1] == 43 || s[i + 1] == 45) {
        i + 2
    } else {
        i + 1
    };
    j < s.len() && skip_digits(s, j) == s.len()
}

fn matches_number(s: &[u8], i: usize) -> (r: bool)
    requires
        i <= s@.len(),
    ensures
        r == is_number(s@, i as int),
{
    let whole: usize = skip_digits(s, i);
    if whole < s.len() && s[whole] == 46 {
        let part: usize = skip_digits(s, whole + 1);
        (whole > i || part > whole + 1) && matches_exponent(s, part)
    } else {
        whole > i && matches_exponent(s, whole)
    }
}

/// Whether the text is that of a NaN.
pub fn text_is_nan(s: &[u8]) -> (r: bool)
    ensures
        r == is_nan_text(s@),
{
    let i: usize = if s.len() > 0 && (s[0] == 43 || s[0] == 45) {
        1
    } else {
        0
    };
    let word: [u8; 3] = [110, 97, 110];
    assert(word@ =~= nan_word());
    matches_word(s, i, word.as_slice())
}

/// Whether the text denotes a double.
pub fn text_is_double(s: &[u8]) -> (r: bool)
    ensures
        r == is_double_text(s@),
{
    let i: usize = if s.len() > 0 && (s[0] == 43 || s[0] == 45) {
        1
    } else {
        0
    };
    let inf: [u8; 3] = [105, 110, 102];
    let infinity: [u8; 8] = [105, 110, 102, 105, 110, 105, 116, 121];
    assert(inf@ =~= inf_word());
    assert(infinity@ =~= infinity_word());
    matches_word(s, i, inf.as_slice()) || matches_word(s, i, infinity.as_slice()) || text_is_nan(s)
        || matches_number(s, i)
}

} // verus!
