//! Decimal text of integers.

use vstd::prelude::*;

verus! {

/// The decimal digits of `n`, without leading zeros.
pub open spec fn dec_nat(n: nat) -> Seq<u8>
    decreases n,
{
    if n < 10 {
        seq![(48 + n) as u8]
    } else {
        dec_nat(n / 10).push((48 + n % 10) as u8)
    }
}

/// The decimal text of `v`: its digits, behind a minus sign if it is negative.
pub open spec fn dec_int(v: int) -> Seq<u8> {
    if v < 0 {
        seq![45u8] + dec_nat((-v) as nat)
    } else {
        dec_nat(v as nat)
    }
}

/// Every byte is an ASCII digit.
pub open spec fn all_digits(s: Seq<u8>) -> bool {
    forall|i: int| 0 <= i < s.len() ==> 48 <= #[trigger] s[i] <= 57
}

/// The number that a run of digits denotes.
pub open spec fn digits_value(s: Seq<u8>) -> nat
    decreases s.len(),
{
    if s.len() == 0 {
        0
    } else {
        (10 * digits_value(s.drop_last()) + (s.last() - 48)) as nat
    }
}

/// A non-empty run of digits without a superfluous leading zero.
pub open spec fn canonical_digits(s: Seq<u8>) -> bool {
    &&& s.len() > 0
    &&& all_digits(s)
    &&& s[0] != 48 || s.len() == 1
}

/// Decimal text is canonical and denotes the number it was made from.
pub proof fn lemma_dec_nat(n: nat)
    ensures
        canonical_digits(dec_nat(n)),
        digits_value(dec_nat(n)) == n,
        n > 0 ==> dec_nat(n)[0] != 48,
    decreases n,
{
    if n >= 10 {
        lemma_dec_nat(n / 10);
        assert(dec_nat(n).drop_last() =~= dec_nat(n / 10));
    } else {
        assert(dec_nat(n).drop_last() =~= Seq::empty());
        assert(digits_value(dec_nat(n).drop_last()) == 0);
    }
}

/// The longer the number, the more digits.
pub proof fn lemma_dec_nat_len(n: nat)
    ensures
        n < 10 ==> dec_nat(n).len() == 1,
        n >= 10 ==> dec_nat(n).len() == dec_nat(n / 10).len() + 1,
        n <= 0xffff_ffff_ffff_ffff ==> dec_nat(n).len() <= 20,
        n <= 0x8000_0000_0000_0000 ==> dec_nat(n).len() <= 19,
{
    reveal_with_fuel(dec_nat, 21);
}

/// Canonical digits are the decimal text of the number they denote.
pub proof fn lemma_canonical_digits(s: Seq<u8>)
    requires
        canonical_digits(s),
    ensures
        dec_nat(digits_value(s)) == s,
        s[0] != 48 ==> digits_value(s) > 0,
    decreases s.len(),
{
    if s.len() == 1 {
        assert(digits_value(s.drop_last()) == 0);
        assert(dec_nat(digits_value(s)) =~= s);
    } else {
        let front = s.drop_last();
        assert(front[0] == s[0]);
        lemma_canonical_digits(front);
        assert(digits_value(s) / 10 == digits_value(front));
        assert(dec_nat(digits_value(s)) =~= s);
    }
}

/// Text with digits behind the sign is the text of at most one number.
pub proof fn lemma_dec_int_unique(a: int, b: int)
    requires
        dec_int(a) == dec_int(b),
    ensures
        a == b,
{
    lemma_dec_nat(if a < 0 {
        (-a) as nat
    } else {
        a as nat
    });
    lemma_dec_nat(if b < 0 {
        (-b) as nat
    } else {
        b as nat
    });
    if a < 0 {
        assert(dec_int(a)[0] == 45);
    }
    if b < 0 {
        assert(dec_int(b)[0] == 45);
    }
    if a < 0 && b < 0 {
        assert(dec_int(a).drop_first() =~= dec_nat((-a) as nat));
        assert(dec_int(b).drop_first() =~= dec_nat((-b) as nat));
    }
}

proof fn lemma_digits_value_prefix(s: Seq<u8>, k: int)
    requires
        0 <= k <= s.len(),
        all_digits(s),
    ensures
        digits_value(s.take(k)) <= digits_value(s),
    decreases s.len(),
{
    if k == s.len() {
        assert(s.take(k) =~= s);
    } else {
        let front = s.drop_last();
        assert(front.take(k) =~= s.take(k));
        lemma_digits_value_prefix(front, k);
        assert(48 <= s[s.len() - 1]);
    }
}

/// Appends the decimal digits of `n`.
pub fn push_decimal_u64(buf: &mut Vec<u8>, n: u64)
    ensures
        final(buf)@ == old(buf)@ + dec_nat(n as nat),
    decreases n,
{
    if n < 10 {
        buf.push(48 + n as u8);
    } else {
        push_decimal_u64(buf, n / 10);
        buf.push(48 + (n % 10) as u8);
    }
    assert(buf@ =~= old(buf)@ + dec_nat(n as nat));
}

/// The absolute value of `v`.
pub fn magnitude(v: i64) -> (n: u64)
    ensures
        n == (if v < 0 {
            -v
        } else {
            v as int
        }),
{
    if v >= 0 {
        v as u64
    } else if v == i64::MIN {
        0x8000_0000_0000_0000
    } else {
        (-v) as u64
    }
}

/// Appends the decimal text of `v`.
pub fn decimal_i64_into(buf: &mut Vec<u8>, v: i64)
    ensures
        final(buf)@ == old(buf)@ + dec_int(v as int),
{
    if v < 0 {
        buf.push(45);
    }
    push_decimal_u64(buf, magnitude(v));
    assert(buf@ =~= old(buf)@ + dec_int(v as int));
}

/// The decimal text of `v`.
pub fn decimal_i64_bytes(v: i64) -> (out: Vec<u8>)
    ensures
        out@ == dec_int(v as int),
{
    let mut out: Vec<u8> = Vec::new();
    decimal_i64_into(&mut out, v);
    assert(out@ =~= dec_int(v as int));
    out
}

/// The number that the digits `data[start..end]` denote, if they are digits, at
/// least one, and the number fits.
pub fn parse_digits(data: &[u8], start: usize, end: usize) -> (r: Option<u64>)
    requires
        start <= end <= data@.len(),
    ensures
        ({
            let s = data@.subrange(start as int, end as int);
            match r {
                Some(v) => s.len() > 0 && all_digits(s) && v == digits_value(s),
                None => s.len() == 0 || !all_digits(s) || digits_value(s) > u64::MAX,
            }
        }),
{
    let ghost s = data@.subrange(start as int, end as int);
    if start == end {
        return None;
    }
    let mut value: u64 = 0;
    let mut i: usize = start;
    while i < end
        invariant
            start <= i <= end <= data@.len(),
            s == data@.subrange(start as int, end as int),
            value == digits_value(s.take(i - start)),
            all_digits(s.take(i - start)),
        decreases end - i,
    {
        let b: u8 = data[i];
        let ghost k = i - start;
        assert(s[k] == b);
        if b < 48 || b > 57 {
            assert(!all_digits(s));
            return None;
        }
        let ghost next = s.take(k + 1);
        proof {
            assert(next.drop_last() =~= s.take(k));
            assert(next.last() == b);
            assert(all_digits(next)) by {
                assert forall|j: int| 0 <= j < next.len() implies 48 <= #[trigger] next[j] <= 57 by {
                    if j < k {
                        assert(next[j] == s.take(k)[j]);
                    }
                }
            }
        }
        let d: u64 = (b - 48) as u64;
        if value > u64::MAX / 10 || (value == u64::MAX / 10 && d > u64::MAX % 10) {
            proof {
                if all_digits(s) {
                    lemma_digits_value_prefix(s, k + 1);
                }
            }
            return None;
        }
        value = value * 10 + d;
        i = i + 1;
    }
    assert(s.take(end - start) =~= s);
    Some(value)
}

/// The number whose decimal text is `data`, if there is one that fits.
pub fn parse_canonical_i64(data: &[u8]) -> (r: Option<i64>)
    ensures
        match r {
            Some(v) => dec_int(v as int) == data@,
            None => forall|v: i64| dec_int(v as int) != data@,
        },
{
    let len: usize = data.len();
    let negative: bool = len > 0 && data[0] == 45;
    let start: usize = if negative {
        1
    } else {
        0
    };
    let ghost s = data@.subrange(start as int, len as int);
    proof {
        assert forall|v: i64| dec_int(v as int) == data@ implies canonical_digits(s)
            && digits_value(s) == (if v < 0 {
            -v
        } else {
            v as int
        }) && negative == (v < 0) by {
            let m: nat = if v < 0 {
                (-v) as nat
            } else {
                v as nat
            };
            lemma_dec_nat(m);
            if v < 0 {
                assert(data@[0] == 45);
                assert(s =~= dec_nat(m));
            } else {
                assert(data@[0] == dec_nat(m)[0]);
                assert(s =~= dec_nat(m));
            }
        }
    }
    let value: u64 = match parse_digits(data, start, len) {
        Some(value) => value,
        None => {
            return None;
        },
    };
    assert(s[0] == data@[start as int]);
    if data[start] == 48 && (len - start > 1 || negative) {
        proof {
            if s.len() == 1 {
                assert(digits_value(s.drop_last()) == 0);
                assert(digits_value(s) == 0);
            }
        }
        return None;
    }
    proof {
        lemma_canonical_digits(s);
    }
    if negative {
        if value > 0x8000_0000_0000_0000 {
            return None;
        }
        assert(data@ =~= seq![45u8] + s);
        if value == 0x8000_0000_0000_0000 {
            Some(i64::MIN)
        } else {
            Some(-(value as i64))
        }
    } else {
        if value > 0x7fff_ffff_ffff_ffff {
            return None;
        }
        assert(data@ =~= s);
        Some(value as i64)
    }
}

} // verus!
