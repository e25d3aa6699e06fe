//! The packed sequence of integers and byte strings that small collections are
//! kept in: a six-byte header, the entries, and a terminator.
//!
//! An entry is a lead byte that tells its encoding, its payload, and a trailer
//! that repeats the length of both in base-128 digits, so that a pack can be walked
//! from either end.

use std::ops::Range;

use vstd::prelude::*;

use crate::bytes;
use crate::bytes::{copy_window, read_le, read_le_signed};
use crate::decimal;
use crate::decimal::{decimal_i64_bytes, parse_canonical_i64};

pub use crate::listpack_members::{
    decode_zset_listpack_pairs, decode_zset_listpack_pairs_orig, decode_zset_spans_and_scores,
    decode_zset_spans_and_scores_orig, set_listpack_shape, zset_listpack_shape, SetListpackShape,
    ZsetListpackShape,
};

verus! {

/// Size of the header: four bytes of total length, two bytes of entry count.
pub const LISTPACK_HEADER_SIZE: usize = 6;

/// The entry count that stands for "too many to say".
pub const LISTPACK_HDR_NUMELE_UNKNOWN: u16 = 65_535;

/// The terminator.
pub const LISTPACK_EOF: u8 = 0xFF;

/// Why a pack is rejected.
#[derive(Clone, Copy, Debug, PartialEq, Eq)]
pub enum ListpackError {
    /// Shorter than the header.
    ShortHeader,
    /// The header's total length exceeds the buffer.
    TotalBytesOutOfRange,
    /// No terminator where the total length puts it.
    MissingTerminator,
    /// A lead byte that tells no encoding.
    InvalidEncoding(u8),
    /// The header's total length falls short of the buffer.
    TotalBytesMismatch,
    /// An entry runs past the end.
    TruncatedEntry,
    /// A trailer that does not repeat its entry's length.
    InvalidBacklen,
    /// A string beyond what a span can address.
    StringLengthOverflow,
    /// The header's entry count is not the number of entries.
    ElementCountMismatch,
    /// A sorted-set score that is no decimal number.
    InvalidScore,
}

// ---------------------------------------------------------------------------
// What a pack says
// ---------------------------------------------------------------------------

/// A value of a pack: an integer, or the window that holds a string.
pub enum LpValue {
    Integer(int),
    Text(int, int),
}

/// The bytes a reader sees of a value: the text of an integer, or the string.
pub open spec fn value_bytes(data: Seq<u8>, v: LpValue) -> Seq<u8> {
    match v {
        LpValue::Integer(n) => decimal::dec_int(n),
        LpValue::Text(start, end) => data.subrange(start, end),
    }
}

/// Number of bytes of the trailer behind `n` bytes of lead and payload.
pub open spec fn backlen_size(n: int) -> int {
    if n <= 127 {
        1
    } else if n < 16_383 {
        2
    } else if n < 2_097_151 {
        3
    } else if n < 268_435_455 {
        4
    } else {
        5
    }
}

/// The `k` low base-128 digits of `n`, the high bit set on all but the first.
pub open spec fn backlen_digits(n: int, k: nat) -> Seq<u8>
    decreases k,
{
    if k <= 1 {
        seq![(n % 256) as u8]
    } else {
        backlen_digits(n / 128, (k - 1) as nat).push((128 + n % 128) as u8)
    }
}

/// The trailer behind `n` bytes of lead and payload.
pub open spec fn backlen_bytes(n: int) -> Seq<u8> {
    backlen_digits(n, backlen_size(n) as nat)
}

/// The length of the entry at `cursor` whose lead and payload take `n` bytes: the
/// trailer must be there and repeat `n`.
pub open spec fn entry_len(data: Seq<u8>, cursor: int, n: int) -> Result<int, ListpackError> {
    if cursor + n + backlen_size(n) > data.len() {
        Err(ListpackError::TruncatedEntry)
    } else if n < 0x8_0000_0000 && bytes::has_at(data, cursor + n, backlen_bytes(n)) {
        Ok(n + backlen_size(n))
    } else {
        Err(ListpackError::InvalidBacklen)
    }
}

/// A string entry: `head` bytes, then `len` bytes of string.
pub open spec fn text_entry(data: Seq<u8>, cursor: int, head: int, len: int) -> Result<
    (LpValue, int),
    ListpackError,
> {
    let end = cursor + head + len;
    if end > usize::MAX {
        Err(ListpackError::StringLengthOverflow)
    } else if end > data.len() {
        Err(ListpackError::TruncatedEntry)
    } else {
        match entry_len(data, cursor, head + len) {
            Err(e) => Err(e),
            Ok(n) => if end > u32::MAX {
                Err(ListpackError::StringLengthOverflow)
            } else {
                Ok((LpValue::Text(cursor + head, end), n))
            },
        }
    }
}

/// An integer entry whose lead and payload take `n` bytes.
pub open spec fn integer_entry(data: Seq<u8>, cursor: int, n: int, v: int) -> Result<
    (LpValue, int),
    ListpackError,
> {
    if cursor + n > data.len() {
        Err(ListpackError::TruncatedEntry)
    } else {
        match entry_len(data, cursor, n) {
            Err(e) => Err(e),
            Ok(len) => Ok((LpValue::Integer(v), len)),
        }
    }
}

/// Thirteen bits in two's complement, the high five in the lead byte.
pub open spec fn thirteen_bits(first: u8, second: u8) -> int {
    let raw = (first - 0xC0) * 256 + second;
    if raw >= 0x1000 {
        raw - 0x2000
    } else {
        raw
    }
}

/// The little-endian two's-complement number behind the lead byte.
pub open spec fn payload_int(data: Seq<u8>, cursor: int, width: nat) -> int {
    bytes::signed(bytes::le_at(data, cursor + 1, width), width)
}

/// The value at `cursor`, with the length of its entry.
#[verifier::opaque]
pub open spec fn entry_at(data: Seq<u8>, cursor: int) -> Result<(LpValue, int), ListpackError> {
    if !(0 <= cursor < data.len()) {
        Err(ListpackError::TruncatedEntry)
    } else {
        let first = data[cursor];
        if first < 0x80 {
            integer_entry(data, cursor, 1, first as int)
        } else if first < 0xC0 {
            text_entry(data, cursor, 1, first - 0x80)
        } else if first < 0xE0 {
            integer_entry(data, cursor, 2, thirteen_bits(first, data[cursor + 1]))
        } else if first < 0xF0 {
            if cursor + 2 > data.len() {
                Err(ListpackError::TruncatedEntry)
            } else {
                text_entry(data, cursor, 2, (first - 0xE0) * 256 + data[cursor + 1])
            }
        } else if first == 0xF0 {
            if cursor + 5 > data.len() {
                Err(ListpackError::TruncatedEntry)
            } else {
                text_entry(data, cursor, 5, bytes::le_at(data, cursor + 1, 4) as int)
            }
        } else if first == 0xF1 {
            integer_entry(data, cursor, 3, payload_int(data, cursor, 2))
        } else if first == 0xF2 {
            integer_entry(data, cursor, 4, payload_int(data, cursor, 3))
        } else if first == 0xF3 {
            integer_entry(data, cursor, 5, payload_int(data, cursor, 4))
        } else if first == 0xF4 {
            integer_entry(data, cursor, 9, payload_int(data, cursor, 8))
        } else {
            Err(ListpackError::InvalidEncoding(first))
        }
    }
}

/// The values from `cursor` to `end`, behind those already found.
pub open spec fn walk(data: Seq<u8>, cursor: int, end: int, found: Seq<LpValue>) -> Result<
    Seq<LpValue>,
    ListpackError,
>
    decreases end - cursor,
{
    if cursor < end {
        proof {
            lemma_entry_at(data, cursor);
        }
        match entry_at(data, cursor) {
            Err(e) => Err(e),
            Ok((v, n)) => if cursor + n > end {
                Err(ListpackError::TruncatedEntry)
            } else {
                walk(data, cursor + n, end, found.push(v))
            },
        }
    } else if cursor != end {
        Err(ListpackError::MissingTerminator)
    } else {
        Ok(found)
    }
}

/// The header's total length and entry count.
pub open spec fn header_of(data: Seq<u8>) -> Result<(nat, nat), ListpackError> {
    if data.len() < LISTPACK_HEADER_SIZE {
        Err(ListpackError::ShortHeader)
    } else {
        let total = bytes::le_at(data, 0, 4);
        if total > data.len() {
            Err(ListpackError::TotalBytesOutOfRange)
        } else if total != data.len() {
            Err(ListpackError::TotalBytesMismatch)
        } else if data.last() != LISTPACK_EOF {
            Err(ListpackError::MissingTerminator)
        } else {
            Ok((total, bytes::le_at(data, 4, 2)))
        }
    }
}

/// The entry count, where it says one, is the number of entries.
pub open spec fn count_matches(count: nat, entries: nat) -> bool {
    count == LISTPACK_HDR_NUMELE_UNKNOWN || count == entries
}

/// The values of a pack.
pub open spec fn values_of(data: Seq<u8>) -> Result<Seq<LpValue>, ListpackError> {
    match header_of(data) {
        Err(e) => Err(e),
        Ok((total, count)) => match walk(
            data,
            LISTPACK_HEADER_SIZE as int,
            data.len() - 1,
            Seq::empty(),
        ) {
            Err(e) => Err(e),
            Ok(values) => if count_matches(count, values.len()) {
                Ok(values)
            } else {
                Err(ListpackError::ElementCountMismatch)
            },
        },
    }
}

pub proof fn lemma_backlen_digits_len(n: int, k: nat)
    requires
        k >= 1,
    ensures
        backlen_digits(n, k).len() == k,
    decreases k,
{
    if k > 1 {
        lemma_backlen_digits_len(n / 128, (k - 1) as nat);
    }
}

pub proof fn lemma_backlen_len(n: int)
    ensures
        backlen_bytes(n).len() == backlen_size(n),
{
    lemma_backlen_digits_len(n, backlen_size(n) as nat);
}

/// A decoded entry is at least two bytes long and lies inside the data.
pub proof fn lemma_entry_at(data: Seq<u8>, cursor: int)
    ensures
        entry_at(data, cursor) matches Ok((v, n)) ==> {
            &&& 2 <= n
            &&& 0 <= cursor
            &&& cursor + n <= data.len()
            &&& v matches LpValue::Text(start, end) ==> cursor < start <= end < cursor + n && end
                <= u32::MAX
            &&& v matches LpValue::Integer(x) ==> i64::MIN <= x <= i64::MAX
        },
{
    reveal(entry_at);
    bytes::lemma_pow256_values();
    if 0 <= cursor < data.len() {
        let first = data[cursor];
        if first == 0xF0 && cursor + 5 <= data.len() {
            bytes::lemma_le_value_bound(data.subrange(cursor + 1, cursor + 5));
        }
        if first == 0xF1 && cursor + 3 <= data.len() {
            bytes::lemma_le_value_bound(data.subrange(cursor + 1, cursor + 3));
        }
        if first == 0xF2 && cursor + 4 <= data.len() {
            bytes::lemma_le_value_bound(data.subrange(cursor + 1, cursor + 4));
        }
        if first == 0xF3 && cursor + 5 <= data.len() {
            bytes::lemma_le_value_bound(data.subrange(cursor + 1, cursor + 5));
        }
        if first == 0xF4 && cursor + 9 <= data.len() {
            bytes::lemma_le_value_bound(data.subrange(cursor + 1, cursor + 9));
        }
    }
}

// ---------------------------------------------------------------------------
// Header and trailers
// ---------------------------------------------------------------------------

/// Reads the header: total length and entry count.
pub fn parse_header(data: &[u8]) -> (r: Result<(u32, u16), ListpackError>)
    ensures
        match r {
            Ok((total, count)) => header_of(data@) == Ok::<(nat, nat), ListpackError>(
                (total as nat, count as nat),
            ),
            Err(e) => header_of(data@) == Err::<(nat, nat), ListpackError>(e),
        },
{
    proof {
        bytes::lemma_pow256_values();
    }
    if data.len() < LISTPACK_HEADER_SIZE {
        return Err(ListpackError::ShortHeader);
    }
    let total: u64 = read_le(data, 0, 4);
    let count: u64 = read_le(data, 4, 2);
    if total > data.len() as u64 {
        return Err(ListpackError::TotalBytesOutOfRange);
    }
    if total != data.len() as u64 {
        return Err(ListpackError::TotalBytesMismatch);
    }
    if data[data.len() - 1] != LISTPACK_EOF {
        return Err(ListpackError::MissingTerminator);
    }
    Ok((total as u32, count as u16))
}

/// Number of bytes of the trailer behind `data_len` bytes of lead and payload.
pub fn backlen_byte_count(data_len: usize) -> (n: usize)
    ensures
        n == backlen_size(data_len as int),
{
    if data_len <= 127 {
        1
    } else if data_len < 16_383 {
        2
    } else if data_len < 2_097_151 {
        3
    } else if data_len < 268_435_455 {
        4
    } else {
        5
    }
}

/// The number that base-128 digits denote.
spec fn digits128(s: Seq<u8>) -> nat
    decreases s.len(),
{
    if s.len() == 0 {
        0
    } else {
        128 * digits128(s.drop_last()) + (s.last() % 128) as nat
    }
}

spec fn pow128(n: nat) -> nat
    decreases n,
{
    if n == 0 {
        1
    } else {
        128 * pow128((n - 1) as nat)
    }
}

/// The high bit is set on all bytes but the first.
spec fn marked(s: Seq<u8>) -> bool {
    &&& s.len() > 0
    &&& s[0] < 128
    &&& forall|i: int| 1 <= i < s.len() ==> 128 <= #[trigger] s[i]
}

/// Marked digits that denote `n` are the digits of `n`, and the other way round.
proof fn lemma_backlen_digits(s: Seq<u8>, n: int)
    requires
        0 <= n,
        s.len() > 0,
    ensures
        (marked(s) && digits128(s) == n) <==> (n < pow128(s.len()) && s == backlen_digits(
            n,
            s.len(),
        )),
    decreases s.len(),
{
    let d = backlen_digits(n, s.len());
    if s.len() == 1 {
        assert(digits128(s.drop_last()) == 0);
        assert(pow128(0) == 1);
        assert(digits128(s) == s[0] % 128);
        if s[0] == n {
            assert(s =~= d);
        }
    } else {
        let front = s.drop_last();
        let k = (s.len() - 1) as nat;
        lemma_backlen_digits(front, n / 128);
        lemma_backlen_digits_len(n / 128, k);
        assert(pow128(s.len()) == 128 * pow128(k));
        assert(n / 128 < pow128(k) <==> n < pow128(s.len()));
        if marked(s) && digits128(s) == n {
            assert(128 <= s[s.len() - 1]);
            assert(marked(front)) by {
                assert forall|i: int| 1 <= i < front.len() implies 128 <= #[trigger] front[i] by {
                    assert(128 <= s[i]);
                }
            }
            assert(digits128(front) == n / 128);
            assert(s =~= d);
        }
        if n < pow128(s.len()) && s == d {
            assert(front =~= backlen_digits(n / 128, k));
            assert(marked(s)) by {
                assert forall|i: int| 1 <= i < s.len() implies 128 <= #[trigger] s[i] by {
                    if i < front.len() {
                        assert(128 <= front[i]);
                    }
                }
            }
        }
    }
}

proof fn lemma_pow128_values()
    ensures
        pow128(1) == 0x80,
        pow128(2) == 0x4000,
        pow128(3) == 0x20_0000,
        pow128(4) == 0x1000_0000,
        pow128(5) == 0x8_0000_0000,
{
    reveal_with_fuel(pow128, 6);
}

/// Whether the bytes `backlen_start..backlen_end` are marked base-128 digits of
/// `data_len`.
fn validate_multibyte_backlen(
    data: &[u8],
    backlen_start: usize,
    backlen_end: usize,
    data_len: usize,
) -> (r: Result<(), ListpackError>)
    requires
        backlen_end <= data@.len(),
        backlen_start + backlen_size(data_len as int) == backlen_end,
    ensures
        ({
            let ok = data_len < 0x8_0000_0000 && bytes::has_at(
                data@,
                backlen_start as int,
                backlen_bytes(data_len as int),
            );
            match r {
                Ok(_) => ok,
                Err(e) => !ok && e == ListpackError::InvalidBacklen,
            }
        }),
{
    let ghost s = data@.subrange(backlen_start as int, backlen_end as int);
    proof {
        lemma_backlen_digits(s, data_len as int);
        lemma_pow128_values();
        lemma_backlen_len(data_len as int);
        if bytes::has_at(data@, backlen_start as int, backlen_bytes(data_len as int)) {
            bytes::lemma_has_at_subrange(data@, backlen_start as int, backlen_bytes(data_len as int));
        } else if s == backlen_bytes(data_len as int) {
            bytes::lemma_subrange_has_at(data@, backlen_start as int, backlen_end as int);
        }
    }
    if data[backlen_start] >= 128 {
        assert(s[0] >= 128);
        return Err(ListpackError::InvalidBacklen);
    }
    let mut decoded: u64 = (data[backlen_start] % 128) as u64;
    let mut i: usize = backlen_start + 1;
    proof {
        assert(s.take(1).drop_last() =~= Seq::empty());
        assert(digits128(s.take(1).drop_last()) == 0);
    }
    while i < backlen_end
        invariant
            backlen_start < i <= backlen_end <= data@.len(),
            s == data@.subrange(backlen_start as int, backlen_end as int),
            s.len() <= 5,
            s[0] < 128,
            decoded == digits128(s.take(i - backlen_start)),
            i - backlen_start == 1 ==> decoded < 0x80,
            i - backlen_start == 2 ==> decoded < 0x4000,
            i - backlen_start == 3 ==> decoded < 0x20_0000,
            i - backlen_start == 4 ==> decoded < 0x1000_0000,
            i - backlen_start == 5 ==> decoded < 0x8_0000_0000,
            forall|k: int| 1 <= k < i - backlen_start ==> 128 <= #[trigger] s[k],
            !(marked(s) && digits128(s) == data_len) ==> !(data_len < 0x8_0000_0000
                && bytes::has_at(data@, backlen_start as int, backlen_bytes(data_len as int))),
        decreases backlen_end - i,
    {
        let ghost k = i - backlen_start;
        let b: u8 = data[i];
        assert(s[k] == b);
        if b < 128 {
            return Err(ListpackError::InvalidBacklen);
        }
        assert(s.take(k + 1).drop_last() =~= s.take(k));
        decoded = decoded * 128 + (b % 128) as u64;
        i = i + 1;
    }
    assert(s.take(s.len() as int) =~= s);
    if decoded != data_len as u64 {
        return Err(ListpackError::InvalidBacklen);
    }
    Ok(())
}

/// The length of the entry at `cursor` whose lead and payload take `data_len` bytes,
/// with a trailer of one byte.
pub fn entry_len_one_byte_backlen(data: &[u8], cursor: usize, data_len: usize) -> (r: Result<
    usize,
    ListpackError,
>)
    requires
        data_len <= 127,
    ensures
        match r {
            Ok(n) => entry_len(data@, cursor as int, data_len as int) == Ok::<int, ListpackError>(
                n as int,
            ),
            Err(e) => entry_len(data@, cursor as int, data_len as int) == Err::<int, ListpackError>(
                e,
            ),
        },
{
    let len: usize = data.len();
    if cursor >= len || data_len >= len - cursor {
        return Err(ListpackError::TruncatedEntry);
    }
    assert(data@[cursor + data_len + 0] == data@[(cursor + data_len) as int]);
    if data[cursor + data_len] != data_len as u8 {
        return Err(ListpackError::InvalidBacklen);
    }
    Ok(data_len + 1)
}

/// The length of the entry at `cursor` whose lead and payload take `data_len` bytes.
/// The trailer of one byte, which most entries have, is compared directly.
pub fn entry_len_with_backlen(data: &[u8], cursor: usize, data_len: usize) -> (r: Result<
    usize,
    ListpackError,
>)
    ensures
        match r {
            Ok(n) => entry_len(data@, cursor as int, data_len as int) == Ok::<int, ListpackError>(
                n as int,
            ),
            Err(e) => entry_len(data@, cursor as int, data_len as int) == Err::<int, ListpackError>(
                e,
            ),
        },
{
    if data_len <= 127 {
        return entry_len_one_byte_backlen(data, cursor, data_len);
    }
    entry_len_with_backlen_orig(data, cursor, data_len)
}

/// As [`entry_len_with_backlen`], with every trailer read digit by digit.
pub fn entry_len_with_backlen_orig(data: &[u8], cursor: usize, data_len: usize) -> (r: Result<
    usize,
    ListpackError,
>)
    ensures
        match r {
            Ok(n) => entry_len(data@, cursor as int, data_len as int) == Ok::<int, ListpackError>(
                n as int,
            ),
            Err(e) => entry_len(data@, cursor as int, data_len as int) == Err::<int, ListpackError>(
                e,
            ),
        },
{
    let len: usize = data.len();
    let size: usize = backlen_byte_count(data_len);
    if cursor > len || data_len > len - cursor || size > len - cursor - data_len {
        return Err(ListpackError::TruncatedEntry);
    }
    let start: usize = cursor + data_len;
    match validate_multibyte_backlen(data, start, start + size, data_len) {
        Err(e) => Err(e),
        Ok(_) => Ok(data_len + size),
    }
}

// ---------------------------------------------------------------------------
// Raw values
// ---------------------------------------------------------------------------

/// A value of a pack without its bytes, in sixteen bytes: an integer, or the window
/// that holds a string.
#[derive(Clone, Copy, Debug, PartialEq, Eq)]
pub struct RawListpackValue {
    int: i64,
    start: u32,
    len: u32,
}

/// A raw value, for matching.
#[derive(Debug, PartialEq, Eq)]
pub enum RawKind {
    Integer(i64),
    String(Range<u32>),
}

impl Clone for RawKind {
    fn clone(&self) -> (copy: Self)
        ensures
            copy == *self,
    {
        match self {
            RawKind::Integer(v) => RawKind::Integer(*v),
            RawKind::String(range) => RawKind::String(range.start..range.end),
        }
    }
}

impl View for RawKind {
    type V = LpValue;

    open spec fn view(&self) -> LpValue {
        match *self {
            RawKind::Integer(v) => LpValue::Integer(v as int),
            RawKind::String(range) => LpValue::Text(range.start as int, range.end as int),
        }
    }
}

impl View for RawListpackValue {
    type V = LpValue;

    closed spec fn view(&self) -> LpValue {
        if self.len == u32::MAX {
            LpValue::Integer(self.int as int)
        } else {
            LpValue::Text(self.start as int, self.start + self.len)
        }
    }
}

impl RawListpackValue {
    /// A window ends within what its offsets can address.
    #[verifier::type_invariant]
    spec fn inv(self) -> bool {
        self.len != u32::MAX ==> self.start + self.len <= u32::MAX
    }

    /// The integer `value`.
    pub fn integer(value: i64) -> (raw: Self)
        ensures
            raw@ == LpValue::Integer(value as int),
    {
        RawListpackValue { int: value, start: 0, len: u32::MAX }
    }

    /// The string in the window `range`. A window of `u32::MAX` bytes, which no pack
    /// has room for, reads as the integer zero.
    pub fn string(range: Range<u32>) -> (raw: Self)
        requires
            range.start <= range.end,
        ensures
            raw@ == (if range.end - range.start == u32::MAX {
                LpValue::Integer(0)
            } else {
                LpValue::Text(range.start as int, range.end as int)
            }),
    {
        RawListpackValue { int: 0, start: range.start, len: range.end - range.start }
    }

    /// The value for matching.
    pub fn kind(self) -> (kind: RawKind)
        ensures
            kind@ == self@,
    {
        proof {
            use_type_invariant(self);
        }
        if self.len == u32::MAX {
            RawKind::Integer(self.int)
        } else {
            RawKind::String(self.start..self.start + self.len)
        }
    }
}

/// The window `start..end` as a span stores it.
pub fn narrow_span(start: usize, end: usize) -> (r: Result<Range<u32>, ListpackError>)
    ensures
        match r {
            Ok(range) => range.start == start && range.end == end,
            Err(e) => (start > u32::MAX || end > u32::MAX) && e
                == ListpackError::StringLengthOverflow,
        },
{
    if start as u64 > u32::MAX as u64 || end as u64 > u32::MAX as u64 {
        return Err(ListpackError::StringLengthOverflow);
    }
    Ok(start as u32..end as u32)
}

/// The window of a string entry with `head` bytes before `slen` bytes of string, and
/// the length of the entry.
fn decode_text_entry(data: &[u8], cursor: usize, head: usize, slen: u64) -> (r: Result<
    (usize, usize, usize),
    ListpackError,
>)
    requires
        cursor + head <= data@.len(),
        head <= 5,
        slen <= u32::MAX,
    ensures
        match r {
            Ok((start, end, n)) => {
                &&& start == cursor + head
                &&& end == start + slen
                &&& end <= data@.len()
                &&& entry_len(data@, cursor as int, (head + slen) as int) == Ok::<
                    int,
                    ListpackError,
                >(n as int)
            },
            Err(e) => text_entry(data@, cursor as int, head as int, slen as int) == Err::<
                (LpValue, int),
                ListpackError,
            >(e),
        },
{
    let len: usize = data.len();
    let start: usize = cursor + head;
    if slen > (usize::MAX - start) as u64 {
        return Err(ListpackError::StringLengthOverflow);
    }
    let end: usize = start + slen as usize;
    if end > len {
        return Err(ListpackError::TruncatedEntry);
    }
    match entry_len_with_backlen(data, cursor, head + slen as usize) {
        Err(e) => Err(e),
        Ok(n) => Ok((start, end, n)),
    }
}

/// The lead bytes of integer entries.
pub open spec fn integer_lead(first: u8) -> bool {
    first < 0x80 || 0xC0 <= first < 0xE0 || 0xF1 <= first <= 0xF4
}

/// The integer at `cursor`, whose lead byte says that it is one.
fn decode_integer_entry(data: &[u8], cursor: usize) -> (r: Result<(i64, usize), ListpackError>)
    requires
        cursor < data@.len(),
        integer_lead(data@[cursor as int]),
    ensures
        match r {
            Ok((v, n)) => entry_at(data@, cursor as int) == Ok::<(LpValue, int), ListpackError>(
                (LpValue::Integer(v as int), n as int),
            ),
            Err(e) => entry_at(data@, cursor as int) == Err::<(LpValue, int), ListpackError>(e),
        },
{
    proof {
        reveal(entry_at);
    }
    let len: usize = data.len();
    let first: u8 = data[cursor];
    let data_len: usize = if first < 0x80 {
        1
    } else if first < 0xE0 {
        2
    } else if first == 0xF1 {
        3
    } else if first == 0xF2 {
        4
    } else if first == 0xF3 {
        5
    } else {
        9
    };
    if data_len > len - cursor {
        return Err(ListpackError::TruncatedEntry);
    }
    let value: i64 = if first < 0x80 {
        first as i64
    } else if first < 0xE0 {
        let raw: i64 = (first - 0xC0) as i64 * 256 + data[cursor + 1] as i64;
        if raw >= 0x1000 {
            raw - 0x2000
        } else {
            raw
        }
    } else {
        read_le_signed(data, cursor + 1, data_len - 1)
    };
    match entry_len_one_byte_backlen(data, cursor, data_len) {
        Err(e) => Err(e),
        Ok(n) => Ok((value, n)),
    }
}

/// The window of the string at `cursor` and the length of its entry, or nothing for
/// an integer.
pub fn decode_string_entry_range(data: &[u8], cursor: usize) -> (r: Result<
    Option<(Range<usize>, usize)>,
    ListpackError,
>)
    requires
        data@.len() <= u32::MAX,
    ensures
        match r {
            Ok(None) => cursor < data@.len() && integer_lead(data@[cursor as int]),
            Ok(Some((range, n))) => entry_at(data@, cursor as int) == Ok::<
                (LpValue, int),
                ListpackError,
            >((LpValue::Text(range.start as int, range.end as int), n as int)) && !integer_lead(
                data@[cursor as int],
            ),
            Err(e) => entry_at(data@, cursor as int) == Err::<(LpValue, int), ListpackError>(e) && !(
            cursor < data@.len() && integer_lead(data@[cursor as int])),
        },
{
    proof {
        reveal(entry_at);
    }
    let len: usize = data.len();
    if cursor >= len {
        return Err(ListpackError::TruncatedEntry);
    }
    let first: u8 = data[cursor];
    if first < 0x80 || (0xC0 <= first && first < 0xE0) || (0xF1 <= first && first <= 0xF4) {
        return Ok(None);
    }
    proof {
        bytes::lemma_pow256_values();
    }
    let found: Result<(usize, usize, usize), ListpackError> = if first < 0xC0 {
        decode_text_entry(data, cursor, 1, (first - 0x80) as u64)
    } else if first < 0xF0 {
        if len - cursor < 2 {
            return Err(ListpackError::TruncatedEntry);
        }
        decode_text_entry(data, cursor, 2, (first - 0xE0) as u64 * 256 + data[cursor + 1] as u64)
    } else if first == 0xF0 {
        if len - cursor < 5 {
            return Err(ListpackError::TruncatedEntry);
        }
        let slen: u64 = read_le(data, cursor + 1, 4);
        decode_text_entry(data, cursor, 5, slen)
    } else {
        return Err(ListpackError::InvalidEncoding(first));
    };
    match found {
        Err(e) => Err(e),
        Ok((start, end, n)) => Ok(Some((start..end, n))),
    }
}

/// The value at `cursor` and the length of its entry.
pub fn decode_entry_raw(data: &[u8], cursor: usize) -> (r: Result<
    (RawListpackValue, usize),
    ListpackError,
>)
    ensures
        match r {
            Ok((raw, n)) => entry_at(data@, cursor as int) == Ok::<(LpValue, int), ListpackError>(
                (raw@, n as int),
            ),
            Err(e) => entry_at(data@, cursor as int) == Err::<(LpValue, int), ListpackError>(e),
        },
{
    proof {
        reveal(entry_at);
    }
    let len: usize = data.len();
    if cursor >= len {
        return Err(ListpackError::TruncatedEntry);
    }
    let first: u8 = data[cursor];
    if first < 0x80 || (0xC0 <= first && first < 0xE0) || (0xF1 <= first && first <= 0xF4) {
        return match decode_integer_entry(data, cursor) {
            Err(e) => Err(e),
            Ok((v, n)) => Ok((RawListpackValue::integer(v), n)),
        };
    }
    proof {
        bytes::lemma_pow256_values();
    }
    let found: Result<(usize, usize, usize), ListpackError> = if first < 0xC0 {
        decode_text_entry(data, cursor, 1, (first - 0x80) as u64)
    } else if first < 0xF0 {
        if len - cursor < 2 {
            return Err(ListpackError::TruncatedEntry);
        }
        decode_text_entry(data, cursor, 2, (first - 0xE0) as u64 * 256 + data[cursor + 1] as u64)
    } else if first == 0xF0 {
        if len - cursor < 5 {
            return Err(ListpackError::TruncatedEntry);
        }
        let slen: u64 = read_le(data, cursor + 1, 4);
        decode_text_entry(data, cursor, 5, slen)
    } else {
        return Err(ListpackError::InvalidEncoding(first));
    };
    match found {
        Err(e) => Err(e),
        Ok((start, end, n)) => match narrow_span(start, end) {
            Err(e) => Err(e),
            Ok(range) => Ok((RawListpackValue::string(range), n)),
        },
    }
}

// ---------------------------------------------------------------------------
// Entries
// ---------------------------------------------------------------------------

/// A decoded entry: an integer or a byte string.
#[derive(Debug, PartialEq, Eq)]
pub enum ListpackEntry {
    Integer(i64),
    String(Vec<u8>),
}

impl Clone for ListpackEntry {
    fn clone(&self) -> (copy: Self)
        ensures
            copy@ == self@,
    {
        match self {
            ListpackEntry::Integer(v) => ListpackEntry::Integer(*v),
            ListpackEntry::String(s) => ListpackEntry::String(bytes::copy_bytes(s.as_slice())),
        }
    }
}

/// What a decoded entry says.
pub enum LpEntry {
    Integer(int),
    String(Seq<u8>),
}

impl View for ListpackEntry {
    type V = LpEntry;

    open spec fn view(&self) -> LpEntry {
        match *self {
            ListpackEntry::Integer(v) => LpEntry::Integer(v as int),
            ListpackEntry::String(s) => LpEntry::String(s@),
        }
    }
}

/// The bytes a reader sees of an entry.
pub open spec fn entry_bytes(e: LpEntry) -> Seq<u8> {
    match e {
        LpEntry::Integer(v) => decimal::dec_int(v),
        LpEntry::String(s) => s,
    }
}

/// The entry that a value of a pack stands for.
pub open spec fn value_entry(data: Seq<u8>, v: LpValue) -> LpEntry {
    match v {
        LpValue::Integer(n) => LpEntry::Integer(n),
        LpValue::Text(start, end) => LpEntry::String(data.subrange(start, end)),
    }
}

/// The decoded entries say what the values of the pack stand for.
pub open spec fn entries_match(data: Seq<u8>, entries: Seq<ListpackEntry>, values: Seq<LpValue>) -> bool {
    &&& entries.len() == values.len()
    &&& forall|i: int|
        0 <= i < values.len() ==> (#[trigger] entries[i])@ == value_entry(data, values[i])
}

impl ListpackEntry {
    /// The bytes a reader sees: an integer in decimal.
    pub fn to_bytes(&self) -> (out: Vec<u8>)
        ensures
            out@ == entry_bytes(self@),
    {
        match self {
            ListpackEntry::Integer(n) => decimal_i64_bytes(*n),
            ListpackEntry::String(s) => bytes::copy_bytes(s.as_slice()),
        }
    }

    /// As [`Self::to_bytes`], giving up the entry.
    pub fn into_bytes(self) -> (out: Vec<u8>)
        ensures
            out@ == entry_bytes(self@),
    {
        match self {
            ListpackEntry::Integer(n) => decimal_i64_bytes(n),
            ListpackEntry::String(s) => s,
        }
    }
}

/// The entry at `cursor` and its length.
pub fn decode_entry(data: &[u8], cursor: usize) -> (r: Result<(ListpackEntry, usize), ListpackError>)
    ensures
        match entry_at(data@, cursor as int) {
            Ok((v, n)) => r matches Ok((e, len)) && e@ == value_entry(data@, v) && len == n,
            Err(e) => r == Err::<(ListpackEntry, usize), ListpackError>(e),
        },
{
    proof {
        lemma_entry_at(data@, cursor as int);
    }
    match decode_entry_raw(data, cursor) {
        Err(e) => Err(e),
        Ok((raw, n)) => {
            let entry = match raw.kind() {
                RawKind::Integer(v) => ListpackEntry::Integer(v),
                RawKind::String(range) => ListpackEntry::String(
                    copy_window(data, range.start as usize, range.end as usize),
                ),
            };
            Ok((entry, n))
        },
    }
}

/// Reads every entry of a pack.
pub fn decode_listpack(data: &[u8]) -> (r: Result<Vec<ListpackEntry>, ListpackError>)
    ensures
        match values_of(data@) {
            Ok(values) => r matches Ok(entries) && entries_match(data@, entries@, values),
            Err(e) => r == Err::<Vec<ListpackEntry>, ListpackError>(e),
        },
{
    let (_, count) = match parse_header(data) {
        Err(e) => {
            return Err(e);
        },
        Ok(header) => header,
    };
    let end: usize = data.len() - 1;
    let mut cursor: usize = LISTPACK_HEADER_SIZE;
    let mut entries: Vec<ListpackEntry> = Vec::new();
    let ghost mut found = Seq::<LpValue>::empty();
    let ghost start = LISTPACK_HEADER_SIZE as int;
    while cursor < end
        invariant
            end == data@.len() - 1,
            entries_match(data@, entries@, found),
            walk(data@, cursor as int, end as int, found) == walk(
                data@,
                start,
                end as int,
                Seq::empty(),
            ),
            header_of(data@) is Ok,
            start == LISTPACK_HEADER_SIZE,
        decreases end - cursor,
    {
        proof {
            lemma_entry_at(data@, cursor as int);
        }
        match decode_entry(data, cursor) {
            Err(e) => {
                return Err(e);
            },
            Ok((entry, n)) => {
                if n > end - cursor {
                    return Err(ListpackError::TruncatedEntry);
                }
                proof {
                    let (v, _) = entry_at(data@, cursor as int)->Ok_0;
                    found = found.push(v);
                }
                entries.push(entry);
                cursor = cursor + n;
            },
        }
    }
    if cursor != end {
        return Err(ListpackError::MissingTerminator);
    }
    if count != LISTPACK_HDR_NUMELE_UNKNOWN && entries.len() != count as usize {
        return Err(ListpackError::ElementCountMismatch);
    }
    Ok(entries)
}

/// The raw values say what the values of the pack are.
pub open spec fn raws_match(raws: Seq<RawListpackValue>, values: Seq<LpValue>) -> bool {
    &&& raws.len() == values.len()
    &&& forall|i: int| 0 <= i < values.len() ==> (#[trigger] raws[i])@ == values[i]
}

/// Reads every value of a pack without copying strings or rendering integers.
pub fn decode_raw_values(data: &[u8]) -> (r: Result<Vec<RawListpackValue>, ListpackError>)
    ensures
        match values_of(data@) {
            Ok(values) => r matches Ok(raws) && raws_match(raws@, values),
            Err(e) => r == Err::<Vec<RawListpackValue>, ListpackError>(e),
        },
{
    let (_, count) = match parse_header(data) {
        Err(e) => {
            return Err(e);
        },
        Ok(header) => header,
    };
    let end: usize = data.len() - 1;
    let mut cursor: usize = LISTPACK_HEADER_SIZE;
    let mut raws: Vec<RawListpackValue> = Vec::new();
    let ghost mut found = Seq::<LpValue>::empty();
    let ghost start = LISTPACK_HEADER_SIZE as int;
    while cursor < end
        invariant
            end == data@.len() - 1,
            raws_match(raws@, found),
            walk(data@, cursor as int, end as int, found) == walk(
                data@,
                start,
                end as int,
                Seq::empty(),
            ),
            header_of(data@) is Ok,
            start == LISTPACK_HEADER_SIZE,
        decreases end - cursor,
    {
        proof {
            lemma_entry_at(data@, cursor as int);
        }
        match decode_entry_raw(data, cursor) {
            Err(e) => {
                return Err(e);
            },
            Ok((raw, n)) => {
                if n > end - cursor {
                    return Err(ListpackError::TruncatedEntry);
                }
                proof {
                    found = found.push(raw@);
                }
                raws.push(raw);
                cursor = cursor + n;
            },
        }
    }
    if cursor != end {
        return Err(ListpackError::MissingTerminator);
    }
    if count != LISTPACK_HDR_NUMELE_UNKNOWN && raws.len() != count as usize {
        return Err(ListpackError::ElementCountMismatch);
    }
    Ok(raws)
}

// ---------------------------------------------------------------------------
// Spans
// ---------------------------------------------------------------------------

/// The decimal text of an integer, right-aligned in a buffer that any `i64` fits.
#[derive(Debug, Clone, Copy, PartialEq, Eq)]
pub struct ListpackIntegerBytes {
    bytes: [u8; 20],
    start: u8,
}

impl View for ListpackIntegerBytes {
    type V = Seq<u8>;

    closed spec fn view(&self) -> Seq<u8> {
        self.bytes@.subrange(self.start as int, 20)
    }
}

impl ListpackIntegerBytes {
    /// The buffer holds the text of some integer.
    #[verifier::type_invariant]
    spec fn inv(self) -> bool {
        &&& self.start <= 20
        &&& exists|v: i64| #[trigger] decimal::dec_int(v as int) == self.bytes@.subrange(
            self.start as int,
            20,
        )
    }

    /// Renders `value`.
    pub fn new(value: i64) -> (r: Self)
        ensures
            r@ == decimal::dec_int(value as int),
    {
        let text: Vec<u8> = decimal_i64_bytes(value);
        proof {
            decimal::lemma_dec_nat_len(
                if value < 0 {
                    (-value) as nat
                } else {
                    value as nat
                },
            );
        }
        let start: usize = 20 - text.len();
        let mut buffer: [u8; 20] = [0u8; 20];
        let mut k: usize = 0;
        while k < text.len()
            invariant
                k <= text@.len() <= 20,
                start == 20 - text@.len(),
                forall|i: int| 0 <= i < k ==> #[trigger] buffer@[start + i] == text@[i],
            decreases text@.len() - k,
        {
            buffer[start + k] = text[k];
            k = k + 1;
        }
        assert(buffer@.subrange(start as int, 20) =~= text@) by {
            assert forall|i: int| 0 <= i < text@.len() implies buffer@.subrange(
                start as int,
                20,
            )[i] == text@[i] by {
                assert(buffer@[start + i] == text@[i]);
            }
        }
        ListpackIntegerBytes { bytes: buffer, start: start as u8 }
    }

    /// The text.
    pub fn as_slice(&self) -> (s: &[u8])
        ensures
            s@ == self@,
    {
        proof {
            use_type_invariant(self);
        }
        &self.bytes.as_slice()[self.start as usize..20]
    }
}

/// A value of a pack: a string by its window, an integer by its text.
#[derive(Debug, PartialEq, Eq)]
pub enum ListpackValueSpan {
    String(Range<u32>),
    Integer(ListpackIntegerBytes),
}

impl Clone for ListpackValueSpan {
    fn clone(&self) -> (copy: Self)
        ensures
            copy == *self,
    {
        match self {
            ListpackValueSpan::String(range) => ListpackValueSpan::String(range.start..range.end),
            ListpackValueSpan::Integer(text) => ListpackValueSpan::Integer(*text),
        }
    }
}

impl ListpackValueSpan {
    /// The span is a window of `listpack`, or holds its own text.
    pub open spec fn fits(self, listpack: Seq<u8>) -> bool {
        self matches ListpackValueSpan::String(range) ==> range.start <= range.end
            <= listpack.len()
    }

    /// The bytes a reader sees.
    pub open spec fn bytes_in(self, listpack: Seq<u8>) -> Seq<u8> {
        match self {
            ListpackValueSpan::String(range) => listpack.subrange(
                range.start as int,
                range.end as int,
            ),
            ListpackValueSpan::Integer(text) => text@,
        }
    }

    /// The span stands for the value `v`.
    pub open spec fn stands_for(self, v: LpValue) -> bool {
        match (self, v) {
            (ListpackValueSpan::String(range), LpValue::Text(start, end)) => range.start == start
                && range.end == end,
            (ListpackValueSpan::Integer(text), LpValue::Integer(n)) => text@ == decimal::dec_int(n),
            _ => false,
        }
    }

    /// The span of an integer.
    pub fn integer(value: i64) -> (span: Self)
        ensures
            span.stands_for(LpValue::Integer(value as int)),
    {
        ListpackValueSpan::Integer(ListpackIntegerBytes::new(value))
    }

    /// The span of a raw value.
    pub fn of_raw(raw: RawListpackValue) -> (span: Self)
        ensures
            span.stands_for(raw@),
    {
        match raw.kind() {
            RawKind::Integer(v) => ListpackValueSpan::integer(v),
            RawKind::String(range) => ListpackValueSpan::String(range),
        }
    }

    /// The bytes a reader sees.
    pub fn as_bytes<'a>(&'a self, listpack: &'a [u8]) -> (s: &'a [u8])
        requires
            self.fits(listpack@),
        ensures
            s@ == self.bytes_in(listpack@),
    {
        match self {
            ListpackValueSpan::String(range) => {
                &listpack[range.start as usize..range.end as usize]
            },
            ListpackValueSpan::Integer(text) => text.as_slice(),
        }
    }

    /// The number of bytes a reader sees.
    pub fn byte_len(&self) -> (n: usize)
        requires
            self matches ListpackValueSpan::String(range) ==> range.start <= range.end,
        ensures
            match *self {
                ListpackValueSpan::String(range) => n == range.end - range.start,
                ListpackValueSpan::Integer(text) => n == text@.len(),
            },
            forall|listpack: Seq<u8>| #[trigger]
                self.fits(listpack) ==> n == self.bytes_in(listpack).len(),
    {
        match self {
            ListpackValueSpan::String(range) => (range.end - range.start) as usize,
            ListpackValueSpan::Integer(text) => text.as_slice().len(),
        }
    }

    /// The first byte a reader sees, if there is one.
    pub fn first_byte(&self, listpack: &[u8]) -> (b: Option<u8>)
        ensures
            match *self {
                ListpackValueSpan::String(range) => b == (if range.start < range.end && range.start
                    < listpack@.len() {
                    Some(listpack@[range.start as int])
                } else {
                    None
                }),
                ListpackValueSpan::Integer(text) => b == (if text@.len() > 0 {
                    Some(text@[0])
                } else {
                    None
                }),
            },
    {
        match self {
            ListpackValueSpan::String(range) => {
                if range.start < range.end && (range.start as usize) < listpack.len() {
                    Some(listpack[range.start as usize])
                } else {
                    None
                }
            },
            ListpackValueSpan::Integer(text) => {
                let s: &[u8] = text.as_slice();
                if s.len() > 0 {
                    Some(s[0])
                } else {
                    None
                }
            },
        }
    }

    /// Whether the value is a string.
    pub fn is_string_encoded(&self) -> (r: bool)
        ensures
            r == (self is String),
    {
        match self {
            ListpackValueSpan::String(_) => true,
            ListpackValueSpan::Integer(_) => false,
        }
    }

    /// The integer, if the value is one.
    pub fn as_i64(&self) -> (r: Option<i64>)
        ensures
            match *self {
                ListpackValueSpan::String(_) => r is None,
                ListpackValueSpan::Integer(text) => r matches Some(v) && text@ == decimal::dec_int(
                    v as int,
                ),
            },
    {
        match self {
            ListpackValueSpan::String(_) => None,
            ListpackValueSpan::Integer(text) => {
                proof {
                    use_type_invariant(text);
                }
                parse_canonical_i64(text.as_slice())
            },
        }
    }
}

/// The spans stand for the values of the pack.
pub open spec fn spans_match(spans: Seq<ListpackValueSpan>, values: Seq<LpValue>) -> bool {
    &&& spans.len() == values.len()
    &&& forall|i: int| 0 <= i < values.len() ==> (#[trigger] spans[i]).stands_for(values[i])
}

/// Appends the span at `cursor` and returns the length of its entry.
pub fn decode_entry_value_span_into(
    data: &[u8],
    cursor: usize,
    out: &mut Vec<ListpackValueSpan>,
) -> (r: Result<usize, ListpackError>)
    ensures
        match entry_at(data@, cursor as int) {
            Ok((v, n)) => {
                &&& r == Ok::<usize, ListpackError>(n as usize)
                &&& 0 <= n <= usize::MAX
                &&& final(out)@.len() == old(out)@.len() + 1
                &&& final(out)@.drop_last() == old(out)@
                &&& final(out)@.last().stands_for(v)
            },
            Err(e) => r == Err::<usize, ListpackError>(e) && final(out)@ == old(out)@,
        },
{
    match decode_entry_raw(data, cursor) {
        Err(e) => Err(e),
        Ok((raw, n)) => {
            out.push(ListpackValueSpan::of_raw(raw));
            assert(out@.drop_last() =~= old(out)@);
            Ok(n)
        },
    }
}

fn decode_value_spans_impl<const PRESIZE: bool>(data: &[u8]) -> (r: Result<
    Vec<ListpackValueSpan>,
    ListpackError,
>)
    ensures
        match values_of(data@) {
            Ok(values) => r matches Ok(spans) && spans_match(spans@, values),
            Err(e) => r == Err::<Vec<ListpackValueSpan>, ListpackError>(e),
        },
{
    let (_, count) = match parse_header(data) {
        Err(e) => {
            return Err(e);
        },
        Ok(header) => header,
    };
    let end: usize = data.len() - 1;
    let mut cursor: usize = LISTPACK_HEADER_SIZE;
    let mut spans: Vec<ListpackValueSpan> = if PRESIZE && count != LISTPACK_HDR_NUMELE_UNKNOWN {
        Vec::with_capacity(count as usize)
    } else {
        Vec::new()
    };
    let ghost mut found = Seq::<LpValue>::empty();
    let ghost start = LISTPACK_HEADER_SIZE as int;
    while cursor < end
        invariant
            end == data@.len() - 1,
            spans_match(spans@, found),
            walk(data@, cursor as int, end as int, found) == walk(
                data@,
                start,
                end as int,
                Seq::empty(),
            ),
            header_of(data@) is Ok,
            start == LISTPACK_HEADER_SIZE,
        decreases end - cursor,
    {
        proof {
            lemma_entry_at(data@, cursor as int);
        }
        let ghost before = spans@;
        match decode_entry_value_span_into(data, cursor, &mut spans) {
            Err(e) => {
                return Err(e);
            },
            Ok(n) => {
                if n > end - cursor {
                    return Err(ListpackError::TruncatedEntry);
                }
                proof {
                    let (v, _) = entry_at(data@, cursor as int)->Ok_0;
                    assert forall|i: int| 0 <= i < found.len() implies (
                    #[trigger] spans@[i]).stands_for(found[i]) by {
                        assert(spans@.drop_last()[i] == before[i]);
                    }
                    found = found.push(v);
                }
                cursor = cursor + n;
            },
        }
    }
    if cursor != end {
        return Err(ListpackError::MissingTerminator);
    }
    if count != LISTPACK_HDR_NUMELE_UNKNOWN && spans.len() != count as usize {
        return Err(ListpackError::ElementCountMismatch);
    }
    Ok(spans)
}

/// Reads every value of a pack, strings by their windows.
pub fn decode_value_spans(data: &[u8]) -> (r: Result<Vec<ListpackValueSpan>, ListpackError>)
    ensures
        match values_of(data@) {
            Ok(values) => r matches Ok(spans) && spans_match(spans@, values),
            Err(e) => r == Err::<Vec<ListpackValueSpan>, ListpackError>(e),
        },
{
    decode_value_spans_impl::<true>(data)
}

/// As [`decode_value_spans`], with or without reserving room up front.
pub fn bench_decode_value_spans<const PRESIZE: bool>(data: &[u8]) -> (r: Result<
    Vec<ListpackValueSpan>,
    ListpackError,
>)
    ensures
        match values_of(data@) {
            Ok(values) => r matches Ok(spans) && spans_match(spans@, values),
            Err(e) => r == Err::<Vec<ListpackValueSpan>, ListpackError>(e),
        },
{
    decode_value_spans_impl::<PRESIZE>(data)
}

/// A span that stands for a value gives the bytes a reader sees of the value.
pub proof fn law_span_bytes(data: Seq<u8>, span: ListpackValueSpan, v: LpValue)
    requires
        span.stands_for(v),
    ensures
        span.bytes_in(data) == value_bytes(data, v),
{
}

/// The values of a pack lie inside it, and integers fit.
pub open spec fn value_fits(data: Seq<u8>, v: LpValue) -> bool {
    match v {
        LpValue::Integer(n) => i64::MIN <= n <= i64::MAX,
        LpValue::Text(start, end) => 0 <= start <= end <= data.len(),
    }
}

proof fn lemma_walk_fits(data: Seq<u8>, cursor: int, end: int, found: Seq<LpValue>)
    requires
        forall|i: int| 0 <= i < found.len() ==> value_fits(data, #[trigger] found[i]),
    ensures
        walk(data, cursor, end, found) matches Ok(values) ==> forall|i: int|
            0 <= i < values.len() ==> value_fits(data, #[trigger] values[i]),
    decreases end - cursor,
{
    if cursor < end {
        lemma_entry_at(data, cursor);
        if let Ok((v, n)) = entry_at(data, cursor) {
            if cursor + n <= end {
                lemma_walk_fits(data, cursor + n, end, found.push(v));
            }
        }
    }
}

/// A walk keeps what was already found.
pub proof fn lemma_walk_extends(data: Seq<u8>, cursor: int, end: int, found: Seq<LpValue>)
    ensures
        walk(data, cursor, end, found) matches Ok(values) ==> values.len() >= found.len()
            && forall|i: int| 0 <= i < found.len() ==> #[trigger] values[i] == found[i],
    decreases end - cursor,
{
    if cursor < end {
        lemma_entry_at(data, cursor);
        if let Ok((v, n)) = entry_at(data, cursor) {
            if cursor + n <= end {
                lemma_walk_extends(data, cursor + n, end, found.push(v));
                if let Ok(values) = walk(data, cursor + n, end, found.push(v)) {
                    assert forall|i: int| 0 <= i < found.len() implies #[trigger] values[i]
                        == found[i] by {
                        assert(values[i] == found.push(v)[i]);
                    }
                }
            }
        }
    }
}

proof fn lemma_walk_count(data: Seq<u8>, cursor: int, end: int, found: Seq<LpValue>)
    requires
        cursor <= end,
    ensures
        walk(data, cursor, end, found) matches Ok(values) ==> values.len() <= found.len() + (end
            - cursor),
    decreases end - cursor,
{
    if cursor < end {
        lemma_entry_at(data, cursor);
        if let Ok((v, n)) = entry_at(data, cursor) {
            if cursor + n <= end {
                lemma_walk_count(data, cursor + n, end, found.push(v));
            }
        }
    }
}

/// A pack has no more values than bytes.
pub proof fn lemma_values_count(data: Seq<u8>)
    ensures
        values_of(data) matches Ok(values) ==> values.len() <= data.len(),
{
    let start = LISTPACK_HEADER_SIZE as int;
    if start <= data.len() - 1 {
        lemma_walk_count(data, start, data.len() - 1, Seq::empty());
    }
}

/// Every value of a pack lies inside it.
pub proof fn law_values_fit(data: Seq<u8>)
    ensures
        values_of(data) matches Ok(values) ==> forall|i: int|
            0 <= i < values.len() ==> value_fits(data, #[trigger] values[i]),
{
    lemma_walk_fits(data, LISTPACK_HEADER_SIZE as int, data.len() - 1, Seq::empty());
}

// ---------------------------------------------------------------------------
// Retained spans
// ---------------------------------------------------------------------------

/// A span whose integer text lies in an arena beside the spans.
#[derive(Debug, PartialEq, Eq)]
pub enum RetainedListpackValueSpan {
    String(Range<u32>),
    Integer(Range<u32>),
}

impl Clone for RetainedListpackValueSpan {
    fn clone(&self) -> (copy: Self)
        ensures
            copy == *self,
    {
        match self {
            RetainedListpackValueSpan::String(range) => RetainedListpackValueSpan::String(
                range.start..range.end,
            ),
            RetainedListpackValueSpan::Integer(range) => RetainedListpackValueSpan::Integer(
                range.start..range.end,
            ),
        }
    }
}

impl RetainedListpackValueSpan {
    /// The window, wherever it lies.
    pub open spec fn range(self) -> Range<u32> {
        match self {
            RetainedListpackValueSpan::String(range) => range,
            RetainedListpackValueSpan::Integer(range) => range,
        }
    }

    /// The window lies inside the pack or the arena.
    pub open spec fn fits(self, listpack: Seq<u8>, arena: Seq<u8>) -> bool {
        &&& self.range().start <= self.range().end
        &&& self is String ==> self.range().end <= listpack.len()
        &&& self is Integer ==> self.range().end <= arena.len()
    }

    /// The bytes a reader sees.
    pub open spec fn bytes_in(self, listpack: Seq<u8>, arena: Seq<u8>) -> Seq<u8> {
        match self {
            RetainedListpackValueSpan::String(range) => listpack.subrange(
                range.start as int,
                range.end as int,
            ),
            RetainedListpackValueSpan::Integer(range) => arena.subrange(
                range.start as int,
                range.end as int,
            ),
        }
    }

    /// The bytes a reader sees.
    pub fn as_bytes<'a>(&self, listpack: &'a [u8], integer_bytes: &'a [u8]) -> (s: &'a [u8])
        requires
            self.fits(listpack@, integer_bytes@),
        ensures
            s@ == self.bytes_in(listpack@, integer_bytes@),
    {
        match self {
            RetainedListpackValueSpan::String(range) => {
                &listpack[range.start as usize..range.end as usize]
            },
            RetainedListpackValueSpan::Integer(range) => {
                &integer_bytes[range.start as usize..range.end as usize]
            },
        }
    }

    /// The number of bytes a reader sees.
    pub fn byte_len(&self) -> (n: usize)
        requires
            self.range().start <= self.range().end,
        ensures
            n == self.range().end - self.range().start,
    {
        match self {
            RetainedListpackValueSpan::String(range) => (range.end - range.start) as usize,
            RetainedListpackValueSpan::Integer(range) => (range.end - range.start) as usize,
        }
    }

    /// The first byte a reader sees, if there is one.
    pub fn first_byte(&self, listpack: &[u8], integer_bytes: &[u8]) -> (b: Option<u8>)
        requires
            self.fits(listpack@, integer_bytes@),
        ensures
            b == (if self.bytes_in(listpack@, integer_bytes@).len() > 0 {
                Some(self.bytes_in(listpack@, integer_bytes@)[0])
            } else {
                None
            }),
    {
        let s: &[u8] = self.as_bytes(listpack, integer_bytes);
        if s.len() > 0 {
            Some(s[0])
        } else {
            None
        }
    }

    /// Whether the value is a string.
    pub fn is_string_encoded(&self) -> (r: bool)
        ensures
            r == (self is String),
    {
        match self {
            RetainedListpackValueSpan::String(_) => true,
            RetainedListpackValueSpan::Integer(_) => false,
        }
    }
}

/// Spans with the arena that holds the text of their integers.
#[derive(Debug, PartialEq, Eq)]
pub struct RetainedListpackSpans {
    entries: Vec<RetainedListpackValueSpan>,
    integer_bytes: Vec<u8>,
}

impl Clone for RetainedListpackSpans {
    fn clone(&self) -> (copy: Self)
        ensures
            copy.spans() == self.spans(),
            copy.arena() == self.arena(),
    {
        let mut entries: Vec<RetainedListpackValueSpan> = Vec::new();
        let mut i: usize = 0;
        while i < self.entries.len()
            invariant
                i <= self.entries@.len(),
                entries@ == self.entries@.take(i as int),
            decreases self.entries@.len() - i,
        {
            entries.push(self.entries[i].clone());
            assert(self.entries@.take(i + 1) =~= self.entries@.take(i as int).push(
                self.entries@[i as int],
            ));
            i = i + 1;
        }
        assert(self.entries@.take(i as int) =~= self.entries@);
        RetainedListpackSpans {
            entries,
            integer_bytes: bytes::copy_bytes(self.integer_bytes.as_slice()),
        }
    }
}

impl RetainedListpackSpans {
    /// The spans.
    pub closed spec fn spans(self) -> Seq<RetainedListpackValueSpan> {
        self.entries@
    }

    /// The arena.
    pub closed spec fn arena(self) -> Seq<u8> {
        self.integer_bytes@
    }

    /// The spans.
    pub fn entries(&self) -> (r: &[RetainedListpackValueSpan])
        ensures
            r@ == self.spans(),
    {
        self.entries.as_slice()
    }

    /// The arena.
    pub fn integer_bytes(&self) -> (r: &[u8])
        ensures
            r@ == self.arena(),
    {
        self.integer_bytes.as_slice()
    }

    /// Whether there is no span.
    pub fn is_empty(&self) -> (r: bool)
        ensures
            r == (self.spans().len() == 0),
    {
        self.entries.len() == 0
    }

    /// The spans and the arena.
    pub fn into_parts(self) -> (r: (Vec<RetainedListpackValueSpan>, Vec<u8>))
        ensures
            r.0@ == self.spans(),
            r.1@ == self.arena(),
    {
        (self.entries, self.integer_bytes)
    }
}

/// The texts of the integers among the first `n` values, one behind the other.
pub open spec fn integer_arena(values: Seq<LpValue>, n: nat) -> Seq<u8>
    decreases n,
{
    if n == 0 {
        Seq::empty()
    } else {
        let before = integer_arena(values, (n - 1) as nat);
        match values[n - 1] {
            LpValue::Integer(v) => before + decimal::dec_int(v),
            LpValue::Text(_, _) => before,
        }
    }
}

/// The retained span of the value at `i`: a string by its window in the pack, an
/// integer by the window of its text in the arena.
pub open spec fn retained_match(span: RetainedListpackValueSpan, values: Seq<LpValue>, i: int) -> bool {
    match (span, values[i]) {
        (RetainedListpackValueSpan::String(range), LpValue::Text(start, end)) => range.start
            == start && range.end == end,
        (RetainedListpackValueSpan::Integer(range), LpValue::Integer(_)) => range.start
            == integer_arena(values, i as nat).len() && range.end == integer_arena(
            values,
            (i + 1) as nat,
        ).len(),
        _ => false,
    }
}

proof fn lemma_arena_prefix(values: Seq<LpValue>, m: nat, n: nat)
    requires
        m <= n,
    ensures
        integer_arena(values, m).len() <= integer_arena(values, n).len(),
        integer_arena(values, n).take(integer_arena(values, m).len() as int) == integer_arena(
            values,
            m,
        ),
    decreases n,
{
    let a = integer_arena(values, m);
    if m < n {
        lemma_arena_prefix(values, m, (n - 1) as nat);
        let b = integer_arena(values, (n - 1) as nat);
        assert(integer_arena(values, n).take(a.len() as int) =~= b.take(a.len() as int));
    } else {
        assert(a.take(a.len() as int) =~= a);
    }
}

/// Retained spans and their arena give the bytes a reader sees of every value.
pub proof fn law_retained_bytes(
    data: Seq<u8>,
    values: Seq<LpValue>,
    i: int,
    span: RetainedListpackValueSpan,
)
    requires
        0 <= i < values.len(),
        retained_match(span, values, i),
    ensures
        span.bytes_in(data, integer_arena(values, values.len())) == value_bytes(data, values[i]),
        span is Integer ==> span.fits(data, integer_arena(values, values.len())),
{
    if let LpValue::Integer(v) = values[i] {
        let before = integer_arena(values, i as nat);
        let after = integer_arena(values, (i + 1) as nat);
        let all = integer_arena(values, values.len());
        lemma_arena_prefix(values, (i + 1) as nat, values.len());
        assert(all.subrange(before.len() as int, after.len() as int) =~= all.take(
            after.len() as int,
        ).subrange(before.len() as int, after.len() as int));
        assert(after.subrange(before.len() as int, after.len() as int) =~= decimal::dec_int(v));
    }
}

/// Reads every value of a pack into spans with an arena for the integers. Fails
/// where the arena outgrows what a span can address.
pub fn decode_retained_listpack_spans(data: &[u8]) -> (r: Result<
    RetainedListpackSpans,
    ListpackError,
>)
    ensures
        match values_of(data@) {
            Ok(values) => match r {
                Ok(retained) => {
                    &&& retained.spans().len() == values.len()
                    &&& retained.arena() == integer_arena(values, values.len())
                    &&& forall|i: int|
                        0 <= i < values.len() ==> retained_match(
                            #[trigger] retained.spans()[i],
                            values,
                            i,
                        )
                },
                Err(e) => {
                    &&& e == ListpackError::StringLengthOverflow
                    &&& integer_arena(values, values.len()).len() > u32::MAX
                },
            },
            Err(e) => r == Err::<RetainedListpackSpans, ListpackError>(e),
        },
{
    let decoded: Vec<ListpackValueSpan> = match decode_value_spans(data) {
        Err(e) => {
            return Err(e);
        },
        Ok(decoded) => decoded,
    };
    let ghost values = values_of(data@)->Ok_0;
    let mut entries: Vec<RetainedListpackValueSpan> = Vec::new();
    let mut integer_bytes: Vec<u8> = Vec::new();
    let mut i: usize = 0;
    while i < decoded.len()
        invariant
            i <= decoded@.len(),
            spans_match(decoded@, values),
            values_of(data@) == Ok::<Seq<LpValue>, ListpackError>(values),
            entries@.len() == i,
            integer_bytes@ == integer_arena(values, i as nat),
            forall|k: int| 0 <= k < i ==> retained_match(#[trigger] entries@[k], values, k),
        decreases decoded@.len() - i,
    {
        assert(decoded@[i as int].stands_for(values[i as int]));
        match &decoded[i] {
            ListpackValueSpan::String(range) => {
                entries.push(RetainedListpackValueSpan::String(range.start..range.end));
            },
            ListpackValueSpan::Integer(text) => {
                let start: usize = integer_bytes.len();
                integer_bytes.extend_from_slice(text.as_slice());
                let end: usize = integer_bytes.len();
                proof {
                    lemma_arena_prefix(values, (i + 1) as nat, values.len());
                }
                match narrow_span(start, end) {
                    Err(e) => {
                        return Err(e);
                    },
                    Ok(range) => {
                        entries.push(RetainedListpackValueSpan::Integer(range));
                    },
                }
            },
        }
        i = i + 1;
    }
    Ok(RetainedListpackSpans { entries, integer_bytes })
}

// ---------------------------------------------------------------------------
// Packs of strings only
// ---------------------------------------------------------------------------

/// The windows of the strings from `cursor` to `end`, behind those already found, or
/// nothing if an integer comes first.
pub open spec fn string_walk(data: Seq<u8>, cursor: int, end: int, found: Seq<(int, int)>) -> Result<
    Option<Seq<(int, int)>>,
    ListpackError,
>
    decreases end - cursor,
{
    if cursor < end {
        if integer_lead(data[cursor]) {
            Ok(None)
        } else {
            proof {
                lemma_entry_at(data, cursor);
            }
            match entry_at(data, cursor) {
                Err(e) => Err(e),
                Ok((LpValue::Text(s, t), n)) => if cursor + n > end {
                    Err(ListpackError::TruncatedEntry)
                } else {
                    string_walk(data, cursor + n, end, found.push((s, t)))
                },
                Ok((LpValue::Integer(_), _)) => Ok(None),
            }
        }
    } else if cursor != end {
        Err(ListpackError::MissingTerminator)
    } else {
        Ok(Some(found))
    }
}

/// The windows of the strings of a pack, or nothing if it holds an integer.
pub open spec fn strings_of(data: Seq<u8>) -> Result<Option<Seq<(int, int)>>, ListpackError> {
    match header_of(data) {
        Err(e) => Err(e),
        Ok((total, count)) => match string_walk(
            data,
            LISTPACK_HEADER_SIZE as int,
            data.len() - 1,
            Seq::empty(),
        ) {
            Err(e) => Err(e),
            Ok(None) => Ok(None),
            Ok(Some(ranges)) => if count_matches(count, ranges.len()) {
                Ok(Some(ranges))
            } else {
                Err(ListpackError::ElementCountMismatch)
            },
        },
    }
}

/// The windows, as pairs of offsets.
pub open spec fn range_views(ranges: Seq<Range<usize>>) -> Seq<(int, int)> {
    ranges.map_values(|r: Range<usize>| (r.start as int, r.end as int))
}

/// The windows of the strings of a pack, or nothing if it holds an integer.
pub fn decode_string_ranges_if_all_strings(data: &[u8]) -> (r: Result<
    Option<Vec<Range<usize>>>,
    ListpackError,
>)
    ensures
        match strings_of(data@) {
            Ok(Some(windows)) => r matches Ok(Some(ranges)) && range_views(ranges@) == windows,
            Ok(None) => r matches Ok(None),
            Err(e) => r == Err::<Option<Vec<Range<usize>>>, ListpackError>(e),
        },
{
    let (_, count) = match parse_header(data) {
        Err(e) => {
            return Err(e);
        },
        Ok(header) => header,
    };
    let end: usize = data.len() - 1;
    let mut cursor: usize = LISTPACK_HEADER_SIZE;
    let mut ranges: Vec<Range<usize>> = Vec::new();
    let ghost start = LISTPACK_HEADER_SIZE as int;
    assert(range_views(ranges@) =~= Seq::empty());
    while cursor < end
        invariant
            end == data@.len() - 1,
            data@.len() <= u32::MAX,
            string_walk(data@, cursor as int, end as int, range_views(ranges@)) == string_walk(
                data@,
                start,
                end as int,
                Seq::empty(),
            ),
            header_of(data@) is Ok,
            start == LISTPACK_HEADER_SIZE,
        decreases end - cursor,
    {
        proof {
            lemma_entry_at(data@, cursor as int);
        }
        match decode_string_entry_range(data, cursor) {
            Err(e) => {
                return Err(e);
            },
            Ok(None) => {
                return Ok(None);
            },
            Ok(Some((range, n))) => {
                if n > end - cursor {
                    return Err(ListpackError::TruncatedEntry);
                }
                proof {
                    assert(range_views(ranges@.push(range)) =~= range_views(ranges@).push(
                        (range.start as int, range.end as int),
                    ));
                }
                ranges.push(range);
                cursor = cursor + n;
            },
        }
    }
    if cursor != end {
        return Err(ListpackError::MissingTerminator);
    }
    if count != LISTPACK_HDR_NUMELE_UNKNOWN && ranges.len() != count as usize {
        return Err(ListpackError::ElementCountMismatch);
    }
    Ok(Some(ranges))
}

proof fn lemma_string_walk(data: Seq<u8>, cursor: int, end: int, found: Seq<(int, int)>, texts: Seq<LpValue>)
    requires
        0 <= cursor,
        end <= data.len(),
        texts == found.map_values(|w: (int, int)| LpValue::Text(w.0, w.1)),
    ensures
        string_walk(data, cursor, end, found) matches Ok(Some(windows)) ==> walk(
            data,
            cursor,
            end,
            texts,
        ) == Ok::<Seq<LpValue>, ListpackError>(
            windows.map_values(|w: (int, int)| LpValue::Text(w.0, w.1)),
        ),
    decreases end - cursor,
{
    if cursor < end && !integer_lead(data[cursor]) {
        lemma_entry_at(data, cursor);
        if let Ok((LpValue::Text(s, t), n)) = entry_at(data, cursor) {
            if cursor + n <= end {
                assert(found.push((s, t)).map_values(|w: (int, int)| LpValue::Text(w.0, w.1))
                    =~= texts.push(LpValue::Text(s, t)));
                lemma_string_walk(
                    data,
                    cursor + n,
                    end,
                    found.push((s, t)),
                    texts.push(LpValue::Text(s, t)),
                );
            }
        }
    }
}

/// Where a pack holds strings only, its windows are its values.
pub proof fn law_string_windows_are_values(data: Seq<u8>)
    ensures
        strings_of(data) matches Ok(Some(windows)) ==> values_of(data) == Ok::<
            Seq<LpValue>,
            ListpackError,
        >(windows.map_values(|w: (int, int)| LpValue::Text(w.0, w.1))),
{
    if header_of(data) is Ok {
        let none = Seq::<(int, int)>::empty();
        assert(none.map_values(|w: (int, int)| LpValue::Text(w.0, w.1)) =~= Seq::<
            LpValue,
        >::empty());
        lemma_string_walk(
            data,
            LISTPACK_HEADER_SIZE as int,
            data.len() - 1,
            none,
            Seq::empty(),
        );
    }
}

// ---------------------------------------------------------------------------
// Walking trailers only
// ---------------------------------------------------------------------------

/// The number of bytes of lead and payload of the entry at `cursor`.
pub open spec fn data_len_at(data: Seq<u8>, cursor: int) -> Result<int, ListpackError> {
    if !(0 <= cursor < data.len()) {
        Err(ListpackError::TruncatedEntry)
    } else {
        let first = data[cursor];
        if first < 0x80 {
            Ok(1)
        } else if first < 0xC0 {
            Ok(1 + (first - 0x80))
        } else if first < 0xE0 {
            Ok(2)
        } else if first < 0xF0 {
            if cursor + 2 > data.len() {
                Err(ListpackError::TruncatedEntry)
            } else {
                Ok(2 + (first - 0xE0) * 256 + data[cursor + 1])
            }
        } else if first == 0xF0 {
            if cursor + 5 > data.len() {
                Err(ListpackError::TruncatedEntry)
            } else if 5 + bytes::le_at(data, cursor + 1, 4) > usize::MAX {
                Err(ListpackError::StringLengthOverflow)
            } else {
                Ok(5 + bytes::le_at(data, cursor + 1, 4) as int)
            }
        } else if first == 0xF1 {
            Ok(3)
        } else if first == 0xF2 {
            Ok(4)
        } else if first == 0xF3 {
            Ok(5)
        } else if first == 0xF4 {
            Ok(9)
        } else {
            Err(ListpackError::InvalidEncoding(first))
        }
    }
}

/// The number of bytes of lead and payload of the entry at `cursor`.
pub fn entry_data_len(data: &[u8], cursor: usize) -> (r: Result<usize, ListpackError>)
    ensures
        match data_len_at(data@, cursor as int) {
            Ok(n) => r == Ok::<usize, ListpackError>(n as usize) && 1 <= n <= usize::MAX,
            Err(e) => r == Err::<usize, ListpackError>(e),
        },
{
    let len: usize = data.len();
    if cursor >= len {
        return Err(ListpackError::TruncatedEntry);
    }
    proof {
        bytes::lemma_pow256_values();
    }
    let first: u8 = data[cursor];
    if first < 0x80 {
        Ok(1)
    } else if first < 0xC0 {
        Ok(1 + (first - 0x80) as usize)
    } else if first < 0xE0 {
        Ok(2)
    } else if first < 0xF0 {
        if len - cursor < 2 {
            return Err(ListpackError::TruncatedEntry);
        }
        Ok(2 + (first - 0xE0) as usize * 256 + data[cursor + 1] as usize)
    } else if first == 0xF0 {
        if len - cursor < 5 {
            return Err(ListpackError::TruncatedEntry);
        }
        let slen: u64 = read_le(data, cursor + 1, 4);
        if slen > (usize::MAX - 5) as u64 {
            return Err(ListpackError::StringLengthOverflow);
        }
        Ok(5 + slen as usize)
    } else if first == 0xF1 {
        Ok(3)
    } else if first == 0xF2 {
        Ok(4)
    } else if first == 0xF3 {
        Ok(5)
    } else if first == 0xF4 {
        Ok(9)
    } else {
        Err(ListpackError::InvalidEncoding(first))
    }
}

/// The bytes of all entries from `cursor` to `end`, found by their trailers alone.
pub open spec fn trailer_walk(data: Seq<u8>, cursor: int, end: int, sum: int) -> Result<
    int,
    ListpackError,
>
    decreases end - cursor,
{
    if cursor < end {
        match data_len_at(data, cursor) {
            Err(e) => Err(e),
            Ok(n) => match entry_len(data, cursor, n) {
                Err(e) => Err(e),
                Ok(len) => if cursor + len > end {
                    Err(ListpackError::TruncatedEntry)
                } else {
                    trailer_walk(data, cursor + len, end, sum + len)
                },
            },
        }
    } else {
        Ok(sum)
    }
}

/// Adds up the lengths of all entries, with or without the shortcut for trailers of
/// one byte.
pub fn bench_backlen_walk(data: &[u8], orig: bool) -> (r: Result<usize, ListpackError>)
    ensures
        match header_of(data@) {
            Err(e) => r == Err::<usize, ListpackError>(e),
            Ok(_) => match trailer_walk(
                data@,
                LISTPACK_HEADER_SIZE as int,
                data@.len() - 1,
                0,
            ) {
                Err(e) => r == Err::<usize, ListpackError>(e),
                Ok(sum) => r == Ok::<usize, ListpackError>(sum as usize) && 0 <= sum <= usize::MAX,
            },
        },
{
    if let Err(e) = parse_header(data) {
        return Err(e);
    }
    let end: usize = data.len() - 1;
    let mut cursor: usize = LISTPACK_HEADER_SIZE;
    let mut sum: usize = 0;
    let ghost start = LISTPACK_HEADER_SIZE as int;
    while cursor < end
        invariant
            end == data@.len() - 1,
            header_of(data@) is Ok,
            start == LISTPACK_HEADER_SIZE,
            sum == cursor - LISTPACK_HEADER_SIZE,
            trailer_walk(data@, cursor as int, end as int, sum as int) == trailer_walk(
                data@,
                start,
                end as int,
                0,
            ),
        decreases end - cursor,
    {
        let n: usize = match entry_data_len(data, cursor) {
            Err(e) => {
                return Err(e);
            },
            Ok(n) => n,
        };
        let found: Result<usize, ListpackError> = if orig {
            entry_len_with_backlen_orig(data, cursor, n)
        } else {
            entry_len_with_backlen(data, cursor, n)
        };
        let len: usize = match found {
            Err(e) => {
                return Err(e);
            },
            Ok(len) => len,
        };
        if len > end - cursor {
            return Err(ListpackError::TruncatedEntry);
        }
        sum = sum + len;
        cursor = cursor + len;
    }
    Ok(sum)
}

// ---------------------------------------------------------------------------
// Messages
// ---------------------------------------------------------------------------

/// The lower-case hexadecimal digit of `n`.
pub open spec fn hex_digit(n: int) -> char {
    if n == 0 {
        '0'
    } else if n == 1 {
        '1'
    } else if n == 2 {
        '2'
    } else if n == 3 {
        '3'
    } else if n == 4 {
        '4'
    } else if n == 5 {
        '5'
    } else if n == 6 {
        '6'
    } else if n == 7 {
        '7'
    } else if n == 8 {
        '8'
    } else if n == 9 {
        '9'
    } else if n == 10 {
        'a'
    } else if n == 11 {
        'b'
    } else if n == 12 {
        'c'
    } else if n == 13 {
        'd'
    } else if n == 14 {
        'e'
    } else {
        'f'
    }
}

fn hex_digit_text(n: u8) -> (s: &'static str)
    requires
        n < 16,
    ensures
        s@ == seq![hex_digit(n as int)],
{
    proof {
        reveal_strlit("0");
        reveal_strlit("1");
        reveal_strlit("2");
        reveal_strlit("3");
        reveal_strlit("4");
        reveal_strlit("5");
        reveal_strlit("6");
        reveal_strlit("7");
        reveal_strlit("8");
        reveal_strlit("9");
        reveal_strlit("a");
        reveal_strlit("b");
        reveal_strlit("c");
        reveal_strlit("d");
        reveal_strlit("e");
        reveal_strlit("f");
    }
    let s: &'static str = match n {
        0 => "0",
        1 => "1",
        2 => "2",
        3 => "3",
        4 => "4",
        5 => "5",
        6 => "6",
        7 => "7",
        8 => "8",
        9 => "9",
        10 => "a",
        11 => "b",
        12 => "c",
        13 => "d",
        14 => "e",
        _ => "f",
    };
    assert(s@ =~= seq![hex_digit(n as int)]);
    s
}

impl ListpackError {
    /// The text of the error.
    pub open spec fn text(self) -> Seq<char> {
        match self {
            ListpackError::ShortHeader => "listpack shorter than 6-byte header"@,
            ListpackError::TotalBytesOutOfRange => "listpack total-bytes header exceeds buffer"@,
            ListpackError::MissingTerminator => "listpack missing 0xFF terminator"@,
            ListpackError::InvalidEncoding(b) => "listpack invalid encoding byte 0x"@ + seq![
                hex_digit(b as int / 16),
            ] + seq![hex_digit(b as int % 16)],
            ListpackError::TotalBytesMismatch => {
                "listpack total-bytes header does not match buffer length"@
            },
            ListpackError::TruncatedEntry => "listpack entry body runs past end"@,
            ListpackError::InvalidBacklen => "listpack backlen exceeds 5 bytes"@,
            ListpackError::StringLengthOverflow => "listpack string length overflows usize"@,
            ListpackError::ElementCountMismatch => {
                "listpack element count header does not match entries"@
            },
            ListpackError::InvalidScore => "listpack zset score entry is not a valid f64"@,
        }
    }

    /// The text of the error.
    pub fn message(&self) -> (s: String)
        ensures
            s@ == self.text(),
    {
        match self {
            ListpackError::ShortHeader => "listpack shorter than 6-byte header".to_owned(),
            ListpackError::TotalBytesOutOfRange => {
                "listpack total-bytes header exceeds buffer".to_owned()
            },
            ListpackError::MissingTerminator => "listpack missing 0xFF terminator".to_owned(),
            ListpackError::InvalidEncoding(b) => {
                let mut s: String = "listpack invalid encoding byte 0x".to_owned();
                s.append(hex_digit_text(*b / 16));
                s.append(hex_digit_text(*b % 16));
                s
            },
            ListpackError::TotalBytesMismatch => {
                "listpack total-bytes header does not match buffer length".to_owned()
            },
            ListpackError::TruncatedEntry => "listpack entry body runs past end".to_owned(),
            ListpackError::InvalidBacklen => "listpack backlen exceeds 5 bytes".to_owned(),
            ListpackError::StringLengthOverflow => {
                "listpack string length overflows usize".to_owned()
            },
            ListpackError::ElementCountMismatch => {
                "listpack element count header does not match entries".to_owned()
            },
            ListpackError::InvalidScore => {
                "listpack zset score entry is not a valid f64".to_owned()
            },
        }
    }
}

} // verus!
