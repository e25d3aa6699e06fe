//! Byte-level vocabulary shared by every format: fixed-width integers, windows
//! into a byte sequence, and concatenations of encoded items.

use vstd::prelude::*;

verus! {

// ---------------------------------------------------------------------------
// Windows
// ---------------------------------------------------------------------------

/// The bytes `part` stand in `data` at offset `pos`.
pub open spec fn has_at(data: Seq<u8>, pos: int, part: Seq<u8>) -> bool {
    &&& 0 <= pos
    &&& pos + part.len() <= data.len()
    &&& forall|i: int| 0 <= i < part.len() ==> #[trigger] data[pos + i] == part[i]
}

/// A concatenation stands at an offset exactly if its parts stand one behind the other.
pub proof fn lemma_has_at_concat(data: Seq<u8>, pos: int, left: Seq<u8>, right: Seq<u8>)
    ensures
        has_at(data, pos, left + right) <==> has_at(data, pos, left) && has_at(
            data,
            pos + left.len(),
            right,
        ),
{
    let whole = left + right;
    if has_at(data, pos, whole) {
        assert forall|i: int| 0 <= i < left.len() implies #[trigger] data[pos + i] == left[i] by {
            assert(whole[i] == left[i]);
        }
        assert forall|i: int| 0 <= i < right.len() implies #[trigger] data[pos + left.len() + i]
            == right[i] by {
            assert(data[pos + (left.len() + i)] == whole[left.len() + i]);
        }
    }
    if has_at(data, pos, left) && has_at(data, pos + left.len(), right) {
        assert forall|i: int| 0 <= i < whole.len() implies #[trigger] data[pos + i] == whole[i] by {
            if i >= left.len() {
                assert(data[pos + left.len() + (i - left.len())] == right[i - left.len()]);
            }
        }
    }
}

/// The window of `data` that holds `part` is `part`.
pub proof fn lemma_has_at_subrange(data: Seq<u8>, pos: int, part: Seq<u8>)
    requires
        has_at(data, pos, part),
    ensures
        data.subrange(pos, pos + part.len()) == part,
{
    let window = data.subrange(pos, pos + part.len());
    assert forall|i: int| 0 <= i < part.len() implies window[i] == part[i] by {
        assert(data[pos + i] == part[i]);
    }
    assert(window =~= part);
}

/// A sequence holds its own subrange.
pub proof fn lemma_subrange_has_at(data: Seq<u8>, pos: int, end: int)
    requires
        0 <= pos <= end <= data.len(),
    ensures
        has_at(data, pos, data.subrange(pos, end)),
{
}

/// A sequence stands in itself at offset zero.
pub proof fn lemma_has_at_whole(data: Seq<u8>)
    ensures
        has_at(data, 0, data),
{
}

// ---------------------------------------------------------------------------
// The same bytes up to an offset
// ---------------------------------------------------------------------------

/// The two start with the same `n` bytes.
pub open spec fn same_upto(data: Seq<u8>, other: Seq<u8>, n: int) -> bool {
    0 <= n <= data.len() && n <= other.len() && data.take(n) == other.take(n)
}

/// A window within the first `n` bytes is the same.
pub proof fn lemma_window(data: Seq<u8>, other: Seq<u8>, n: int, a: int, b: int)
    requires
        same_upto(data, other, n),
        0 <= a <= b <= n,
    ensures
        other.subrange(a, b) == data.subrange(a, b),
{
    assert forall|i: int| a <= i < b implies other[i] == data[i] by {
        assert(data.take(n)[i] == other.take(n)[i]);
    }
    assert(other.subrange(a, b) =~= data.subrange(a, b));
}

/// A byte within the first `n` is the same.
pub proof fn lemma_byte(data: Seq<u8>, other: Seq<u8>, n: int, i: int)
    requires
        same_upto(data, other, n),
        0 <= i < n,
    ensures
        other[i] == data[i],
{
    assert(data.take(n)[i] == other.take(n)[i]);
}

/// Bytes cut off behind an offset and followed by others start as before.
pub proof fn lemma_cut_and_joined(data: Seq<u8>, end: int, tail: Seq<u8>)
    requires
        0 <= end <= data.len(),
    ensures
        same_upto(data, data.take(end) + tail, end),
{
    assert((data.take(end) + tail).take(end) =~= data.take(end));
}

// ---------------------------------------------------------------------------
// Fixed-width integers
// ---------------------------------------------------------------------------

/// `256` to the power `n`.
pub open spec fn pow256(n: nat) -> nat
    decreases n,
{
    if n == 0 {
        1
    } else {
        256 * pow256((n - 1) as nat)
    }
}

/// The number that a byte sequence denotes, least significant byte first.
pub open spec fn le_value(s: Seq<u8>) -> nat
    decreases s.len(),
{
    if s.len() == 0 {
        0
    } else {
        s[0] as nat + 256 * le_value(s.drop_first())
    }
}

/// The `width` low bytes of `n`, least significant byte first.
pub open spec fn le_bytes(n: nat, width: nat) -> Seq<u8>
    decreases width,
{
    if width == 0 {
        Seq::empty()
    } else {
        seq![(n % 256) as u8] + le_bytes(n / 256, (width - 1) as nat)
    }
}

/// The number that a byte sequence denotes, most significant byte first.
pub open spec fn be_value(s: Seq<u8>) -> nat
    decreases s.len(),
{
    if s.len() == 0 {
        0
    } else {
        256 * be_value(s.drop_last()) + s.last() as nat
    }
}

/// The `width` low bytes of `n`, most significant byte first.
pub open spec fn be_bytes(n: nat, width: nat) -> Seq<u8>
    decreases width,
{
    if width == 0 {
        Seq::empty()
    } else {
        be_bytes(n / 256, (width - 1) as nat).push((n % 256) as u8)
    }
}

/// The little-endian number of `width` bytes at `pos`.
pub open spec fn le_at(data: Seq<u8>, pos: int, width: nat) -> nat {
    le_value(data.subrange(pos, pos + width))
}

/// The big-endian number of `width` bytes at `pos`.
pub open spec fn be_at(data: Seq<u8>, pos: int, width: nat) -> nat {
    be_value(data.subrange(pos, pos + width))
}

/// The two's-complement reading of an unsigned `width`-byte number.
pub open spec fn signed(n: nat, width: nat) -> int {
    if 2 * n >= pow256(width) {
        n - pow256(width)
    } else {
        n as int
    }
}

/// The unsigned `width`-byte number that is `v` in two's complement.
pub open spec fn unsigned(v: int, width: nat) -> nat {
    if v < 0 {
        (v + pow256(width)) as nat
    } else {
        v as nat
    }
}

pub proof fn lemma_pow256_values()
    ensures
        pow256(0) == 1,
        pow256(1) == 0x100,
        pow256(2) == 0x1_0000,
        pow256(3) == 0x100_0000,
        pow256(4) == 0x1_0000_0000,
        pow256(8) == 0x1_0000_0000_0000_0000,
{
    reveal_with_fuel(pow256, 9);
}

pub proof fn lemma_le_bytes_len(n: nat, width: nat)
    ensures
        le_bytes(n, width).len() == width,
    decreases width,
{
    if width > 0 {
        lemma_le_bytes_len(n / 256, (width - 1) as nat);
    }
}

pub proof fn lemma_be_bytes_len(n: nat, width: nat)
    ensures
        be_bytes(n, width).len() == width,
    decreases width,
{
    if width > 0 {
        lemma_be_bytes_len(n / 256, (width - 1) as nat);
    }
}

pub proof fn lemma_le_value_bound(s: Seq<u8>)
    ensures
        le_value(s) < pow256(s.len()),
    decreases s.len(),
{
    if s.len() > 0 {
        lemma_le_value_bound(s.drop_first());
    }
}

pub proof fn lemma_be_value_bound(s: Seq<u8>)
    ensures
        be_value(s) < pow256(s.len()),
    decreases s.len(),
{
    if s.len() > 0 {
        lemma_be_value_bound(s.drop_last());
    }
}

/// Reading back a little-endian number gives the number that was written.
pub proof fn lemma_le_round_trip(n: nat, width: nat)
    requires
        n < pow256(width),
    ensures
        le_value(le_bytes(n, width)) == n,
    decreases width,
{
    if width > 0 {
        assert(n / 256 < pow256((width - 1) as nat));
        lemma_le_round_trip(n / 256, (width - 1) as nat);
        assert(le_bytes(n, width).drop_first() =~= le_bytes(n / 256, (width - 1) as nat));
    }
}

/// Reading back a big-endian number gives the number that was written.
pub proof fn lemma_be_round_trip(n: nat, width: nat)
    requires
        n < pow256(width),
    ensures
        be_value(be_bytes(n, width)) == n,
    decreases width,
{
    if width > 0 {
        assert(n / 256 < pow256((width - 1) as nat));
        lemma_be_round_trip(n / 256, (width - 1) as nat);
        assert(be_bytes(n, width).drop_last() =~= be_bytes(n / 256, (width - 1) as nat));
    }
}

/// A little-endian number written at `pos` is read back from `pos`.
pub proof fn lemma_le_at(data: Seq<u8>, pos: int, n: nat, width: nat)
    requires
        n < pow256(width),
        has_at(data, pos, le_bytes(n, width)),
    ensures
        le_at(data, pos, width) == n,
        pos + width <= data.len(),
{
    lemma_le_bytes_len(n, width);
    lemma_has_at_subrange(data, pos, le_bytes(n, width));
    lemma_le_round_trip(n, width);
}

/// A big-endian number written at `pos` is read back from `pos`.
pub proof fn lemma_be_at(data: Seq<u8>, pos: int, n: nat, width: nat)
    requires
        n < pow256(width),
        has_at(data, pos, be_bytes(n, width)),
    ensures
        be_at(data, pos, width) == n,
        pos + width <= data.len(),
{
    lemma_be_bytes_len(n, width);
    lemma_has_at_subrange(data, pos, be_bytes(n, width));
    lemma_be_round_trip(n, width);
}

/// Two's complement reads back what it wrote.
pub proof fn lemma_signed_unsigned(v: int, width: nat)
    requires
        -(pow256(width) as int) <= 2 * v < pow256(width),
    ensures
        signed(unsigned(v, width), width) == v,
        unsigned(v, width) < pow256(width),
{
}

/// Reads the little-endian number of `width` bytes at `pos`.
pub fn read_le(data: &[u8], pos: usize, width: usize) -> (n: u64)
    requires
        width <= 8,
        pos + width <= data@.len(),
    ensures
        n == le_at(data@, pos as int, width as nat),
        n < pow256(width as nat),
{
    let len: usize = data.len();
    let mut n: u64 = 0;
    let mut k: usize = width;
    proof {
        lemma_pow256_values();
        assert(data@.subrange(pos + width as int, pos + width as int).len() == 0);
    }
    while k > 0
        invariant
            k <= width <= 8,
            pos + width <= data@.len() == len,
            n == le_value(data@.subrange(pos + k as int, pos + width as int)),
        decreases k,
    {
        proof {
            let tail = data@.subrange(pos + k as int, pos + width as int);
            let more = data@.subrange(pos + k as int - 1, pos + width as int);
            assert(more.drop_first() =~= tail);
            lemma_le_value_bound(more);
            lemma_le_value_bound(tail);
            lemma_pow256_mono((width - k + 1) as nat, 8);
            lemma_pow256_values();
        }
        k = k - 1;
        n = (data[pos + k] as u64) + 256 * n;
    }
    proof {
        lemma_le_value_bound(data@.subrange(pos as int, pos + width as int));
    }
    n
}

pub proof fn lemma_pow256_mono(a: nat, b: nat)
    requires
        a <= b,
    ensures
        pow256(a) <= pow256(b),
        0 < pow256(a),
    decreases b,
{
    if a < b {
        lemma_pow256_mono(a, (b - 1) as nat);
    } else if b > 0 {
        lemma_pow256_mono((a - 1) as nat, (b - 1) as nat);
    }
}

/// Reads the big-endian number of `width` bytes at `pos`.
pub fn read_be(data: &[u8], pos: usize, width: usize) -> (n: u64)
    requires
        width <= 8,
        pos + width <= data@.len(),
    ensures
        n == be_at(data@, pos as int, width as nat),
        n < pow256(width as nat),
{
    let len: usize = data.len();
    let mut n: u64 = 0;
    let mut k: usize = 0;
    while k < width
        invariant
            k <= width <= 8,
            pos + width <= data@.len() == len,
            n == be_value(data@.subrange(pos as int, pos + k as int)),
        decreases width - k,
    {
        proof {
            let less = data@.subrange(pos as int, pos + k as int);
            let more = data@.subrange(pos as int, pos + k as int + 1);
            assert(more.drop_last() =~= less);
            lemma_be_value_bound(more);
            lemma_be_value_bound(less);
            lemma_pow256_mono((k + 1) as nat, 8);
            lemma_pow256_values();
        }
        n = 256 * n + (data[pos + k] as u64);
        k = k + 1;
    }
    proof {
        lemma_be_value_bound(data@.subrange(pos as int, pos + width as int));
    }
    n
}

/// Appends the `width` low bytes of `n`, least significant byte first.
pub fn push_le(buf: &mut Vec<u8>, n: u64, width: usize)
    requires
        width <= 8,
    ensures
        final(buf)@ == old(buf)@ + le_bytes(n as nat, width as nat),
    decreases width,
{
    if width > 0 {
        buf.push((n % 256) as u8);
        push_le(buf, n / 256, width - 1);
        proof {
            assert(buf@ =~= old(buf)@ + le_bytes(n as nat, width as nat));
        }
    } else {
        assert(buf@ =~= old(buf)@ + le_bytes(n as nat, width as nat));
    }
}

/// Appends the `width` low bytes of `n`, most significant byte first.
pub fn push_be(buf: &mut Vec<u8>, n: u64, width: usize)
    requires
        width <= 8,
    ensures
        final(buf)@ == old(buf)@ + be_bytes(n as nat, width as nat),
    decreases width,
{
    if width > 0 {
        push_be(buf, n / 256, width - 1);
        buf.push((n % 256) as u8);
        proof {
            assert(buf@ =~= old(buf)@ + be_bytes(n as nat, width as nat));
        }
    } else {
        assert(buf@ =~= old(buf)@ + be_bytes(n as nat, width as nat));
    }
}

/// The two's-complement reading of an eight-byte number.
pub fn to_signed(n: u64) -> (v: i64)
    ensures
        v == signed(n as nat, 8),
{
    proof {
        lemma_pow256_values();
    }
    if n < 0x8000_0000_0000_0000 {
        n as i64
    } else {
        (n - 0x8000_0000_0000_0000) as i64 + i64::MIN
    }
}

/// The eight-byte number that is `v` in two's complement.
pub fn to_unsigned(v: i64) -> (n: u64)
    ensures
        n == unsigned(v as int, 8),
{
    proof {
        lemma_pow256_values();
    }
    if v >= 0 {
        v as u64
    } else {
        ((v - i64::MIN) as u64) + 0x8000_0000_0000_0000
    }
}

/// Reads the little-endian two's-complement number of `width` bytes at `pos`.
pub fn read_le_signed(data: &[u8], pos: usize, width: usize) -> (v: i64)
    requires
        width == 1 || width == 2 || width == 3 || width == 4 || width == 8,
        pos + width <= data@.len(),
    ensures
        v == signed(le_at(data@, pos as int, width as nat), width as nat),
{
    proof {
        lemma_pow256_values();
    }
    let n: u64 = read_le(data, pos, width);
    if width == 8 {
        to_signed(n)
    } else {
        let range: u64 = if width == 1 {
            0x100
        } else if width == 2 {
            0x1_0000
        } else if width == 3 {
            0x100_0000
        } else {
            0x1_0000_0000
        };
        if 2 * n >= range {
            n as i64 - range as i64
        } else {
            n as i64
        }
    }
}

/// Appends a window of `data`.
pub fn push_window(buf: &mut Vec<u8>, data: &[u8], start: usize, end: usize)
    requires
        start <= end <= data@.len(),
    ensures
        final(buf)@ == old(buf)@ + data@.subrange(start as int, end as int),
{
    buf.extend_from_slice(&data[start..end]);
}

/// Copies a window of `data`.
pub fn copy_window(data: &[u8], start: usize, end: usize) -> (out: Vec<u8>)
    requires
        start <= end <= data@.len(),
    ensures
        out@ == data@.subrange(start as int, end as int),
{
    let mut out: Vec<u8> = Vec::new();
    push_window(&mut out, data, start, end);
    assert(out@ =~= data@.subrange(start as int, end as int));
    out
}

/// Copies a byte string.
pub fn copy_bytes(data: &[u8]) -> (out: Vec<u8>)
    ensures
        out@ == data@,
{
    let out: Vec<u8> = copy_window(data, 0, data.len());
    assert(data@.subrange(0, data@.len() as int) =~= data@);
    out
}

/// Compares two byte strings.
pub fn bytes_equal(a: &[u8], b: &[u8]) -> (equal: bool)
    ensures
        equal == (a@ == b@),
{
    if a.len() != b.len() {
        return false;
    }
    let mut i: usize = 0;
    while i < a.len()
        invariant
            i <= a@.len() == b@.len(),
            forall|k: int| 0 <= k < i ==> a@[k] == b@[k],
        decreases a@.len() - i,
    {
        if a[i] != b[i] {
            return false;
        }
        i = i + 1;
    }
    assert(a@ =~= b@);
    true
}

// ---------------------------------------------------------------------------
// Sequences of encoded items
// ---------------------------------------------------------------------------

/// The byte strings that a sequence of vectors holds.
pub open spec fn views(items: Seq<Vec<u8>>) -> Seq<Seq<u8>> {
    items.map_values(|item: Vec<u8>| item@)
}

/// The encodings of `items`, one behind the other.
pub open spec fn concat_all<X>(encode: spec_fn(X) -> Seq<u8>, items: Seq<X>) -> Seq<u8>
    decreases items.len(),
{
    if items.len() == 0 {
        Seq::empty()
    } else {
        concat_all(encode, items.drop_last()) + encode(items.last())
    }
}

/// Appending an item appends its encoding.
pub proof fn lemma_concat_push<X>(encode: spec_fn(X) -> Seq<u8>, items: Seq<X>, item: X)
    ensures
        concat_all(encode, items.push(item)) == concat_all(encode, items) + encode(item),
{
    assert(items.push(item).drop_last() =~= items);
}

/// Concatenation is associative.
pub proof fn lemma_add_assoc(a: Seq<u8>, b: Seq<u8>, c: Seq<u8>)
    ensures
        a + b + c == a + (b + c),
{
    assert(a + b + c =~= a + (b + c));
}

/// The encodings up to item `k + 1` are those up to `k` and that of item `k`.
pub proof fn lemma_concat_take<X>(encode: spec_fn(X) -> Seq<u8>, items: Seq<X>, k: int)
    requires
        0 <= k < items.len(),
    ensures
        concat_all(encode, items.take(k + 1)) == concat_all(encode, items.take(k)) + encode(
            items[k],
        ),
{
    assert(items.take(k + 1) =~= items.take(k).push(items[k]));
    lemma_concat_push(encode, items.take(k), items[k]);
}

/// The encodings of two sequences stand one behind the other.
pub proof fn lemma_concat_append<X>(encode: spec_fn(X) -> Seq<u8>, left: Seq<X>, right: Seq<X>)
    ensures
        concat_all(encode, left + right) == concat_all(encode, left) + concat_all(encode, right),
    decreases right.len(),
{
    if right.len() == 0 {
        assert(left + right =~= left);
        assert(concat_all(encode, left) + concat_all(encode, right) =~= concat_all(encode, left));
    } else {
        assert((left + right).drop_last() =~= left + right.drop_last());
        lemma_concat_append(encode, left, right.drop_last());
        assert(concat_all(encode, left + right) =~= concat_all(encode, left) + concat_all(
            encode,
            right,
        ));
    }
}

/// The encodings of a part are no longer than those of the whole.
pub proof fn lemma_concat_part<X>(encode: spec_fn(X) -> Seq<u8>, items: Seq<X>, i: int)
    requires
        0 <= i < items.len(),
    ensures
        encode(items[i]).len() <= concat_all(encode, items).len(),
    decreases items.len(),
{
    if i < items.len() - 1 {
        lemma_concat_part(encode, items.drop_last(), i);
    }
}

/// Encodings that agree on every item agree on the sequence.
pub proof fn lemma_concat_same<X>(
    left: spec_fn(X) -> Seq<u8>,
    right: spec_fn(X) -> Seq<u8>,
    items: Seq<X>,
)
    requires
        forall|k: int| 0 <= k < items.len() ==> left(#[trigger] items[k]) == right(items[k]),
    ensures
        concat_all(left, items) == concat_all(right, items),
    decreases items.len(),
{
    if items.len() > 0 {
        let front = items.drop_last();
        assert forall|k: int| 0 <= k < front.len() implies left(#[trigger] front[k]) == right(
            front[k],
        ) by {
            assert(front[k] == items[k]);
        }
        lemma_concat_same(left, right, front);
        assert(left(items[items.len() - 1]) == right(items[items.len() - 1]));
    }
}

/// A parser reads one item at an offset and returns it with the offset behind it.
pub type Parser<X> = spec_fn(Seq<u8>, int) -> Option<(X, int)>;

/// Reads `n` items one behind the other.
pub open spec fn parse_repeat<X>(parse: Parser<X>, data: Seq<u8>, pos: int, n: nat) -> Option<
    (Seq<X>, int),
>
    decreases n,
{
    if n == 0 {
        Some((Seq::empty(), pos))
    } else {
        match parse_repeat(parse, data, pos, (n - 1) as nat) {
            None => None,
            Some((items, mid)) => match parse(data, mid) {
                None => None,
                Some((item, end)) => Some((items.push(item), end)),
            },
        }
    }
}

/// Once one of the first `k` items fails, every longer run fails.
pub proof fn lemma_repeat_none<X>(parse: Parser<X>, data: Seq<u8>, pos: int, k: nat, n: nat)
    requires
        k <= n,
        parse_repeat(parse, data, pos, k) is None,
    ensures
        parse_repeat(parse, data, pos, n) is None,
    decreases n,
{
    if k < n {
        lemma_repeat_none(parse, data, pos, k, (n - 1) as nat);
    }
}

pub proof fn lemma_repeat_len<X>(parse: Parser<X>, data: Seq<u8>, pos: int, n: nat)
    ensures
        parse_repeat(parse, data, pos, n) matches Some((items, _)) ==> items.len() == n,
    decreases n,
{
    if n > 0 {
        lemma_repeat_len(parse, data, pos, (n - 1) as nat);
    }
}

/// What is read at an offset, with an offset of at most `n` behind it, is also read where the
/// first `n` bytes are the same.
pub open spec fn parse_keeps<X>(
    parse: Parser<X>,
    data: Seq<u8>,
    other: Seq<u8>,
    n: int,
    pos: int,
) -> bool {
    parse(data, pos) matches Some((_, end)) ==> pos <= end <= data.len() && (end <= n ==> parse(
        other,
        pos,
    ) == parse(data, pos))
}

/// Items one behind the other are read the same where the first `n` bytes are the same.
pub proof fn lemma_repeat_keeps<X>(
    parse: Parser<X>,
    data: Seq<u8>,
    other: Seq<u8>,
    n: int,
    pos: int,
    count: nat,
)
    requires
        0 <= pos <= data.len(),
        forall|p: int| 0 <= p <= data.len() ==> #[trigger] parse_keeps(parse, data, other, n, p),
    ensures
        parse_repeat(parse, data, pos, count) matches Some((_, end)) ==> pos <= end <= data.len()
            && (end <= n ==> parse_repeat(parse, other, pos, count) == parse_repeat(
            parse,
            data,
            pos,
            count,
        )),
    decreases count,
{
    if count > 0 {
        lemma_repeat_keeps(parse, data, other, n, pos, (count - 1) as nat);
        if let Some((_, mid)) = parse_repeat(parse, data, pos, (count - 1) as nat) {
            assert(parse_keeps(parse, data, other, n, mid));
        }
    }
}

/// Wherever the encoding stands, `parse` fails or ends behind it.
pub open spec fn spans<X>(parse: Parser<X>, encoding: Seq<u8>) -> bool {
    forall|data: Seq<u8>, pos: int| #[trigger]
        has_at(data, pos, encoding) ==> (parse(data, pos) matches Some((_, end)) ==> end == pos
            + encoding.len())
}

/// Where encodings stand one behind the other, reading them fails or ends behind them.
pub proof fn lemma_repeat_spans<X, Y>(
    parse: Parser<X>,
    encode: spec_fn(Y) -> Seq<u8>,
    items: Seq<Y>,
    data: Seq<u8>,
    pos: int,
)
    requires
        has_at(data, pos, concat_all(encode, items)),
        forall|k: int| 0 <= k < items.len() ==> spans(parse, encode(#[trigger] items[k])),
    ensures
        parse_repeat(parse, data, pos, items.len()) matches Some((_, end)) ==> end == pos
            + concat_all(encode, items).len(),
    decreases items.len(),
{
    if items.len() > 0 {
        let front = items.drop_last();
        let last = items[items.len() - 1];
        lemma_has_at_concat(data, pos, concat_all(encode, front), encode(last));
        assert forall|k: int| 0 <= k < front.len() implies spans(
            parse,
            encode(#[trigger] front[k]),
        ) by {
            assert(front[k] == items[k]);
        }
        lemma_repeat_spans(parse, encode, front, data, pos);
        assert(spans(parse, encode(last)));
        assert(has_at(data, pos + concat_all(encode, front).len(), encode(last)));
    }
}

/// `parse` reads `item` wherever the encoding of `item` stands.
pub open spec fn reads_back<X>(parse: Parser<X>, encode: spec_fn(X) -> Seq<u8>, item: X) -> bool {
    forall|data: Seq<u8>, pos: int| #[trigger]
        has_at(data, pos, encode(item)) ==> parse(data, pos) == Some(
            (item, pos + encode(item).len()),
        )
}

/// If each item is read back from its encoding, so is the sequence.
pub proof fn lemma_repeat_reads_back<X>(
    parse: Parser<X>,
    encode: spec_fn(X) -> Seq<u8>,
    items: Seq<X>,
    data: Seq<u8>,
    pos: int,
)
    requires
        has_at(data, pos, concat_all(encode, items)),
        forall|k: int|
            0 <= k < items.len() ==> reads_back(parse, encode, #[trigger] items[k]),
    ensures
        parse_repeat(parse, data, pos, items.len()) == Some(
            (items, pos + concat_all(encode, items).len()),
        ),
    decreases items.len(),
{
    if items.len() == 0 {
        assert(items =~= Seq::empty());
    } else {
        let front = items.drop_last();
        lemma_has_at_concat(data, pos, concat_all(encode, front), encode(items.last()));
        assert forall|k: int| 0 <= k < front.len() implies reads_back(
            parse,
            encode,
            #[trigger] front[k],
        ) by {
            assert(front[k] == items[k]);
        }
        lemma_repeat_reads_back(parse, encode, front, data, pos);
        assert(reads_back(parse, encode, items[items.len() - 1]));
        assert(front.push(items.last()) =~= items);
    }
}

/// A parser that tells why it fails.
pub type TryParser<X, E> = spec_fn(Seq<u8>, int) -> Result<(X, int), E>;

/// Reads `n` items one behind the other; the first failure counts.
pub open spec fn try_repeat<X, E>(parse: TryParser<X, E>, data: Seq<u8>, pos: int, n: nat) -> Result<
    (Seq<X>, int),
    E,
>
    decreases n,
{
    if n == 0 {
        Ok((Seq::empty(), pos))
    } else {
        match try_repeat(parse, data, pos, (n - 1) as nat) {
            Err(e) => Err(e),
            Ok((items, mid)) => match parse(data, mid) {
                Err(e) => Err(e),
                Ok((item, end)) => Ok((items.push(item), end)),
            },
        }
    }
}

/// A failure among the first `k` items is the failure of every longer run.
pub proof fn lemma_try_repeat_err<X, E>(
    parse: TryParser<X, E>,
    data: Seq<u8>,
    pos: int,
    k: nat,
    n: nat,
)
    requires
        k <= n,
        try_repeat(parse, data, pos, k) is Err,
    ensures
        try_repeat(parse, data, pos, n) == try_repeat(parse, data, pos, k),
    decreases n,
{
    if k < n {
        lemma_try_repeat_err(parse, data, pos, k, (n - 1) as nat);
    }
}

/// `parse` reads `item` wherever `encoding` stands.
pub open spec fn try_reads<X, E>(parse: TryParser<X, E>, encoding: Seq<u8>, item: X) -> bool {
    forall|data: Seq<u8>, pos: int| #[trigger]
        has_at(data, pos, encoding) ==> parse(data, pos) == Ok::<(X, int), E>(
            (item, pos + encoding.len()),
        )
}

/// If each source is read as its item from its encoding, so is the sequence.
pub proof fn lemma_try_repeat_reads<X, Y, E>(
    parse: TryParser<X, E>,
    encode: spec_fn(Y) -> Seq<u8>,
    sources: Seq<Y>,
    items: Seq<X>,
    data: Seq<u8>,
    pos: int,
)
    requires
        items.len() == sources.len(),
        has_at(data, pos, concat_all(encode, sources)),
        forall|k: int|
            0 <= k < items.len() ==> try_reads(parse, encode(#[trigger] sources[k]), items[k]),
    ensures
        try_repeat(parse, data, pos, items.len()) == Ok::<(Seq<X>, int), E>(
            (items, pos + concat_all(encode, sources).len()),
        ),
    decreases items.len(),
{
    if items.len() == 0 {
        assert(items =~= Seq::empty());
    } else {
        let front = sources.drop_last();
        let front_items = items.drop_last();
        lemma_has_at_concat(data, pos, concat_all(encode, front), encode(sources.last()));
        assert forall|k: int| 0 <= k < front_items.len() implies try_reads(
            parse,
            encode(#[trigger] front[k]),
            front_items[k],
        ) by {
            assert(front[k] == sources[k]);
        }
        lemma_try_repeat_reads(parse, encode, front, front_items, data, pos);
        assert(try_reads(parse, encode(sources[sources.len() - 1]), items[items.len() - 1]));
        assert(front_items.push(items.last()) =~= items);
    }
}

/// The encodings from one item on are its own and those behind it.
pub proof fn lemma_concat_first<X>(encode: spec_fn(X) -> Seq<u8>, items: Seq<X>, k: int)
    requires
        0 <= k < items.len(),
    ensures
        concat_all(encode, items.skip(k)) == encode(items[k]) + concat_all(
            encode,
            items.skip(k + 1),
        ),
{
    let one = seq![items[k]];
    assert(items.skip(k) =~= one + items.skip(k + 1));
    lemma_concat_append(encode, one, items.skip(k + 1));
    assert(one.drop_last() =~= Seq::empty());
    assert(concat_all(encode, Seq::<X>::empty()) =~= Seq::empty());
    assert(concat_all(encode, one) =~= encode(items[k]));
}

/// Wherever `encoding` stands, `parse` fails, or the condition holds and it ends behind the
/// encoding.
pub open spec fn reads_only<X, E>(parse: TryParser<X, E>, encoding: Seq<u8>, holds: bool) -> bool {
    forall|data: Seq<u8>, pos: int| #[trigger]
        has_at(data, pos, encoding) ==> (parse(data, pos) matches Ok((_, end)) ==> holds && end
            == pos + encoding.len())
}

/// Where encodings stand one behind the other, reading them fails, or all conditions hold and
/// it ends behind them.
pub proof fn lemma_try_repeat_only<X, Y, E>(
    parse: TryParser<X, E>,
    encode: spec_fn(Y) -> Seq<u8>,
    holds: spec_fn(Y) -> bool,
    sources: Seq<Y>,
    data: Seq<u8>,
    pos: int,
)
    requires
        has_at(data, pos, concat_all(encode, sources)),
        forall|k: int|
            0 <= k < sources.len() ==> reads_only(
                parse,
                encode(#[trigger] sources[k]),
                holds(sources[k]),
            ),
    ensures
        try_repeat(parse, data, pos, sources.len()) matches Ok((_, end)) ==> end == pos
            + concat_all(encode, sources).len() && forall|k: int|
            0 <= k < sources.len() ==> holds(#[trigger] sources[k]),
    decreases sources.len(),
{
    if sources.len() > 0 {
        let front = sources.drop_last();
        let last = sources[sources.len() - 1];
        lemma_has_at_concat(data, pos, concat_all(encode, front), encode(last));
        assert forall|k: int| 0 <= k < front.len() implies reads_only(
            parse,
            encode(#[trigger] front[k]),
            holds(front[k]),
        ) by {
            assert(front[k] == sources[k]);
        }
        lemma_try_repeat_only(parse, encode, holds, front, data, pos);
        assert(reads_only(parse, encode(last), holds(last)));
        assert(has_at(data, pos + concat_all(encode, front).len(), encode(last)));
        if try_repeat(parse, data, pos, sources.len()) is Ok {
            assert forall|k: int| 0 <= k < sources.len() implies holds(#[trigger] sources[k]) by {
                if k < front.len() {
                    assert(front[k] == sources[k]);
                }
            }
        }
    }
}

} // verus!
