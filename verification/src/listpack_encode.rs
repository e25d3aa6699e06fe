//! Building packs.

use vstd::prelude::*;

use crate::bytes;
use crate::bytes::push_le;
use crate::decimal;
use crate::decimal::parse_canonical_i64;
use crate::listpack;
use crate::listpack::{LpValue, ListpackError, LISTPACK_EOF, LISTPACK_HEADER_SIZE};

verus! {

/// Bytes of a pack besides its entries: header and terminator.
pub const LISTPACK_BLOB_OVERHEAD: usize = 7;

// ---------------------------------------------------------------------------
// What is written
// ---------------------------------------------------------------------------

/// Lead and payload of an integer, in the narrowest encoding that holds it.
pub open spec fn integer_data(v: int) -> Seq<u8> {
    if 0 <= v <= 127 {
        seq![v as u8]
    } else if -4096 <= v <= 4095 {
        let n = if v < 0 {
            v + 0x2000
        } else {
            v
        };
        seq![(0xC0 + n / 256) as u8, (n % 256) as u8]
    } else if -0x8000 <= v <= 0x7fff {
        seq![0xF1u8] + bytes::le_bytes(bytes::unsigned(v, 2), 2)
    } else if -0x80_0000 <= v <= 0x7f_ffff {
        seq![0xF2u8] + bytes::le_bytes(bytes::unsigned(v, 3), 3)
    } else if -0x8000_0000 <= v <= 0x7fff_ffff {
        seq![0xF3u8] + bytes::le_bytes(bytes::unsigned(v, 4), 4)
    } else {
        seq![0xF4u8] + bytes::le_bytes(bytes::unsigned(v, 8), 8)
    }
}

/// Lead and payload of a string.
pub open spec fn text_data(s: Seq<u8>) -> Seq<u8> {
    if s.len() < 64 {
        seq![(0x80 + s.len()) as u8] + s
    } else if s.len() < 4096 {
        seq![(0xE0 + s.len() / 256) as u8, (s.len() % 256) as u8] + s
    } else {
        seq![0xF0u8] + bytes::le_bytes(s.len(), 4) + s
    }
}

/// The string is the decimal text of the integer `v`.
pub open spec fn is_text_of(s: Seq<u8>, v: i64) -> bool {
    decimal::dec_int(v as int) == s
}

/// The string is the decimal text of an integer.
pub open spec fn is_integer_text(s: Seq<u8>) -> bool {
    exists|v: i64| is_text_of(s, v)
}

/// The integer whose decimal text the string is.
pub open spec fn integer_of(s: Seq<u8>) -> int {
    (choose|v: i64| is_text_of(s, v)) as int
}

/// A string short enough to be in a pack.
pub open spec fn packable(s: Seq<u8>) -> bool {
    s.len() + 17 <= u32::MAX
}

/// Lead and payload of a byte string: the text of an integer is stored as the
/// integer.
pub open spec fn entry_data(s: Seq<u8>) -> Seq<u8> {
    if is_integer_text(s) {
        integer_data(integer_of(s))
    } else {
        text_data(s)
    }
}

/// Lead and payload with the trailer behind them.
pub open spec fn with_trailer(data: Seq<u8>) -> Seq<u8> {
    data + listpack::backlen_bytes(data.len() as int)
}

/// The entry of a byte string.
pub open spec fn packed_entry(s: Seq<u8>) -> Seq<u8> {
    with_trailer(entry_data(s))
}

/// The entry of a byte string, as a function value.
pub open spec fn entry_encoder() -> spec_fn(Seq<u8>) -> Seq<u8> {
    |s: Seq<u8>| packed_entry(s)
}

/// The entry count that the header gives for `n` entries.
pub open spec fn header_count(n: nat) -> nat {
    if n <= 0xffff {
        n
    } else {
        0xffff
    }
}

/// A pack with the given entries in it, if its length fits the header.
pub open spec fn framed(body: Seq<u8>, n: nat) -> Option<Seq<u8>> {
    let total = body.len() + LISTPACK_BLOB_OVERHEAD;
    if total > u32::MAX {
        None
    } else {
        Some(
            bytes::le_bytes(total as nat, 4) + bytes::le_bytes(header_count(n), 2) + body + seq![
                LISTPACK_EOF,
            ],
        )
    }
}

/// The pack of a sequence of byte strings.
pub open spec fn pack_of(items: Seq<Seq<u8>>) -> Option<Seq<u8>> {
    framed(bytes::concat_all(entry_encoder(), items), items.len())
}

pub proof fn lemma_integer_of(s: Seq<u8>, v: i64)
    requires
        is_text_of(s, v),
    ensures
        is_integer_text(s),
        integer_of(s) == v,
{
    let w = choose|w: i64| is_text_of(s, w);
    decimal::lemma_dec_int_unique(v as int, w as int);
}

pub proof fn lemma_integer_data_len(v: int)
    ensures
        integer_data(v).len() == (if 0 <= v <= 127 {
            1int
        } else if -4096 <= v <= 4095 {
            2
        } else if -0x8000 <= v <= 0x7fff {
            3
        } else if -0x80_0000 <= v <= 0x7f_ffff {
            4
        } else if -0x8000_0000 <= v <= 0x7fff_ffff {
            5
        } else {
            9
        }),
{
    bytes::lemma_le_bytes_len(bytes::unsigned(v, 2), 2);
    bytes::lemma_le_bytes_len(bytes::unsigned(v, 3), 3);
    bytes::lemma_le_bytes_len(bytes::unsigned(v, 4), 4);
    bytes::lemma_le_bytes_len(bytes::unsigned(v, 8), 8);
}

pub proof fn lemma_text_data_len(s: Seq<u8>)
    ensures
        text_data(s).len() == (if s.len() < 64 {
            1int
        } else if s.len() < 4096 {
            2
        } else {
            5
        }) + s.len(),
{
    bytes::lemma_le_bytes_len(s.len(), 4);
}

// ---------------------------------------------------------------------------
// Reading back
// ---------------------------------------------------------------------------

/// The entry of an integer is read back as the integer.
pub proof fn lemma_integer_reads_back(data: Seq<u8>, pos: int, v: int)
    requires
        i64::MIN <= v <= i64::MAX,
        bytes::has_at(data, pos, with_trailer(integer_data(v))),
    ensures
        listpack::entry_at(data, pos) == Ok::<(LpValue, int), ListpackError>(
            (LpValue::Integer(v), with_trailer(integer_data(v)).len() as int),
        ),
{
    reveal(listpack::entry_at);
    let d = integer_data(v);
    let t = listpack::backlen_bytes(d.len() as int);
    lemma_integer_data_len(v);
    listpack::lemma_backlen_len(d.len() as int);
    bytes::lemma_has_at_concat(data, pos, d, t);
    bytes::lemma_pow256_values();
    assert(data[pos + 0] == d[0]);
    if 0 <= v <= 127 {
    } else if -4096 <= v <= 4095 {
        assert(data[pos + 1] == d[1]);
        let n = if v < 0 {
            v + 0x2000
        } else {
            v
        };
        assert(0 <= n < 0x2000);
        assert(d[0] as int == 0xC0 + n / 256);
        assert(listpack::thirteen_bits(data[pos], data[pos + 1]) == v);
    } else if -0x8000 <= v <= 0x7fff {
        lemma_wide_reads_back(data, pos, v, 2, 0xF1);
    } else if -0x80_0000 <= v <= 0x7f_ffff {
        lemma_wide_reads_back(data, pos, v, 3, 0xF2);
    } else if -0x8000_0000 <= v <= 0x7fff_ffff {
        lemma_wide_reads_back(data, pos, v, 4, 0xF3);
    } else {
        lemma_wide_reads_back(data, pos, v, 8, 0xF4);
    }
}

proof fn lemma_wide_reads_back(data: Seq<u8>, pos: int, v: int, width: nat, lead: u8)
    requires
        -(bytes::pow256(width) as int) <= 2 * v < bytes::pow256(width),
        bytes::has_at(data, pos, seq![lead] + bytes::le_bytes(bytes::unsigned(v, width), width)),
    ensures
        listpack::payload_int(data, pos, width) == v,
{
    bytes::lemma_has_at_concat(
        data,
        pos,
        seq![lead],
        bytes::le_bytes(bytes::unsigned(v, width), width),
    );
    bytes::lemma_signed_unsigned(v, width);
    bytes::lemma_le_at(data, pos + 1, bytes::unsigned(v, width), width);
}

/// The entry of a string is read back as a window that holds the string.
pub proof fn lemma_text_reads_back(data: Seq<u8>, pos: int, s: Seq<u8>)
    requires
        data.len() <= u32::MAX,
        bytes::has_at(data, pos, with_trailer(text_data(s))),
    ensures
        ({
            let n = with_trailer(text_data(s)).len() as int;
            let start = pos + text_data(s).len() - s.len();
            &&& listpack::entry_at(data, pos) == Ok::<(LpValue, int), ListpackError>(
                (LpValue::Text(start, start + s.len()), n),
            )
            &&& data.subrange(start, start + s.len()) == s
        }),
{
    reveal(listpack::entry_at);
    let d = text_data(s);
    let t = listpack::backlen_bytes(d.len() as int);
    lemma_text_data_len(s);
    listpack::lemma_backlen_len(d.len() as int);
    bytes::lemma_has_at_concat(data, pos, d, t);
    bytes::lemma_pow256_values();
    assert(data[pos + 0] == d[0]);
    if s.len() < 64 {
        bytes::lemma_has_at_concat(data, pos, seq![(0x80 + s.len()) as u8], s);
        bytes::lemma_has_at_subrange(data, pos + 1, s);
    } else if s.len() < 4096 {
        assert(data[pos + 1] == d[1]);
        let head = seq![(0xE0 + s.len() / 256) as u8, (s.len() % 256) as u8];
        bytes::lemma_has_at_concat(data, pos, head, s);
        bytes::lemma_has_at_subrange(data, pos + 2, s);
    } else {
        let head = seq![0xF0u8];
        let len = bytes::le_bytes(s.len(), 4);
        bytes::lemma_le_bytes_len(s.len(), 4);
        bytes::lemma_has_at_concat(data, pos, head + len, s);
        bytes::lemma_has_at_concat(data, pos, head, len);
        bytes::lemma_le_at(data, pos + 1, s.len(), 4);
        bytes::lemma_has_at_subrange(data, pos + 5, s);
    }
}

/// The entry of a byte string is read back as a value that a reader sees as the byte
/// string.
pub proof fn lemma_entry_reads_back(data: Seq<u8>, pos: int, s: Seq<u8>)
    requires
        data.len() <= u32::MAX,
        bytes::has_at(data, pos, packed_entry(s)),
    ensures
        listpack::entry_at(data, pos) matches Ok((v, n)) && n == packed_entry(s).len()
            && listpack::value_bytes(data, v) == s && (v is Integer <==> is_integer_text(s)),
{
    if is_integer_text(s) {
        let v = choose|v: i64| is_text_of(s, v);
        lemma_integer_reads_back(data, pos, v as int);
    } else {
        lemma_text_reads_back(data, pos, s);
    }
}

/// The value that the entry at `pos` gives.
pub open spec fn value_at(data: Seq<u8>, pos: int) -> LpValue {
    match listpack::entry_at(data, pos) {
        Ok((v, _)) => v,
        Err(_) => arbitrary(),
    }
}

/// The values of entries that stand one behind the other from `pos` on.
pub open spec fn values_from(data: Seq<u8>, pos: int, items: Seq<Seq<u8>>) -> Seq<LpValue> {
    Seq::new(
        items.len(),
        |k: int| value_at(data, pos + bytes::concat_all(entry_encoder(), items.take(k)).len()),
    )
}

/// A walk passes over the entry of a byte string.
pub proof fn lemma_walk_step(data: Seq<u8>, pos: int, end: int, found: Seq<LpValue>, s: Seq<u8>)
    requires
        data.len() <= u32::MAX,
        bytes::has_at(data, pos, packed_entry(s)),
        pos + packed_entry(s).len() <= end,
    ensures
        listpack::walk(data, pos, end, found) == listpack::walk(
            data,
            pos + packed_entry(s).len(),
            end,
            found.push(value_at(data, pos)),
        ),
        listpack::value_bytes(data, value_at(data, pos)) == s,
        value_at(data, pos) is Integer <==> is_integer_text(s),
{
    lemma_entry_reads_back(data, pos, s);
    listpack::lemma_entry_at(data, pos);
}

proof fn lemma_walk_items(
    data: Seq<u8>,
    pos: int,
    end: int,
    items: Seq<Seq<u8>>,
    k: nat,
    found: Seq<LpValue>,
)
    requires
        data.len() <= u32::MAX,
        end <= data.len(),
        k <= items.len(),
        bytes::has_at(data, pos, bytes::concat_all(entry_encoder(), items)),
        pos + bytes::concat_all(entry_encoder(), items).len() <= end,
    ensures
        listpack::walk(data, pos, end, found) == listpack::walk(
            data,
            pos + bytes::concat_all(entry_encoder(), items.take(k as int)).len(),
            end,
            found + values_from(data, pos, items).take(k as int),
        ),
        forall|i: int|
            0 <= i < k ==> listpack::value_bytes(data, #[trigger] values_from(data, pos, items)[i])
                == items[i] && (values_from(data, pos, items)[i] is Integer <==> is_integer_text(
                items[i],
            )),
    decreases k,
{
    let e = entry_encoder();
    if k == 0 {
        assert(items.take(0) =~= Seq::empty());
        assert(found + values_from(data, pos, items).take(0) =~= found);
    } else {
        let j = (k - 1) as nat;
        lemma_walk_items(data, pos, end, items, j, found);
        lemma_concat_prefix(items, k as int);
        bytes::lemma_concat_take(e, items, j as int);
        let front = bytes::concat_all(e, items.take(j as int));
        let upto = bytes::concat_all(e, items.take(k as int));
        let rest = bytes::concat_all(e, items).skip(upto.len() as int);
        assert(bytes::concat_all(e, items) =~= upto + rest);
        bytes::lemma_has_at_concat(data, pos, upto, rest);
        bytes::lemma_has_at_concat(data, pos, front, packed_entry(items[j as int]));
        let here = pos + front.len();
        let vals = values_from(data, pos, items);
        let v = value_at(data, here);
        lemma_walk_step(data, here, end, found + vals.take(j as int), items[j as int]);
        assert(vals[j as int] == v);
        assert((found + vals.take(j as int)).push(v) =~= found + vals.take(k as int));
    }
}

/// The encodings of the first items are the start of the encodings of all.
pub proof fn lemma_concat_prefix(items: Seq<Seq<u8>>, k: int)
    requires
        0 <= k <= items.len(),
    ensures
        bytes::concat_all(entry_encoder(), items.take(k)).len() <= bytes::concat_all(
            entry_encoder(),
            items,
        ).len(),
        bytes::concat_all(entry_encoder(), items).take(
            bytes::concat_all(entry_encoder(), items.take(k)).len() as int,
        ) == bytes::concat_all(entry_encoder(), items.take(k)),
    decreases items.len(),
{
    let e = entry_encoder();
    if k == items.len() {
        assert(items.take(k) =~= items);
        let all = bytes::concat_all(e, items);
        assert(all.take(all.len() as int) =~= all);
    } else {
        let front = items.drop_last();
        lemma_concat_prefix(front, k);
        assert(front.take(k) =~= items.take(k));
        let n = bytes::concat_all(e, items.take(k)).len() as int;
        assert(bytes::concat_all(e, items).take(n) =~= bytes::concat_all(e, front).take(n));
    }
}

/// A framed body of `n` entries that walks to `values` is a pack with these values.
pub proof fn lemma_framed_values(body: Seq<u8>, n: nat, blob: Seq<u8>, values: Seq<LpValue>)
    requires
        framed(body, n) == Some(blob),
        listpack::walk(blob, LISTPACK_HEADER_SIZE as int, blob.len() - 1, Seq::empty()) == Ok::<
            Seq<LpValue>,
            ListpackError,
        >(values),
        values.len() == n,
    ensures
        listpack::values_of(blob) == Ok::<Seq<LpValue>, ListpackError>(values),
{
    lemma_framed_parts(body, n, blob);
}

/// Where the parts of a framed body stand.
pub proof fn lemma_framed_parts(body: Seq<u8>, n: nat, blob: Seq<u8>)
    requires
        framed(body, n) == Some(blob),
    ensures
        blob.len() == body.len() + LISTPACK_BLOB_OVERHEAD,
        blob.len() <= u32::MAX,
        bytes::has_at(blob, LISTPACK_HEADER_SIZE as int, body),
        listpack::header_of(blob) == Ok::<(nat, nat), ListpackError>((blob.len(), header_count(n))),
{
    let total = (body.len() + LISTPACK_BLOB_OVERHEAD) as nat;
    let a = bytes::le_bytes(total, 4);
    let b = bytes::le_bytes(header_count(n), 2);
    let z = seq![LISTPACK_EOF];
    bytes::lemma_pow256_values();
    bytes::lemma_le_bytes_len(total, 4);
    bytes::lemma_le_bytes_len(header_count(n), 2);
    bytes::lemma_has_at_whole(blob);
    bytes::lemma_has_at_concat(blob, 0, a + b + body, z);
    bytes::lemma_has_at_concat(blob, 0, a + b, body);
    bytes::lemma_has_at_concat(blob, 0, a, b);
    bytes::lemma_le_at(blob, 0, total, 4);
    bytes::lemma_le_at(blob, 4, header_count(n), 2);
    assert(blob.last() == LISTPACK_EOF);
}

/// A pack is read back: its values are seen as the byte strings it was made from, and
/// stored as integers where they are the text of integers.
pub proof fn law_pack_round_trip(items: Seq<Seq<u8>>)
    ensures
        pack_of(items) matches Some(blob) ==> listpack::values_of(blob) matches Ok(values)
            && values.len() == items.len() && forall|i: int|
            0 <= i < items.len() ==> listpack::value_bytes(blob, #[trigger] values[i]) == items[i]
                && (values[i] is Integer <==> is_integer_text(items[i])),
{
    if let Some(blob) = pack_of(items) {
        let body = bytes::concat_all(entry_encoder(), items);
        lemma_framed_parts(body, items.len(), blob);
        let start = LISTPACK_HEADER_SIZE as int;
        lemma_walk_items(blob, start, blob.len() - 1, items, items.len(), Seq::empty());
        assert(items.take(items.len() as int) =~= items);
        let values = values_from(blob, start, items);
        assert(Seq::<LpValue>::empty() + values.take(items.len() as int) =~= values);
        lemma_framed_values(body, items.len(), blob, values);
    }
}

/// No pack holds a string that is too long.
pub proof fn lemma_unpackable(items: Seq<Seq<u8>>, i: int)
    requires
        0 <= i < items.len(),
        !packable(items[i]),
    ensures
        pack_of(items) is None,
        bytes::concat_all(entry_encoder(), items).len() + LISTPACK_BLOB_OVERHEAD > u32::MAX,
{
    let e = entry_encoder();
    lemma_concat_prefix(items, i + 1);
    bytes::lemma_concat_take(e, items, i);
    lemma_unpackable_entry(items[i]);
}

/// The entry of a string that is too long is too long for a pack.
pub proof fn lemma_unpackable_entry(s: Seq<u8>)
    requires
        !packable(s),
    ensures
        packed_entry(s).len() + LISTPACK_BLOB_OVERHEAD > u32::MAX,
{
    if is_integer_text(s) {
        let v = choose|v: i64| is_text_of(s, v);
        decimal::lemma_dec_nat_len(
            if v < 0 {
                (-v) as nat
            } else {
                v as nat
            },
        );
    }
    lemma_text_data_len(s);
    listpack::lemma_backlen_len(text_data(s).len() as int);
}

// ---------------------------------------------------------------------------
// Writing
// ---------------------------------------------------------------------------

/// The integer whose decimal text `entry` is, if there is one.
pub fn parse_listpack_integer(entry: &[u8]) -> (r: Option<i64>)
    ensures
        match r {
            Some(v) => is_text_of(entry@, v) && is_integer_text(entry@) && integer_of(entry@) == v,
            None => !is_integer_text(entry@),
        },
{
    match parse_canonical_i64(entry) {
        Some(v) => {
            proof {
                lemma_integer_of(entry@, v);
            }
            Some(v)
        },
        None => None,
    }
}

/// Appends the trailer behind `len` bytes of lead and payload.
pub fn encode_listpack_backlen(buf: &mut Vec<u8>, len: usize)
    ensures
        final(buf)@ == old(buf)@ + listpack::backlen_bytes(len as int),
{
    push_backlen_digits(buf, len, listpack::backlen_byte_count(len));
}

fn push_backlen_digits(buf: &mut Vec<u8>, n: usize, k: usize)
    requires
        1 <= k <= 5,
    ensures
        final(buf)@ == old(buf)@ + listpack::backlen_digits(n as int, k as nat),
    decreases k,
{
    if k == 1 {
        buf.push((n % 256) as u8);
    } else {
        push_backlen_digits(buf, n / 128, k - 1);
        buf.push(128 + (n % 128) as u8);
    }
    assert(buf@ =~= old(buf)@ + listpack::backlen_digits(n as int, k as nat));
}

fn push_integer_data(buf: &mut Vec<u8>, v: i64)
    ensures
        final(buf)@ == old(buf)@ + integer_data(v as int),
{
    proof {
        bytes::lemma_pow256_values();
    }
    if 0 <= v && v <= 127 {
        buf.push(v as u8);
    } else if -4096 <= v && v <= 4095 {
        let n: i64 = if v < 0 {
            v + 0x2000
        } else {
            v
        };
        buf.push(0xC0 + (n / 256) as u8);
        buf.push((n % 256) as u8);
    } else if -0x8000 <= v && v <= 0x7fff {
        buf.push(0xF1);
        push_le(buf, wrap(v, 0x1_0000), 2);
    } else if -0x80_0000 <= v && v <= 0x7f_ffff {
        buf.push(0xF2);
        push_le(buf, wrap(v, 0x100_0000), 3);
    } else if -0x8000_0000 <= v && v <= 0x7fff_ffff {
        buf.push(0xF3);
        push_le(buf, wrap(v, 0x1_0000_0000), 4);
    } else {
        buf.push(0xF4);
        push_le(buf, bytes::to_unsigned(v), 8);
    }
    assert(buf@ =~= old(buf)@ + integer_data(v as int));
}

fn wrap(v: i64, range: i64) -> (n: u64)
    requires
        -range <= v < range,
        range <= 0x1_0000_0000,
    ensures
        n == (if v < 0 {
            v + range
        } else {
            v as int
        }),
{
    if v < 0 {
        (v + range) as u64
    } else {
        v as u64
    }
}

/// Appends the entry of an integer.
pub fn encode_listpack_integer_entry(buf: &mut Vec<u8>, value: i64)
    ensures
        final(buf)@ == old(buf)@ + with_trailer(integer_data(value as int)),
{
    let mut data: Vec<u8> = Vec::new();
    push_integer_data(&mut data, value);
    assert(data@ =~= integer_data(value as int));
    buf.extend_from_slice(data.as_slice());
    encode_listpack_backlen(buf, data.len());
    assert(buf@ =~= old(buf)@ + with_trailer(integer_data(value as int)));
}

/// Appends the entry of a string that is not to be stored as an integer.
fn encode_listpack_text_entry(buf: &mut Vec<u8>, entry: &[u8])
    requires
        packable(entry@),
    ensures
        final(buf)@ == old(buf)@ + with_trailer(text_data(entry@)),
{
    let len: usize = entry.len();
    proof {
        lemma_text_data_len(entry@);
    }
    let head: usize = if len < 64 {
        buf.push(0x80 + len as u8);
        1
    } else if len < 4096 {
        buf.push(0xE0 + (len / 256) as u8);
        buf.push((len % 256) as u8);
        2
    } else {
        buf.push(0xF0);
        push_le(buf, len as u64, 4);
        5
    };
    buf.extend_from_slice(entry);
    assert(buf@ =~= old(buf)@ + text_data(entry@));
    encode_listpack_backlen(buf, head + len);
    assert(buf@ =~= old(buf)@ + with_trailer(text_data(entry@)));
}

/// Appends the entry of a byte string.
pub fn encode_listpack_entry(buf: &mut Vec<u8>, entry: &[u8])
    requires
        packable(entry@),
    ensures
        final(buf)@ == old(buf)@ + packed_entry(entry@),
{
    match parse_listpack_integer(entry) {
        Some(value) => encode_listpack_integer_entry(buf, value),
        None => encode_listpack_text_entry(buf, entry),
    }
}

/// The number of bytes that the entry of a byte string takes.
pub fn listpack_entry_encoded_len(entry: &[u8]) -> (n: usize)
    requires
        packable(entry@),
    ensures
        n == packed_entry(entry@).len(),
{
    let data_len: usize = match parse_listpack_integer(entry) {
        Some(v) => {
            proof {
                lemma_integer_data_len(v as int);
            }
            if 0 <= v && v <= 127 {
                1
            } else if -4096 <= v && v <= 4095 {
                2
            } else if -0x8000 <= v && v <= 0x7fff {
                3
            } else if -0x80_0000 <= v && v <= 0x7f_ffff {
                4
            } else if -0x8000_0000 <= v && v <= 0x7fff_ffff {
                5
            } else {
                9
            }
        },
        None => {
            proof {
                lemma_text_data_len(entry@);
            }
            let head: usize = if entry.len() < 64 {
                1
            } else if entry.len() < 4096 {
                2
            } else {
                5
            };
            head + entry.len()
        },
    };
    proof {
        listpack::lemma_backlen_len(data_len as int);
    }
    data_len + listpack::backlen_byte_count(data_len)
}

/// Frames a body of `entry_count` entries, if its length fits the header.
pub fn finish_listpack_blob(body: Vec<u8>, entry_count: u64) -> (r: Option<Vec<u8>>)
    ensures
        match r {
            Some(blob) => framed(body@, entry_count as nat) == Some(blob@),
            None => framed(body@, entry_count as nat) is None,
        },
{
    if body.len() as u64 > u32::MAX as u64 - LISTPACK_BLOB_OVERHEAD as u64 {
        return None;
    }
    let total: u64 = body.len() as u64 + LISTPACK_BLOB_OVERHEAD as u64;
    let count: u64 = if entry_count <= 0xffff {
        entry_count
    } else {
        0xffff
    };
    let mut blob: Vec<u8> = Vec::new();
    push_le(&mut blob, total, 4);
    push_le(&mut blob, count, 2);
    blob.extend_from_slice(body.as_slice());
    blob.push(LISTPACK_EOF);
    assert(blob@ =~= framed(body@, entry_count as nat)->Some_0);
    Some(blob)
}

/// The byte strings of a sequence of slices.
pub open spec fn slice_views(items: Seq<&[u8]>) -> Seq<Seq<u8>> {
    items.map_values(|item: &[u8]| item@)
}

/// The pack of a sequence of byte strings, if its length fits the header.
pub fn encode_listpack_strings_blob(entries: &[&[u8]]) -> (r: Option<Vec<u8>>)
    ensures
        match r {
            Some(blob) => pack_of(slice_views(entries@)) == Some(blob@),
            None => pack_of(slice_views(entries@)) is None,
        },
{
    let ghost items = slice_views(entries@);
    let mut body: Vec<u8> = Vec::new();
    let mut i: usize = 0;
    assert(items.take(0) =~= Seq::empty());
    while i < entries.len()
        invariant
            i <= entries@.len(),
            items == slice_views(entries@),
            body@ == bytes::concat_all(entry_encoder(), items.take(i as int)),
        decreases entries@.len() - i,
    {
        let entry: &[u8] = entries[i];
        assert(items[i as int] == entry@);
        if entry.len() as u64 > u32::MAX as u64 - 17 {
            proof {
                lemma_unpackable(items, i as int);
            }
            return None;
        }
        encode_listpack_entry(&mut body, entry);
        proof {
            bytes::lemma_concat_take(entry_encoder(), items, i as int);
        }
        i = i + 1;
    }
    assert(items.take(i as int) =~= items);
    finish_listpack_blob(body, entries.len() as u64)
}

} // verus!
