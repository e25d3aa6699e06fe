//! The forms of packs that are read, whoever wrote them, and the forms that are written.

use vstd::prelude::*;

use crate::bytes;
use crate::decimal;
use crate::listpack;
use crate::listpack::{ListpackError, LpValue};
use crate::listpack_encode;
use crate::rdb_values;

verus! {

// ---------------------------------------------------------------------------
// Entries
// ---------------------------------------------------------------------------

/// A value of a pack.
pub enum PackValue {
    Integer(int),
    Text(Seq<u8>),
}

/// The string that a value is seen as.
pub open spec fn value_text(v: PackValue) -> Seq<u8> {
    match v {
        PackValue::Integer(n) => decimal::dec_int(n),
        PackValue::Text(s) => s,
    }
}

/// What was read is the value.
pub open spec fn is_read_value(data: Seq<u8>, found: LpValue, v: PackValue) -> bool {
    match v {
        PackValue::Integer(n) => found == LpValue::Integer(n),
        PackValue::Text(s) => found matches LpValue::Text(start, end) && 0 <= start <= end
            <= data.len() && data.subrange(start, end) == s,
    }
}

/// The trailer behind an entry of `n` bytes: the digits of `n` to the base 128, the greatest
/// first, and the high bit set on all others. A number of two or more digits that are all ones
/// gets one digit more.
pub proof fn law_trailer(n: int)
    requires
        0 <= n <= u32::MAX,
    ensures
        n <= 127 ==> listpack::backlen_bytes(n) == seq![n as u8],
        127 < n < 16_383 ==> listpack::backlen_bytes(n) == seq![
            (n / 128) as u8,
            (128 + n % 128) as u8,
        ],
        16_383 <= n < 2_097_151 ==> listpack::backlen_bytes(n) == seq![
            (n / 16_384) as u8,
            (128 + n / 128 % 128) as u8,
            (128 + n % 128) as u8,
        ],
        2_097_151 <= n < 268_435_455 ==> listpack::backlen_bytes(n) == seq![
            (n / 2_097_152) as u8,
            (128 + n / 16_384 % 128) as u8,
            (128 + n / 128 % 128) as u8,
            (128 + n % 128) as u8,
        ],
        n >= 268_435_455 ==> listpack::backlen_bytes(n) == seq![
            (n / 268_435_456) as u8,
            (128 + n / 2_097_152 % 128) as u8,
            (128 + n / 16_384 % 128) as u8,
            (128 + n / 128 % 128) as u8,
            (128 + n % 128) as u8,
        ],
{
    reveal_with_fuel(listpack::backlen_digits, 6);
    assert(n / 128 / 128 == n / 16_384);
    assert(n / 128 / 128 / 128 == n / 2_097_152);
    assert(n / 128 / 128 / 128 / 128 == n / 268_435_456);
}

/// The bytes, with their trailer behind them, are read as the value wherever they stand.
pub open spec fn is_entry(d: Seq<u8>, v: PackValue) -> bool {
    forall|data: Seq<u8>, pos: int| #[trigger]
        bytes::has_at(data, pos, d + listpack::backlen_bytes(d.len() as int)) && data.len()
            <= u32::MAX ==> (listpack::entry_at(data, pos) matches Ok((found, n)) && is_read_value(
            data,
            found,
            v,
        ) && n == d.len() + listpack::backlen_bytes(d.len() as int).len())
}

proof fn lemma_trailer(d: Seq<u8>, data: Seq<u8>, pos: int)
    requires
        bytes::has_at(data, pos, d + listpack::backlen_bytes(d.len() as int)),
        data.len() <= u32::MAX,
    ensures
        bytes::has_at(data, pos, d),
        listpack::entry_len(data, pos, d.len() as int) == Ok::<int, ListpackError>(
            (d.len() + listpack::backlen_bytes(d.len() as int).len()) as int,
        ),
        pos + d.len() <= data.len(),
{
    bytes::lemma_has_at_concat(data, pos, d, listpack::backlen_bytes(d.len() as int));
    listpack::lemma_backlen_len(d.len() as int);
}

/// An integer is read from each form that has room for it: one byte from 0 to 127, thirteen
/// bits, or two, three, four or eight bytes behind a lead.
pub proof fn law_integer_entry(v: int)
    ensures
        0 <= v <= 127 ==> is_entry(seq![v as u8], PackValue::Integer(v)),
        0 <= v <= 4095 ==> is_entry(
            seq![(0xC0 + v / 256) as u8, (v % 256) as u8],
            PackValue::Integer(v),
        ),
        -4096 <= v < 0 ==> is_entry(
            seq![(0xC0 + (v + 8192) / 256) as u8, ((v + 8192) % 256) as u8],
            PackValue::Integer(v),
        ),
        -0x8000 <= v < 0x8000 ==> is_entry(
            seq![0xF1u8] + bytes::le_bytes(bytes::unsigned(v, 2), 2),
            PackValue::Integer(v),
        ),
        -0x80_0000 <= v < 0x80_0000 ==> is_entry(
            seq![0xF2u8] + bytes::le_bytes(bytes::unsigned(v, 3), 3),
            PackValue::Integer(v),
        ),
        -0x8000_0000 <= v < 0x8000_0000 ==> is_entry(
            seq![0xF3u8] + bytes::le_bytes(bytes::unsigned(v, 4), 4),
            PackValue::Integer(v),
        ),
        i64::MIN <= v <= i64::MAX ==> is_entry(
            seq![0xF4u8] + bytes::le_bytes(bytes::unsigned(v, 8), 8),
            PackValue::Integer(v),
        ),
{
    bytes::lemma_pow256_values();
    if 0 <= v <= 127 {
        let d = seq![v as u8];
        assert forall|data: Seq<u8>, pos: int| #[trigger]
            bytes::has_at(data, pos, d + listpack::backlen_bytes(d.len() as int)) && data.len()
                <= u32::MAX implies (listpack::entry_at(data, pos) matches Ok((found, n))
            && is_read_value(data, found, PackValue::Integer(v)) && n == d.len()
            + listpack::backlen_bytes(d.len() as int).len()) by {
            lemma_trailer(d, data, pos);
            assert(data[pos + 0] == d[0]);
            reveal(listpack::entry_at);
        }
    }
    if 0 <= v <= 4095 {
        lemma_thirteen(v, v);
    }
    if -4096 <= v < 0 {
        lemma_thirteen(v, v + 8192);
    }
    if -0x8000 <= v < 0x8000 {
        lemma_wide(v, 2, 0xF1);
    }
    if -0x80_0000 <= v < 0x80_0000 {
        lemma_wide(v, 3, 0xF2);
    }
    if -0x8000_0000 <= v < 0x8000_0000 {
        lemma_wide(v, 4, 0xF3);
    }
    if i64::MIN <= v <= i64::MAX {
        lemma_wide(v, 8, 0xF4);
    }
}

proof fn lemma_thirteen(v: int, raw: int)
    requires
        0 <= raw < 8192,
        v == (if raw >= 4096 {
            raw - 8192
        } else {
            raw
        }),
    ensures
        is_entry(seq![(0xC0 + raw / 256) as u8, (raw % 256) as u8], PackValue::Integer(v)),
{
    let d = seq![(0xC0 + raw / 256) as u8, (raw % 256) as u8];
    assert forall|data: Seq<u8>, pos: int| #[trigger]
        bytes::has_at(data, pos, d + listpack::backlen_bytes(d.len() as int)) && data.len()
            <= u32::MAX implies (listpack::entry_at(data, pos) matches Ok((found, n))
        && is_read_value(data, found, PackValue::Integer(v)) && n == d.len()
        + listpack::backlen_bytes(d.len() as int).len()) by {
        lemma_trailer(d, data, pos);
        assert(data[pos + 0] == d[0]);
        assert(data[pos + 1] == d[1]);
        assert(0 <= raw / 256 < 32);
        reveal(listpack::entry_at);
    }
}

proof fn lemma_wide(v: int, width: nat, lead: u8)
    requires
        -(bytes::pow256(width) as int) <= 2 * v < bytes::pow256(width),
        width == 2 && lead == 0xF1 || width == 3 && lead == 0xF2 || width == 4 && lead == 0xF3
            || width == 8 && lead == 0xF4,
    ensures
        is_entry(
            seq![lead] + bytes::le_bytes(bytes::unsigned(v, width), width),
            PackValue::Integer(v),
        ),
{
    let b = bytes::le_bytes(bytes::unsigned(v, width), width);
    let d = seq![lead] + b;
    bytes::lemma_signed_unsigned(v, width);
    bytes::lemma_le_bytes_len(bytes::unsigned(v, width), width);
    assert forall|data: Seq<u8>, pos: int| #[trigger]
        bytes::has_at(data, pos, d + listpack::backlen_bytes(d.len() as int)) && data.len()
            <= u32::MAX implies (listpack::entry_at(data, pos) matches Ok((found, n))
        && is_read_value(data, found, PackValue::Integer(v)) && n == d.len()
        + listpack::backlen_bytes(d.len() as int).len()) by {
        lemma_trailer(d, data, pos);
        bytes::lemma_has_at_concat(data, pos, seq![lead], b);
        assert(data[pos + 0] == seq![lead][0]);
        bytes::lemma_le_at(data, pos + 1, bytes::unsigned(v, width), width);
        reveal(listpack::entry_at);
    }
}

/// A string is read from each form of its length that has room for it: six bits, twelve bits,
/// or four bytes.
pub proof fn law_text_entry(s: Seq<u8>)
    ensures
        s.len() < 64 ==> is_entry(seq![(0x80 + s.len()) as u8] + s, PackValue::Text(s)),
        s.len() < 4096 ==> is_entry(
            seq![(0xE0 + s.len() / 256) as u8, (s.len() % 256) as u8] + s,
            PackValue::Text(s),
        ),
        s.len() <= u32::MAX ==> is_entry(
            seq![0xF0u8] + bytes::le_bytes(s.len(), 4) + s,
            PackValue::Text(s),
        ),
{
    let n = s.len();
    bytes::lemma_pow256_values();
    bytes::lemma_le_bytes_len(n, 4);
    if n < 64 {
        let h = seq![(0x80 + n) as u8];
        let d = h + s;
        assert forall|data: Seq<u8>, pos: int| #[trigger]
            bytes::has_at(data, pos, d + listpack::backlen_bytes(d.len() as int)) && data.len()
                <= u32::MAX implies (listpack::entry_at(data, pos) matches Ok((found, k))
            && is_read_value(data, found, PackValue::Text(s)) && k == d.len()
            + listpack::backlen_bytes(d.len() as int).len()) by {
            lemma_trailer(d, data, pos);
            lemma_head(data, pos, h, s);
            assert(data[pos + 0] == h[0]);
            reveal(listpack::entry_at);
        }
    }
    if n < 4096 {
        let h = seq![(0xE0 + n / 256) as u8, (n % 256) as u8];
        let d = h + s;
        assert forall|data: Seq<u8>, pos: int| #[trigger]
            bytes::has_at(data, pos, d + listpack::backlen_bytes(d.len() as int)) && data.len()
                <= u32::MAX implies (listpack::entry_at(data, pos) matches Ok((found, k))
            && is_read_value(data, found, PackValue::Text(s)) && k == d.len()
            + listpack::backlen_bytes(d.len() as int).len()) by {
            lemma_trailer(d, data, pos);
            lemma_head(data, pos, h, s);
            assert(data[pos + 0] == h[0]);
            assert(data[pos + 1] == h[1]);
            reveal(listpack::entry_at);
        }
    }
    if n <= u32::MAX {
        let a = seq![0xF0u8];
        let h = a + bytes::le_bytes(n, 4);
        let d = h + s;
        assert forall|data: Seq<u8>, pos: int| #[trigger]
            bytes::has_at(data, pos, d + listpack::backlen_bytes(d.len() as int)) && data.len()
                <= u32::MAX implies (listpack::entry_at(data, pos) matches Ok((found, k))
            && is_read_value(data, found, PackValue::Text(s)) && k == d.len()
            + listpack::backlen_bytes(d.len() as int).len()) by {
            lemma_trailer(d, data, pos);
            lemma_head(data, pos, h, s);
            bytes::lemma_has_at_concat(data, pos, a, bytes::le_bytes(n, 4));
            assert(data[pos + 0] == a[0]);
            bytes::lemma_le_at(data, pos + 1, n, 4);
            reveal(listpack::entry_at);
        }
    }
}

proof fn lemma_head(data: Seq<u8>, pos: int, head: Seq<u8>, s: Seq<u8>)
    requires
        bytes::has_at(data, pos, head + s),
    ensures
        bytes::has_at(data, pos, head),
        pos + head.len() + s.len() <= data.len(),
        data.subrange(pos + head.len(), pos + head.len() + s.len()) == s,
{
    bytes::lemma_has_at_concat(data, pos, head, s);
    bytes::lemma_has_at_subrange(data, pos + head.len(), s);
}

/// No entry starts with any other lead, and an entry whose trailer does not repeat its length
/// is rejected.
pub proof fn law_wrong_entries_are_rejected(data: Seq<u8>, pos: int)
    requires
        0 <= pos < data.len(),
        data[pos] >= 0xF5 || (data[pos] < 0x80 && pos + 1 < data.len() && data[pos + 1] != 1),
    ensures
        listpack::entry_at(data, pos) is Err,
{
    reveal(listpack::entry_at);
    law_trailer(1);
    if data[pos] < 0x80 && pos + 1 < data.len() {
        if bytes::has_at(data, pos + 1, listpack::backlen_bytes(1)) {
            assert(data[pos + 1 + 0] == seq![1u8][0]);
        }
    }
}

// ---------------------------------------------------------------------------
// Packs
// ---------------------------------------------------------------------------

/// An entry of a pack with its value.
pub struct PackEntry {
    pub data: Seq<u8>,
    pub value: PackValue,
}

/// The bytes of an entry with its trailer, as a function value.
pub open spec fn entry_encoder() -> spec_fn(PackEntry) -> Seq<u8> {
    |e: PackEntry| e.data + listpack::backlen_bytes(e.data.len() as int)
}

/// A pack: its length, a number of entries, the entries, and the end mark.
pub open spec fn pack_bytes(entries: Seq<PackEntry>, count: nat) -> Seq<u8> {
    let body = bytes::concat_all(entry_encoder(), entries);
    bytes::le_bytes((body.len() + 7) as nat, 4) + bytes::le_bytes(count, 2) + body + seq![0xFFu8]
}

/// The entries are read from their bytes.
pub open spec fn entries_right(entries: Seq<PackEntry>) -> bool {
    forall|i: int|
        0 <= i < entries.len() ==> is_entry((#[trigger] entries[i]).data, entries[i].value)
}

/// What was read of a pack is its values.
pub open spec fn are_read_values(
    data: Seq<u8>,
    found: Seq<LpValue>,
    entries: Seq<PackEntry>,
) -> bool {
    &&& found.len() == entries.len()
    &&& forall|i: int|
        0 <= i < found.len() ==> is_read_value(data, #[trigger] found[i], entries[i].value)
}

proof fn lemma_walk(
    entries: Seq<PackEntry>,
    k: int,
    data: Seq<u8>,
    pos: int,
    end: int,
    found: Seq<LpValue>,
)
    requires
        0 <= k <= entries.len(),
        entries_right(entries),
        data.len() <= u32::MAX,
        end <= data.len(),
        bytes::has_at(data, pos, bytes::concat_all(entry_encoder(), entries.skip(k))),
        pos + bytes::concat_all(entry_encoder(), entries.skip(k)).len() == end,
        are_read_values(data, found, entries.take(k)),
    ensures
        listpack::walk(data, pos, end, found) matches Ok(values) && are_read_values(
            data,
            values,
            entries,
        ),
    decreases entries.len() - k,
{
    let e = entry_encoder();
    if k == entries.len() {
        assert(entries.skip(k) =~= Seq::empty());
        assert(entries.take(k) =~= entries);
    } else {
        let x = entries[k];
        let rest = bytes::concat_all(e, entries.skip(k + 1));
        bytes::lemma_concat_first(e, entries, k);
        bytes::lemma_has_at_concat(data, pos, e(x), rest);
        assert(is_entry(x.data, x.value));
        let (v, n) = listpack::entry_at(data, pos)->Ok_0;
        listpack::lemma_entry_at(data, pos);
        let more = found.push(v);
        assert(are_read_values(data, more, entries.take(k + 1))) by {
            assert forall|i: int| 0 <= i < more.len() implies is_read_value(
                data,
                #[trigger] more[i],
                entries.take(k + 1)[i].value,
            ) by {
                if i < k {
                    assert(more[i] == found[i]);
                    assert(entries.take(k + 1)[i] == entries.take(k)[i]);
                }
            }
        }
        lemma_walk(entries, k + 1, data, pos + n, end, more);
    }
}

/// A pack of entries of any forms is read as their values, where its number of entries is right
/// or all ones.
pub proof fn law_pack_is_read(entries: Seq<PackEntry>, count: nat)
    requires
        entries_right(entries),
        pack_bytes(entries, count).len() <= u32::MAX,
        count == 0xffff || (count == entries.len() && count < 0xffff),
    ensures
        listpack::values_of(pack_bytes(entries, count)) matches Ok(values) && are_read_values(
            pack_bytes(entries, count),
            values,
            entries,
        ),
        rdb_values::pack_strings(pack_bytes(entries, count)) == Some(
            entries.map_values(|e: PackEntry| value_text(e.value)),
        ),
{
    let body = bytes::concat_all(entry_encoder(), entries);
    let total = (body.len() + 7) as nat;
    let a = bytes::le_bytes(total, 4);
    let c = bytes::le_bytes(count, 2);
    let data = pack_bytes(entries, count);
    bytes::lemma_pow256_values();
    bytes::lemma_le_bytes_len(total, 4);
    bytes::lemma_le_bytes_len(count, 2);
    bytes::lemma_has_at_whole(data);
    bytes::lemma_has_at_concat(data, 0, a + c + body, seq![0xFFu8]);
    bytes::lemma_has_at_concat(data, 0, a + c, body);
    bytes::lemma_has_at_concat(data, 0, a, c);
    bytes::lemma_le_at(data, 0, total, 4);
    bytes::lemma_le_at(data, 4, count, 2);
    assert(data.last() == 0xFF);
    assert(entries.skip(0) =~= entries);
    lemma_walk(entries, 0, data, 6, data.len() - 1, Seq::empty());
    let values = listpack::values_of(data)->Ok_0;
    let texts = values.map_values(|v: LpValue| listpack::value_bytes(data, v));
    assert(texts =~= entries.map_values(|e: PackEntry| value_text(e.value))) by {
        assert forall|i: int| 0 <= i < values.len() implies texts[i] == value_text(
            entries[i].value,
        ) by {
            assert(is_read_value(data, values[i], entries[i].value));
        }
    }
}

/// A pack whose length, end mark or number of entries is wrong is rejected.
pub proof fn law_wrong_pack_is_rejected(entries: Seq<PackEntry>, count: nat, data: Seq<u8>)
    requires
        entries_right(entries),
        pack_bytes(entries, count).len() <= u32::MAX,
        count < 0xffff,
        count != entries.len(),
        data.len() < 6 || bytes::le_at(data, 0, 4) != data.len() || data[data.len() - 1] != 0xFF,
    ensures
        listpack::values_of(pack_bytes(entries, count)) == Err::<Seq<LpValue>, ListpackError>(
            ListpackError::ElementCountMismatch,
        ),
        listpack::values_of(data) is Err,
{
    let body = bytes::concat_all(entry_encoder(), entries);
    let total = (body.len() + 7) as nat;
    let a = bytes::le_bytes(total, 4);
    let c = bytes::le_bytes(count, 2);
    let pack = pack_bytes(entries, count);
    bytes::lemma_pow256_values();
    bytes::lemma_le_bytes_len(total, 4);
    bytes::lemma_le_bytes_len(count, 2);
    bytes::lemma_has_at_whole(pack);
    bytes::lemma_has_at_concat(pack, 0, a + c + body, seq![0xFFu8]);
    bytes::lemma_has_at_concat(pack, 0, a + c, body);
    bytes::lemma_has_at_concat(pack, 0, a, c);
    bytes::lemma_le_at(pack, 0, total, 4);
    bytes::lemma_le_at(pack, 4, count, 2);
    assert(pack.last() == 0xFF);
    assert(entries.skip(0) =~= entries);
    lemma_walk(entries, 0, pack, 6, pack.len() - 1, Seq::empty());
}

// ---------------------------------------------------------------------------
// What is written
// ---------------------------------------------------------------------------

/// A string is written as the integer whose text it is, in the narrowest form, or as itself.
pub proof fn law_written_entry(s: Seq<u8>, v: int)
    requires
        i64::MIN <= v <= i64::MAX,
    ensures
        s == decimal::dec_int(v) ==> ({
            let d = listpack_encode::entry_data(s);
            &&& is_entry(d, PackValue::Integer(v))
            &&& 0 <= v <= 127 <==> d.len() == 1
            &&& -4096 <= v <= 4095 <==> d.len() <= 2
            &&& -0x8000 <= v < 0x8000 <==> d.len() <= 3
            &&& -0x80_0000 <= v < 0x80_0000 <==> d.len() <= 4
            &&& -0x8000_0000 <= v < 0x8000_0000 <==> d.len() <= 5
            &&& d.len() <= 9
        }),
        s.len() <= u32::MAX && !listpack_encode::is_integer_text(s) ==> is_entry(
            listpack_encode::entry_data(s),
            PackValue::Text(s),
        ) && listpack_encode::entry_data(s).len() == s.len() + (if s.len() < 64 {
            1int
        } else if s.len() < 4096 {
            2
        } else {
            5
        }),
{
    law_text_entry(s);
    law_integer_entry(v);
    listpack_encode::lemma_integer_data_len(v);
    listpack_encode::lemma_text_data_len(s);
    if s == decimal::dec_int(v) {
        assert(listpack_encode::is_text_of(s, v as i64));
        listpack_encode::lemma_integer_of(s, v as i64);
    }
}

/// Strings are written as a pack of their entries, one for each and in order. The number of
/// entries is told where it is below 65535, and is all ones otherwise.
pub proof fn law_written_pack(items: Seq<Seq<u8>>) -> (entries: Seq<PackEntry>)
    requires
        forall|i: int| 0 <= i < items.len() ==> (#[trigger] items[i]).len() <= u32::MAX,
    ensures
        entries.len() == items.len(),
        entries_right(entries),
        forall|i: int|
            0 <= i < items.len() ==> value_text((#[trigger] entries[i]).value) == items[i],
        listpack_encode::pack_of(items) matches Some(pack) ==> pack == pack_bytes(
            entries,
            if items.len() < 0xffff {
                items.len()
            } else {
                0xffff
            },
        ) && pack.len() <= u32::MAX,
        listpack_encode::pack_of(items) is None ==> bytes::concat_all(
            entry_encoder(),
            entries,
        ).len() + 7 > u32::MAX,
{
    let entries = Seq::new(items.len(), |i: int| written_entry(items[i]));
    assert forall|i: int| 0 <= i < items.len() implies is_entry(
        (#[trigger] entries[i]).data,
        entries[i].value,
    ) && value_text(entries[i].value) == items[i] by {
        let s = items[i];
        if listpack_encode::is_integer_text(s) {
            let v = choose|v: i64| listpack_encode::is_text_of(s, v);
            listpack_encode::lemma_integer_of(s, v);
            law_written_entry(s, v as int);
        } else {
            law_written_entry(s, 0);
        }
    }
    lemma_written_body(items, entries);
    let body = bytes::concat_all(entry_encoder(), entries);
    bytes::lemma_le_bytes_len((body.len() + 7) as nat, 4);
    bytes::lemma_le_bytes_len(listpack_encode::header_count(items.len()), 2);
    entries
}

/// The entry that a string is written as.
pub open spec fn written_entry(s: Seq<u8>) -> PackEntry {
    PackEntry {
        data: listpack_encode::entry_data(s),
        value: if listpack_encode::is_integer_text(s) {
            PackValue::Integer(listpack_encode::integer_of(s))
        } else {
            PackValue::Text(s)
        },
    }
}

proof fn lemma_written_body(items: Seq<Seq<u8>>, entries: Seq<PackEntry>)
    requires
        entries.len() == items.len(),
        forall|i: int| 0 <= i < items.len() ==> #[trigger] entries[i] == written_entry(items[i]),
    ensures
        bytes::concat_all(listpack_encode::entry_encoder(), items) == bytes::concat_all(
            entry_encoder(),
            entries,
        ),
    decreases items.len(),
{
    if items.len() > 0 {
        let (x, y) = (items.drop_last(), entries.drop_last());
        assert forall|i: int| 0 <= i < x.len() implies #[trigger] y[i] == written_entry(x[i]) by {
            assert(y[i] == entries[i]);
        }
        lemma_written_body(x, y);
        assert(entries[items.len() - 1] == written_entry(items.last()));
    }
}

} // verus!
