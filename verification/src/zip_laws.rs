//! The forms of ziplists and zipmaps that are read.

use vstd::prelude::*;

use crate::bytes;
use crate::decimal;
use crate::ziplist;

verus! {

// ---------------------------------------------------------------------------
// Entries of ziplists
// ---------------------------------------------------------------------------

/// The length of the entry before: one byte, or a mark and four bytes. It is not looked at.
pub open spec fn is_previous(p: Seq<u8>) -> bool {
    (p.len() == 1 && p[0] < 0xFE) || (p.len() == 5 && p[0] == 0xFE)
}

/// The bytes are read as the string wherever they stand in front of an end.
pub open spec fn is_payload(encoding: Seq<u8>, s: Seq<u8>) -> bool {
    forall|data: Seq<u8>, pos: int, end: int| #[trigger]
        bytes::has_at(data, pos, encoding) && pos + encoding.len() <= end <= data.len()
            ==> #[trigger] ziplist::payload_at(data, pos, end) == Some((s, pos + encoding.len()))
}

proof fn lemma_text(data: Seq<u8>, pos: int, head: Seq<u8>, s: Seq<u8>)
    requires
        bytes::has_at(data, pos, head + s),
    ensures
        bytes::has_at(data, pos, head),
        data.subrange(pos + head.len(), pos + head.len() + s.len()) == s,
{
    bytes::lemma_has_at_concat(data, pos, head, s);
    bytes::lemma_has_at_subrange(data, pos + head.len(), s);
}

/// A string is its length, in any form that has room for it, and its bytes.
pub proof fn law_zip_text(s: Seq<u8>)
    ensures
        s.len() < 64 ==> is_payload(seq![s.len() as u8] + s, s),
        s.len() < 16_384 ==> is_payload(
            seq![(64 + s.len() / 256) as u8, (s.len() % 256) as u8] + s,
            s,
        ),
        s.len() <= u32::MAX ==> is_payload(seq![0x80u8] + bytes::be_bytes(s.len(), 4) + s, s),
{
    let n = s.len();
    bytes::lemma_pow256_values();
    bytes::lemma_be_bytes_len(n, 4);
    if n < 64 {
        let h = seq![n as u8];
        assert forall|data: Seq<u8>, pos: int, end: int| #[trigger]
            bytes::has_at(data, pos, h + s) && pos + (h + s).len() <= end
                <= data.len() implies #[trigger] ziplist::payload_at(data, pos, end) == Some(
            (s, pos + (h + s).len()),
        ) by {
            lemma_text(data, pos, h, s);
            assert(data[pos + 0] == h[0]);
        }
    }
    if n < 16_384 {
        let h = seq![(64 + n / 256) as u8, (n % 256) as u8];
        assert forall|data: Seq<u8>, pos: int, end: int| #[trigger]
            bytes::has_at(data, pos, h + s) && pos + (h + s).len() <= end
                <= data.len() implies #[trigger] ziplist::payload_at(data, pos, end) == Some(
            (s, pos + (h + s).len()),
        ) by {
            lemma_text(data, pos, h, s);
            assert(data[pos + 0] == h[0]);
            assert(data[pos + 1] == h[1]);
        }
    }
    if n <= u32::MAX {
        let h = seq![0x80u8] + bytes::be_bytes(n, 4);
        assert forall|data: Seq<u8>, pos: int, end: int| #[trigger]
            bytes::has_at(data, pos, h + s) && pos + (h + s).len() <= end
                <= data.len() implies #[trigger] ziplist::payload_at(data, pos, end) == Some(
            (s, pos + (h + s).len()),
        ) by {
            lemma_text(data, pos, h, s);
            bytes::lemma_has_at_concat(data, pos, seq![0x80u8], bytes::be_bytes(n, 4));
            assert(data[pos + 0] == seq![0x80u8][0]);
            bytes::lemma_be_at(data, pos + 1, n, 4);
        }
    }
}

/// The mark of an integer of so many bytes.
pub open spec fn integer_mark(width: nat) -> u8 {
    if width == 1 {
        0xFE
    } else if width == 2 {
        0xC0
    } else if width == 3 {
        0xF0
    } else if width == 4 {
        0xD0
    } else {
        0xE0
    }
}

/// An integer is read from each form that has room for it, as its decimal text: a mark and
/// one, two, three, four or eight bytes, or from 0 to 12 one byte.
pub proof fn law_zip_integer(v: int, width: nat)
    requires
        width == 1 || width == 2 || width == 3 || width == 4 || width == 8,
        -(bytes::pow256(width) as int) <= 2 * v < bytes::pow256(width),
    ensures
        is_payload(
            seq![integer_mark(width)] + bytes::le_bytes(bytes::unsigned(v, width), width),
            decimal::dec_int(v),
        ),
        0 <= v <= 12 ==> is_payload(seq![(0xF1 + v) as u8], decimal::dec_int(v)),
{
    let h = seq![integer_mark(width)];
    let b = bytes::le_bytes(bytes::unsigned(v, width), width);
    bytes::lemma_signed_unsigned(v, width);
    bytes::lemma_le_bytes_len(bytes::unsigned(v, width), width);
    assert forall|data: Seq<u8>, pos: int, end: int| #[trigger]
        bytes::has_at(data, pos, h + b) && pos + (h + b).len() <= end
            <= data.len() implies #[trigger] ziplist::payload_at(data, pos, end) == Some(
        (decimal::dec_int(v), pos + (h + b).len()),
    ) by {
        bytes::lemma_has_at_concat(data, pos, h, b);
        assert(data[pos + 0] == h[0]);
        bytes::lemma_le_at(data, pos + 1, bytes::unsigned(v, width), width);
    }
    if 0 <= v <= 12 {
        let e = seq![(0xF1 + v) as u8];
        assert forall|data: Seq<u8>, pos: int, end: int| #[trigger]
            bytes::has_at(data, pos, e) && pos + e.len() <= end
                <= data.len() implies #[trigger] ziplist::payload_at(data, pos, end) == Some(
            (decimal::dec_int(v), pos + e.len()),
        ) by {
            assert(data[pos + 0] == e[0]);
        }
    }
}

// ---------------------------------------------------------------------------
// Ziplists
// ---------------------------------------------------------------------------

/// An entry with the string that it stands for.
pub struct ZipEntry {
    pub previous: Seq<u8>,
    pub payload: Seq<u8>,
    pub text: Seq<u8>,
}

/// The entry is read from its bytes.
pub open spec fn entry_right(e: ZipEntry) -> bool {
    is_previous(e.previous) && e.payload.len() > 0 && is_payload(e.payload, e.text)
}

/// The bytes of an entry, as a function value.
pub open spec fn entry_encoder() -> spec_fn(ZipEntry) -> Seq<u8> {
    |e: ZipEntry| e.previous + e.payload
}

/// The strings of entries.
pub open spec fn entry_texts(entries: Seq<ZipEntry>) -> Seq<Seq<u8>> {
    entries.map_values(|e: ZipEntry| e.text)
}

/// A ziplist: its length, the offset of its last entry, a number of entries, the entries, and
/// the end mark.
pub open spec fn ziplist_bytes(entries: Seq<ZipEntry>, tail: Seq<u8>, count: nat) -> Seq<u8> {
    let body = bytes::concat_all(entry_encoder(), entries);
    bytes::le_bytes((body.len() + 11) as nat, 4) + tail + bytes::le_bytes(count, 2) + body + seq![
        0xFFu8,
    ]
}

proof fn lemma_entry_reads(x: ZipEntry, data: Seq<u8>, pos: int, end: int)
    requires
        entry_right(x),
        bytes::has_at(data, pos, x.previous + x.payload),
        pos + (x.previous + x.payload).len() <= end <= data.len(),
    ensures
        ziplist::zip_entry_at(data, pos, end) == Some(
            (x.text, pos + (x.previous + x.payload).len()),
        ),
        (x.previous + x.payload).len() > 0,
{
    bytes::lemma_has_at_concat(data, pos, x.previous, x.payload);
    assert(data[pos + 0] == x.previous[0]);
    let at = pos + x.previous.len();
    assert(ziplist::payload_at(data, at, end) == Some((x.text, at + x.payload.len())));
}

proof fn lemma_walk(
    entries: Seq<ZipEntry>,
    k: int,
    data: Seq<u8>,
    pos: int,
    end: int,
)
    requires
        0 <= k <= entries.len(),
        forall|i: int| 0 <= i < entries.len() ==> entry_right(#[trigger] entries[i]),
        end <= data.len(),
        bytes::has_at(data, pos, bytes::concat_all(entry_encoder(), entries.skip(k))),
        pos + bytes::concat_all(entry_encoder(), entries.skip(k)).len() == end,
    ensures
        ziplist::zip_walk(data, pos, end, entry_texts(entries.take(k))) == Some(
            entry_texts(entries),
        ),
    decreases entries.len() - k,
{
    let e = entry_encoder();
    if k == entries.len() {
        assert(entries.skip(k) =~= Seq::empty());
        assert(entries.take(k) =~= entries);
    } else {
        let x = entries[k];
        let rest = bytes::concat_all(e, entries.skip(k + 1));
        assert(entry_right(x));
        bytes::lemma_concat_first(e, entries, k);
        bytes::lemma_has_at_concat(data, pos, e(x), rest);
        lemma_entry_reads(x, data, pos, end);
        lemma_walk(entries, k + 1, data, pos + e(x).len(), end);
        assert(entry_texts(entries.take(k)).push(x.text) =~= entry_texts(entries.take(k + 1)));
    }
}

/// A ziplist is read as the strings of its entries, where its number of entries is right or
/// all ones, and is rejected otherwise.
pub proof fn law_ziplist_is_read(entries: Seq<ZipEntry>, tail: Seq<u8>, count: nat)
    requires
        forall|i: int| 0 <= i < entries.len() ==> entry_right(#[trigger] entries[i]),
        tail.len() == 4,
        ziplist_bytes(entries, tail, count).len() <= u32::MAX,
        count <= 0xffff,
    ensures
        count == 0xffff || count == entries.len() ==> ziplist::ziplist_of(
            ziplist_bytes(entries, tail, count),
        ) == Some(entry_texts(entries)),
        count != 0xffff && count != entries.len() ==> ziplist::ziplist_of(
            ziplist_bytes(entries, tail, count),
        ) is None,
{
    let body = bytes::concat_all(entry_encoder(), entries);
    let total = (body.len() + 11) as nat;
    let a = bytes::le_bytes(total, 4);
    let c = bytes::le_bytes(count, 2);
    let z = seq![0xFFu8];
    let data = ziplist_bytes(entries, tail, count);
    bytes::lemma_pow256_values();
    bytes::lemma_le_bytes_len(total, 4);
    bytes::lemma_le_bytes_len(count, 2);
    bytes::lemma_has_at_whole(data);
    bytes::lemma_has_at_concat(data, 0, a + tail + c + body, z);
    bytes::lemma_has_at_concat(data, 0, a + tail + c, body);
    bytes::lemma_has_at_concat(data, 0, a + tail, c);
    bytes::lemma_has_at_concat(data, 0, a, tail);
    bytes::lemma_le_at(data, 0, total, 4);
    bytes::lemma_le_at(data, 8, count, 2);
    assert(data.last() == 0xFF);
    assert(entries.skip(0) =~= entries);
    assert(entries.take(0) =~= Seq::empty());
    assert(entry_texts(Seq::empty()) =~= Seq::empty());
    lemma_walk(entries, 0, data, 10, data.len() - 1);
}

/// A ziplist whose length or end mark is wrong is rejected.
pub proof fn law_wrong_ziplist_is_rejected(data: Seq<u8>)
    requires
        data.len() < 11 || bytes::le_at(data, 0, 4) != data.len() || data[data.len() - 1] != 0xFF,
    ensures
        ziplist::ziplist_of(data) is None,
{
}

// ---------------------------------------------------------------------------
// Zipmaps
// ---------------------------------------------------------------------------

/// The bytes are the length in one of its forms: one byte below 254, or a mark and four bytes.
pub open spec fn is_map_length(encoding: Seq<u8>, n: nat) -> bool {
    (n < 0xFE && encoding == seq![n as u8]) || (n <= u32::MAX && encoding == seq![0xFEu8]
        + bytes::le_bytes(n, 4))
}

/// A field of a zipmap with its value, and unused bytes behind the value.
pub struct MapPair {
    pub name_length: Seq<u8>,
    pub name: Seq<u8>,
    pub value_length: Seq<u8>,
    pub value: Seq<u8>,
    pub unused: Seq<u8>,
}

/// The lengths are right.
pub open spec fn pair_right(p: MapPair) -> bool {
    &&& is_map_length(p.name_length, p.name.len())
    &&& is_map_length(p.value_length, p.value.len())
    &&& p.unused.len() < 256
}

/// The bytes of a pair, as a function value.
pub open spec fn pair_encoder() -> spec_fn(MapPair) -> Seq<u8> {
    |p: MapPair|
        p.name_length + p.name + p.value_length + seq![p.unused.len() as u8] + p.value + p.unused
}

/// The names and values of pairs, one behind the other.
pub open spec fn pair_texts(pairs: Seq<MapPair>) -> Seq<Seq<u8>>
    decreases pairs.len(),
{
    if pairs.len() == 0 {
        Seq::empty()
    } else {
        pair_texts(pairs.drop_last()).push(pairs.last().name).push(pairs.last().value)
    }
}

/// A zipmap: a number of pairs, the pairs, and the end mark.
pub open spec fn zipmap_bytes(pairs: Seq<MapPair>, count: u8) -> Seq<u8> {
    seq![count] + bytes::concat_all(pair_encoder(), pairs) + seq![0xFFu8]
}

proof fn lemma_map_length(encoding: Seq<u8>, n: nat, data: Seq<u8>, pos: int, end: int)
    requires
        is_map_length(encoding, n),
        bytes::has_at(data, pos, encoding),
        pos + encoding.len() <= end <= data.len(),
    ensures
        ziplist::map_length_at(data, pos, end) == Some((n, pos + encoding.len())),
        encoding.len() > 0,
{
    bytes::lemma_pow256_values();
    bytes::lemma_le_bytes_len(n, 4);
    assert(data[pos + 0] == encoding[0]);
    if encoding != seq![n as u8] {
        bytes::lemma_has_at_concat(data, pos, seq![0xFEu8], bytes::le_bytes(n, 4));
        bytes::lemma_le_at(data, pos + 1, n, 4);
    }
}

proof fn lemma_map_pair(p: MapPair, data: Seq<u8>, pos: int, end: int)
    requires
        pair_right(p),
        bytes::has_at(data, pos, pair_encoder()(p)),
        pos + pair_encoder()(p).len() <= end <= data.len(),
    ensures
        ziplist::map_pair_at(data, pos, end) == Some(
            (p.name, p.value, pos + pair_encoder()(p).len()),
        ),
        pair_encoder()(p).len() > 0,
{
    let a = p.name_length;
    let b = a + p.name;
    let c = b + p.value_length;
    let m = seq![p.unused.len() as u8];
    let d = c + m;
    let e = d + p.value;
    bytes::lemma_has_at_concat(data, pos, e, p.unused);
    bytes::lemma_has_at_concat(data, pos, d, p.value);
    bytes::lemma_has_at_concat(data, pos, c, m);
    bytes::lemma_has_at_concat(data, pos, b, p.value_length);
    bytes::lemma_has_at_concat(data, pos, a, p.name);
    lemma_map_length(a, p.name.len(), data, pos, end);
    bytes::lemma_has_at_subrange(data, pos + a.len(), p.name);
    lemma_map_length(p.value_length, p.value.len(), data, pos + b.len(), end);
    assert(data[pos + c.len() + 0] == m[0]);
    bytes::lemma_has_at_subrange(data, pos + d.len(), p.value);
}

proof fn lemma_map_walk(
    pairs: Seq<MapPair>,
    k: int,
    data: Seq<u8>,
    pos: int,
    end: int,
)
    requires
        0 <= k <= pairs.len(),
        forall|i: int| 0 <= i < pairs.len() ==> pair_right(#[trigger] pairs[i]),
        end <= data.len(),
        bytes::has_at(data, pos, bytes::concat_all(pair_encoder(), pairs.skip(k))),
        pos + bytes::concat_all(pair_encoder(), pairs.skip(k)).len() == end,
    ensures
        ziplist::map_walk(data, pos, end, pair_texts(pairs.take(k))) == Some(pair_texts(pairs)),
    decreases pairs.len() - k,
{
    let e = pair_encoder();
    if k == pairs.len() {
        assert(pairs.skip(k) =~= Seq::empty());
        assert(pairs.take(k) =~= pairs);
    } else {
        let x = pairs[k];
        let rest = bytes::concat_all(e, pairs.skip(k + 1));
        assert(pair_right(x));
        bytes::lemma_concat_first(e, pairs, k);
        bytes::lemma_has_at_concat(data, pos, e(x), rest);
        lemma_map_pair(x, data, pos, end);
        lemma_map_walk(pairs, k + 1, data, pos + e(x).len(), end);
        assert(pairs.take(k + 1).drop_last() =~= pairs.take(k));
        assert(pairs.take(k + 1).last() == x);
    }
}

proof fn lemma_pair_texts(pairs: Seq<MapPair>)
    ensures
        pair_texts(pairs).len() == 2 * pairs.len(),
    decreases pairs.len(),
{
    if pairs.len() > 0 {
        lemma_pair_texts(pairs.drop_last());
    }
}

/// A zipmap is read as its names and values, where its number of pairs is right or is not
/// given, and is rejected otherwise.
pub proof fn law_zipmap_is_read(pairs: Seq<MapPair>, count: u8)
    requires
        forall|i: int| 0 <= i < pairs.len() ==> pair_right(#[trigger] pairs[i]),
    ensures
        count >= 254 || count == pairs.len() ==> ziplist::zipmap_of(zipmap_bytes(pairs, count))
            == Some(pair_texts(pairs)),
        count < 254 && count != pairs.len() ==> ziplist::zipmap_of(
            zipmap_bytes(pairs, count),
        ) is None,
{
    let body = bytes::concat_all(pair_encoder(), pairs);
    let data = zipmap_bytes(pairs, count);
    bytes::lemma_has_at_whole(data);
    bytes::lemma_has_at_concat(data, 0, seq![count] + body, seq![0xFFu8]);
    bytes::lemma_has_at_concat(data, 0, seq![count], body);
    assert(data.last() == 0xFF);
    assert(data[0] == count);
    assert(pairs.skip(0) =~= pairs);
    assert(pairs.take(0) =~= Seq::empty());
    lemma_map_walk(pairs, 0, data, 1, data.len() - 1);
    lemma_pair_texts(pairs);
}

/// A zipmap without its end mark is rejected.
pub proof fn law_wrong_zipmap_is_rejected(data: Seq<u8>)
    requires
        data.len() < 2 || data[data.len() - 1] != 0xFF,
    ensures
        ziplist::zipmap_of(data) is None,
{
}

} // verus!
