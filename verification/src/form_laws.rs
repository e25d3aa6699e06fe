//! What the value behind each type byte is read as, whoever wrote it.

use vstd::prelude::*;

use crate::bytes;
use crate::decimal;
use crate::intset;
use crate::listpack;
use crate::listpack::LpValue;
use crate::listpack_members;
use crate::pack_laws;
use crate::pack_laws::{PackEntry, PackValue};
use crate::rdb_types::{FieldView, ValueView};
use crate::rdb_values;
use crate::records;
use crate::records::Record;
use crate::score;
use crate::score::{RdbScore, ScoreView};
use crate::snapshot_items;
use crate::snapshot_items::{Number, Text};
use crate::value_laws;
use crate::zip_laws;
use crate::zip_laws::{MapPair, ZipEntry};

verus! {

// ---------------------------------------------------------------------------
// Values made of records
// ---------------------------------------------------------------------------

/// The number is read as the number of the items.
pub open spec fn counts(n: Number, items: nat) -> bool {
    snapshot_items::is_length(n.encoding, n.number) && n.number == items
}

/// The string is read from its encoding.
pub open spec fn text_right(t: Text) -> bool {
    snapshot_items::is_string(t.encoding, t.text)
}

/// The bytes of a string, as a function value.
pub open spec fn text_encoder() -> spec_fn(Text) -> Seq<u8> {
    |t: Text| t.encoding
}

proof fn lemma_counted<T: Record, Y>(
    n: Number,
    encode: spec_fn(Y) -> Seq<u8>,
    sources: Seq<Y>,
    items: Seq<T::Model>,
    data: Seq<u8>,
    pos: int,
)
    requires
        counts(n, sources.len()),
        sources.len() == items.len(),
        bytes::has_at(data, pos, n.encoding + bytes::concat_all(encode, sources)),
        forall|k: int, d: Seq<u8>, q: int|
            0 <= k < items.len() && #[trigger] bytes::has_at(d, q, encode(#[trigger] sources[k]))
                ==> T::at(d, q) == Some((items[k], q + encode(sources[k]).len())),
    ensures
        records::counted_at::<T>(data, pos) == Some(
            (items, pos + (n.encoding + bytes::concat_all(encode, sources)).len()),
        ),
{
    reveal(records::counted_at);
    bytes::lemma_has_at_concat(data, pos, n.encoding, bytes::concat_all(encode, sources));
    value_laws::lemma_repeat_reads(
        records::parser::<T>(),
        encode,
        sources,
        items,
        data,
        pos + n.encoding.len(),
    );
}

/// The strings of encoded strings.
pub open spec fn texts_of(items: Seq<Text>) -> Seq<Seq<u8>> {
    Seq::new(items.len(), |i: int| items[i].text)
}

/// Strings behind their number are a list under one type byte and a set under another, in the
/// order in which they stand.
pub proof fn law_list_and_set_are_read(n: Number, items: Seq<Text>)
    requires
        counts(n, items.len()),
        forall|i: int| 0 <= i < items.len() ==> text_right(#[trigger] items[i]),
    ensures
        snapshot_items::is_value(
            1,
            n.encoding + bytes::concat_all(text_encoder(), items),
            ValueView::List(texts_of(items)),
        ),
        snapshot_items::is_value(
            2,
            n.encoding + bytes::concat_all(text_encoder(), items),
            ValueView::SetHashtable(texts_of(items)),
        ),
{
    let encoding = n.encoding + bytes::concat_all(text_encoder(), items);
    let found = texts_of(items);
    assert forall|data: Seq<u8>, pos: int| #[trigger]
        bytes::has_at(data, pos, encoding) implies records::counted_at::<Vec<u8>>(data, pos)
        == Some((found, pos + encoding.len())) by {
        assert forall|k: int, d: Seq<u8>, q: int|
            0 <= k < found.len() && #[trigger] bytes::has_at(
                d,
                q,
                text_encoder()(#[trigger] items[k]),
            ) implies <Vec<u8> as Record>::at(d, q) == Some(
            (found[k], q + text_encoder()(items[k]).len()),
        ) by {
            assert(text_right(items[k]));
        }
        lemma_counted::<Vec<u8>, Text>(n, text_encoder(), items, found, data, pos);
    }
}

/// A name and a value, one behind the other, as a function value.
pub open spec fn pair_encoder() -> spec_fn((Text, Text)) -> Seq<u8> {
    |p: (Text, Text)| p.0.encoding + p.1.encoding
}

/// The fields of encoded fields.
pub open spec fn fields_of(fields: Seq<(Text, Text)>) -> Seq<FieldView> {
    Seq::new(fields.len(), |i: int| (fields[i].0.text, fields[i].1.text))
}

/// Names, each with its value behind it, behind the number of fields are a hash.
pub proof fn law_hash_is_read(n: Number, fields: Seq<(Text, Text)>)
    requires
        counts(n, fields.len()),
        forall|i: int|
            0 <= i < fields.len() ==> text_right((#[trigger] fields[i]).0) && text_right(
                fields[i].1,
            ),
    ensures
        snapshot_items::is_value(
            4,
            n.encoding + bytes::concat_all(pair_encoder(), fields),
            ValueView::Hash(fields_of(fields)),
        ),
{
    let encoding = n.encoding + bytes::concat_all(pair_encoder(), fields);
    let found = fields_of(fields);
    assert forall|data: Seq<u8>, pos: int| #[trigger]
        bytes::has_at(data, pos, encoding) implies records::counted_at::<(Vec<u8>, Vec<u8>)>(
        data,
        pos,
    ) == Some((found, pos + encoding.len())) by {
        assert forall|k: int, d: Seq<u8>, q: int|
            0 <= k < found.len() && #[trigger] bytes::has_at(
                d,
                q,
                pair_encoder()(#[trigger] fields[k]),
            ) implies <(Vec<u8>, Vec<u8>) as Record>::at(d, q) == Some(
            (found[k], q + pair_encoder()(fields[k]).len()),
        ) by {
            bytes::lemma_has_at_concat(d, q, fields[k].0.encoding, fields[k].1.encoding);
        }
        lemma_counted::<(Vec<u8>, Vec<u8>), (Text, Text)>(
            n,
            pair_encoder(),
            fields,
            found,
            data,
            pos,
        );
    }
}

/// A name, a value and a time of eight bytes, as a function value.
pub open spec fn timed_encoder() -> spec_fn((Text, Text, u64)) -> Seq<u8> {
    |f: (Text, Text, u64)| (f.0.encoding + f.1.encoding) + bytes::le_bytes(f.2 as nat, 8)
}

/// The fields of encoded fields with times; a time of all ones is none.
pub open spec fn timed_fields_of(fields: Seq<(Text, Text, u64)>) -> Seq<
    (Seq<u8>, Seq<u8>, Option<u64>),
> {
    Seq::new(
        fields.len(),
        |i: int|
            (
                fields[i].0.text,
                fields[i].1.text,
                if fields[i].2 == 0xffff_ffff_ffff_ffff {
                    None
                } else {
                    Some(fields[i].2)
                },
            ),
    )
}

/// Fields, each with its time behind it, are a hash whose fields expire on their own.
pub proof fn law_timed_hash_is_read(n: Number, fields: Seq<(Text, Text, u64)>)
    requires
        counts(n, fields.len()),
        forall|i: int|
            0 <= i < fields.len() ==> text_right((#[trigger] fields[i]).0) && text_right(
                fields[i].1,
            ),
    ensures
        snapshot_items::is_value(
            100,
            n.encoding + bytes::concat_all(timed_encoder(), fields),
            ValueView::HashWithTtls(timed_fields_of(fields)),
        ),
{
    let encoding = n.encoding + bytes::concat_all(timed_encoder(), fields);
    let found = timed_fields_of(fields);
    assert forall|data: Seq<u8>, pos: int| #[trigger]
        bytes::has_at(data, pos, encoding) implies records::counted_at::<
        (Vec<u8>, Vec<u8>, Option<u64>),
    >(data, pos) == Some((found, pos + encoding.len())) by {
        assert forall|k: int, d: Seq<u8>, q: int|
            0 <= k < found.len() && #[trigger] bytes::has_at(
                d,
                q,
                timed_encoder()(#[trigger] fields[k]),
            ) implies <(Vec<u8>, Vec<u8>, Option<u64>) as Record>::at(d, q) == Some(
            (found[k], q + timed_encoder()(fields[k]).len()),
        ) by {
            let f = fields[k];
            let a = f.0.encoding + f.1.encoding;
            let b = bytes::le_bytes(f.2 as nat, 8);
            bytes::lemma_has_at_concat(d, q, a, b);
            bytes::lemma_has_at_concat(d, q, f.0.encoding, f.1.encoding);
            records::lemma_number_reads(f.2, d, q + a.len());
        }
        lemma_counted::<(Vec<u8>, Vec<u8>, Option<u64>), (Text, Text, u64)>(
            n,
            timed_encoder(),
            fields,
            found,
            data,
            pos,
        );
    }
}

/// A name and the eight bytes of a double, as a function value.
pub open spec fn scored_encoder() -> spec_fn((Text, u64)) -> Seq<u8> {
    |m: (Text, u64)| m.0.encoding + bytes::le_bytes(m.1 as nat, 8)
}

/// The members of encoded members.
pub open spec fn scored_of(members: Seq<(Text, u64)>) -> Seq<(Seq<u8>, ScoreView)> {
    Seq::new(
        members.len(),
        |i: int|
            (
                members[i].0.text,
                ScoreView::Double { bits: members[i].1, text: Seq::<u8>::empty() },
            ),
    )
}

/// Names, each with the bits of a double behind it, are a sorted set with these scores.
pub proof fn law_sorted_set_is_read(n: Number, members: Seq<(Text, u64)>)
    requires
        counts(n, members.len()),
        forall|i: int| 0 <= i < members.len() ==> text_right((#[trigger] members[i]).0),
    ensures
        snapshot_items::is_value(
            5,
            n.encoding + bytes::concat_all(scored_encoder(), members),
            ValueView::SortedSet(scored_of(members)),
        ),
{
    let encoding = n.encoding + bytes::concat_all(scored_encoder(), members);
    let found = scored_of(members);
    assert forall|data: Seq<u8>, pos: int| #[trigger]
        bytes::has_at(data, pos, encoding) implies records::counted_at::<(Vec<u8>, RdbScore)>(
        data,
        pos,
    ) == Some((found, pos + encoding.len())) by {
        assert forall|k: int, d: Seq<u8>, q: int|
            0 <= k < found.len() && #[trigger] bytes::has_at(
                d,
                q,
                scored_encoder()(#[trigger] members[k]),
            ) implies <(Vec<u8>, RdbScore) as Record>::at(d, q) == Some(
            (found[k], q + scored_encoder()(members[k]).len()),
        ) by {
            let m = members[k];
            bytes::lemma_has_at_concat(d, q, m.0.encoding, bytes::le_bytes(m.1 as nat, 8));
            records::lemma_number_reads(m.1, d, q + m.0.encoding.len());
        }
        lemma_counted::<(Vec<u8>, RdbScore), (Text, u64)>(
            n,
            scored_encoder(),
            members,
            found,
            data,
            pos,
        );
    }
}

// ---------------------------------------------------------------------------
// Values inside a string
// ---------------------------------------------------------------------------

proof fn lemma_wrapped(tag: u8, t: Text)
    requires
        text_right(t),
        rdb_values::is_wrapped(tag),
    ensures
        rdb_values::wrapped_value(tag, t.text) matches Some(v) ==> snapshot_items::is_value(
            tag,
            t.encoding,
            v,
        ),
        rdb_values::wrapped_value(tag, t.text) is None ==> is_no_value(tag, t.encoding),
{
}

/// The bytes are refused under a type byte wherever they stand.
pub open spec fn is_no_value(tag: u8, encoding: Seq<u8>) -> bool {
    &&& rdb_values::is_type_byte(tag)
    &&& forall|data: Seq<u8>, pos: int| #[trigger]
        bytes::has_at(data, pos, encoding) ==> rdb_values::value_at(tag, data, pos) is None
}

/// A string stands for itself.
pub proof fn law_string_is_read(t: Text)
    requires
        text_right(t),
    ensures
        snapshot_items::is_value(0, t.encoding, ValueView::String(t.text)),
{
    lemma_wrapped(0, t);
}

/// The strings of the entries of a pack.
pub open spec fn pack_texts(entries: Seq<PackEntry>) -> Seq<Seq<u8>> {
    Seq::new(entries.len(), |i: int| pack_laws::value_text(entries[i].value))
}

/// The strings one behind the other are the names and the values of the fields.
pub open spec fn alternate(items: Seq<Seq<u8>>, fields: Seq<FieldView>) -> bool {
    &&& items.len() == 2 * fields.len()
    &&& forall|i: int|
        0 <= i < fields.len() ==> (#[trigger] fields[i]).0 == items[2 * i] && fields[i].1
            == items[2 * i + 1]
}

proof fn lemma_alternate(items: Seq<Seq<u8>>, fields: Seq<FieldView>)
    requires
        alternate(items, fields),
    ensures
        rdb_values::paired_up(items) == Some(fields),
{
    assert(rdb_values::paired_up(items)->Some_0 =~= fields);
}

/// A pack is a set of the strings of its entries, and a hash of them in pairs if their number is
/// even.
pub proof fn law_packed_set_and_hash_are_read(
    t: Text,
    entries: Seq<PackEntry>,
    count: nat,
    fields: Seq<FieldView>,
)
    requires
        text_right(t),
        t.text == pack_laws::pack_bytes(entries, count),
        pack_laws::entries_right(entries),
        t.text.len() <= u32::MAX,
        count == 0xffff || (count == entries.len() && count < 0xffff),
    ensures
        snapshot_items::is_value(20, t.encoding, ValueView::MemberSet(pack_texts(entries))),
        alternate(pack_texts(entries), fields) ==> snapshot_items::is_value(
            16,
            t.encoding,
            ValueView::Hash(fields),
        ),
        entries.len() % 2 == 1 ==> is_no_value(16, t.encoding),
{
    pack_laws::law_pack_is_read(entries, count);
    assert(entries.map_values(|e: PackEntry| pack_laws::value_text(e.value)) =~= pack_texts(
        entries,
    ));
    lemma_wrapped(20, t);
    lemma_wrapped(16, t);
    if alternate(pack_texts(entries), fields) {
        lemma_alternate(pack_texts(entries), fields);
    }
}

/// The score that an entry of a pack stands for.
pub open spec fn entry_score(v: PackValue) -> ScoreView {
    match v {
        PackValue::Integer(n) => ScoreView::Integer(n),
        PackValue::Text(s) => ScoreView::Decimal(s),
    }
}

/// The entry is a number.
pub open spec fn is_score(v: PackValue) -> bool {
    v matches PackValue::Text(s) ==> score::is_double_text(s)
}

/// The entries one behind the other are the names and the scores of the members.
pub open spec fn name_members(
    entries: Seq<PackEntry>,
    members: Seq<(Seq<u8>, ScoreView)>,
) -> bool {
    &&& entries.len() == 2 * members.len()
    &&& forall|i: int|
        0 <= i < members.len() ==> (#[trigger] members[i]).0 == pack_laws::value_text(
            entries[2 * i].value,
        ) && members[i].1 == entry_score(entries[2 * i + 1].value) && is_score(
            entries[2 * i + 1].value,
        )
}

proof fn lemma_score_read(data: Seq<u8>, found: LpValue, v: PackValue)
    requires
        pack_laws::is_read_value(data, found, v),
    ensures
        listpack_members::score_view(data, found) == entry_score(v),
        listpack_members::score_error(data, found, false) is None <==> is_score(v),
        listpack::value_bytes(data, found) == pack_laws::value_text(v),
{
}

proof fn lemma_members_read(
    data: Seq<u8>,
    found: Seq<LpValue>,
    entries: Seq<PackEntry>,
    members: Seq<(Seq<u8>, ScoreView)>,
)
    requires
        listpack::values_of(data) == Ok::<Seq<LpValue>, listpack::ListpackError>(found),
        pack_laws::are_read_values(data, found, entries),
        name_members(entries, members),
    ensures
        rdb_values::pack_members(data) == Some(members),
{
    assert forall|k: int| 0 <= k < found.len() / 2 implies listpack_members::score_error(
        data,
        #[trigger] found[2 * k + 1],
        false,
    ) is None by {
        assert(is_score(entries[2 * k + 1].value)) by {
            assert(members[k].1 == entry_score(entries[2 * k + 1].value));
        }
        lemma_score_read(data, found[2 * k + 1], entries[2 * k + 1].value);
    }
    let all = rdb_values::pack_members(data)->Some_0;
    assert forall|k: int| 0 <= k < members.len() implies all[k] == members[k] by {
        assert(members[k].1 == entry_score(entries[2 * k + 1].value));
        lemma_score_read(data, found[2 * k + 1], entries[2 * k + 1].value);
        lemma_score_read(data, found[2 * k], entries[2 * k].value);
    }
    assert(all =~= members);
}

/// A pack of names and scores is a sorted set. An odd number of entries, or text that is no
/// number where a score stands, is refused.
pub proof fn law_packed_sorted_set_is_read(
    t: Text,
    entries: Seq<PackEntry>,
    count: nat,
    members: Seq<(Seq<u8>, ScoreView)>,
    k: int,
)
    requires
        text_right(t),
        t.text == pack_laws::pack_bytes(entries, count),
        pack_laws::entries_right(entries),
        t.text.len() <= u32::MAX,
        count == 0xffff || (count == entries.len() && count < 0xffff),
    ensures
        name_members(entries, members) ==> snapshot_items::is_value(
            17,
            t.encoding,
            ValueView::SortedSet(members),
        ),
        entries.len() % 2 == 1 ==> is_no_value(17, t.encoding),
        0 <= 2 * k + 1 < entries.len() && !is_score(entries[2 * k + 1].value) ==> is_no_value(
            17,
            t.encoding,
        ),
{
    pack_laws::law_pack_is_read(entries, count);
    lemma_wrapped(17, t);
    let data = t.text;
    let found = listpack::values_of(data)->Ok_0;
    if name_members(entries, members) {
        lemma_members_read(data, found, entries, members);
    }
    if 0 <= 2 * k + 1 < entries.len() && !is_score(entries[2 * k + 1].value) {
        lemma_score_read(data, found[2 * k + 1], entries[2 * k + 1].value);
        assert(listpack_members::score_error(data, found[2 * k + 1], false) is Some);
        assert(2 * k + 1 < found.len());
        assert(found.len() % 2 != 0 || k < found.len() / 2);
    }
}

/// The names and the scores as text.
pub open spec fn text_members(items: Seq<Seq<u8>>, members: Seq<(Seq<u8>, ScoreView)>) -> bool {
    &&& items.len() == 2 * members.len()
    &&& forall|i: int|
        0 <= i < members.len() ==> (#[trigger] members[i]).0 == items[2 * i] && members[i].1
            == ScoreView::Decimal(items[2 * i + 1]) && score::is_double_text(items[2 * i + 1])
}

proof fn lemma_text_members(items: Seq<Seq<u8>>, members: Seq<(Seq<u8>, ScoreView)>)
    requires
        text_members(items, members),
    ensures
        rdb_values::paired_zset(Some(items)) == Some(ValueView::SortedSet(members)),
{
    let pairs = rdb_values::paired_up(items)->Some_0;
    assert forall|i: int| 0 <= i < pairs.len() implies score::is_double_text(
        (#[trigger] pairs[i]).1,
    ) by {
        assert(members[i].0 == items[2 * i]);
    }
    assert(rdb_values::text_scores(pairs)->Some_0 =~= members);
}

/// A ziplist is a list of the strings of its entries. In pairs they are a hash, or a sorted set
/// where every score is a number; an odd number of them is neither.
pub proof fn law_ziplist_values_are_read(
    t: Text,
    entries: Seq<ZipEntry>,
    tail: Seq<u8>,
    count: nat,
    fields: Seq<FieldView>,
    members: Seq<(Seq<u8>, ScoreView)>,
)
    requires
        text_right(t),
        t.text == zip_laws::ziplist_bytes(entries, tail, count),
        forall|i: int| 0 <= i < entries.len() ==> zip_laws::entry_right(#[trigger] entries[i]),
        tail.len() == 4,
        t.text.len() <= u32::MAX,
        count == 0xffff || (count == entries.len() && count < 0xffff),
    ensures
        snapshot_items::is_value(
            10,
            t.encoding,
            ValueView::List(zip_laws::entry_texts(entries)),
        ),
        alternate(zip_laws::entry_texts(entries), fields) ==> snapshot_items::is_value(
            13,
            t.encoding,
            ValueView::Hash(fields),
        ),
        text_members(zip_laws::entry_texts(entries), members) ==> snapshot_items::is_value(
            12,
            t.encoding,
            ValueView::SortedSet(members),
        ),
        entries.len() % 2 == 1 ==> is_no_value(13, t.encoding) && is_no_value(12, t.encoding),
{
    zip_laws::law_ziplist_is_read(entries, tail, count);
    lemma_wrapped(10, t);
    lemma_wrapped(13, t);
    lemma_wrapped(12, t);
    let items = zip_laws::entry_texts(entries);
    if alternate(items, fields) {
        lemma_alternate(items, fields);
    }
    if text_members(items, members) {
        lemma_text_members(items, members);
    }
    assert(items.len() == entries.len());
}

/// A zipmap is a hash of its pairs.
pub proof fn law_zipmap_hash_is_read(
    t: Text,
    pairs: Seq<MapPair>,
    count: u8,
    fields: Seq<FieldView>,
)
    requires
        text_right(t),
        t.text == zip_laws::zipmap_bytes(pairs, count),
        forall|i: int| 0 <= i < pairs.len() ==> zip_laws::pair_right(#[trigger] pairs[i]),
        count >= 254 || count == pairs.len(),
        alternate(zip_laws::pair_texts(pairs), fields),
    ensures
        snapshot_items::is_value(9, t.encoding, ValueView::Hash(fields)),
{
    zip_laws::law_zipmap_is_read(pairs, count);
    lemma_wrapped(9, t);
    lemma_alternate(zip_laws::pair_texts(pairs), fields);
}

// ---------------------------------------------------------------------------
// Sets of integers
// ---------------------------------------------------------------------------

/// An integer in two's complement, the lowest byte first.
pub open spec fn integer_encoder(width: nat) -> spec_fn(int) -> Seq<u8> {
    |v: int|
        bytes::le_bytes(
            (if v < 0 {
                v + bytes::pow256(width)
            } else {
                v
            }) as nat,
            width,
        )
}

/// The decimal texts of integers.
pub open spec fn integer_texts(values: Seq<int>) -> Seq<Seq<u8>> {
    Seq::new(values.len(), |i: int| decimal::dec_int(values[i]))
}

/// The width of the integers, their number and the integers themselves, in any order, are a set
/// of their decimal texts in that order.
pub proof fn law_integer_set_is_read(t: Text, width: nat, values: Seq<int>)
    requires
        text_right(t),
        width == 2 || width == 4 || width == 8,
        values.len() <= u32::MAX,
        forall|i: int|
            0 <= i < values.len() ==> -bytes::pow256(width) <= 2 * #[trigger] values[i] && 2
                * values[i] < bytes::pow256(width),
        t.text == bytes::le_bytes(width, 4) + bytes::le_bytes(values.len(), 4) + bytes::concat_all(
            integer_encoder(width),
            values,
        ),
    ensures
        snapshot_items::is_value(11, t.encoding, ValueView::MemberSet(integer_texts(values))),
{
    let data = t.text;
    let a = bytes::le_bytes(width, 4);
    let b = bytes::le_bytes(values.len(), 4);
    let e = intset::value_encoder(width);
    bytes::lemma_pow256_values();
    assert forall|v: int| #[trigger] integer_encoder(width)(v) == e(v) by {}
    assert(integer_encoder(width) =~= e);
    let c = bytes::concat_all(e, values);
    bytes::lemma_le_bytes_len(width, 4);
    bytes::lemma_le_bytes_len(values.len(), 4);
    bytes::lemma_has_at_whole(data);
    bytes::lemma_has_at_concat(data, 0, a + b, c);
    bytes::lemma_has_at_concat(data, 0, a, b);
    bytes::lemma_le_at(data, 0, width, 4);
    bytes::lemma_le_at(data, 4, values.len(), 4);
    intset::lemma_concat_len(width, values);
    let found = intset::intset_values(data)->Some_0;
    assert forall|k: int| 0 <= k < values.len() implies found[k] == values[k] by {
        intset::lemma_concat_at(width, values, data, 8, k);
        bytes::lemma_le_at(data, 8 + k * width, bytes::unsigned(values[k], width), width);
        bytes::lemma_signed_unsigned(values[k], width);
    }
    assert(found =~= values);
    assert(intset::texts(values) =~= integer_texts(values));
    lemma_wrapped(11, t);
}

/// A set of integers of any other width, or whose length is not that of its header and its
/// integers, is refused.
pub proof fn law_wrong_integer_set_is_refused(t: Text, width: nat, n: nat)
    requires
        text_right(t),
        t.text.len() < 8 || (bytes::has_at(t.text, 0, bytes::le_bytes(width, 4)) && bytes::has_at(
            t.text,
            4,
            bytes::le_bytes(n, 4),
        ) && width <= u32::MAX && n <= u32::MAX && !((width == 2 || width == 4 || width == 8)
            && t.text.len() == 8 + n * width)),
    ensures
        is_no_value(11, t.encoding),
{
    bytes::lemma_pow256_values();
    if t.text.len() >= 8 {
        bytes::lemma_le_at(t.text, 0, width, 4);
        bytes::lemma_le_at(t.text, 4, n, 4);
    }
    lemma_wrapped(11, t);
}

// ---------------------------------------------------------------------------
// Lists in nodes
// ---------------------------------------------------------------------------

/// A node of a list: one item, or a pack of items. `kind` is the number in front of it.
pub struct ListPart {
    pub kind: Number,
    pub content: Text,
    pub items: Seq<Seq<u8>>,
}

/// The node holds its items: the string is the only one under 1, and a pack of them under 2.
pub open spec fn part_right(p: ListPart) -> bool {
    &&& snapshot_items::is_length(p.kind.encoding, p.kind.number)
    &&& text_right(p.content)
    &&& {
        ||| p.kind.number == 1 && p.items == seq![p.content.text]
        ||| p.kind.number == 2 && exists|entries: Seq<PackEntry>, count: nat| #[trigger]
            holds_pack(p, entries, count)
    }
}

/// The node is the pack of the entries.
pub open spec fn holds_pack(p: ListPart, entries: Seq<PackEntry>, count: nat) -> bool {
    &&& p.content.text == pack_laws::pack_bytes(entries, count)
    &&& pack_laws::entries_right(entries)
    &&& p.content.text.len() <= u32::MAX
    &&& count == 0xffff || (count == entries.len() && count < 0xffff)
    &&& p.items == pack_texts(entries)
}

/// The bytes of a node, as a function value.
pub open spec fn part_encoder() -> spec_fn(ListPart) -> Seq<u8> {
    |p: ListPart| p.kind.encoding + p.content.encoding
}

/// The items of each node.
pub open spec fn parts_items(parts: Seq<ListPart>) -> Seq<Seq<Seq<u8>>> {
    Seq::new(parts.len(), |i: int| parts[i].items)
}

proof fn lemma_joined(nodes: Seq<Seq<Seq<u8>>>)
    ensures
        rdb_values::joined(nodes) == nodes.flatten(),
    decreases nodes.len(),
{
    nodes.lemma_flatten_and_flatten_alt_are_equivalent();
    if nodes.len() > 0 {
        lemma_joined(nodes.drop_last());
        nodes.drop_last().lemma_flatten_and_flatten_alt_are_equivalent();
    }
}

proof fn lemma_part_reads(p: ListPart, data: Seq<u8>, pos: int)
    requires
        part_right(p),
        bytes::has_at(data, pos, p.kind.encoding + p.content.encoding),
    ensures
        rdb_values::list_node_at(data, pos) == Some(
            (p.items, pos + (p.kind.encoding + p.content.encoding).len()),
        ),
{
    bytes::lemma_has_at_concat(data, pos, p.kind.encoding, p.content.encoding);
    if p.kind.number == 2 {
        let (entries, count) = choose|entries: Seq<PackEntry>, count: nat| #[trigger]
            holds_pack(p, entries, count);
        pack_laws::law_pack_is_read(entries, count);
        assert(entries.map_values(|e: PackEntry| pack_laws::value_text(e.value)) =~= pack_texts(
            entries,
        ));
    }
}

/// Nodes behind their number are the list of their items, one node behind the other.
pub proof fn law_list_in_nodes_is_read(n: Number, parts: Seq<ListPart>)
    requires
        counts(n, parts.len()),
        forall|i: int| 0 <= i < parts.len() ==> part_right(#[trigger] parts[i]),
    ensures
        snapshot_items::is_value(
            18,
            n.encoding + bytes::concat_all(part_encoder(), parts),
            ValueView::List(parts_items(parts).flatten()),
        ),
{
    let body = bytes::concat_all(part_encoder(), parts);
    let found = parts_items(parts);
    lemma_joined(found);
    assert forall|data: Seq<u8>, pos: int| #[trigger]
        bytes::has_at(data, pos, n.encoding + body) implies rdb_values::node_list_at(
        data,
        pos,
        false,
    ) == Some((found.flatten(), pos + (n.encoding + body).len())) by {
        bytes::lemma_has_at_concat(data, pos, n.encoding, body);
        assert forall|k: int, d: Seq<u8>, q: int|
            0 <= k < found.len() && #[trigger] bytes::has_at(
                d,
                q,
                part_encoder()(#[trigger] parts[k]),
            ) implies rdb_values::list_node_parser(false)(d, q) == Some(
            (found[k], q + part_encoder()(parts[k]).len()),
        ) by {
            lemma_part_reads(parts[k], d, q);
        }
        value_laws::lemma_repeat_reads(
            rdb_values::list_node_parser(false),
            part_encoder(),
            parts,
            found,
            data,
            pos + n.encoding.len(),
        );
    }
}

/// A node that says neither that it is one item nor that it is a pack is refused.
pub proof fn law_other_nodes_are_rejected(n: Number, kind: Number)
    requires
        snapshot_items::is_length(n.encoding, n.number),
        snapshot_items::is_length(kind.encoding, kind.number),
        n.number > 0,
        kind.number != 1,
        kind.number != 2,
    ensures
        is_no_value(18, n.encoding + kind.encoding),
{
    assert forall|data: Seq<u8>, pos: int| #[trigger]
        bytes::has_at(data, pos, n.encoding + kind.encoding) implies rdb_values::node_list_at(
        data,
        pos,
        false,
    ) is None by {
        bytes::lemma_has_at_concat(data, pos, n.encoding, kind.encoding);
        lemma_first_refused(
            rdb_values::list_node_parser(false),
            data,
            pos + n.encoding.len(),
            n.number,
        );
    }
}

proof fn lemma_first_refused<X>(parse: bytes::Parser<X>, data: Seq<u8>, pos: int, n: nat)
    requires
        n > 0,
        parse(data, pos) is None,
    ensures
        bytes::parse_repeat(parse, data, pos, n) is None,
    decreases n,
{
    if n > 1 {
        lemma_first_refused(parse, data, pos, (n - 1) as nat);
    } else {
        assert(bytes::parse_repeat(parse, data, pos, 0) == Some((Seq::<X>::empty(), pos)));
    }
}

/// A ziplist of items as a node.
pub struct OldPart {
    pub content: Text,
    pub entries: Seq<ZipEntry>,
    pub tail: Seq<u8>,
    pub count: nat,
}

/// The node is the ziplist of its entries.
pub open spec fn old_part_right(p: OldPart) -> bool {
    &&& text_right(p.content)
    &&& p.content.text == zip_laws::ziplist_bytes(p.entries, p.tail, p.count)
    &&& forall|i: int| 0 <= i < p.entries.len() ==> zip_laws::entry_right(#[trigger] p.entries[i])
    &&& p.tail.len() == 4
    &&& p.content.text.len() <= u32::MAX
    &&& p.count == 0xffff || (p.count == p.entries.len() && p.count < 0xffff)
}

/// The bytes of a node in its older form, as a function value.
pub open spec fn old_part_encoder() -> spec_fn(OldPart) -> Seq<u8> {
    |p: OldPart| p.content.encoding
}

/// The items of each node.
pub open spec fn old_parts_items(parts: Seq<OldPart>) -> Seq<Seq<Seq<u8>>> {
    Seq::new(parts.len(), |i: int| zip_laws::entry_texts(parts[i].entries))
}

/// Ziplists behind their number are the list of their items, one behind the other.
pub proof fn law_list_in_old_nodes_is_read(n: Number, parts: Seq<OldPart>)
    requires
        counts(n, parts.len()),
        forall|i: int| 0 <= i < parts.len() ==> old_part_right(#[trigger] parts[i]),
    ensures
        snapshot_items::is_value(
            14,
            n.encoding + bytes::concat_all(old_part_encoder(), parts),
            ValueView::List(old_parts_items(parts).flatten()),
        ),
{
    let body = bytes::concat_all(old_part_encoder(), parts);
    let found = old_parts_items(parts);
    lemma_joined(found);
    assert forall|data: Seq<u8>, pos: int| #[trigger]
        bytes::has_at(data, pos, n.encoding + body) implies rdb_values::node_list_at(
        data,
        pos,
        true,
    ) == Some((found.flatten(), pos + (n.encoding + body).len())) by {
        bytes::lemma_has_at_concat(data, pos, n.encoding, body);
        assert forall|k: int, d: Seq<u8>, q: int|
            0 <= k < found.len() && #[trigger] bytes::has_at(
                d,
                q,
                old_part_encoder()(#[trigger] parts[k]),
            ) implies rdb_values::list_node_parser(true)(d, q) == Some(
            (found[k], q + old_part_encoder()(parts[k]).len()),
        ) by {
            let p = parts[k];
            zip_laws::law_ziplist_is_read(p.entries, p.tail, p.count);
        }
        value_laws::lemma_repeat_reads(
            rdb_values::list_node_parser(true),
            old_part_encoder(),
            parts,
            found,
            data,
            pos + n.encoding.len(),
        );
    }
}

// ---------------------------------------------------------------------------
// Sorted sets with scores as text
// ---------------------------------------------------------------------------

/// A score of the older form: a byte for what no digits tell, or text with blanks around it.
pub enum OldScore {
    MinusInfinity,
    Infinity,
    NotANumber,
    Digits { before: Seq<Seq<u8>>, text: Seq<u8>, after: Seq<Seq<u8>> },
}

/// The character is a blank: one of those of ASCII, the next line, a space that does not break,
/// the mark of Ogham, one of the spaces and separators of general punctuation, or the ideographic
/// space.
pub open spec fn is_blank(c: Seq<u8>) -> bool {
    ||| c.len() == 1 && (9 <= c[0] <= 13 || c[0] == 32)
    ||| c.len() == 2 && c[0] == 0xC2 && (c[1] == 0x85 || c[1] == 0xA0)
    ||| c.len() == 3 && c[0] == 0xE1 && c[1] == 0x9A && c[2] == 0x80
    ||| c.len() == 3 && c[0] == 0xE2 && c[1] == 0x80 && (0x80 <= c[2] <= 0x8A || c[2] == 0xA8 || c[2]
        == 0xA9 || c[2] == 0xAF)
    ||| c.len() == 3 && c[0] == 0xE2 && c[1] == 0x81 && c[2] == 0x9F
    ||| c.len() == 3 && c[0] == 0xE3 && c[1] == 0x80 && c[2] == 0x80
}

/// All characters are blanks.
pub open spec fn all_blank(chars: Seq<Seq<u8>>) -> bool {
    forall|i: int| 0 <= i < chars.len() ==> is_blank(#[trigger] chars[i])
}

/// The bytes of characters.
pub open spec fn run(chars: Seq<Seq<u8>>) -> Seq<u8> {
    bytes::concat_all(|c: Seq<u8>| c, chars)
}

/// The bytes of a score of the older form.
pub open spec fn old_score_bytes(s: OldScore) -> Seq<u8> {
    match s {
        OldScore::MinusInfinity => seq![255u8],
        OldScore::Infinity => seq![254u8],
        OldScore::NotANumber => seq![253u8],
        OldScore::Digits { before, text, after } => seq![
            (run(before) + text + run(after)).len() as u8,
        ] + (run(before) + text + run(after)),
    }
}

/// The score fits behind a byte, and its text is a number without blanks at its ends.
pub open spec fn old_score_right(s: OldScore) -> bool {
    s matches OldScore::Digits { before, text, after } ==> {
        &&& (run(before) + text + run(after)).len() <= 252
        &&& all_blank(before)
        &&& all_blank(after)
        &&& text.len() > 0
        &&& 32 < text[0] < 127
        &&& 32 < text.last() < 127
        &&& score::is_double_text(text)
    }
}

/// The score that the older form stands for.
pub open spec fn old_score_value(s: OldScore) -> ScoreView {
    match s {
        OldScore::MinusInfinity => ScoreView::Double {
            bits: 0xfff0_0000_0000_0000,
            text: Seq::empty(),
        },
        OldScore::Infinity => ScoreView::Double { bits: 0x7ff0_0000_0000_0000, text: Seq::empty() },
        OldScore::NotANumber => ScoreView::Double {
            bits: 0x7ff8_0000_0000_0000,
            text: Seq::empty(),
        },
        OldScore::Digits { before, text, after } => ScoreView::Decimal(text),
    }
}

proof fn lemma_start_trimmed(before: Seq<Seq<u8>>, rest: Seq<u8>)
    requires
        all_blank(before),
        rest.len() > 0,
        32 < rest[0] < 127,
    ensures
        rdb_values::trimmed_start(run(before) + rest) == rest,
    decreases before.len(),
{
    let s = run(before) + rest;
    if before.len() > 0 {
        let c = before[0];
        let less = before.skip(1);
        assert(before.skip(0) =~= before);
        bytes::lemma_concat_first(|c: Seq<u8>| c, before, 0);
        assert(is_blank(c));
        assert(s =~= c + (run(less) + rest));
        assert forall|i: int| 0 <= i < less.len() implies is_blank(#[trigger] less[i]) by {
            assert(less[i] == before[i + 1]);
        }
        assert(s[0] == c[0]);
        assert(c.len() > 1 ==> s[1] == c[1]);
        assert(c.len() > 2 ==> s[2] == c[2]);
        assert(rdb_values::leading_space(s) == c.len());
        assert(s.skip(c.len() as int) =~= run(less) + rest);
        lemma_start_trimmed(less, rest);
    } else {
        assert(s =~= rest);
        assert(rdb_values::leading_space(s) == 0);
    }
}

proof fn lemma_end_trimmed(rest: Seq<u8>, after: Seq<Seq<u8>>)
    requires
        all_blank(after),
        rest.len() > 0,
        32 < rest.last() < 127,
    ensures
        rdb_values::trimmed_end(rest + run(after)) == rest,
    decreases after.len(),
{
    let s = rest + run(after);
    if after.len() > 0 {
        let c = after.last();
        let less = after.drop_last();
        let n = s.len() as int;
        assert(is_blank(after[after.len() - 1]));
        assert(s =~= (rest + run(less)) + c);
        assert(s[n - 1] == c[c.len() - 1]);
        assert(c.len() > 1 ==> s[n - 2] == c[c.len() - 2]);
        assert(c.len() > 2 ==> s[n - 3] == c[c.len() - 3]);
        assert(rdb_values::trailing_space(s) == c.len());
        assert(s.take(n - c.len()) =~= rest + run(less));
        lemma_end_trimmed(rest, less);
    } else {
        assert(s =~= rest);
        assert(rdb_values::trailing_space(s) == 0);
    }
}

proof fn lemma_old_score(s: OldScore, data: Seq<u8>, pos: int)
    requires
        old_score_right(s),
        bytes::has_at(data, pos, old_score_bytes(s)),
    ensures
        rdb_values::legacy_score_at(data, pos) == Some(
            (old_score_value(s), pos + old_score_bytes(s).len()),
        ),
{
    let b = old_score_bytes(s);
    assert(data[pos + 0] == b[0]);
    if let OldScore::Digits { before, text, after } = s {
        let rest = run(before) + text + run(after);
        bytes::lemma_has_at_concat(data, pos, seq![b[0]], rest);
        assert(b =~= seq![b[0]] + rest);
        bytes::lemma_has_at_subrange(data, pos + 1, rest);
        assert(rest =~= run(before) + (text + run(after)));
        assert((text + run(after))[0] == text[0]);
        lemma_start_trimmed(before, text + run(after));
        lemma_end_trimmed(text, after);
    }
}

/// A name and a score of the older form, as a function value.
pub open spec fn old_member_encoder() -> spec_fn((Text, OldScore)) -> Seq<u8> {
    |m: (Text, OldScore)| m.0.encoding + old_score_bytes(m.1)
}

/// The members of encoded members.
pub open spec fn old_members_of(members: Seq<(Text, OldScore)>) -> Seq<(Seq<u8>, ScoreView)> {
    Seq::new(members.len(), |i: int| (members[i].0.text, old_score_value(members[i].1)))
}

/// Names, each with a score of the older form behind it, are a sorted set with these scores.
pub proof fn law_old_sorted_set_is_read(n: Number, members: Seq<(Text, OldScore)>)
    requires
        counts(n, members.len()),
        forall|i: int|
            0 <= i < members.len() ==> text_right((#[trigger] members[i]).0) && old_score_right(
                members[i].1,
            ),
    ensures
        snapshot_items::is_value(
            3,
            n.encoding + bytes::concat_all(old_member_encoder(), members),
            ValueView::SortedSet(old_members_of(members)),
        ),
{
    let body = bytes::concat_all(old_member_encoder(), members);
    let found = old_members_of(members);
    assert forall|data: Seq<u8>, pos: int| #[trigger]
        bytes::has_at(data, pos, n.encoding + body) implies rdb_values::legacy_zset_at(data, pos)
        == Some((found, pos + (n.encoding + body).len())) by {
        bytes::lemma_has_at_concat(data, pos, n.encoding, body);
        assert forall|k: int, d: Seq<u8>, q: int|
            0 <= k < found.len() && #[trigger] bytes::has_at(
                d,
                q,
                old_member_encoder()(#[trigger] members[k]),
            ) implies rdb_values::legacy_member_parser()(d, q) == Some(
            (found[k], q + old_member_encoder()(members[k]).len()),
        ) by {
            let m = members[k];
            bytes::lemma_has_at_concat(d, q, m.0.encoding, old_score_bytes(m.1));
            lemma_old_score(m.1, d, q + m.0.encoding.len());
        }
        value_laws::lemma_repeat_reads(
            rdb_values::legacy_member_parser(),
            old_member_encoder(),
            members,
            found,
            data,
            pos + n.encoding.len(),
        );
    }
}

} // verus!
