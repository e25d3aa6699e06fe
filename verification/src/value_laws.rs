//! What the values of a snapshot are read back as.

use vstd::prelude::*;

use crate::bytes;
use crate::decimal;
use crate::intset;
use crate::listpack;
use crate::listpack::LpValue;
use crate::listpack_encode;
use crate::listpack_members;
use crate::order;
use crate::rdb_compact;
use crate::rdb_compact::{CompactRdbThresholds, ListNode};
use crate::rdb_save;
use crate::rdb_stream;
use crate::rdb_stream::UpstreamStreamError;
use crate::rdb_types::{FieldView, StreamView, ValueView};
use crate::rdb_values;
use crate::rdb_wire;
use crate::records;
use crate::score;
use crate::score::{RdbScore, ScoreView};
use crate::stream_encode;
use crate::stream_laws;
use crate::stream_local;
use crate::stream_private;

verus! {

// ---------------------------------------------------------------------------
// Packs
// ---------------------------------------------------------------------------

proof fn lemma_pack_strings(items: Seq<Seq<u8>>)
    ensures
        listpack_encode::pack_of(items) matches Some(pack) ==> rdb_values::pack_strings(pack)
            == Some(items),
{
    listpack_encode::law_pack_round_trip(items);
    if let Some(pack) = listpack_encode::pack_of(items) {
        let values = listpack::values_of(pack)->Ok_0;
        assert(values.map_values(|v: LpValue| listpack::value_bytes(pack, v)) =~= items);
    }
}

// ---------------------------------------------------------------------------
// Lists
// ---------------------------------------------------------------------------

/// The items of a node of a list.
pub open spec fn node_contents(node: ListNode) -> Seq<Seq<u8>> {
    match node {
        ListNode::Plain(item) => seq![item],
        ListNode::Packed(items) => items,
    }
}

/// The items of nodes.
pub open spec fn all_contents(nodes: Seq<ListNode>) -> Seq<Seq<Seq<u8>>> {
    nodes.map_values(|node: ListNode| node_contents(node))
}

proof fn lemma_contents_push(nodes: Seq<ListNode>, node: ListNode)
    ensures
        rdb_values::joined(all_contents(nodes.push(node))) == rdb_values::joined(
            all_contents(nodes),
        ) + node_contents(node),
{
    let all = all_contents(nodes.push(node));
    assert(all.drop_last() =~= all_contents(nodes));
    assert(all.last() == node_contents(node));
}

proof fn lemma_split_closed(s: rdb_compact::ListSplit)
    ensures
        rdb_values::joined(all_contents(rdb_compact::split_closed(s).nodes)) == rdb_values::joined(
            all_contents(s.nodes),
        ) + s.items,
{
    if s.items.len() == 0 {
        let joined = rdb_values::joined(all_contents(s.nodes));
        assert(joined + s.items =~= joined);
    } else {
        lemma_contents_push(s.nodes, ListNode::Packed(s.items));
    }
}

proof fn lemma_split_holds(items: Seq<Seq<u8>>, k: nat, budget: nat)
    requires
        k <= items.len(),
    ensures
        ({
            let s = rdb_compact::split_upto(items, k, budget);
            rdb_values::joined(all_contents(s.nodes)) + s.items == items.take(k as int)
        }),
    decreases k,
{
    let s = rdb_compact::split_upto(items, k, budget);
    if k == 0 {
        assert(all_contents(s.nodes) =~= Seq::empty());
        assert(rdb_values::joined(all_contents(s.nodes)) + s.items =~= items.take(0));
    } else {
        let before = rdb_compact::split_upto(items, (k - 1) as nat, budget);
        let item = items[k - 1];
        lemma_split_holds(items, (k - 1) as nat, budget);
        lemma_split_closed(before);
        assert(items.take(k as int) =~= items.take(k - 1).push(item));
        let closed = rdb_compact::split_closed(before);
        if item.len() >= rdb_compact::QUICKLIST_PACKED_THRESHOLD {
            lemma_contents_push(closed.nodes, ListNode::Plain(item));
            assert(items.take(k - 1) + seq![item] =~= items.take(k as int));
        }
        let joined = rdb_values::joined(all_contents(s.nodes));
        assert(joined + s.items =~= items.take(k as int));
    }
}

/// The nodes of a list hold its items, in order.
pub proof fn law_list_nodes_hold_items(items: Seq<Seq<u8>>, budget: nat)
    ensures
        rdb_values::joined(all_contents(rdb_compact::list_nodes(items, budget))) == items,
{
    let s = rdb_compact::split_upto(items, items.len(), budget);
    lemma_split_holds(items, items.len(), budget);
    lemma_split_closed(s);
    assert(items.take(items.len() as int) =~= items);
}

/// The node can be read back.
pub open spec fn node_lasting(node: ListNode) -> bool {
    match node {
        ListNode::Plain(item) => rdb_wire::storable(item),
        ListNode::Packed(items) => rdb_wire::storable(listpack_encode::pack_of(items)->Some_0),
    }
}

proof fn lemma_node_reads(node: ListNode, data: Seq<u8>, pos: int)
    requires
        rdb_compact::node_packs(node),
        node_lasting(node),
        bytes::has_at(data, pos, rdb_compact::list_node_bytes(node)),
    ensures
        rdb_values::list_node_at(data, pos) == Some(
            (node_contents(node), pos + rdb_compact::list_node_bytes(node).len()),
        ),
{
    match node {
        ListNode::Plain(item) => {
            let head = rdb_wire::length_bytes(1);
            bytes::lemma_has_at_concat(data, pos, head, rdb_wire::string_bytes(item));
            rdb_wire::law_length_round_trip(data, pos, 1);
            rdb_wire::law_string_round_trip(data, pos + head.len(), item);
        },
        ListNode::Packed(items) => {
            let head = rdb_wire::length_bytes(2);
            let pack = listpack_encode::pack_of(items)->Some_0;
            bytes::lemma_has_at_concat(data, pos, head, rdb_wire::string_bytes(pack));
            rdb_wire::law_length_round_trip(data, pos, 2);
            rdb_wire::law_string_round_trip(data, pos + head.len(), pack);
            lemma_pack_strings(items);
        },
    }
}

/// Sources whose encodings are read as items, one behind the other.
pub proof fn lemma_repeat_reads<X, Y>(
    parse: bytes::Parser<X>,
    encode: spec_fn(Y) -> Seq<u8>,
    sources: Seq<Y>,
    items: Seq<X>,
    data: Seq<u8>,
    pos: int,
)
    requires
        sources.len() == items.len(),
        bytes::has_at(data, pos, bytes::concat_all(encode, sources)),
        forall|k: int, d: Seq<u8>, q: int|
            0 <= k < items.len() && #[trigger] bytes::has_at(d, q, encode(#[trigger] sources[k]))
                ==> parse(d, q) == Some((items[k], q + encode(sources[k]).len())),
    ensures
        bytes::parse_repeat(parse, data, pos, items.len()) == Some(
            (items, pos + bytes::concat_all(encode, sources).len()),
        ),
    decreases items.len(),
{
    if items.len() > 0 {
        let front = bytes::concat_all(encode, sources.drop_last());
        let n = items.len() - 1;
        bytes::lemma_has_at_concat(data, pos, front, encode(sources.last()));
        assert forall|k: int, d: Seq<u8>, q: int|
            0 <= k < n && #[trigger] bytes::has_at(
                d,
                q,
                encode(#[trigger] sources.drop_last()[k]),
            ) implies parse(d, q) == Some(
            (items.drop_last()[k], q + encode(sources.drop_last()[k]).len()),
        ) by {
            assert(sources.drop_last()[k] == sources[k]);
        }
        lemma_repeat_reads(parse, encode, sources.drop_last(), items.drop_last(), data, pos);
        assert(bytes::has_at(data, pos + front.len(), encode(sources[n])));
        assert(items.drop_last().push(items.last()) =~= items);
    } else {
        assert(items =~= Seq::empty());
    }
}

/// A list in nodes can be read back.
pub open spec fn nodes_last(nodes: Seq<ListNode>) -> bool {
    &&& nodes.len() <= u64::MAX
    &&& forall|i: int| 0 <= i < nodes.len() ==> node_lasting(#[trigger] nodes[i])
}

proof fn lemma_list_reads(
    items: Seq<Seq<u8>>,
    t: CompactRdbThresholds,
    data: Seq<u8>,
    pos: int,
)
    requires
        nodes_last(rdb_compact::list_nodes(items, t.list_max_listpack_size as nat)),
        rdb_compact::list_payload(items, t) matches Some(payload) && bytes::has_at(
            data,
            pos,
            payload,
        ),
    ensures
        rdb_values::node_list_at(data, pos, false) == Some(
            (items, pos + rdb_compact::list_payload(items, t)->Some_0.len()),
        ),
{
    let nodes = rdb_compact::list_nodes(items, t.list_max_listpack_size as nat);
    let found = all_contents(nodes);
    let head = rdb_wire::length_bytes(nodes.len());
    let encode = rdb_compact::list_node_encoder();
    let parse = rdb_values::list_node_parser(false);
    bytes::lemma_has_at_concat(data, pos, head, bytes::concat_all(encode, nodes));
    rdb_wire::law_length_round_trip(data, pos, nodes.len());
    assert forall|k: int, d: Seq<u8>, q: int|
        0 <= k < found.len() && #[trigger] bytes::has_at(d, q, encode(#[trigger] nodes[k])) implies parse(
        d,
        q,
    ) == Some((found[k], q + encode(nodes[k]).len())) by {
        assert(rdb_compact::node_packs(nodes[k]));
        lemma_node_reads(nodes[k], d, q);
    }
    lemma_repeat_reads(parse, encode, nodes, found, data, pos + head.len());
    law_list_nodes_hold_items(items, t.list_max_listpack_size as nat);
}

/// What ready packs hold.
pub open spec fn packs_contents(packs: Seq<Seq<u8>>) -> Seq<Seq<Seq<u8>>> {
    packs.map_values(|pack: Seq<u8>| rdb_values::pack_strings(pack)->Some_0)
}

/// Ready packs can be read back.
pub open spec fn packs_last(packs: Seq<Seq<u8>>) -> bool {
    &&& packs.len() <= u64::MAX
    &&& forall|i: int|
        0 <= i < packs.len() ==> rdb_wire::storable(#[trigger] packs[i])
            && rdb_values::pack_strings(packs[i]) is Some
}

proof fn lemma_packs_read(packs: Seq<Seq<u8>>, data: Seq<u8>, pos: int)
    requires
        packs_last(packs),
        bytes::has_at(data, pos, rdb_compact::packed_list_payload(packs)),
    ensures
        rdb_values::node_list_at(data, pos, false) == Some(
            (
                rdb_values::joined(packs_contents(packs)),
                pos + rdb_compact::packed_list_payload(packs).len(),
            ),
        ),
{
    let found = packs_contents(packs);
    let head = rdb_wire::length_bytes(packs.len());
    let encode = rdb_compact::packed_node_encoder();
    let parse = rdb_values::list_node_parser(false);
    bytes::lemma_has_at_concat(data, pos, head, bytes::concat_all(encode, packs));
    rdb_wire::law_length_round_trip(data, pos, packs.len());
    assert forall|k: int, d: Seq<u8>, q: int|
        0 <= k < found.len() && #[trigger] bytes::has_at(d, q, encode(#[trigger] packs[k])) implies parse(
        d,
        q,
    ) == Some((found[k], q + encode(packs[k]).len())) by {
        let mark = rdb_wire::length_bytes(2);
        bytes::lemma_has_at_concat(d, q, mark, rdb_wire::string_bytes(packs[k]));
        rdb_wire::law_length_round_trip(d, q, 2);
        rdb_wire::law_string_round_trip(d, q + mark.len(), packs[k]);
    }
    lemma_repeat_reads(parse, encode, packs, found, data, pos + head.len());
}

// ---------------------------------------------------------------------------
// Sets, hashes and sorted sets
// ---------------------------------------------------------------------------

proof fn lemma_integers_within(members: Seq<Seq<u8>>)
    ensures
        forall|i: int|
            0 <= i < members.len() ==> i64::MIN <= #[trigger] rdb_compact::integers_of(members)[i]
                <= i64::MAX,
{
}

proof fn lemma_intset_reads(
    members: Seq<Seq<u8>>,
    t: CompactRdbThresholds,
    data: Seq<u8>,
    pos: int,
)
    requires
        rdb_compact::intset_payload(members, t) matches Some(payload) && bytes::has_at(
            data,
            pos,
            payload,
        ),
    ensures
        rdb_values::wrapped_at(rdb_save::RDB_TYPE_SET_INTSET, data, pos) == Some(
            (
                ValueView::MemberSet(
                    intset::texts(intset::ascending_values(rdb_compact::integers_of(members))),
                ),
                pos + rdb_compact::intset_payload(members, t)->Some_0.len(),
            ),
        ),
{
    let values = rdb_compact::integers_of(members);
    let width = intset::least_width(values);
    let blob = intset::intset_bytes(values, width)->Some_0;
    lemma_integers_within(members);
    rdb_compact::lemma_width_fits(values);
    intset::law_intset_round_trip(values, width);
    assert(rdb_wire::length_bytes(blob.len()) + blob == rdb_wire::raw_string_bytes(blob));
    lemma_intset_len(values, width);
    rdb_wire::lemma_raw_string_reads(data, pos, blob);
}

proof fn lemma_intset_len(values: Seq<int>, width: nat)
    requires
        intset::known_width(width),
        intset::all_fit(values, width),
        intset::intset_bytes(values, width) is Some,
    ensures
        intset::intset_bytes(values, width)->Some_0.len() <= u64::MAX,
{
    let blob = intset::intset_bytes(values, width)->Some_0;
    intset::law_intset_round_trip(values, width);
    order::lemma_sorted_by_len(values, intset::int_key());
    assert(intset::intset_values(blob) is Some);
    let n = bytes::le_at(blob, 4, 4);
    assert(n == values.len());
    assert(n * width <= 8 * n) by (nonlinear_arith)
        requires
            width <= 8,
    ;
}

proof fn lemma_paired_up(fields: Seq<FieldView>)
    ensures
        rdb_values::paired_up(rdb_compact::interleaved(fields)) == Some(fields),
{
    let items = rdb_compact::interleaved(fields);
    rdb_compact::lemma_interleaved(fields);
    assert(Seq::new((items.len() / 2) as nat, |i: int| (items[2 * i], items[2 * i + 1]))
        =~= fields);
}

/// What the text of a score is read back as.
pub open spec fn loaded_score(text: Seq<u8>) -> ScoreView {
    if listpack_encode::is_integer_text(text) {
        ScoreView::Integer(listpack_encode::integer_of(text))
    } else {
        ScoreView::Decimal(text)
    }
}

/// Members with the texts of their scores, read back.
pub open spec fn loaded_members(pairs: Seq<FieldView>) -> Seq<(Seq<u8>, ScoreView)> {
    pairs.map_values(|p: FieldView| (p.0, loaded_score(p.1)))
}

/// Every score is the text of a number.
pub open spec fn scores_are_numbers(pairs: Seq<FieldView>) -> bool {
    forall|i: int|
        0 <= i < pairs.len() ==> listpack_encode::is_integer_text((#[trigger] pairs[i]).1)
            || score::is_double_text(pairs[i].1)
}

proof fn lemma_score_reads(blob: Seq<u8>, v: LpValue, text: Seq<u8>)
    requires
        listpack::value_bytes(blob, v) == text,
        v is Integer <==> listpack_encode::is_integer_text(text),
        listpack_encode::is_integer_text(text) || score::is_double_text(text),
    ensures
        listpack_members::score_error(blob, v, false) is None,
        listpack_members::score_view(blob, v) == loaded_score(text),
{
    if let LpValue::Integer(n) = v {
        let w = listpack_encode::integer_of(text);
        assert(listpack_encode::is_text_of(text, w as i64));
        decimal::lemma_dec_int_unique(n, w);
    }
}

proof fn lemma_members_read(pairs: Seq<FieldView>)
    requires
        scores_are_numbers(pairs),
    ensures
        listpack_encode::pack_of(rdb_compact::interleaved(pairs)) matches Some(pack)
            ==> rdb_values::pack_members(pack) == Some(loaded_members(pairs)),
{
    let items = rdb_compact::interleaved(pairs);
    rdb_compact::lemma_interleaved(pairs);
    listpack_encode::law_pack_round_trip(items);
    if let Some(pack) = listpack_encode::pack_of(items) {
        let values = listpack::values_of(pack)->Ok_0;
        let n = pairs.len();
        assert forall|k: int| 0 <= k < values.len() / 2 implies listpack_members::score_error(
            pack,
            #[trigger] values[2 * k + 1],
            false,
        ) is None by {
            assert(items[2 * k + 1] == pairs[k].1);
            lemma_score_reads(pack, values[2 * k + 1], pairs[k].1);
        }
        let found = listpack_members::pairs_upto(values, values.len() / 2);
        let view = |p: (LpValue, LpValue)|
            (listpack::value_bytes(pack, p.0), listpack_members::score_view(pack, p.1));
        assert(found.map_values(view) =~= loaded_members(pairs)) by {
            assert forall|i: int| 0 <= i < n implies #[trigger] found.map_values(view)[i]
                == loaded_members(pairs)[i] by {
                assert(found[i] == (values[2 * i], values[2 * i + 1]));
                assert(items[2 * i] == pairs[i].0);
                assert(items[2 * i + 1] == pairs[i].1);
                lemma_score_reads(pack, values[2 * i + 1], pairs[i].1);
            }
        }
    }
}

/// Members whose scores are known by their bits alone.
pub open spec fn by_bits(members: Seq<(Seq<u8>, ScoreView)>) -> Seq<(Seq<u8>, ScoreView)> {
    members.map_values(
        |m: (Seq<u8>, ScoreView)| (m.0, rdb_values::bare_double(records::score_bits(m.1))),
    )
}

proof fn lemma_bits_same(members: Seq<(Seq<u8>, ScoreView)>)
    ensures
        records::counted_bytes::<(Vec<u8>, RdbScore)>(by_bits(members)) == records::counted_bytes::<
            (Vec<u8>, RdbScore),
        >(members),
{
    reveal(records::counted_bytes);
    lemma_bits_concat(members);
}

proof fn lemma_bits_concat(members: Seq<(Seq<u8>, ScoreView)>)
    ensures
        bytes::concat_all(records::encoder::<(Vec<u8>, RdbScore)>(), by_bits(members))
            == bytes::concat_all(records::encoder::<(Vec<u8>, RdbScore)>(), members),
    decreases members.len(),
{
    if members.len() > 0 {
        lemma_bits_concat(members.drop_last());
        assert(by_bits(members).drop_last() =~= by_bits(members.drop_last()));
    } else {
        assert(by_bits(members) =~= members);
    }
}

// ---------------------------------------------------------------------------
// Values
// ---------------------------------------------------------------------------

/// The thresholds under which a list is stored in nodes, if it is.
pub open spec fn list_thresholds(
    items: Seq<Seq<u8>>,
    compact: Option<CompactRdbThresholds>,
) -> Option<CompactRdbThresholds> {
    match rdb_save::list_compact(items, compact) {
        None => None,
        Some(_) => compact,
    }
}

/// Strings one by one can be read back.
pub open spec fn strings_last(items: Seq<Seq<u8>>) -> bool {
    items.len() <= u64::MAX && records::all_lasting::<Vec<u8>>(items)
}

/// A list can be read back.
pub open spec fn list_lasting(items: Seq<Seq<u8>>, compact: Option<CompactRdbThresholds>) -> bool {
    match list_thresholds(items, compact) {
        Some(t) => nodes_last(rdb_compact::list_nodes(items, t.list_max_listpack_size as nat)),
        None => strings_last(items),
    }
}

/// The pack of the items, if there is one, can be read back.
pub open spec fn pack_lasting(items: Seq<Seq<u8>>) -> bool {
    listpack_encode::pack_of(items) matches Some(pack) ==> rdb_wire::storable(pack)
}

/// A set can be read back.
pub open spec fn set_lasting(members: Seq<Seq<u8>>, compact: Option<CompactRdbThresholds>) -> bool {
    let tag = rdb_save::set_stored(members, compact).0;
    if tag == rdb_save::RDB_TYPE_SET_INTSET {
        true
    } else if tag == rdb_save::RDB_TYPE_SET_LISTPACK {
        pack_lasting(members)
    } else {
        strings_last(members)
    }
}

/// What a set is read back as: integers ascending, a pack as it is, and members one by one
/// as a set that is stored one by one.
pub open spec fn loaded_set(members: Seq<Seq<u8>>, compact: Option<CompactRdbThresholds>) -> ValueView {
    let tag = rdb_save::set_stored(members, compact).0;
    if tag == rdb_save::RDB_TYPE_SET_INTSET {
        ValueView::MemberSet(
            intset::texts(intset::ascending_values(rdb_compact::integers_of(members))),
        )
    } else if tag == rdb_save::RDB_TYPE_SET_LISTPACK {
        ValueView::MemberSet(members)
    } else {
        ValueView::SetHashtable(members)
    }
}

/// A hash can be read back.
pub open spec fn hash_lasting(fields: Seq<FieldView>, compact: Option<CompactRdbThresholds>) -> bool {
    if rdb_save::hash_stored(fields, compact).0 == rdb_save::RDB_TYPE_HASH_LISTPACK {
        pack_lasting(rdb_compact::interleaved(fields))
    } else {
        fields.len() <= u64::MAX && records::all_lasting::<(Vec<u8>, Vec<u8>)>(fields)
    }
}

/// The members of a sorted set in the order of their scores, with the texts of these.
pub open spec fn ranked(members: Seq<(Seq<u8>, ScoreView)>) -> Seq<FieldView> {
    rdb_compact::scored(order::sorted_by(members, rdb_compact::member_key()))
}

/// The names of members can be read back.
pub open spec fn names_last(members: Seq<(Seq<u8>, ScoreView)>) -> bool {
    &&& members.len() <= u64::MAX
    &&& forall|i: int| 0 <= i < members.len() ==> rdb_wire::storable((#[trigger] members[i]).0)
}

/// A sorted set can be read back: in a pack, the text of each score is that of a number.
pub open spec fn zset_lasting(
    members: Seq<(Seq<u8>, ScoreView)>,
    compact: Option<CompactRdbThresholds>,
) -> bool {
    if rdb_save::zset_stored(members, compact).0 == rdb_save::RDB_TYPE_ZSET_LISTPACK {
        pack_lasting(rdb_compact::interleaved(ranked(members))) && scores_are_numbers(
            ranked(members),
        )
    } else {
        names_last(members)
    }
}

/// What a sorted set is read back as: from a pack in the order of its scores, these as
/// texts say them, else as it is with its scores by their bits.
pub open spec fn loaded_zset(
    members: Seq<(Seq<u8>, ScoreView)>,
    compact: Option<CompactRdbThresholds>,
) -> Seq<(Seq<u8>, ScoreView)> {
    if rdb_save::zset_stored(members, compact).0 == rdb_save::RDB_TYPE_ZSET_LISTPACK {
        loaded_members(ranked(members))
    } else {
        by_bits(members)
    }
}

/// A stream can be read back: it says what the bytes that it keeps say, or its parts can be
/// read back.
pub open spec fn stream_lasting(s: StreamView) -> bool {
    match s.metadata {
        Some(m) => m.0 != rdb_save::RDB_TYPE_STREAM && rdb_stream::stream_of(m.0, m.1) == Ok::<
            (ValueView, int),
            UpstreamStreamError,
        >((ValueView::Stream(s), m.1.len() as int)),
        None => if rdb_save::stream_lossless(s) && stream_encode::stream_packable(s) {
            stream_laws::packed_lasting(s)
        } else {
            stream_private::private_lasting(s)
        },
    }
}

/// What a stream is read back as.
pub open spec fn loaded_stream(s: StreamView) -> StreamView {
    match s.metadata {
        Some(_) => s,
        None => if rdb_save::stream_lossless(s) && stream_encode::stream_packable(s) {
            stream_laws::packed_loaded(s)
        } else {
            stream_private::private_loaded(s)
        },
    }
}

/// A value can be read back: its strings and packs can, and its numbers fit.
#[verifier::opaque]
pub open spec fn value_lasting(v: ValueView, compact: Option<CompactRdbThresholds>) -> bool {
    match v {
        ValueView::String(s) => rdb_wire::storable(s),
        ValueView::List(items) => list_lasting(items, compact),
        ValueView::ListPacked(packs) => packs_last(packs),
        ValueView::MemberSet(members) => set_lasting(members, compact),
        ValueView::SetHashtable(members) => strings_last(members),
        ValueView::Hash(fields) => hash_lasting(fields, compact),
        ValueView::HashWithTtls(fields) => fields.len() <= u64::MAX && records::all_lasting::<
            (Vec<u8>, Vec<u8>, Option<u64>),
        >(fields),
        ValueView::SortedSet(members) => zset_lasting(members, compact),
        ValueView::Stream(s) => stream_lasting(s),
    }
}

/// What a value is read back as.
#[verifier::opaque]
pub open spec fn loaded_value(v: ValueView, compact: Option<CompactRdbThresholds>) -> ValueView {
    match v {
        ValueView::ListPacked(packs) => ValueView::List(rdb_values::joined(packs_contents(packs))),
        ValueView::MemberSet(members) => loaded_set(members, compact),
        ValueView::SortedSet(members) => ValueView::SortedSet(loaded_zset(members, compact)),
        ValueView::Stream(s) => ValueView::Stream(loaded_stream(s)),
        _ => v,
    }
}

/// The value under a type byte is read at an offset, with the offset behind its payload.
spec fn reads_as(stored: (u8, Seq<u8>), data: Seq<u8>, pos: int, v: ValueView) -> bool {
    &&& rdb_values::is_type_byte(stored.0)
    &&& rdb_values::value_at(stored.0, data, pos) == Some((v, pos + stored.1.len()))
}

proof fn lemma_strings_read(items: Seq<Seq<u8>>, data: Seq<u8>, pos: int)
    requires
        strings_last(items),
        bytes::has_at(data, pos, records::counted_bytes::<Vec<u8>>(items)),
    ensures
        reads_as(
            (rdb_save::RDB_TYPE_LIST, records::counted_bytes::<Vec<u8>>(items)),
            data,
            pos,
            ValueView::List(items),
        ),
        reads_as(
            rdb_save::plain_set_stored(items),
            data,
            pos,
            ValueView::SetHashtable(items),
        ),
{
    records::law_counted_round_trip::<Vec<u8>>(items, data, pos);
}

proof fn lemma_list_value_reads(
    items: Seq<Seq<u8>>,
    compact: Option<CompactRdbThresholds>,
    data: Seq<u8>,
    pos: int,
)
    requires
        list_lasting(items, compact),
        bytes::has_at(data, pos, rdb_save::list_stored(items, compact).1),
    ensures
        reads_as(rdb_save::list_stored(items, compact), data, pos, ValueView::List(items)),
{
    match list_thresholds(items, compact) {
        Some(t) => {
            lemma_list_reads(items, t, data, pos);
        },
        None => {
            lemma_strings_read(items, data, pos);
        },
    }
}

proof fn lemma_pack_value_reads(items: Seq<Seq<u8>>, data: Seq<u8>, pos: int)
    requires
        pack_lasting(items),
        rdb_compact::pack_payload(items) matches Some(payload) && bytes::has_at(data, pos, payload),
    ensures
        rdb_wire::string_at(data, pos) == Some(
            (
                listpack_encode::pack_of(items)->Some_0,
                pos + rdb_compact::pack_payload(items)->Some_0.len(),
            ),
        ),
        rdb_values::pack_strings(listpack_encode::pack_of(items)->Some_0) == Some(items),
{
    rdb_wire::law_string_round_trip(data, pos, listpack_encode::pack_of(items)->Some_0);
    lemma_pack_strings(items);
}

proof fn lemma_set_value_reads(
    members: Seq<Seq<u8>>,
    compact: Option<CompactRdbThresholds>,
    data: Seq<u8>,
    pos: int,
)
    requires
        set_lasting(members, compact),
        bytes::has_at(data, pos, rdb_save::set_stored(members, compact).1),
    ensures
        reads_as(
            rdb_save::set_stored(members, compact),
            data,
            pos,
            loaded_set(members, compact),
        ),
{
    let tag = rdb_save::set_stored(members, compact).0;
    if tag == rdb_save::RDB_TYPE_SET_INTSET {
        lemma_intset_reads(members, compact->Some_0, data, pos);
    } else if tag == rdb_save::RDB_TYPE_SET_LISTPACK {
        lemma_pack_value_reads(members, data, pos);
    } else {
        lemma_strings_read(members, data, pos);
    }
}

proof fn lemma_hash_value_reads(
    fields: Seq<FieldView>,
    compact: Option<CompactRdbThresholds>,
    data: Seq<u8>,
    pos: int,
)
    requires
        hash_lasting(fields, compact),
        bytes::has_at(data, pos, rdb_save::hash_stored(fields, compact).1),
    ensures
        reads_as(rdb_save::hash_stored(fields, compact), data, pos, ValueView::Hash(fields)),
{
    if rdb_save::hash_stored(fields, compact).0 == rdb_save::RDB_TYPE_HASH_LISTPACK {
        lemma_pack_value_reads(rdb_compact::interleaved(fields), data, pos);
        lemma_paired_up(fields);
    } else {
        records::law_counted_round_trip::<(Vec<u8>, Vec<u8>)>(fields, data, pos);
    }
}

proof fn lemma_zset_value_reads(
    members: Seq<(Seq<u8>, ScoreView)>,
    compact: Option<CompactRdbThresholds>,
    data: Seq<u8>,
    pos: int,
)
    requires
        zset_lasting(members, compact),
        bytes::has_at(data, pos, rdb_save::zset_stored(members, compact).1),
    ensures
        reads_as(
            rdb_save::zset_stored(members, compact),
            data,
            pos,
            ValueView::SortedSet(loaded_zset(members, compact)),
        ),
{
    if rdb_save::zset_stored(members, compact).0 == rdb_save::RDB_TYPE_ZSET_LISTPACK {
        lemma_pack_value_reads(rdb_compact::interleaved(ranked(members)), data, pos);
        lemma_members_read(ranked(members));
    } else {
        lemma_bits_same(members);
        let bare = by_bits(members);
        assert forall|i: int| 0 <= i < bare.len() implies <(
            Vec<u8>,
            RdbScore,
        ) as records::Record>::lasting(#[trigger] bare[i]) by {
            assert(rdb_wire::storable(members[i].0));
        }
        records::law_counted_round_trip::<(Vec<u8>, RdbScore)>(bare, data, pos);
    }
}

proof fn lemma_kept_stream_reads(tag: u8, payload: Seq<u8>, s: StreamView, data: Seq<u8>, pos: int)
    requires
        rdb_stream::stream_of(tag, payload) == Ok::<(ValueView, int), UpstreamStreamError>(
            (ValueView::Stream(s), payload.len() as int),
        ),
        bytes::has_at(data, pos, payload),
    ensures
        rdb_stream::stream_of(tag, data.skip(pos)) == rdb_stream::stream_of(tag, payload),
{
    let tail = data.skip(pos + payload.len());
    lemma_skip_split(data, pos, payload);
    assert(rdb_stream::stream_of(tag, payload + tail) == rdb_stream::stream_of(tag, payload)) by {
        stream_local::law_stream_is_local(tag, payload, tail);
        assert(payload.take(payload.len() as int) =~= payload);
    }
}

/// What stands from an offset on is the part at it and what is behind the part.
pub proof fn lemma_skip_split(data: Seq<u8>, pos: int, part: Seq<u8>)
    requires
        bytes::has_at(data, pos, part),
    ensures
        data.skip(pos) == part + data.skip(pos + part.len()),
{
    assert forall|i: int| 0 <= i < part.len() implies #[trigger] data.skip(pos)[i] == part[i] by {
        assert(data[pos + i] == part[i]);
    }
    assert(data.skip(pos) =~= part + data.skip(pos + part.len()));
}

/// Under the type byte of a layout of packs that no plain stream has, a value is a stream in
/// packs.
proof fn lemma_packs_read_as(stored: (u8, Seq<u8>), data: Seq<u8>, pos: int, s: StreamView)
    requires
        rdb_stream::layout_of(stored.0) > 0,
        stored.0 != rdb_save::RDB_TYPE_STREAM,
        rdb_stream::stream_of(stored.0, data.skip(pos)) == Ok::<
            (ValueView, int),
            UpstreamStreamError,
        >((ValueView::Stream(s), stored.1.len() as int)),
    ensures
        reads_as(stored, data, pos, ValueView::Stream(s)),
{
}

/// A part that stands at an offset is at the start of what stands from there on.
proof fn lemma_has_at_skip(data: Seq<u8>, pos: int, part: Seq<u8>)
    requires
        bytes::has_at(data, pos, part),
    ensures
        bytes::has_at(data.skip(pos), 0, part),
{
    assert forall|i: int| 0 <= i < part.len() implies #[trigger] data.skip(pos)[0 + i]
        == part[i] by {
        assert(data[pos + i] == part[i]);
    }
}

proof fn lemma_plain_stream_reads(s: StreamView, data: Seq<u8>, pos: int)
    requires
        stream_private::private_lasting(s),
        bytes::has_at(data, pos, stream_private::private_stream_bytes(s)),
    ensures
        reads_as(
            (rdb_save::RDB_TYPE_STREAM, stream_private::private_stream_bytes(s)),
            data,
            pos,
            ValueView::Stream(stream_private::private_loaded(s)),
        ),
{
    stream_private::law_private_stream_round_trip(s, data, pos);
}

proof fn lemma_stream_value_reads(s: StreamView, data: Seq<u8>, pos: int)
    requires
        stream_lasting(s),
        bytes::has_at(data, pos, rdb_save::stream_stored(s).1),
    ensures
        reads_as(
            rdb_save::stream_stored(s),
            data,
            pos,
            ValueView::Stream(loaded_stream(s)),
        ),
{
    let stored = rdb_save::stream_stored(s);
    match s.metadata {
        Some(m) => {
            lemma_kept_stream_reads(m.0, m.1, s, data, pos);
            assert(rdb_stream::layout_of(m.0) > 0);
            lemma_packs_read_as(stored, data, pos, s);
        },
        None => {
            if rdb_save::stream_lossless(s) && stream_encode::stream_packable(s) {
                lemma_has_at_skip(data, pos, stored.1);
                stream_laws::law_packed_stream_round_trip(s, data.skip(pos));
                lemma_packs_read_as(stored, data, pos, loaded_stream(s));
            } else {
                lemma_plain_stream_reads(s, data, pos);
            }
        },
    }
}

/// A value is read back from its payload under its type byte.
pub proof fn law_value_round_trip(
    v: ValueView,
    compact: Option<CompactRdbThresholds>,
    data: Seq<u8>,
    pos: int,
)
    requires
        value_lasting(v, compact),
        bytes::has_at(data, pos, rdb_save::value_stored(v, compact).1),
    ensures
        rdb_values::is_type_byte(rdb_save::value_stored(v, compact).0),
        rdb_values::value_at(rdb_save::value_stored(v, compact).0, data, pos) == Some(
            (loaded_value(v, compact), pos + rdb_save::value_stored(v, compact).1.len()),
        ),
{
    reveal(rdb_save::value_stored);
    reveal(value_lasting);
    reveal(loaded_value);
    match v {
        ValueView::String(s) => {
            rdb_wire::law_string_round_trip(data, pos, s);
        },
        ValueView::List(items) => {
            lemma_list_value_reads(items, compact, data, pos);
        },
        ValueView::ListPacked(packs) => {
            lemma_packs_read(packs, data, pos);
        },
        ValueView::MemberSet(members) => {
            lemma_set_value_reads(members, compact, data, pos);
        },
        ValueView::SetHashtable(members) => {
            lemma_strings_read(members, data, pos);
        },
        ValueView::Hash(fields) => {
            lemma_hash_value_reads(fields, compact, data, pos);
        },
        ValueView::HashWithTtls(fields) => {
            records::law_counted_round_trip::<(Vec<u8>, Vec<u8>, Option<u64>)>(fields, data, pos);
        },
        ValueView::SortedSet(members) => {
            lemma_zset_value_reads(members, compact, data, pos);
        },
        ValueView::Stream(s) => {
            lemma_stream_value_reads(s, data, pos);
        },
    }
}

/// A stream that was read from a snapshot is written back byte for byte.
pub proof fn law_read_stream_is_written_back(tag: u8, data: Seq<u8>)
    ensures
        rdb_stream::stream_of(tag, data) matches Ok((ValueView::Stream(s), end))
            ==> rdb_save::stream_stored(s) == (tag, data.take(end)),
{
}

} // verus!
