//! Which form a value is written in.

use vstd::prelude::*;

use crate::bytes;
use crate::decimal;
use crate::form_laws;
use crate::intset;
use crate::listpack_encode;
use crate::order;
use crate::rdb_compact;
use crate::rdb_compact::{CompactRdbThresholds, ListNode};
use crate::rdb_save;
use crate::rdb_types::{FieldView, RdbEntryView, ValueView};
use crate::rdb_wire;
use crate::score;
use crate::score::{RdbScore, ScoreView};
use crate::score_laws;
use crate::snapshot_items;
use crate::snapshot_items::{Hint, Item, Number, Text};
use crate::stream_written;

verus! {

// ---------------------------------------------------------------------------
// Sets, hashes and sorted sets
// ---------------------------------------------------------------------------

/// The string is the decimal text of the integer.
pub open spec fn spells(s: Seq<u8>, v: i64) -> bool {
    decimal::dec_int(v as int) == s
}

/// The string is the decimal text of an integer of 64 bits.
pub open spec fn is_integer(s: Seq<u8>) -> bool {
    exists|v: i64| #[trigger] spells(s, v)
}

/// A pack of the strings can be built: with 7 bytes around its entries it stays within 32 bits.
pub open spec fn fits_a_pack(items: Seq<Seq<u8>>) -> bool {
    bytes::concat_all(listpack_encode::entry_encoder(), items).len() + 7 <= u32::MAX
}

proof fn lemma_integer_text(s: Seq<u8>)
    ensures
        listpack_encode::is_integer_text(s) <==> is_integer(s),
{
    if is_integer(s) {
        let v = choose|v: i64| #[trigger] spells(s, v);
        assert(listpack_encode::is_text_of(s, v));
    }
    if listpack_encode::is_integer_text(s) {
        let v = choose|v: i64| listpack_encode::is_text_of(s, v);
        assert(spells(s, v));
    }
}

proof fn lemma_integers_fit(members: Seq<Seq<u8>>)
    requires
        rdb_compact::all_integers(members),
    ensures
        intset::all_fit(
            rdb_compact::integers_of(members),
            intset::least_width(rdb_compact::integers_of(members)),
        ),
{
    let values = rdb_compact::integers_of(members);
    bytes::lemma_pow256_values();
    assert forall|i: int| 0 <= i < values.len() implies intset::fits_width(
        #[trigger] values[i],
        8,
    ) by {
        assert(listpack_encode::is_integer_text(members[i]));
    }
}

/// A set is written as a set of integers if it is small and every member is one, as a pack if it
/// is small in number and length, and member by member otherwise.
pub proof fn law_set_form(members: Seq<Seq<u8>>, t: CompactRdbThresholds)
    requires
        members.len() <= u32::MAX,
    ensures
        ({
            let tag = rdb_save::value_stored(ValueView::MemberSet(members), Some(t)).0;
            let integers = members.len() <= t.set_max_intset_entries && forall|i: int|
                0 <= i < members.len() ==> is_integer(#[trigger] members[i]);
            let small = members.len() <= t.set_max_listpack_entries && fits_a_pack(members)
                && forall|i: int|
                0 <= i < members.len() ==> (#[trigger] members[i]).len()
                    <= t.set_max_listpack_value;
            &&& integers <==> tag == 11
            &&& !integers && small <==> tag == 20
            &&& !integers && !small <==> tag == 2
        }),
        rdb_save::value_stored(ValueView::MemberSet(members), None).0 == 2,
        rdb_save::value_stored(ValueView::SetHashtable(members), Some(t)).0 == 2,
{
    reveal(rdb_save::value_stored);
    assert forall|i: int| 0 <= i < members.len() implies (listpack_encode::is_integer_text(
        #[trigger] members[i],
    ) <==> is_integer(members[i])) by {
        lemma_integer_text(members[i]);
    }
    if rdb_compact::all_integers(members) {
        lemma_integers_fit(members);
        assert(forall|i: int| 0 <= i < members.len() ==> is_integer(#[trigger] members[i]));
    } else {
        let i = choose|i: int|
            0 <= i < members.len() && !listpack_encode::is_integer_text(#[trigger] members[i]);
        assert(!is_integer(members[i]));
    }
    if rdb_compact::all_within(members, t.set_max_listpack_value as int) {
        assert(forall|i: int|
            0 <= i < members.len() ==> (#[trigger] members[i]).len() <= t.set_max_listpack_value);
    }
}

/// A set of integers is written with its width, its number and its integers in ascending order.
/// The width is the least of 2, 4 and 8 that all of them fit in.
pub proof fn law_integer_set_bytes(values: Seq<int>, k: int)
    requires
        values.len() <= u32::MAX,
        forall|i: int|
            0 <= i < values.len() ==> -0x8000_0000_0000_0000 <= #[trigger] values[i]
                <= 0x7fff_ffff_ffff_ffff,
    ensures
        ({
            let sorted = intset::ascending_values(values);
            let width = intset::least_width(values);
            &&& intset::intset_bytes(values, width) == Some(
                bytes::le_bytes(width, 4) + bytes::le_bytes(values.len(), 4) + bytes::concat_all(
                    form_laws::integer_encoder(width),
                    sorted,
                ),
            )
            &&& sorted.to_multiset() == values.to_multiset()
            &&& forall|a: int, b: int|
                0 <= a < b < sorted.len() ==> #[trigger] sorted[a] <= #[trigger] sorted[b]
            &&& width == 2 || width == 4 || width == 8
            &&& 0 <= k < values.len() && !(-0x8000 <= values[k] < 0x8000) ==> width > 2
            &&& 0 <= k < values.len() && !(-0x8000_0000 <= values[k] < 0x8000_0000) ==> width == 8
            &&& (forall|i: int|
                0 <= i < values.len() ==> -0x8000 <= #[trigger] values[i] < 0x8000) ==> width == 2
            &&& (forall|i: int|
                0 <= i < values.len() ==> -0x8000_0000 <= #[trigger] values[i] < 0x8000_0000)
                ==> width <= 4
        }),
{
    let sorted = intset::ascending_values(values);
    let width = intset::least_width(values);
    bytes::lemma_pow256_values();
    order::law_sorting_keeps_items(values, intset::int_key());
    order::law_sorted_in_order(values, intset::int_key());
    order::lemma_sorted_by_len(values, intset::int_key());
    assert(intset::all_fit(values, 8));
    if 0 <= k < values.len() {
        assert(intset::fits_width(values[k], 2) <==> -0x8000 <= values[k] < 0x8000);
        assert(intset::fits_width(values[k], 4) <==> -0x8000_0000 <= values[k] < 0x8000_0000);
    }
    assert(form_laws::integer_encoder(width) =~= intset::value_encoder(width));
    assert forall|a: int, b: int| 0 <= a < b < sorted.len() implies #[trigger] sorted[a]
        <= #[trigger] sorted[b] by {
        vstd::seq_lib::to_multiset_contains(sorted, sorted[a]);
        vstd::seq_lib::to_multiset_contains(sorted, sorted[b]);
        vstd::seq_lib::to_multiset_contains(values, sorted[a]);
        vstd::seq_lib::to_multiset_contains(values, sorted[b]);
        assert(order::key_le(intset::int_key()(sorted[a]), intset::int_key()(sorted[b])));
    }
}

/// A hash is written as a pack if it is small in number and length, and field by field
/// otherwise.
pub proof fn law_hash_form(fields: Seq<FieldView>, t: CompactRdbThresholds)
    ensures
        ({
            let tag = rdb_save::value_stored(ValueView::Hash(fields), Some(t)).0;
            let small = fields.len() <= t.hash_max_listpack_entries && fits_a_pack(
                rdb_compact::interleaved(fields),
            ) && forall|i: int|
                0 <= i < fields.len() ==> (#[trigger] fields[i]).0.len()
                    <= t.hash_max_listpack_value && fields[i].1.len() <= t.hash_max_listpack_value;
            &&& small <==> tag == 16
            &&& !small <==> tag == 4
        }),
        rdb_save::value_stored(ValueView::Hash(fields), None).0 == 4,
{
    reveal(rdb_save::value_stored);
    rdb_compact::lemma_interleaved(fields);
    let items = rdb_compact::interleaved(fields);
    let most = t.hash_max_listpack_value as int;
    if rdb_compact::all_within(items, most) {
        assert forall|i: int| 0 <= i < fields.len() implies (#[trigger] fields[i]).0.len() <= most
            && fields[i].1.len() <= most by {
            assert(items[2 * i].len() <= most);
            assert(items[2 * i + 1].len() <= most);
        }
    } else {
        let k = choose|k: int| 0 <= k < items.len() && (#[trigger] items[k]).len() > most;
        assert(fields[k / 2].0 == items[2 * (k / 2)]);
        assert(fields[k / 2].1 == items[2 * (k / 2) + 1]);
    }
}

/// A sorted set is written as a pack if it is small in number and in the length of its names and
/// no score is a NaN, and with the bits of its scores otherwise.
pub proof fn law_sorted_set_form(
    members: Seq<(Seq<u8>, ScoreView)>,
    t: CompactRdbThresholds,
)
    ensures
        ({
            let tag = rdb_save::value_stored(ValueView::SortedSet(members), Some(t)).0;
            let small = members.len() <= t.zset_max_listpack_entries && forall|i: int|
                0 <= i < members.len() ==> (#[trigger] members[i]).0.len()
                    <= t.zset_max_listpack_value && !(members[i].1 matches ScoreView::Double {
                    bits,
                    text,
                } && score::is_nan_bits(bits));
            &&& tag == 17 ==> small
            &&& !small ==> tag == 5
            &&& tag == 17 || tag == 5
            &&& small && fits_a_pack(
                rdb_compact::interleaved(
                    rdb_compact::scored(
                        order::sorted_by(members, rdb_compact::member_key()),
                    ),
                ),
            ) ==> tag == 17
        }),
        rdb_save::value_stored(ValueView::SortedSet(members), None).0 == 5,
{
    reveal(rdb_save::value_stored);
    let names = rdb_compact::names_of(members);
    let most = t.zset_max_listpack_value as int;
    assert forall|i: int| 0 <= i < members.len() implies names[i] == (#[trigger] members[i]).0 by {}
    if rdb_compact::zset_is_small(members, t) {
        assert forall|i: int| 0 <= i < members.len() implies (#[trigger] members[i]).0.len() <= most
            && !(members[i].1 matches ScoreView::Double { bits, text } && score::is_nan_bits(
            bits,
        )) by {
            assert(names[i].len() <= most);
            assert(!rdb_compact::is_nan_score(members[i].1));
        }
    } else if members.len() <= t.zset_max_listpack_entries {
        if !rdb_compact::all_within(names, most) {
            let i = choose|i: int| 0 <= i < names.len() && (#[trigger] names[i]).len() > most;
            assert(members[i].0.len() > most);
        } else {
            let i = choose|i: int|
                0 <= i < members.len() && rdb_compact::is_nan_score((#[trigger] members[i]).1);
            assert(members[i].1 is Double);
        }
    }
}

/// A set of integers is stored as it is behind its length, and a pack as a string, which may be
/// compressed.
pub proof fn law_payloads_of_packs(
    members: Seq<Seq<u8>>,
    fields: Seq<FieldView>,
    scored: Seq<(Seq<u8>, ScoreView)>,
    t: CompactRdbThresholds,
)
    ensures
        ({
            let stored = rdb_save::value_stored(ValueView::MemberSet(members), Some(t));
            let values = rdb_compact::integers_of(members);
            &&& stored.0 == 11 ==> (intset::intset_bytes(
                values,
                intset::least_width(values),
            ) matches Some(set) && stored.1 == rdb_wire::length_bytes(set.len()) + set)
            &&& stored.0 == 20 ==> (listpack_encode::pack_of(members) matches Some(pack)
                && stored.1 == rdb_wire::string_bytes(pack))
        }),
        ({
            let stored = rdb_save::value_stored(ValueView::Hash(fields), Some(t));
            stored.0 == 16 ==> exists|items: Seq<Seq<u8>>| #[trigger]
                form_laws::alternate(items, fields) && (listpack_encode::pack_of(
                    items,
                ) matches Some(pack) && stored.1 == rdb_wire::string_bytes(pack))
        }),
        ({
            let stored = rdb_save::value_stored(ValueView::SortedSet(scored), Some(t));
            let sorted = order::sorted_by(scored, rdb_compact::member_key());
            stored.0 == 17 ==> exists|items: Seq<Seq<u8>>| #[trigger]
                form_laws::alternate(items, rdb_compact::scored(sorted)) && (
                listpack_encode::pack_of(items) matches Some(pack) && stored.1
                    == rdb_wire::string_bytes(pack))
        }),
{
    reveal(rdb_save::value_stored);
    rdb_compact::lemma_interleaved(fields);
    assert(form_laws::alternate(rdb_compact::interleaved(fields), fields));
    let sorted = order::sorted_by(scored, rdb_compact::member_key());
    rdb_compact::lemma_interleaved(rdb_compact::scored(sorted));
    assert(form_laws::alternate(
        rdb_compact::interleaved(rdb_compact::scored(sorted)),
        rdb_compact::scored(sorted),
    ));
}

/// A node of a list is stored with its kind in front of it, 1 for an item and 2 for a pack.
pub open spec fn node_part() -> spec_fn(ListNode) -> Seq<u8> {
    |node: ListNode|
        match node {
            ListNode::Plain(item) => rdb_wire::length_bytes(1) + rdb_wire::string_bytes(item),
            ListNode::Packed(items) => rdb_wire::length_bytes(2) + rdb_wire::string_bytes(
                listpack_encode::pack_of(items)->Some_0,
            ),
        }
}

/// A list in nodes is stored as their number and the nodes.
pub proof fn law_payload_of_a_list(items: Seq<Seq<u8>>, t: CompactRdbThresholds)
    ensures
        ({
            let stored = rdb_save::value_stored(ValueView::List(items), Some(t));
            let nodes = rdb_compact::list_nodes(items, t.list_max_listpack_size as nat);
            stored.0 == 18 ==> stored.1 == rdb_wire::length_bytes(nodes.len()) + bytes::concat_all(
                node_part(),
                nodes,
            )
        }),
{
    reveal(rdb_save::value_stored);
    assert(node_part() =~= rdb_compact::list_node_encoder());
}

/// A member with the bits of its score.
pub open spec fn member_part() -> spec_fn((Seq<u8>, ScoreView)) -> Seq<u8> {
    |m: (Seq<u8>, ScoreView)|
        rdb_wire::string_bytes(m.0) + stream_written::eight(
            match m.1 {
                ScoreView::Double { bits, text } => bits,
                _ => 0,
            },
        )
}

/// A field with its time, or all ones.
pub open spec fn timed_part() -> spec_fn((Seq<u8>, Seq<u8>, Option<u64>)) -> Seq<u8> {
    |f: (Seq<u8>, Seq<u8>, Option<u64>)|
        (rdb_wire::string_bytes(f.0) + rdb_wire::string_bytes(f.1)) + stream_written::eight_or_ones(
            f.2,
        )
}

/// A string, as a function value.
pub open spec fn string_part() -> spec_fn(Seq<u8>) -> Seq<u8> {
    |s: Seq<u8>| rdb_wire::string_bytes(s)
}

/// What is written of values that are not packed: a string by itself, and anything else part by
/// part behind the number of its parts.
pub proof fn law_payloads_by_parts(
    s: Seq<u8>,
    items: Seq<Seq<u8>>,
    fields: Seq<FieldView>,
    timed: Seq<(Seq<u8>, Seq<u8>, Option<u64>)>,
    scored: Seq<(Seq<u8>, ScoreView)>,
    compact: Option<CompactRdbThresholds>,
)
    ensures
        rdb_save::value_stored(ValueView::String(s), compact) == (0u8, rdb_wire::string_bytes(s)),
        rdb_save::value_stored(ValueView::SetHashtable(items), compact) == (
            2u8,
            stream_written::listed(string_part(), items),
        ),
        rdb_save::value_stored(ValueView::HashWithTtls(timed), compact) == (
            100u8,
            stream_written::listed(timed_part(), timed),
        ),
        ({
            let stored = rdb_save::value_stored(ValueView::List(items), compact);
            stored.0 == 1 ==> stored.1 == stream_written::listed(string_part(), items)
        }),
        ({
            let stored = rdb_save::value_stored(ValueView::MemberSet(items), compact);
            stored.0 == 2 ==> stored.1 == stream_written::listed(string_part(), items)
        }),
        ({
            let stored = rdb_save::value_stored(ValueView::Hash(fields), compact);
            stored.0 == 4 ==> stored.1 == stream_written::listed(
                stream_written::field_part(),
                fields,
            )
        }),
        ({
            let stored = rdb_save::value_stored(ValueView::SortedSet(scored), compact);
            stored.0 == 5 ==> stored.1 == stream_written::listed(member_part(), scored)
        }),
{
    reveal(rdb_save::value_stored);
    stream_written::lemma_listed::<Vec<u8>>(string_part(), items);
    stream_written::lemma_listed::<(Vec<u8>, Vec<u8>)>(stream_written::field_part(), fields);
    stream_written::lemma_listed::<(Vec<u8>, Vec<u8>, Option<u64>)>(timed_part(), timed);
    stream_written::lemma_listed::<(Vec<u8>, RdbScore)>(member_part(), scored);
}

/// The forms where no other sizes are given: sets of up to 512 integers, packs of sets and of
/// sorted sets of up to 128 members and of hashes of up to 512 fields, with strings of up to 64
/// bytes, and list nodes of up to 8192 bytes.
pub proof fn law_default_sizes(members: Seq<Seq<u8>>, fields: Seq<FieldView>, items: Seq<Seq<u8>>)
    requires
        members.len() <= u32::MAX,
    ensures
        ({
            let t = rdb_compact::default_thresholds();
            let set = rdb_save::value_stored(ValueView::MemberSet(members), Some(t)).0;
            let hash = rdb_save::value_stored(ValueView::Hash(fields), Some(t)).0;
            &&& members.len() > 512 ==> set == 2
            &&& members.len() > 128 && set != 11 ==> set == 2
            &&& members.len() <= 512 && (forall|i: int|
                0 <= i < members.len() ==> is_integer(#[trigger] members[i])) ==> set == 11
            &&& members.len() <= 128 && fits_a_pack(members) && (forall|i: int|
                0 <= i < members.len() ==> (#[trigger] members[i]).len() <= 64) ==> set != 2
            &&& fields.len() > 512 ==> hash == 4
            &&& fields.len() <= 512 && fits_a_pack(rdb_compact::interleaved(fields)) && (forall|
                i: int,
            |
                0 <= i < fields.len() ==> (#[trigger] fields[i]).0.len() <= 64
                    && fields[i].1.len() <= 64) ==> hash == 16
            &&& t.zset_max_listpack_entries == 128 && t.zset_max_listpack_value == 64
                && t.list_max_listpack_size == 8192
        }),
{
    law_set_form(members, rdb_compact::default_thresholds());
    law_hash_form(fields, rdb_compact::default_thresholds());
}

// ---------------------------------------------------------------------------
// Lists
// ---------------------------------------------------------------------------

/// The bytes of a pack of the items.
pub open spec fn pack_size(items: Seq<Seq<u8>>) -> nat {
    7 + bytes::concat_all(listpack_encode::entry_encoder(), items).len()
}

/// A node is one item of at least 1 GiB, or a pack of smaller ones that is within the budget or
/// holds only one.
pub open spec fn node_within(node: ListNode, budget: nat) -> bool {
    match node {
        ListNode::Plain(item) => item.len() >= 1_073_741_824,
        ListNode::Packed(items) => items.len() > 0 && (items.len() == 1 || pack_size(items)
            <= budget) && forall|i: int|
            0 <= i < items.len() ==> (#[trigger] items[i]).len() < 1_073_741_824,
    }
}

/// The first item of the second pack had no room in the first.
pub open spec fn no_room(a: ListNode, b: ListNode, budget: nat) -> bool {
    a matches ListNode::Packed(p) ==> b matches ListNode::Packed(q) ==> pack_size(p.push(q[0]))
        > budget
}

proof fn lemma_pack_size(items: Seq<Seq<u8>>, item: Seq<u8>)
    ensures
        pack_size(items.push(item)) == pack_size(items) + listpack_encode::packed_entry(item).len(),
{
    assert(items.push(item).drop_last() =~= items);
}

proof fn lemma_split(items: Seq<Seq<u8>>, k: nat, budget: nat)
    requires
        k <= items.len(),
    ensures
        ({
            let s = rdb_compact::split_upto(items, k, budget);
            let n = s.nodes.len() as int;
            &&& s.size == pack_size(s.items)
            &&& s.items.len() > 0 ==> node_within(ListNode::Packed(s.items), budget)
            &&& forall|i: int| 0 <= i < n ==> node_within(#[trigger] s.nodes[i], budget)
            &&& forall|i: int, j: int|
                0 <= i && j == i + 1 && j < n ==> no_room(
                    #[trigger] s.nodes[i],
                    #[trigger] s.nodes[j],
                    budget,
                )
            &&& s.items.len() > 0 && n > 0 ==> no_room(
                s.nodes[n - 1],
                ListNode::Packed(s.items),
                budget,
            )
            &&& s.items.len() == 0 && n > 0 ==> s.nodes[n - 1] is Plain
        }),
    decreases k,
{
    if k > 0 {
        let less = (k - 1) as nat;
        lemma_split(items, less, budget);
        let s = rdb_compact::split_upto(items, less, budget);
        let item = items[k - 1];
        lemma_pack_size(s.items, item);
        lemma_pack_size(Seq::empty(), item);
        assert(bytes::concat_all(listpack_encode::entry_encoder(), Seq::empty()).len() == 0);
        let t = rdb_compact::split_upto(items, k, budget);
        if item.len() < 1_073_741_824 {
            if s.items.len() > 0 && s.size + listpack_encode::packed_entry(item).len() > budget {
                assert(t.items =~= Seq::empty().push(item));
                assert(t.nodes == s.nodes.push(ListNode::Packed(s.items)));
                assert(s.items.push(t.items[0]) == s.items.push(item));
            } else {
                assert(t.items == s.items.push(item));
                assert(t.nodes == s.nodes);
                if s.items.len() > 0 {
                    assert(t.items[0] == s.items[0]);
                }
            }
        }
    } else {
        assert(bytes::concat_all(listpack_encode::entry_encoder(), Seq::empty()).len() == 0);
    }
}

/// Every node of a list is within the budget, and no pack has room for the first item of the pack
/// behind it.
pub proof fn law_list_nodes_are_filled(items: Seq<Seq<u8>>, budget: nat, i: int)
    requires
        0 <= i < rdb_compact::list_nodes(items, budget).len(),
    ensures
        node_within(rdb_compact::list_nodes(items, budget)[i], budget),
        i + 1 < rdb_compact::list_nodes(items, budget).len() ==> no_room(
            rdb_compact::list_nodes(items, budget)[i],
            rdb_compact::list_nodes(items, budget)[i + 1],
            budget,
        ),
{
    lemma_split(items, items.len(), budget);
    let s = rdb_compact::split_upto(items, items.len(), budget);
    let nodes = rdb_compact::list_nodes(items, budget);
    if i < s.nodes.len() {
        assert(nodes[i] == s.nodes[i]);
        if i + 1 < s.nodes.len() {
            assert(nodes[i + 1] == s.nodes[i + 1]);
            assert(no_room(s.nodes[i], s.nodes[i + 1], budget));
        }
    }
}

/// A list that holds something and whose packs can be built is written in nodes, and any other
/// item by item.
pub proof fn law_list_form(items: Seq<Seq<u8>>, t: CompactRdbThresholds)
    ensures
        ({
            let tag = rdb_save::value_stored(ValueView::List(items), Some(t)).0;
            let nodes = rdb_compact::list_nodes(items, t.list_max_listpack_size as nat);
            let built = items.len() > 0 && forall|i: int|
                0 <= i < nodes.len() ==> (#[trigger] nodes[i] matches ListNode::Packed(p)
                    ==> fits_a_pack(p));
            &&& built <==> tag == 18
            &&& !built <==> tag == 1
        }),
        rdb_save::value_stored(ValueView::List(items), None).0 == 1,
{
    reveal(rdb_save::value_stored);
    let nodes = rdb_compact::list_nodes(items, t.list_max_listpack_size as nat);
    if rdb_compact::all_pack(nodes) {
        assert forall|i: int| 0 <= i < nodes.len() implies (#[trigger] nodes[i] matches
            ListNode::Packed(p) ==> fits_a_pack(p)) by {
            assert(rdb_compact::node_packs(nodes[i]));
        }
    } else {
        let i = choose|i: int| 0 <= i < nodes.len() && !rdb_compact::node_packs(#[trigger] nodes[i]);
        assert(nodes[i] is Packed);
    }
}

// ---------------------------------------------------------------------------
// Snapshots
// ---------------------------------------------------------------------------

/// The number that is told of a database counts its entries that expire.
pub proof fn law_expiring_entries_are_counted(entries: Seq<RdbEntryView>)
    ensures
        rdb_save::expiring(entries) == entries.filter(
            |e: RdbEntryView| e.expire_ms is Some,
        ).len(),
    decreases entries.len(),
{
    reveal(Seq::filter);
    if entries.len() > 0 {
        law_expiring_entries_are_counted(entries.drop_last());
    }
}

/// The string as it is written.
pub open spec fn written_text(s: Seq<u8>) -> Text {
    Text { encoding: rdb_wire::string_bytes(s), text: s }
}

/// The number as it is written.
pub open spec fn written_number(n: nat) -> Number {
    Number { encoding: rdb_wire::length_bytes(n), number: n }
}

/// The parts of a snapshot are written as items: an auxiliary field, a library of functions, the
/// head of a database, and an entry with its time in front of it if it expires.
pub proof fn law_parts_are_items(
    aux: FieldView,
    code: Seq<u8>,
    entries: Seq<RdbEntryView>,
    e: RdbEntryView,
    compact: Option<CompactRdbThresholds>,
)
    requires
        entries.len() > 0,
    ensures
        rdb_save::aux_encoder()(aux) == snapshot_items::item_bytes(
            Item::Aux(written_text(aux.0), written_text(aux.1)),
        ),
        rdb_save::function_encoder()(code) == snapshot_items::item_bytes(
            Item::Function(written_text(code)),
        ),
        rdb_save::db_head_bytes(entries) == snapshot_items::item_bytes(
            Item::Select(written_number(entries[0].db)),
        ) + snapshot_items::item_bytes(
            Item::Resize(
                written_number(entries.len()),
                written_number(entries.filter(|e: RdbEntryView| e.expire_ms is Some).len()),
            ),
        ),
        rdb_save::entry_encoder(compact)(e) == snapshot_items::item_bytes(
            (Item::Entry {
                hints: match e.expire_ms {
                    None => Seq::empty(),
                    Some(ms) => seq![Hint::ExpiresMillis(ms)],
                },
                tag: rdb_save::value_stored(e.value, compact).0,
                key: written_text(e.key),
                payload: rdb_save::value_stored(e.value, compact).1,
                value: e.value,
            }),
        ),
{
    law_expiring_entries_are_counted(entries);
    let a = rdb_wire::length_bytes(entries[0].db);
    let b = rdb_wire::length_bytes(entries.len());
    let c = rdb_wire::length_bytes(rdb_save::expiring(entries));
    assert(rdb_save::db_head_bytes(entries) =~= (seq![0xFEu8] + a) + (seq![0xFBu8] + (b + c)));
    let hints = match e.expire_ms {
        None => Seq::empty(),
        Some(ms) => seq![Hint::ExpiresMillis(ms)],
    };
    let front = bytes::concat_all(snapshot_items::hint_encoder(), hints);
    match e.expire_ms {
        None => {
            assert(front =~= Seq::empty());
        },
        Some(ms) => {
            let h = Hint::ExpiresMillis(ms);
            assert(hints.drop_last() =~= Seq::empty());
            assert(bytes::concat_all(snapshot_items::hint_encoder(), Seq::empty()) =~= Seq::empty());
            assert(front =~= snapshot_items::hint_bytes(h));
        },
    }
    assert(front =~= rdb_save::expiry_bytes(e.expire_ms));
    let v = rdb_save::value_stored(e.value, compact);
    let k = rdb_wire::string_bytes(e.key);
    assert((seq![v.0] + k) + v.1 =~= seq![v.0] + (k + v.1));
}

proof fn lemma_run(entries: Seq<RdbEntryView>, i: int, j: int, db: nat)
    requires
        0 <= i <= j <= entries.len(),
        forall|k: int| i <= k < j ==> (#[trigger] entries[k]).db == db,
        j == entries.len() || entries[j].db != db,
    ensures
        rdb_save::db_end(entries, i, db) == j,
    decreases j - i,
{
    if i < j {
        lemma_run(entries, i + 1, j, db);
    }
}

proof fn lemma_from(
    a: Seq<RdbEntryView>,
    b: Seq<RdbEntryView>,
    i: int,
    compact: Option<CompactRdbThresholds>,
)
    requires
        0 <= i <= b.len(),
    ensures
        rdb_save::keyspace_from(a + b, a.len() + i, compact) == rdb_save::keyspace_from(
            b,
            i,
            compact,
        ),
    decreases b.len() - i,
{
    if i < b.len() {
        let all = a + b;
        let n = a.len();
        let db = b[i].db;
        let j = rdb_save::db_end(b, i, db);
        rdb_save::lemma_db_end(b, i, db);
        lemma_run_ends(b, i, db);
        assert forall|k: int| n + i <= k < n + j implies (#[trigger] all[k]).db == db by {
            assert(all[k] == b[k - n]);
        }
        assert(n + j < all.len() ==> all[n + j] == b[j]);
        assert(all[n + i] == b[i]);
        lemma_run(all, n + i, n + j, db);
        assert(all.subrange(n + i, n + j) =~= b.subrange(i, j));
        lemma_from(a, b, j, compact);
    }
}

proof fn lemma_run_ends(entries: Seq<RdbEntryView>, i: int, db: nat)
    requires
        0 <= i <= entries.len(),
    ensures
        rdb_save::db_end(entries, i, db) < entries.len() ==> entries[rdb_save::db_end(
            entries,
            i,
            db,
        )].db != db,
    decreases entries.len() - i,
{
    if i < entries.len() && entries[i].db == db {
        lemma_run_ends(entries, i + 1, db);
    }
}

/// The entries of one database stand behind one head, and those of the next behind their own.
pub proof fn law_one_head_per_database(
    a: Seq<RdbEntryView>,
    b: Seq<RdbEntryView>,
    compact: Option<CompactRdbThresholds>,
)
    requires
        a.len() > 0,
        forall|i: int| 0 <= i < a.len() ==> (#[trigger] a[i]).db == a[0].db,
        b.len() > 0 ==> b[0].db != a[0].db,
    ensures
        rdb_save::keyspace_from(a + b, 0, compact) == (rdb_save::db_head_bytes(a)
            + bytes::concat_all(rdb_save::entry_encoder(compact), a)) + rdb_save::keyspace_from(
            b,
            0,
            compact,
        ),
{
    let all = a + b;
    let n = a.len() as int;
    assert forall|k: int| 0 <= k < n implies (#[trigger] all[k]).db == a[0].db by {
        assert(all[k] == a[k]);
    }
    assert(n < all.len() ==> all[n] == b[0]);
    assert(all[0] == a[0]);
    lemma_run(all, 0, n, a[0].db);
    assert(all.subrange(0, n) =~= a);
    lemma_from(a, b, 0, compact);
}

/// The entries stand by the numbers of their databases, and within one by their keys.
pub open spec fn stand_by_key(entries: Seq<RdbEntryView>) -> bool {
    forall|a: int, b: int|
        0 <= a < b < entries.len() ==> (#[trigger] entries[a]).db < (#[trigger] entries[b]).db || (
        entries[a].db == entries[b].db && score_laws::name_first(entries[a].key, entries[b].key))
}

/// A snapshot holds its entries by database and key, each as often as it is given.
pub proof fn law_snapshot_is_in_order(
    entries: Seq<RdbEntryView>,
    aux: Seq<FieldView>,
    functions: Seq<Seq<u8>>,
    compact: Option<CompactRdbThresholds>,
) -> (sorted: Seq<RdbEntryView>)
    ensures
        rdb_save::snapshot_bytes(entries, aux, functions, compact)
            == rdb_save::ordered_snapshot_bytes(sorted, aux, functions, compact),
        sorted.to_multiset() == entries.to_multiset(),
        stand_by_key(sorted),
{
    let key = rdb_save::entry_key();
    let sorted = order::sorted_by(entries, key);
    order::law_sorting_keeps_items(entries, key);
    order::law_sorted_in_order(entries, key);
    order::lemma_sorted_by_len(entries, key);
    assert forall|a: int, b: int| 0 <= a < b < sorted.len() implies (#[trigger] sorted[a]).db
        < (#[trigger] sorted[b]).db || (sorted[a].db == sorted[b].db && score_laws::name_first(
        sorted[a].key,
        sorted[b].key,
    )) by {
        score_laws::law_keys_in_order(key(sorted[a]), key(sorted[b]));
        assert(order::key_le(key(sorted[a]), key(sorted[b])));
    }
    sorted
}

} // verus!
