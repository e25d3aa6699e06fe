//! Compact forms of collections: integer sets, packs, and lists of packs.

use vstd::prelude::*;

use crate::bytes;
use crate::bytes::{copy_bytes, read_le};
use crate::decimal;
use crate::decimal::decimal_i64_bytes;
use crate::intset;
use crate::intset::encode_intset_blob;
use crate::listpack;
use crate::listpack::{LISTPACK_EOF, LISTPACK_HEADER_SIZE};
use crate::listpack_encode;
use crate::listpack_encode::{
    encode_listpack_strings_blob, listpack_entry_encoded_len, parse_listpack_integer,
    LISTPACK_BLOB_OVERHEAD,
};
use crate::order;
use crate::order::{keys_in_order, order_of, KeyView, SortKey};
use crate::rdb_types;
use crate::rdb_types::FieldView;
use crate::rdb_wire;
use crate::rdb_wire::{encode_number, rdb_encode_length, rdb_encode_string};
use crate::score;
use crate::score::{is_nan, rank, zset_listpack_integer_score, RdbScore, ScoreView};

verus! {

/// Up to which sizes collections are stored in their compact forms.
#[derive(Debug, Clone, Copy)]
pub struct CompactRdbThresholds {
    pub hash_max_listpack_entries: usize,
    pub hash_max_listpack_value: usize,
    pub set_max_intset_entries: usize,
    pub set_max_listpack_entries: usize,
    pub set_max_listpack_value: usize,
    pub zset_max_listpack_entries: usize,
    pub zset_max_listpack_value: usize,
    /// The bytes that a pack of list items may take.
    pub list_max_listpack_size: usize,
}

impl Default for CompactRdbThresholds {
    fn default() -> (t: Self)
        ensures
            t == default_thresholds(),
    {
        CompactRdbThresholds {
            hash_max_listpack_entries: 512,
            hash_max_listpack_value: 64,
            set_max_intset_entries: 512,
            set_max_listpack_entries: 128,
            set_max_listpack_value: 64,
            zset_max_listpack_entries: 128,
            zset_max_listpack_value: 64,
            list_max_listpack_size: 8192,
        }
    }
}

/// The thresholds that hold unless others are given.
pub open spec fn default_thresholds() -> CompactRdbThresholds {
    CompactRdbThresholds {
        hash_max_listpack_entries: 512,
        hash_max_listpack_value: 64,
        set_max_intset_entries: 512,
        set_max_listpack_entries: 128,
        set_max_listpack_value: 64,
        zset_max_listpack_entries: 128,
        zset_max_listpack_value: 64,
        list_max_listpack_size: 8192,
    }
}

// ---------------------------------------------------------------------------
// What is written
// ---------------------------------------------------------------------------

/// Every string is the text of an integer.
pub open spec fn all_integers(members: Seq<Seq<u8>>) -> bool {
    forall|i: int| 0 <= i < members.len() ==> listpack_encode::is_integer_text(#[trigger] members[i])
}

/// The integers whose texts the strings are.
pub open spec fn integers_of(members: Seq<Seq<u8>>) -> Seq<int> {
    members.map_values(|m: Seq<u8>| listpack_encode::integer_of(m))
}

/// No string is longer than `most`.
pub open spec fn all_within(items: Seq<Seq<u8>>, most: int) -> bool {
    forall|i: int| 0 <= i < items.len() ==> (#[trigger] items[i]).len() <= most
}

/// A set as a set of integers.
pub open spec fn intset_payload(members: Seq<Seq<u8>>, t: CompactRdbThresholds) -> Option<Seq<u8>> {
    if members.len() > t.set_max_intset_entries || !all_integers(members) {
        None
    } else {
        let values = integers_of(members);
        match intset::intset_bytes(values, intset::least_width(values)) {
            None => None,
            Some(blob) => Some(rdb_wire::length_bytes(blob.len()) + blob),
        }
    }
}

/// Byte strings as one stored pack.
pub open spec fn pack_payload(items: Seq<Seq<u8>>) -> Option<Seq<u8>> {
    match listpack_encode::pack_of(items) {
        None => None,
        Some(pack) => Some(rdb_wire::string_bytes(pack)),
    }
}

/// A set as a pack.
pub open spec fn set_payload(members: Seq<Seq<u8>>, t: CompactRdbThresholds) -> Option<Seq<u8>> {
    if members.len() > t.set_max_listpack_entries || !all_within(
        members,
        t.set_max_listpack_value as int,
    ) {
        None
    } else {
        pack_payload(members)
    }
}

/// The halves of pairs, one behind the other.
pub open spec fn interleaved(pairs: Seq<FieldView>) -> Seq<Seq<u8>>
    decreases pairs.len(),
{
    if pairs.len() == 0 {
        Seq::empty()
    } else {
        interleaved(pairs.drop_last()).push(pairs.last().0).push(pairs.last().1)
    }
}

/// A hash as a pack.
pub open spec fn hash_payload(fields: Seq<FieldView>, t: CompactRdbThresholds) -> Option<Seq<u8>> {
    if fields.len() > t.hash_max_listpack_entries || !all_within(
        interleaved(fields),
        t.hash_max_listpack_value as int,
    ) {
        None
    } else {
        pack_payload(interleaved(fields))
    }
}

/// The text of a score: that of the whole number that it is, or its own.
pub open spec fn score_text(s: ScoreView) -> Seq<u8> {
    match s {
        ScoreView::Double { bits, text } => match score::whole_score(bits) {
            Some(v) => decimal::dec_int(v),
            None => text,
        },
        ScoreView::Integer(v) => decimal::dec_int(v),
        ScoreView::Decimal(text) => text,
    }
}

/// The score is a NaN.
pub open spec fn is_nan_score(s: ScoreView) -> bool {
    s matches ScoreView::Double { bits, text } && score::is_nan_bits(bits)
}

/// The text of a double is at hand, or not needed as the double is a whole number.
pub open spec fn text_known(s: ScoreView) -> bool {
    s matches ScoreView::Double { bits, text } && (score::whole_score(bits) is Some || text.len()
        > 0)
}

/// Every score is a double.
pub open spec fn all_doubles(members: Seq<(Seq<u8>, ScoreView)>) -> bool {
    forall|i: int| 0 <= i < members.len() ==> (#[trigger] members[i]).1 is Double
}

/// No score is a NaN.
pub open spec fn none_is_nan(members: Seq<(Seq<u8>, ScoreView)>) -> bool {
    forall|i: int| 0 <= i < members.len() ==> !is_nan_score((#[trigger] members[i]).1)
}

/// The text of every score is known.
pub open spec fn all_texts_known(members: Seq<(Seq<u8>, ScoreView)>) -> bool {
    forall|i: int| 0 <= i < members.len() ==> text_known((#[trigger] members[i]).1)
}

/// The key that orders members: by score, then by name.
pub open spec fn member_key() -> spec_fn((Seq<u8>, ScoreView)) -> KeyView {
    |m: (Seq<u8>, ScoreView)|
        KeyView {
            major: match m.1 {
                ScoreView::Double { bits, text } => score::score_rank(bits),
                _ => 0,
            },
            minor: 0,
            bytes: m.0,
        }
}

/// Members with the texts of their scores.
pub open spec fn scored(members: Seq<(Seq<u8>, ScoreView)>) -> Seq<FieldView> {
    members.map_values(|m: (Seq<u8>, ScoreView)| (m.0, score_text(m.1)))
}

/// The names of members.
pub open spec fn names_of(members: Seq<(Seq<u8>, ScoreView)>) -> Seq<Seq<u8>> {
    members.map_values(|m: (Seq<u8>, ScoreView)| m.0)
}

/// A sorted set goes into a pack: it is small, and no score is a NaN.
pub open spec fn zset_is_small(
    members: Seq<(Seq<u8>, ScoreView)>,
    t: CompactRdbThresholds,
) -> bool {
    &&& members.len() <= t.zset_max_listpack_entries
    &&& all_within(names_of(members), t.zset_max_listpack_value as int)
    &&& none_is_nan(members)
}

/// A sorted set as it is written: its scores are doubles, with their texts where it goes
/// into a pack.
pub open spec fn zset_writable(
    members: Seq<(Seq<u8>, ScoreView)>,
    compact: Option<CompactRdbThresholds>,
) -> bool {
    &&& all_doubles(members)
    &&& compact matches Some(t) ==> zset_is_small(members, t) ==> all_texts_known(members)
}

/// A sorted set as a pack, in the order of the scores.
pub open spec fn zset_payload(
    members: Seq<(Seq<u8>, ScoreView)>,
    t: CompactRdbThresholds,
) -> Option<Seq<u8>> {
    if zset_is_small(members, t) {
        pack_payload(interleaved(scored(order::sorted_by(members, member_key()))))
    } else {
        None
    }
}

/// A node of a stored list: one large item by itself, or a pack of items.
pub enum ListNode {
    Plain(Seq<u8>),
    Packed(Seq<Seq<u8>>),
}

/// From this length on an item is a node by itself.
pub const QUICKLIST_PACKED_THRESHOLD: usize = 0x4000_0000;

/// Finished nodes, the items of the open pack, and the bytes that it will take.
#[verifier::ext_equal]
pub struct ListSplit {
    pub nodes: Seq<ListNode>,
    pub items: Seq<Seq<u8>>,
    pub size: nat,
}

/// The split with its pack closed.
pub open spec fn split_closed(s: ListSplit) -> ListSplit {
    ListSplit {
        nodes: if s.items.len() == 0 {
            s.nodes
        } else {
            s.nodes.push(ListNode::Packed(s.items))
        },
        items: Seq::empty(),
        size: LISTPACK_BLOB_OVERHEAD as nat,
    }
}

/// The split with one more item: a large one closes the pack and stands by itself;
/// another is packed, in a new pack where the open one has no room for it.
pub open spec fn split_more(s: ListSplit, item: Seq<u8>, budget: nat) -> ListSplit {
    if item.len() >= QUICKLIST_PACKED_THRESHOLD {
        ListSplit { nodes: split_closed(s).nodes.push(ListNode::Plain(item)), ..split_closed(s) }
    } else {
        let n = listpack_encode::packed_entry(item).len();
        let u = if s.items.len() > 0 && s.size + n > budget {
            split_closed(s)
        } else {
            s
        };
        ListSplit { items: u.items.push(item), size: u.size + n, ..u }
    }
}

/// The split of the first `k` items.
pub open spec fn split_upto(items: Seq<Seq<u8>>, k: nat, budget: nat) -> ListSplit
    decreases k,
{
    if k == 0 {
        ListSplit {
            nodes: Seq::empty(),
            items: Seq::empty(),
            size: LISTPACK_BLOB_OVERHEAD as nat,
        }
    } else {
        split_more(split_upto(items, (k - 1) as nat, budget), items[k - 1], budget)
    }
}

/// The nodes of a list.
pub open spec fn list_nodes(items: Seq<Seq<u8>>, budget: nat) -> Seq<ListNode> {
    split_closed(split_upto(items, items.len(), budget)).nodes
}

/// A node is a large item, or its pack can be built.
pub open spec fn node_packs(node: ListNode) -> bool {
    match node {
        ListNode::Plain(_) => true,
        ListNode::Packed(items) => listpack_encode::pack_of(items) is Some,
    }
}

/// All nodes can be built.
pub open spec fn all_pack(nodes: Seq<ListNode>) -> bool {
    forall|i: int| 0 <= i < nodes.len() ==> node_packs(#[trigger] nodes[i])
}

/// A node as it is stored: its kind, then the item or the pack.
pub open spec fn list_node_bytes(node: ListNode) -> Seq<u8> {
    match node {
        ListNode::Plain(item) => rdb_wire::length_bytes(1) + rdb_wire::string_bytes(item),
        ListNode::Packed(items) => rdb_wire::length_bytes(2) + rdb_wire::string_bytes(
            listpack_encode::pack_of(items)->Some_0,
        ),
    }
}

/// A node as it is stored, as a function value.
pub open spec fn list_node_encoder() -> spec_fn(ListNode) -> Seq<u8> {
    |node: ListNode| list_node_bytes(node)
}

/// A list as packs.
pub open spec fn list_payload(items: Seq<Seq<u8>>, t: CompactRdbThresholds) -> Option<Seq<u8>> {
    let nodes = list_nodes(items, t.list_max_listpack_size as nat);
    if items.len() == 0 || !all_pack(nodes) {
        None
    } else {
        Some(
            rdb_wire::length_bytes(nodes.len()) + bytes::concat_all(list_node_encoder(), nodes),
        )
    }
}

/// A ready pack as it is stored.
pub open spec fn packed_node_encoder() -> spec_fn(Seq<u8>) -> Seq<u8> {
    |pack: Seq<u8>| rdb_wire::length_bytes(2) + rdb_wire::string_bytes(pack)
}

/// Ready packs as a list.
pub open spec fn packed_list_payload(packs: Seq<Seq<u8>>) -> Seq<u8> {
    rdb_wire::length_bytes(packs.len()) + bytes::concat_all(packed_node_encoder(), packs)
}

// ---------------------------------------------------------------------------
// Sets and hashes
// ---------------------------------------------------------------------------

/// A set as a set of integers, where it can be and is small enough.
pub fn encode_compact_set_intset(members: &[Vec<u8>], thresholds: &CompactRdbThresholds) -> (r:
    Option<Vec<u8>>)
    ensures
        match r {
            Some(payload) => intset_payload(bytes::views(members@), *thresholds) == Some(payload@),
            None => intset_payload(bytes::views(members@), *thresholds) is None,
        },
{
    let ghost all = bytes::views(members@);
    if members.len() > thresholds.set_max_intset_entries {
        return None;
    }
    let mut values: Vec<i64> = Vec::new();
    let mut width: usize = 2;
    let mut i: usize = 0;
    proof {
        bytes::lemma_pow256_values();
    }
    while i < members.len()
        invariant
            i <= members@.len(),
            all == bytes::views(members@),
            values@.len() == i,
            forall|j: int|
                0 <= j < i ==> listpack_encode::is_integer_text(#[trigger] all[j])
                    && listpack_encode::integer_of(all[j]) == values@[j],
            bytes::pow256(2) == 0x1_0000,
            bytes::pow256(4) == 0x1_0000_0000,
            bytes::pow256(8) == 0x1_0000_0000_0000_0000,
            width == intset::least_width(intset::ints(values@)),
            width == 2 || width == 4 || width == 8,
        decreases members@.len() - i,
    {
        assert(all[i as int] == members@[i as int]@);
        let v: i64 = match parse_listpack_integer(members[i].as_slice()) {
            None => {
                return None;
            },
            Some(v) => v,
        };
        let ghost before = intset::ints(values@);
        values.push(v);
        proof {
            let now = intset::ints(values@);
            assert(now =~= before.push(v as int));
            lemma_width_push(before, v as int);
        }
        if width < 8 && (v < -0x8000 || v > 0x7fff) {
            if -0x8000_0000 <= v && v <= 0x7fff_ffff {
                width = 4;
            } else {
                width = 8;
            }
        }
        i = i + 1;
    }
    proof {
        assert(integers_of(all) =~= intset::ints(values@));
        lemma_width_fits(intset::ints(values@));
    }
    match encode_intset_blob(&values, width) {
        None => None,
        Some(blob) => {
            let mut out: Vec<u8> = Vec::new();
            rdb_encode_length(&mut out, blob.len());
            out.extend_from_slice(blob.as_slice());
            assert(out@ =~= rdb_wire::length_bytes(blob@.len()) + blob@);
            Some(out)
        },
    }
}

proof fn lemma_width_push(values: Seq<int>, v: int)
    ensures
        intset::all_fit(values.push(v), 2) <==> intset::all_fit(values, 2) && intset::fits_width(
            v,
            2,
        ),
        intset::all_fit(values.push(v), 4) <==> intset::all_fit(values, 4) && intset::fits_width(
            v,
            4,
        ),
        intset::all_fit(values, 2) ==> intset::all_fit(values, 4),
{
    let now = values.push(v);
    assert(now[values.len() as int] == v);
    assert forall|i: int| 0 <= i < values.len() implies now[i] == values[i] by {}
    if intset::all_fit(now, 2) {
        assert forall|i: int| 0 <= i < values.len() implies intset::fits_width(
            #[trigger] values[i],
            2,
        ) by {
            assert(intset::fits_width(now[i], 2));
        }
    }
    if intset::all_fit(now, 4) {
        assert forall|i: int| 0 <= i < values.len() implies intset::fits_width(
            #[trigger] values[i],
            4,
        ) by {
            assert(intset::fits_width(now[i], 4));
        }
    }
    bytes::lemma_pow256_values();
}

/// The least width that every value fits in is one of the known ones.
pub proof fn lemma_width_fits(values: Seq<int>)
    requires
        forall|i: int| 0 <= i < values.len() ==> i64::MIN <= #[trigger] values[i] <= i64::MAX,
    ensures
        intset::all_fit(values, intset::least_width(values)),
{
    bytes::lemma_pow256_values();
}

/// A pack as it is stored.
fn stored_pack(pack: Option<Vec<u8>>) -> (r: Option<Vec<u8>>)
    ensures
        match pack {
            Some(pack) => r matches Some(payload) && payload@ == rdb_wire::string_bytes(pack@),
            None => r is None,
        },
{
    match pack {
        None => None,
        Some(pack) => {
            let mut out: Vec<u8> = Vec::new();
            rdb_encode_string(&mut out, pack.as_slice());
            assert(out@ =~= rdb_wire::string_bytes(pack@));
            Some(out)
        },
    }
}

/// The members of a set as one pack.
pub fn encode_set_listpack_blob(members: &[Vec<u8>]) -> (r: Option<Vec<u8>>)
    ensures
        match r {
            Some(pack) => listpack_encode::pack_of(bytes::views(members@)) == Some(pack@),
            None => listpack_encode::pack_of(bytes::views(members@)) is None,
        },
{
    let ghost all = bytes::views(members@);
    let mut items: Vec<&[u8]> = Vec::new();
    let mut i: usize = 0;
    while i < members.len()
        invariant
            i <= members@.len(),
            all == bytes::views(members@),
            items@.len() == i,
            forall|j: int| 0 <= j < i ==> (#[trigger] items@[j])@ == all[j],
        decreases members@.len() - i,
    {
        assert(all[i as int] == members@[i as int]@);
        items.push(members[i].as_slice());
        i = i + 1;
    }
    assert(listpack_encode::slice_views(items@) =~= all);
    encode_listpack_strings_blob(items.as_slice())
}

/// A set as a pack, where it is small enough.
pub fn encode_compact_set_listpack(members: &[Vec<u8>], thresholds: &CompactRdbThresholds) -> (r:
    Option<Vec<u8>>)
    ensures
        match r {
            Some(payload) => set_payload(bytes::views(members@), *thresholds) == Some(payload@),
            None => set_payload(bytes::views(members@), *thresholds) is None,
        },
{
    let ghost all = bytes::views(members@);
    if members.len() > thresholds.set_max_listpack_entries {
        return None;
    }
    let most: usize = thresholds.set_max_listpack_value;
    let mut i: usize = 0;
    while i < members.len()
        invariant
            i <= members@.len(),
            all == bytes::views(members@),
            most == thresholds.set_max_listpack_value,
            forall|j: int| 0 <= j < i ==> (#[trigger] all[j]).len() <= most,
        decreases members@.len() - i,
    {
        assert(all[i as int] == members@[i as int]@);
        if members[i].len() > most {
            return None;
        }
        i = i + 1;
    }
    stored_pack(encode_set_listpack_blob(members))
}

/// The fields and values of a hash as one pack.
pub fn encode_hash_listpack_blob(fields: &[(Vec<u8>, Vec<u8>)]) -> (r: Option<Vec<u8>>)
    ensures
        match r {
            Some(pack) => listpack_encode::pack_of(interleaved(rdb_types::field_views(fields@)))
                == Some(pack@),
            None => listpack_encode::pack_of(interleaved(rdb_types::field_views(fields@))) is None,
        },
{
    let ghost all = rdb_types::field_views(fields@);
    let mut items: Vec<&[u8]> = Vec::new();
    let mut i: usize = 0;
    assert(all.take(0) =~= Seq::empty());
    assert(listpack_encode::slice_views(items@) =~= Seq::empty());
    while i < fields.len()
        invariant
            i <= fields@.len(),
            all == rdb_types::field_views(fields@),
            listpack_encode::slice_views(items@) == interleaved(all.take(i as int)),
        decreases fields@.len() - i,
    {
        let field = &fields[i];
        let ghost before = listpack_encode::slice_views(items@);
        items.push(field.0.as_slice());
        items.push(field.1.as_slice());
        proof {
            let now = all.take(i as int + 1);
            assert(now.drop_last() =~= all.take(i as int));
            assert(now.last() == (field.0@, field.1@));
            assert(listpack_encode::slice_views(items@) =~= before.push(field.0@).push(field.1@));
        }
        i = i + 1;
    }
    assert(all.take(i as int) =~= all);
    encode_listpack_strings_blob(items.as_slice())
}

/// A hash as a pack, where it is small enough.
pub fn encode_compact_hash_listpack(
    fields: &[(Vec<u8>, Vec<u8>)],
    thresholds: &CompactRdbThresholds,
) -> (r: Option<Vec<u8>>)
    ensures
        match r {
            Some(payload) => hash_payload(rdb_types::field_views(fields@), *thresholds) == Some(
                payload@,
            ),
            None => hash_payload(rdb_types::field_views(fields@), *thresholds) is None,
        },
{
    let ghost all = rdb_types::field_views(fields@);
    if fields.len() > thresholds.hash_max_listpack_entries {
        return None;
    }
    let most: usize = thresholds.hash_max_listpack_value;
    let mut i: usize = 0;
    assert(all.take(0) =~= Seq::empty());
    while i < fields.len()
        invariant
            i <= fields@.len(),
            all == rdb_types::field_views(fields@),
            most == thresholds.hash_max_listpack_value,
            all_within(interleaved(all.take(i as int)), most as int),
        decreases fields@.len() - i,
    {
        let field = &fields[i];
        proof {
            let now = all.take(i as int + 1);
            assert(now.drop_last() =~= all.take(i as int));
            assert(now.last() == (field.0@, field.1@));
            lemma_interleaved_grows(all, i as int + 1, most as int);
            let before = interleaved(all.take(i as int));
            let part = interleaved(now);
            assert(part[before.len() as int] == field.0@);
            assert(part[before.len() as int + 1] == field.1@);
        }
        if field.0.len() > most || field.1.len() > most {
            return None;
        }
        i = i + 1;
    }
    assert(all.take(i as int) =~= all);
    stored_pack(encode_hash_listpack_blob(fields))
}

/// What is too long among the first pairs is too long among all.
proof fn lemma_interleaved_grows(pairs: Seq<FieldView>, k: int, most: int)
    requires
        0 <= k <= pairs.len(),
    ensures
        all_within(interleaved(pairs), most) ==> all_within(interleaved(pairs.take(k)), most),
    decreases pairs.len(),
{
    if k < pairs.len() {
        let front = pairs.drop_last();
        assert(front.take(k) =~= pairs.take(k));
        lemma_interleaved_grows(front, k, most);
        if all_within(interleaved(pairs), most) {
            let a = interleaved(front);
            let b = interleaved(pairs);
            assert forall|i: int| 0 <= i < a.len() implies (#[trigger] a[i]).len() <= most by {
                assert(b[i] == a[i]);
            }
        }
    } else {
        assert(pairs.take(k) =~= pairs);
    }
}

/// The length of interleaved pairs.
pub proof fn lemma_interleaved(pairs: Seq<FieldView>)
    ensures
        interleaved(pairs).len() == 2 * pairs.len(),
        forall|i: int|
            0 <= i < pairs.len() ==> interleaved(pairs)[2 * i] == (#[trigger] pairs[i]).0
                && interleaved(pairs)[2 * i + 1] == pairs[i].1,
    decreases pairs.len(),
{
    if pairs.len() > 0 {
        let front = pairs.drop_last();
        lemma_interleaved(front);
        assert forall|i: int| 0 <= i < pairs.len() implies interleaved(pairs)[2 * i]
            == (#[trigger] pairs[i]).0 && interleaved(pairs)[2 * i + 1] == pairs[i].1 by {
            if i < front.len() {
                assert(front[i] == pairs[i]);
            }
        }
    }
}

// ---------------------------------------------------------------------------
// Sorted sets
// ---------------------------------------------------------------------------

/// The text that a score is stored under.
fn zset_score_text(score: &RdbScore) -> (text: Vec<u8>)
    ensures
        text@ == score_text(score@),
{
    match score {
        RdbScore::Double { bits, text } => match zset_listpack_integer_score(*bits) {
            Some(v) => decimal_i64_bytes(v),
            None => copy_bytes(text.as_slice()),
        },
        RdbScore::Integer(v) => decimal_i64_bytes(*v),
        RdbScore::Decimal(text) => copy_bytes(text.as_slice()),
    }
}

/// The number that orders a score.
fn zset_score_rank(score: &RdbScore) -> (n: u64)
    requires
        !is_nan_score(score@),
    ensures
        n == match score@ {
            ScoreView::Double { bits, text } => score::score_rank(bits) as int,
            _ => 0,
        },
{
    match score {
        RdbScore::Double { bits, text } => rank(*bits),
        _ => 0,
    }
}

/// The score is a NaN.
fn zset_score_is_nan(score: &RdbScore) -> (r: bool)
    ensures
        r == is_nan_score(score@),
{
    match score {
        RdbScore::Double { bits, text } => is_nan(*bits),
        _ => false,
    }
}

/// The members stand in order of score, equal scores by name.
pub open spec fn members_in_order(members: Seq<(Seq<u8>, ScoreView)>) -> bool {
    forall|a: int, b: int|
        0 <= a < b < members.len() ==> order::key_le(
            member_key()(#[trigger] members[a]),
            member_key()(#[trigger] members[b]),
        )
}

spec fn member_keys_match(keys: Seq<SortKey>, members: Seq<(Seq<u8>, ScoreView)>) -> bool {
    &&& keys.len() == members.len()
    &&& forall|i: int| 0 <= i < keys.len() ==> (#[trigger] keys[i])@ == member_key()(members[i])
}

fn zset_members_are_sorted(keys: &Vec<SortKey>, Ghost(members): Ghost<Seq<(Seq<u8>, ScoreView)>>) -> (r:
    bool)
    requires
        member_keys_match(keys@, members),
    ensures
        r == members_in_order(members),
{
    let mut i: usize = 1;
    proof {
        assert forall|a: int, b: int| 0 <= a < b < 1 implies order::key_le(
            member_key()(#[trigger] members[a]),
            member_key()(#[trigger] members[b]),
        ) by {}
    }
    while i < keys.len()
        invariant
            1 <= i,
            member_keys_match(keys@, members),
            forall|a: int, b: int|
                0 <= a < b < i && b < members.len() ==> order::key_le(
                    member_key()(#[trigger] members[a]),
                    member_key()(#[trigger] members[b]),
                ),
        decreases keys@.len() - i,
    {
        assert(keys@[i - 1]@ == member_key()(members[i - 1]));
        assert(keys@[i as int]@ == member_key()(members[i as int]));
        if !keys_in_order(&keys[i - 1], &keys[i]) {
            return false;
        }
        proof {
            assert forall|a: int, b: int| 0 <= a < b < i + 1 && b < members.len() implies order::key_le(
                member_key()(#[trigger] members[a]),
                member_key()(#[trigger] members[b]),
            ) by {
                if b == i && a < i - 1 {
                    assert(order::key_le(member_key()(members[a]), member_key()(members[i - 1])));
                    order::lemma_key_transitive(
                        member_key()(members[a]),
                        member_key()(members[i - 1]),
                        member_key()(members[i as int]),
                    );
                }
            }
        }
        i = i + 1;
    }
    true
}

/// Packs members with the texts of their scores in the given order.
fn encode_zset_score_listpack_blob(
    members: &[(Vec<u8>, RdbScore)],
    sequence: &Vec<usize>,
    Ghost(sorted): Ghost<Seq<(Seq<u8>, ScoreView)>>,
) -> (r: Option<Vec<u8>>)
    requires
        sequence@.len() == sorted.len(),
        forall|k: int|
            0 <= k < sequence@.len() ==> (#[trigger] sequence@[k]) < members@.len() && sorted[k]
                == rdb_types::member_views(members@)[sequence@[k] as int],
    ensures
        match r {
            Some(payload) => pack_payload(interleaved(scored(sorted))) == Some(payload@),
            None => pack_payload(interleaved(scored(sorted))) is None,
        },
{
    let ghost all = rdb_types::member_views(members@);
    let ghost pairs = scored(sorted);
    let mut texts: Vec<Vec<u8>> = Vec::new();
    let mut k: usize = 0;
    while k < sequence.len()
        invariant
            k <= sequence@.len() == sorted.len(),
            all == rdb_types::member_views(members@),
            texts@.len() == k,
            forall|k: int|
                0 <= k < sequence@.len() ==> (#[trigger] sequence@[k]) < members@.len()
                    && sorted[k] == all[sequence@[k] as int],
            forall|j: int| 0 <= j < k ==> (#[trigger] texts@[j])@ == score_text(sorted[j].1),
        decreases sequence@.len() - k,
    {
        let at: usize = sequence[k];
        assert(all[at as int] == (members@[at as int].0@, members@[at as int].1@));
        texts.push(zset_score_text(&members[at].1));
        k = k + 1;
    }
    let mut items: Vec<&[u8]> = Vec::new();
    let mut i: usize = 0;
    assert(pairs.take(0) =~= Seq::empty());
    assert(listpack_encode::slice_views(items@) =~= Seq::empty());
    while i < sequence.len()
        invariant
            i <= sequence@.len() == sorted.len() == texts@.len(),
            all == rdb_types::member_views(members@),
            pairs == scored(sorted),
            forall|k: int|
                0 <= k < sequence@.len() ==> (#[trigger] sequence@[k]) < members@.len()
                    && sorted[k] == all[sequence@[k] as int],
            forall|j: int|
                0 <= j < texts@.len() ==> (#[trigger] texts@[j])@ == score_text(sorted[j].1),
            listpack_encode::slice_views(items@) == interleaved(pairs.take(i as int)),
        decreases sequence@.len() - i,
    {
        let at: usize = sequence[i];
        assert(all[at as int] == (members@[at as int].0@, members@[at as int].1@));
        let ghost before = listpack_encode::slice_views(items@);
        items.push(members[at].0.as_slice());
        items.push(texts[i].as_slice());
        proof {
            let now = pairs.take(i as int + 1);
            assert(now.drop_last() =~= pairs.take(i as int));
            assert(now.last() == (members@[at as int].0@, texts@[i as int]@));
            assert(listpack_encode::slice_views(items@) =~= before.push(
                members@[at as int].0@,
            ).push(texts@[i as int]@));
        }
        i = i + 1;
    }
    assert(pairs.take(i as int) =~= pairs);
    stored_pack(encode_listpack_strings_blob(items.as_slice()))
}

/// A sorted set as a pack, where it is small enough and no score is a NaN. The scores are
/// doubles, with their texts where the set goes into a pack.
pub fn encode_compact_zset_listpack(
    members: &[(Vec<u8>, RdbScore)],
    thresholds: &CompactRdbThresholds,
) -> (r: Option<Vec<u8>>)
    requires
        zset_writable(rdb_types::member_views(members@), Some(*thresholds)),
    ensures
        match r {
            Some(payload) => zset_payload(rdb_types::member_views(members@), *thresholds) == Some(
                payload@,
            ),
            None => zset_payload(rdb_types::member_views(members@), *thresholds) is None,
        },
{
    let ghost all = rdb_types::member_views(members@);
    if members.len() > thresholds.zset_max_listpack_entries {
        return None;
    }
    let mut keys: Vec<SortKey> = Vec::new();
    let mut sequence: Vec<usize> = Vec::new();
    let mut i: usize = 0;
    while i < members.len()
        invariant
            i <= members@.len(),
            all == rdb_types::member_views(members@),
            keys@.len() == i,
            sequence@.len() == i,
            forall|j: int|
                0 <= j < i ==> {
                    &&& (#[trigger] keys@[j])@ == member_key()(all[j])
                    &&& all[j].0.len() <= thresholds.zset_max_listpack_value
                    &&& !is_nan_score(all[j].1)
                    &&& sequence@[j] == j
                },
        decreases members@.len() - i,
    {
        let member = &members[i];
        assert(all[i as int] == (member.0@, member.1@));
        assert(names_of(all)[i as int] == member.0@);
        if member.0.len() > thresholds.zset_max_listpack_value {
            return None;
        }
        if zset_score_is_nan(&member.1) {
            return None;
        }
        keys.push(
            SortKey { major: zset_score_rank(&member.1), minor: 0, bytes: member.0.as_slice() },
        );
        sequence.push(i);
        assert(keys@[i as int]@ =~= member_key()(all[i as int]));
        i = i + 1;
    }
    proof {
        assert forall|j: int| 0 <= j < all.len() implies !is_nan_score(
            (#[trigger] all[j]).1,
        ) by {
            assert(keys@[j]@ == member_key()(all[j]));
        }
        assert forall|j: int| 0 <= j < names_of(all).len() implies (#[trigger] names_of(
            all,
        )[j]).len() <= thresholds.zset_max_listpack_value by {
            assert(keys@[j]@ == member_key()(all[j]));
        }
    }
    let ghost sorted = order::sorted_by(all, member_key());
    if zset_members_are_sorted(&keys, Ghost(all)) {
        proof {
            order::law_sorted_is_kept(all, member_key());
            assert forall|k: int| 0 <= k < sequence@.len() implies (#[trigger] sequence@[k]) == k by {
                assert(keys@[k]@ == member_key()(all[k]));
            }
        }
        return encode_zset_score_listpack_blob(members, &sequence, Ghost(sorted));
    }
    let sequence: Vec<usize> = order_of(keys.as_slice());
    proof {
        assert(order::key_views(keys@) =~= all.map_values(member_key()));
        order::lemma_sorted_by_len(all, member_key());
        assert forall|k: int| 0 <= k < sequence@.len() implies sorted[k]
            == all[#[trigger] sequence@[k] as int] by {
            let o = order::stable_order(all.map_values(member_key()));
            assert(o[k] == sequence@.map_values(|i: usize| i as int)[k]);
        }
    }
    encode_zset_score_listpack_blob(members, &sequence, Ghost(sorted))
}

// ---------------------------------------------------------------------------
// Lists
// ---------------------------------------------------------------------------

/// The number of nodes that a list is stored in.
pub fn quicklist2_node_count(items: &[Vec<u8>], budget: usize) -> (n: u64)
    ensures
        n == list_nodes(bytes::views(items@), budget as nat).len(),
{
    let ghost all = bytes::views(items@);
    let ghost mut split = split_upto(all, 0, budget as nat);
    let mut nodes: u64 = 0;
    let mut open: bool = false;
    let mut size: u128 = LISTPACK_BLOB_OVERHEAD as u128;
    let mut i: usize = 0;
    while i < items.len()
        invariant
            i <= items@.len(),
            all == bytes::views(items@),
            split == split_upto(all, i as nat, budget as nat),
            nodes == split.nodes.len(),
            open == (split.items.len() > 0),
            nodes + (if open {
                1int
            } else {
                0
            }) <= i,
            size == split.size,
            size <= LISTPACK_BLOB_OVERHEAD + i * 0x1_0000_0000,
        decreases items@.len() - i,
    {
        let item: &[u8] = items[i].as_slice();
        assert(all[i as int] == item@);
        if item.len() >= QUICKLIST_PACKED_THRESHOLD {
            if open {
                nodes = nodes + 1;
                open = false;
            }
            nodes = nodes + 1;
            size = LISTPACK_BLOB_OVERHEAD as u128;
        } else {
            let n: usize = listpack_entry_encoded_len(item);
            proof {
                lemma_entry_small(item@);
            }
            if open && size + n as u128 > budget as u128 {
                nodes = nodes + 1;
                size = LISTPACK_BLOB_OVERHEAD as u128;
            }
            open = true;
            size = size + n as u128;
        }
        proof {
            split = split_upto(all, (i + 1) as nat, budget as nat);
        }
        i = i + 1;
    }
    if open {
        nodes = nodes + 1;
    }
    nodes
}

proof fn lemma_entry_small(s: Seq<u8>)
    requires
        s.len() < QUICKLIST_PACKED_THRESHOLD,
    ensures
        listpack_encode::packed_entry(s).len() <= 0x1_0000_0000,
{
    if listpack_encode::is_integer_text(s) {
        listpack_encode::lemma_integer_data_len(listpack_encode::integer_of(s));
    } else {
        listpack_encode::lemma_text_data_len(s);
    }
    listpack::lemma_backlen_len(listpack_encode::entry_data(s).len() as int);
}

/// Appends the open pack as a node. `None` if it cannot be built.
fn flush_pack(buf: &mut Vec<u8>, items: &Vec<&[u8]>) -> (r: Option<()>)
    ensures
        match listpack_encode::pack_of(listpack_encode::slice_views(items@)) {
            Some(pack) => r is Some && final(buf)@ == old(buf)@ + (rdb_wire::length_bytes(2)
                + rdb_wire::string_bytes(pack)),
            None => r is None,
        },
{
    match encode_listpack_strings_blob(items.as_slice()) {
        None => None,
        Some(pack) => {
            rdb_encode_length(buf, 2);
            rdb_encode_string(buf, pack.as_slice());
            assert(buf@ =~= old(buf)@ + (rdb_wire::length_bytes(2) + rdb_wire::string_bytes(pack@)));
            Some(())
        },
    }
}

/// Nodes, once finished, stay.
proof fn lemma_nodes_stay(items: Seq<Seq<u8>>, k: nat, n: nat, budget: nat, i: int)
    requires
        k <= n <= items.len(),
        0 <= i < split_upto(items, k, budget).nodes.len(),
    ensures
        i < split_upto(items, n, budget).nodes.len(),
        split_upto(items, n, budget).nodes[i] == split_upto(items, k, budget).nodes[i],
    decreases n,
{
    if k < n {
        lemma_nodes_stay(items, k, (n - 1) as nat, budget, i);
    }
}

proof fn lemma_node_unbuildable(items: Seq<Seq<u8>>, k: nat, budget: nat, i: int)
    requires
        k <= items.len(),
        0 <= i < split_upto(items, k, budget).nodes.len(),
        !node_packs(split_upto(items, k, budget).nodes[i]),
    ensures
        !all_pack(list_nodes(items, budget)),
{
    lemma_nodes_stay(items, k, items.len(), budget, i);
    let nodes = list_nodes(items, budget);
    assert(nodes[i] == split_upto(items, k, budget).nodes[i]);
}

/// One more node behind others.
proof fn lemma_node_pushed(head: Seq<u8>, nodes: Seq<ListNode>, node: ListNode)
    requires
        all_pack(nodes),
        node_packs(node),
    ensures
        head + bytes::concat_all(list_node_encoder(), nodes) + list_node_bytes(node) == head
            + bytes::concat_all(list_node_encoder(), nodes.push(node)),
        all_pack(nodes.push(node)),
{
    let e = list_node_encoder();
    bytes::lemma_concat_push(e, nodes, node);
    bytes::lemma_add_assoc(head, bytes::concat_all(e, nodes), e(node));
}

/// What is written of a list, and what is not yet, stand for a split of it.
spec fn writes(buf: Seq<u8>, packed: Seq<&[u8]>, size: u128, head: Seq<u8>, split: ListSplit) -> bool {
    &&& buf == head + bytes::concat_all(list_node_encoder(), split.nodes)
    &&& all_pack(split.nodes)
    &&& listpack_encode::slice_views(packed) == split.items
    &&& size == split.size
}

/// Closes the open pack.
fn close_pack<'a>(
    buf: &mut Vec<u8>,
    packed: &mut Vec<&'a [u8]>,
    size: &mut u128,
    Ghost(head): Ghost<Seq<u8>>,
    Ghost(split): Ghost<ListSplit>,
) -> (r: Option<()>)
    requires
        writes(old(buf)@, old(packed)@, *old(size), head, split),
    ensures
        match r {
            Some(_) => writes(
                final(buf)@,
                final(packed)@,
                *final(size),
                head,
                split_closed(split),
            ),
            None => split.items.len() > 0 && !node_packs(ListNode::Packed(split.items)),
        },
{
    assert(split.items.len() == packed@.len());
    if packed.len() > 0 {
        match flush_pack(buf, packed) {
            None => {
                return None;
            },
            Some(()) => {},
        }
        proof {
            lemma_node_pushed(head, split.nodes, ListNode::Packed(split.items));
        }
        *packed = Vec::new();
    }
    *size = LISTPACK_BLOB_OVERHEAD as u128;
    assert(listpack_encode::slice_views(packed@) =~= Seq::empty());
    Some(())
}

/// Appends a large item as a node by itself.
fn push_plain<'a>(
    buf: &mut Vec<u8>,
    packed: &Vec<&'a [u8]>,
    size: u128,
    item: &'a [u8],
    Ghost(head): Ghost<Seq<u8>>,
    Ghost(split): Ghost<ListSplit>,
)
    requires
        writes(old(buf)@, packed@, size, head, split),
    ensures
        writes(
            final(buf)@,
            packed@,
            size,
            head,
            (ListSplit { nodes: split.nodes.push(ListNode::Plain(item@)), ..split }),
        ),
{
    rdb_encode_length(buf, 1);
    rdb_encode_string(buf, item);
    proof {
        assert(buf@ =~= old(buf)@ + list_node_bytes(ListNode::Plain(item@)));
        lemma_node_pushed(head, split.nodes, ListNode::Plain(item@));
    }
}

/// Appends one item to a list that is being split.
fn push_list_item<'a>(
    buf: &mut Vec<u8>,
    packed: &mut Vec<&'a [u8]>,
    size: &mut u128,
    item: &'a [u8],
    budget: usize,
    Ghost(head): Ghost<Seq<u8>>,
    Ghost(split): Ghost<ListSplit>,
) -> (r: Option<()>)
    requires
        writes(old(buf)@, old(packed)@, *old(size), head, split),
        LISTPACK_BLOB_OVERHEAD <= *old(size) <= 0x1_0000_0000_0000_0000_0000_0000,
    ensures
        ({
            let more = split_more(split, item@, budget as nat);
            match r {
                Some(_) => {
                    &&& writes(final(buf)@, final(packed)@, *final(size), head, more)
                    &&& LISTPACK_BLOB_OVERHEAD <= *final(size) <= *old(size) + 0x1_0000_0000
                },
                None => more.nodes.len() > split.nodes.len() && !node_packs(
                    more.nodes[split.nodes.len() as int],
                ),
            }
        }),
{
    assert(split.items.len() == packed@.len());
    if item.len() >= QUICKLIST_PACKED_THRESHOLD {
        match close_pack(buf, packed, size, Ghost(head), Ghost(split)) {
            None => {
                return None;
            },
            Some(()) => {},
        }
        push_plain(buf, packed, *size, item, Ghost(head), Ghost(split_closed(split)));
        return Some(());
    }
    let n: usize = listpack_entry_encoded_len(item);
    proof {
        lemma_entry_small(item@);
    }
    if packed.len() > 0 && *size + n as u128 > budget as u128 {
        match close_pack(buf, packed, size, Ghost(head), Ghost(split)) {
            None => {
                return None;
            },
            Some(()) => {},
        }
    }
    let ghost before = listpack_encode::slice_views(packed@);
    packed.push(item);
    *size = *size + n as u128;
    assert(listpack_encode::slice_views(packed@) =~= before.push(item@));
    Some(())
}

/// A list as packs of at most the given size each, where they can be built.
pub fn encode_compact_list_quicklist2(items: &[Vec<u8>], thresholds: &CompactRdbThresholds) -> (r:
    Option<Vec<u8>>)
    ensures
        match r {
            Some(payload) => list_payload(bytes::views(items@), *thresholds) == Some(payload@),
            None => list_payload(bytes::views(items@), *thresholds) is None,
        },
{
    let ghost all = bytes::views(items@);
    if items.len() == 0 {
        return None;
    }
    let budget: usize = thresholds.list_max_listpack_size;
    let mut buf: Vec<u8> = Vec::new();
    let count: u64 = quicklist2_node_count(items, budget);
    encode_number(&mut buf, count);
    let ghost head = buf@;
    let mut packed: Vec<&[u8]> = Vec::new();
    let mut size: u128 = LISTPACK_BLOB_OVERHEAD as u128;
    let mut i: usize = 0;
    proof {
        assert(head =~= rdb_wire::length_bytes(list_nodes(all, budget as nat).len()));
        assert(head + bytes::concat_all(list_node_encoder(), Seq::<ListNode>::empty()) =~= head);
        assert(listpack_encode::slice_views(packed@) =~= Seq::empty());
    }
    while i < items.len()
        invariant
            i <= items@.len() <= usize::MAX,
            all == bytes::views(items@),
            all.len() > 0,
            budget == thresholds.list_max_listpack_size,
            writes(buf@, packed@, size, head, split_upto(all, i as nat, budget as nat)),
            LISTPACK_BLOB_OVERHEAD <= size <= LISTPACK_BLOB_OVERHEAD + i * 0x1_0000_0000,
        decreases items@.len() - i,
    {
        let ghost split = split_upto(all, i as nat, budget as nat);
        assert(all[i as int] == items@[i as int]@);
        let r: Option<()> = push_list_item(
            &mut buf,
            &mut packed,
            &mut size,
            items[i].as_slice(),
            budget,
            Ghost(head),
            Ghost(split),
        );
        proof {
            assert(split_upto(all, (i + 1) as nat, budget as nat) == split_more(
                split,
                all[i as int],
                budget as nat,
            ));
        }
        if r.is_none() {
            proof {
                lemma_node_unbuildable(
                    all,
                    (i + 1) as nat,
                    budget as nat,
                    split.nodes.len() as int,
                );
            }
            return None;
        }
        i = i + 1;
    }
    let ghost split = split_upto(all, all.len(), budget as nat);
    match close_pack(&mut buf, &mut packed, &mut size, Ghost(head), Ghost(split)) {
        None => {
            proof {
                let nodes = list_nodes(all, budget as nat);
                assert(!node_packs(nodes[split.nodes.len() as int]));
            }
            None
        },
        Some(()) => Some(buf),
    }
}

/// A pack has the frame of one: it ends with the terminator, and its header gives its
/// length.
pub fn listpack_blob_header_matches(blob: &[u8]) -> (r: bool)
    ensures
        r == (blob@.len() >= LISTPACK_HEADER_SIZE + 1 && blob@.last() == LISTPACK_EOF
            && bytes::le_at(blob@, 0, 4) == blob@.len()),
{
    let len: usize = blob.len();
    if len < LISTPACK_HEADER_SIZE + 1 || blob[len - 1] != LISTPACK_EOF {
        return false;
    }
    read_le(blob, 0, 4) == len as u64
}

/// Ready packs as a list.
pub fn encode_quicklist2_packed_payload(nodes: &[Vec<u8>]) -> (buf: Vec<u8>)
    ensures
        buf@ == packed_list_payload(bytes::views(nodes@)),
{
    let ghost all = bytes::views(nodes@);
    let ghost e = packed_node_encoder();
    let mut buf: Vec<u8> = Vec::new();
    rdb_encode_length(&mut buf, nodes.len());
    let ghost head = buf@;
    let mut i: usize = 0;
    proof {
        assert(all.take(0) =~= Seq::empty());
        assert(head =~= rdb_wire::length_bytes(all.len()));
        assert(head + bytes::concat_all(e, all.take(0)) =~= head);
    }
    while i < nodes.len()
        invariant
            i <= nodes@.len(),
            all == bytes::views(nodes@),
            e == packed_node_encoder(),
            buf@ == head + bytes::concat_all(e, all.take(i as int)),
        decreases nodes@.len() - i,
    {
        let ghost before = buf@;
        rdb_encode_length(&mut buf, 2);
        rdb_encode_string(&mut buf, nodes[i].as_slice());
        proof {
            assert(buf@ =~= before + e(all[i as int]));
            bytes::lemma_concat_take(e, all, i as int);
            bytes::lemma_add_assoc(head, bytes::concat_all(e, all.take(i as int)), e(all[i as int]));
        }
        i = i + 1;
    }
    assert(all.take(i as int) =~= all);
    buf
}

} // verus!
