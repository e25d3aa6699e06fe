//! Stream entries in packs.
//!
//! A node holds consecutive entries in one pack. The first entry is the master: the
//! pack opens with the number of live and of deleted entries and the master's field
//! names. Each entry then gives its flags, its id relative to the master's, its
//! values, its field names where they are not the master's, and the number of
//! pieces it takes.

use vstd::prelude::*;

use crate::bytes;
use crate::bytes::{bytes_equal, to_signed};
use crate::listpack;
use crate::listpack::{LpValue, LISTPACK_HEADER_SIZE};
use crate::listpack_encode;
use crate::listpack_encode::{
    encode_listpack_entry, encode_listpack_integer_entry, finish_listpack_blob,
    LISTPACK_BLOB_OVERHEAD,
};
use crate::rdb_types;
use crate::rdb_types::{EntryView, FieldView, StreamEntry};

verus! {

/// Flag of a deleted entry.
pub const STREAM_ITEM_FLAG_DELETED: i64 = 1;

/// Flag of an entry whose field names are the master's.
pub const STREAM_ITEM_FLAG_SAMEFIELDS: i64 = 2;

/// A node is closed once an entry would bring it to this many bytes.
pub const STREAM_NODE_MAX_BYTES: usize = 4096;

/// A node is closed once it holds this many entries.
pub const STREAM_NODE_MAX_ENTRIES: usize = 100;

// ---------------------------------------------------------------------------
// Pieces
// ---------------------------------------------------------------------------

/// A piece of a pack: an integer, or a byte string.
pub enum LpItem {
    Int(int),
    Bytes(Seq<u8>),
}

/// The entry of a piece.
pub open spec fn item_bytes(item: LpItem) -> Seq<u8> {
    match item {
        LpItem::Int(v) => listpack_encode::with_trailer(listpack_encode::integer_data(v)),
        LpItem::Bytes(s) => listpack_encode::packed_entry(s),
    }
}

/// The entry of a piece, as a function value.
pub open spec fn item_encoder() -> spec_fn(LpItem) -> Seq<u8> {
    |item: LpItem| item_bytes(item)
}

/// The value stands for the piece.
pub open spec fn value_is_item(data: Seq<u8>, v: LpValue, item: LpItem) -> bool {
    match item {
        LpItem::Int(n) => v == LpValue::Integer(n),
        LpItem::Bytes(s) => listpack::value_bytes(data, v) == s && listpack::value_fits(data, v),
    }
}

/// The pack of a sequence of pieces, if its length fits the header.
pub open spec fn item_pack(items: Seq<LpItem>) -> Option<Seq<u8>> {
    listpack_encode::framed(bytes::concat_all(item_encoder(), items), items.len())
}

/// Integers fit.
pub open spec fn item_fits(item: LpItem) -> bool {
    item matches LpItem::Int(v) ==> i64::MIN <= v <= i64::MAX
}

proof fn lemma_item_step(data: Seq<u8>, pos: int, end: int, found: Seq<LpValue>, item: LpItem)
    requires
        data.len() <= u32::MAX,
        item_fits(item),
        bytes::has_at(data, pos, item_bytes(item)),
        pos + item_bytes(item).len() <= end <= data.len(),
    ensures
        listpack::walk(data, pos, end, found) == listpack::walk(
            data,
            pos + item_bytes(item).len(),
            end,
            found.push(listpack_encode::value_at(data, pos)),
        ),
        value_is_item(data, listpack_encode::value_at(data, pos), item),
{
    match item {
        LpItem::Int(v) => {
            listpack_encode::lemma_integer_reads_back(data, pos, v);
            listpack::lemma_entry_at(data, pos);
        },
        LpItem::Bytes(s) => {
            listpack_encode::lemma_walk_step(data, pos, end, found, s);
            listpack_encode::lemma_entry_reads_back(data, pos, s);
            listpack::lemma_entry_at(data, pos);
        },
    }
}

/// The values of pieces that stand one behind the other from `pos` on.
pub open spec fn item_values(data: Seq<u8>, pos: int, items: Seq<LpItem>) -> Seq<LpValue> {
    Seq::new(
        items.len(),
        |k: int|
            listpack_encode::value_at(
                data,
                pos + bytes::concat_all(item_encoder(), items.take(k)).len(),
            ),
    )
}

proof fn lemma_item_prefix(items: Seq<LpItem>, k: int)
    requires
        0 <= k <= items.len(),
    ensures
        bytes::concat_all(item_encoder(), items) == bytes::concat_all(item_encoder(), items.take(k))
            + bytes::concat_all(item_encoder(), items.skip(k)),
{
    bytes::lemma_concat_append(item_encoder(), items.take(k), items.skip(k));
    assert(items.take(k) + items.skip(k) =~= items);
}

proof fn lemma_item_walk(
    data: Seq<u8>,
    pos: int,
    end: int,
    items: Seq<LpItem>,
    k: nat,
)
    requires
        data.len() <= u32::MAX,
        end <= data.len(),
        k <= items.len(),
        forall|i: int| 0 <= i < items.len() ==> item_fits(#[trigger] items[i]),
        bytes::has_at(data, pos, bytes::concat_all(item_encoder(), items)),
        pos + bytes::concat_all(item_encoder(), items).len() <= end,
    ensures
        listpack::walk(data, pos, end, Seq::empty()) == listpack::walk(
            data,
            pos + bytes::concat_all(item_encoder(), items.take(k as int)).len(),
            end,
            item_values(data, pos, items).take(k as int),
        ),
        forall|i: int|
            0 <= i < k ==> value_is_item(data, #[trigger] item_values(data, pos, items)[i], items[i]),
    decreases k,
{
    let e = item_encoder();
    let vals = item_values(data, pos, items);
    if k == 0 {
        assert(items.take(0) =~= Seq::empty());
        assert(vals.take(0) =~= Seq::empty());
    } else {
        let j = (k - 1) as nat;
        lemma_item_walk(data, pos, end, items, j);
        lemma_item_prefix(items, k as int);
        bytes::lemma_concat_take(e, items, j as int);
        let front = bytes::concat_all(e, items.take(j as int));
        let upto = bytes::concat_all(e, items.take(k as int));
        bytes::lemma_has_at_concat(data, pos, upto, bytes::concat_all(e, items.skip(k as int)));
        bytes::lemma_has_at_concat(data, pos, front, item_bytes(items[j as int]));
        let here = pos + front.len();
        lemma_item_step(data, here, end, vals.take(j as int), items[j as int]);
        assert(vals[j as int] == listpack_encode::value_at(data, here));
        assert(vals.take(j as int).push(vals[j as int]) =~= vals.take(k as int));
    }
}

/// A pack of pieces is read back as values that stand for the pieces.
pub proof fn law_item_pack_round_trip(items: Seq<LpItem>)
    requires
        forall|i: int| 0 <= i < items.len() ==> item_fits(#[trigger] items[i]),
    ensures
        item_pack(items) matches Some(blob) ==> listpack::values_of(blob) matches Ok(values)
            && values.len() == items.len() && forall|i: int|
            0 <= i < items.len() ==> value_is_item(blob, #[trigger] values[i], items[i]),
{
    if let Some(blob) = item_pack(items) {
        let body = bytes::concat_all(item_encoder(), items);
        listpack_encode::lemma_framed_parts(body, items.len(), blob);
        let start = LISTPACK_HEADER_SIZE as int;
        lemma_item_walk(blob, start, blob.len() - 1, items, items.len());
        assert(items.take(items.len() as int) =~= items);
        let values = item_values(blob, start, items);
        assert(values.take(items.len() as int) =~= values);
        listpack_encode::lemma_framed_values(body, items.len(), blob, values);
    }
}

/// No pack holds a string that is too long.
pub proof fn lemma_unpackable_item(items: Seq<LpItem>, i: int, s: Seq<u8>)
    requires
        0 <= i < items.len(),
        items[i] == LpItem::Bytes(s),
        !listpack_encode::packable(s),
    ensures
        item_pack(items) is None,
{
    bytes::lemma_concat_part(item_encoder(), items, i);
    listpack_encode::lemma_unpackable_entry(s);
}

/// Every piece takes at least two bytes.
pub proof fn lemma_item_count(items: Seq<LpItem>)
    ensures
        2 * items.len() <= bytes::concat_all(item_encoder(), items).len(),
    decreases items.len(),
{
    if items.len() > 0 {
        lemma_item_count(items.drop_last());
        let item = items.last();
        match item {
            LpItem::Int(v) => {
                listpack_encode::lemma_integer_data_len(v);
                listpack::lemma_backlen_len(listpack_encode::integer_data(v).len() as int);
            },
            LpItem::Bytes(s) => {
                listpack_encode::lemma_text_data_len(s);
                listpack_encode::lemma_integer_data_len(listpack_encode::integer_of(s));
                listpack::lemma_backlen_len(listpack_encode::entry_data(s).len() as int);
            },
        }
    }
}

// ---------------------------------------------------------------------------
// Nodes
// ---------------------------------------------------------------------------

/// The field names of two entries are the same, in the same order.
pub open spec fn same_fields(master: EntryView, e: EntryView) -> bool {
    &&& e.fields.len() == master.fields.len()
    &&& forall|i: int| 0 <= i < e.fields.len() ==> (#[trigger] e.fields[i]).0 == master.fields[i].0
}

/// The difference of two id halves, wrapped to 64 bits and read as signed.
pub open spec fn id_delta(a: u64, b: u64) -> int {
    bytes::signed(((a - b) % 0x1_0000_0000_0000_0000) as nat, 8)
}

/// The field names as pieces.
pub open spec fn name_items(fields: Seq<FieldView>) -> Seq<LpItem> {
    fields.map_values(|f: FieldView| LpItem::Bytes(f.0))
}

/// The values as pieces.
pub open spec fn value_items(fields: Seq<FieldView>) -> Seq<LpItem> {
    fields.map_values(|f: FieldView| LpItem::Bytes(f.1))
}

/// The field names, each with its value, as pieces.
pub open spec fn field_items(fields: Seq<FieldView>) -> Seq<LpItem> {
    Seq::new(
        2 * fields.len(),
        |i: int|
            if i % 2 == 0 {
                LpItem::Bytes(fields[i / 2].0)
            } else {
                LpItem::Bytes(fields[i / 2].1)
            },
    )
}

/// The pieces of an entry under a master.
pub open spec fn entry_items(master: EntryView, e: EntryView) -> Seq<LpItem> {
    let ms = LpItem::Int(id_delta(e.ms, master.ms));
    let seq = LpItem::Int(id_delta(e.seq, master.seq));
    let n = e.fields.len() as int;
    if same_fields(master, e) {
        seq![LpItem::Int(2), ms, seq] + value_items(e.fields) + seq![LpItem::Int(n + 3)]
    } else {
        seq![LpItem::Int(0), ms, seq, LpItem::Int(n)] + field_items(e.fields) + seq![
            LpItem::Int(2 * n + 4),
        ]
    }
}

/// The pieces that open a node of `count` live entries.
pub open spec fn master_items(master: EntryView, count: int) -> Seq<LpItem> {
    seq![LpItem::Int(count), LpItem::Int(0), LpItem::Int(master.fields.len() as int)] + name_items(
        master.fields,
    ) + seq![LpItem::Int(0)]
}

/// The pieces of the first `k` entries of a node.
pub open spec fn member_items(node: Seq<EntryView>, k: nat) -> Seq<LpItem>
    decreases k,
{
    if k == 0 {
        Seq::empty()
    } else {
        member_items(node, (k - 1) as nat) + entry_items(node[0], node[k - 1])
    }
}

/// The pieces of a node.
pub open spec fn node_items(node: Seq<EntryView>) -> Seq<LpItem> {
    master_items(node[0], node.len() as int) + member_items(node, node.len())
}

/// The pack of a node, if its length fits the header.
pub open spec fn node_pack(node: Seq<EntryView>) -> Option<Seq<u8>> {
    item_pack(node_items(node))
}

/// The length of the pack of a node.
pub open spec fn node_len(node: Seq<EntryView>) -> int {
    bytes::concat_all(item_encoder(), node_items(node)).len() + LISTPACK_BLOB_OVERHEAD
}

/// The bytes of the first `k` field names and values.
pub open spec fn payload_len_upto(fields: Seq<FieldView>, k: nat) -> int
    decreases k,
{
    if k == 0 {
        0
    } else {
        payload_len_upto(fields, (k - 1) as nat) + fields[k - 1].0.len() + fields[k - 1].1.len()
    }
}

/// The bytes of the field names and values of an entry.
pub open spec fn payload_len(e: EntryView) -> int {
    payload_len_upto(e.fields, e.fields.len())
}

/// The node takes no more entries: it is full, or `e` would make it too large.
pub open spec fn node_closed(node: Seq<EntryView>, e: EntryView) -> bool {
    node_len(node) + payload_len(e) >= STREAM_NODE_MAX_BYTES || node.len()
        >= STREAM_NODE_MAX_ENTRIES
}

/// The nodes of the first `k` entries: each entry joins the last node, or opens a new
/// one if that is closed to it.
pub open spec fn nodes_upto(entries: Seq<EntryView>, k: nat) -> Seq<Seq<EntryView>>
    decreases k,
{
    if k == 0 {
        Seq::empty()
    } else {
        let nodes = nodes_upto(entries, (k - 1) as nat);
        let e = entries[k - 1];
        if nodes.len() == 0 || node_closed(nodes.last(), e) {
            nodes.push(seq![e])
        } else {
            nodes.drop_last().push(nodes.last().push(e))
        }
    }
}

/// The nodes of a stream.
pub open spec fn stream_nodes(entries: Seq<EntryView>) -> Seq<Seq<EntryView>> {
    nodes_upto(entries, entries.len())
}

/// No node is empty, and none holds more than the allowed number of entries.
pub proof fn law_nodes_bounded(entries: Seq<EntryView>, k: nat)
    requires
        k <= entries.len(),
    ensures
        forall|i: int|
            0 <= i < nodes_upto(entries, k).len() ==> 1 <= (#[trigger] nodes_upto(
                entries,
                k,
            )[i]).len() <= STREAM_NODE_MAX_ENTRIES,
        k > 0 ==> nodes_upto(entries, k).len() > 0,
    decreases k,
{
    if k > 0 {
        law_nodes_bounded(entries, (k - 1) as nat);
        let nodes = nodes_upto(entries, (k - 1) as nat);
        let now = nodes_upto(entries, k);
        assert forall|i: int| 0 <= i < now.len() implies 1 <= (#[trigger] now[i]).len()
            <= STREAM_NODE_MAX_ENTRIES by {
            if i < nodes.len() {
                assert(1 <= nodes[i].len() <= STREAM_NODE_MAX_ENTRIES);
            }
        }
    }
}

/// The entries of the nodes, one behind the other.
pub open spec fn flatten(nodes: Seq<Seq<EntryView>>) -> Seq<EntryView>
    decreases nodes.len(),
{
    if nodes.len() == 0 {
        Seq::empty()
    } else {
        flatten(nodes.drop_last()) + nodes.last()
    }
}

/// The nodes hold the entries of the stream, in order.
pub proof fn law_nodes_hold_entries(entries: Seq<EntryView>, k: nat)
    requires
        k <= entries.len(),
    ensures
        flatten(nodes_upto(entries, k)) == entries.take(k as int),
    decreases k,
{
    if k == 0 {
        assert(entries.take(0) =~= Seq::empty());
    } else {
        law_nodes_hold_entries(entries, (k - 1) as nat);
        let nodes = nodes_upto(entries, (k - 1) as nat);
        let e = entries[k - 1];
        assert(entries.take(k as int) =~= entries.take(k - 1).push(e));
        if nodes.len() == 0 || node_closed(nodes.last(), e) {
            assert(nodes.push(seq![e]).drop_last() =~= nodes);
            assert(flatten(nodes) + seq![e] =~= flatten(nodes).push(e));
        } else {
            let now = nodes.drop_last().push(nodes.last().push(e));
            assert(now.drop_last() =~= nodes.drop_last());
            assert(flatten(nodes.drop_last()) + nodes.last().push(e) =~= (flatten(
                nodes.drop_last(),
            ) + nodes.last()).push(e));
        }
    }
}

// ---------------------------------------------------------------------------
// Writing nodes
// ---------------------------------------------------------------------------

/// The entry can be in a pack: its fields are few enough, and its names and values
/// short enough.
pub open spec fn entry_packable(e: EntryView) -> bool {
    &&& e.fields.len() <= u32::MAX
    &&& forall|i: int|
        0 <= i < e.fields.len() ==> listpack_encode::packable((#[trigger] e.fields[i]).0)
            && listpack_encode::packable(e.fields[i].1)
}

/// What borrowed entries say.
pub open spec fn ref_views(entries: Seq<&StreamEntry>) -> Seq<EntryView> {
    entries.map_values(|e: &StreamEntry| rdb_types::entry_view(*e))
}

fn string_packable(s: &[u8]) -> (r: bool)
    ensures
        r == listpack_encode::packable(s@),
{
    s.len() as u64 <= u32::MAX as u64 - 17
}

/// Whether the entry can be in a pack.
pub fn is_entry_packable(e: &StreamEntry) -> (r: bool)
    ensures
        r == entry_packable(rdb_types::entry_view(*e)),
{
    let ghost v = rdb_types::entry_view(*e);
    if e.2.len() as u64 > u32::MAX as u64 {
        return false;
    }
    let mut i: usize = 0;
    while i < e.2.len()
        invariant
            i <= e.2@.len(),
            v == rdb_types::entry_view(*e),
            forall|k: int|
                0 <= k < i ==> listpack_encode::packable((#[trigger] v.fields[k]).0)
                    && listpack_encode::packable(v.fields[k].1),
        decreases e.2@.len() - i,
    {
        assert(v.fields[i as int] == (e.2@[i as int].0@, e.2@[i as int].1@));
        if !string_packable(e.2[i].0.as_slice()) || !string_packable(e.2[i].1.as_slice()) {
            return false;
        }
        i = i + 1;
    }
    true
}

/// Whether the field names of two entries are the same, in the same order.
pub fn entry_same_fields(master: &StreamEntry, e: &StreamEntry) -> (r: bool)
    ensures
        r == same_fields(rdb_types::entry_view(*master), rdb_types::entry_view(*e)),
{
    let ghost m = rdb_types::entry_view(*master);
    let ghost v = rdb_types::entry_view(*e);
    if master.2.len() != e.2.len() {
        return false;
    }
    let mut i: usize = 0;
    while i < e.2.len()
        invariant
            i <= e.2@.len() == master.2@.len(),
            m == rdb_types::entry_view(*master),
            v == rdb_types::entry_view(*e),
            forall|k: int| 0 <= k < i ==> (#[trigger] v.fields[k]).0 == m.fields[k].0,
        decreases e.2@.len() - i,
    {
        assert(v.fields[i as int].0 == e.2@[i as int].0@);
        assert(m.fields[i as int].0 == master.2@[i as int].0@);
        if !bytes_equal(e.2[i].0.as_slice(), master.2[i].0.as_slice()) {
            return false;
        }
        i = i + 1;
    }
    true
}

/// The difference of two id halves, wrapped and read as signed.
fn id_difference(a: u64, b: u64) -> (d: i64)
    ensures
        d == id_delta(a, b),
{
    let wrapped: u64 = if a >= b {
        a - b
    } else {
        u64::MAX - (b - a) + 1
    };
    assert(wrapped == (a - b) % 0x1_0000_0000_0000_0000);
    to_signed(wrapped)
}

fn push_int_item(buf: &mut Vec<u8>, v: i64, Ghost(items): Ghost<Seq<LpItem>>, Ghost(start): Ghost<Seq<u8>>)
    requires
        old(buf)@ == start + bytes::concat_all(item_encoder(), items),
    ensures
        final(buf)@ == start + bytes::concat_all(item_encoder(), items.push(LpItem::Int(v as int))),
{
    encode_listpack_integer_entry(buf, v);
    proof {
        bytes::lemma_concat_push(item_encoder(), items, LpItem::Int(v as int));
        assert(buf@ =~= start + bytes::concat_all(
            item_encoder(),
            items.push(LpItem::Int(v as int)),
        ));
    }
}

fn push_bytes_item(buf: &mut Vec<u8>, s: &[u8], Ghost(items): Ghost<Seq<LpItem>>, Ghost(start): Ghost<Seq<u8>>)
    requires
        old(buf)@ == start + bytes::concat_all(item_encoder(), items),
        listpack_encode::packable(s@),
    ensures
        final(buf)@ == start + bytes::concat_all(item_encoder(), items.push(LpItem::Bytes(s@))),
{
    encode_listpack_entry(buf, s);
    proof {
        bytes::lemma_concat_push(item_encoder(), items, LpItem::Bytes(s@));
        assert(buf@ =~= start + bytes::concat_all(item_encoder(), items.push(LpItem::Bytes(s@))));
    }
}

/// Appends the pieces of an entry under a master.
pub fn append_member(buf: &mut Vec<u8>, master: &StreamEntry, e: &StreamEntry)
    requires
        entry_packable(rdb_types::entry_view(*e)),
    ensures
        final(buf)@ == old(buf)@ + bytes::concat_all(
            item_encoder(),
            entry_items(rdb_types::entry_view(*master), rdb_types::entry_view(*e)),
        ),
{
    let ghost start = buf@;
    let ghost m = rdb_types::entry_view(*master);
    let ghost v = rdb_types::entry_view(*e);
    let same: bool = entry_same_fields(master, e);
    let n: usize = e.2.len();
    let ghost mut items = Seq::<LpItem>::empty();
    assert(buf@ =~= start + bytes::concat_all(item_encoder(), items));
    let flags: i64 = if same {
        STREAM_ITEM_FLAG_SAMEFIELDS
    } else {
        0
    };
    push_int_item(buf, flags, Ghost(items), Ghost(start));
    proof {
        items = items.push(LpItem::Int(flags as int));
    }
    let ms: i64 = id_difference(e.0, master.0);
    push_int_item(buf, ms, Ghost(items), Ghost(start));
    proof {
        items = items.push(LpItem::Int(ms as int));
    }
    let seq: i64 = id_difference(e.1, master.1);
    push_int_item(buf, seq, Ghost(items), Ghost(start));
    proof {
        items = items.push(LpItem::Int(seq as int));
    }
    if !same {
        push_int_item(buf, n as i64, Ghost(items), Ghost(start));
        proof {
            items = items.push(LpItem::Int(n as int));
        }
    }
    let ghost head = items;
    let mut i: usize = 0;
    while i < n
        invariant
            i <= n == e.2@.len(),
            n <= u32::MAX,
            v == rdb_types::entry_view(*e),
            entry_packable(v),
            buf@ == start + bytes::concat_all(item_encoder(), items),
            same ==> items == head + value_items(v.fields).take(i as int),
            !same ==> items == head + field_items(v.fields).take(2 * i),
        decreases n - i,
    {
        assert(v.fields[i as int] == (e.2@[i as int].0@, e.2@[i as int].1@));
        if !same {
            let name: &[u8] = e.2[i].0.as_slice();
            push_bytes_item(buf, name, Ghost(items), Ghost(start));
            proof {
                items = items.push(LpItem::Bytes(name@));
            }
        }
        let value: &[u8] = e.2[i].1.as_slice();
        push_bytes_item(buf, value, Ghost(items), Ghost(start));
        proof {
            items = items.push(LpItem::Bytes(value@));
            if same {
                assert(items =~= head + value_items(v.fields).take(i + 1));
            } else {
                let f = field_items(v.fields);
                assert(2 * i / 2 == i && (2 * i + 1) / 2 == i);
                assert(f[2 * i] == LpItem::Bytes(v.fields[i as int].0));
                assert(f[2 * i + 1] == LpItem::Bytes(v.fields[i as int].1));
                assert(items =~= head + f.take(2 * (i + 1)));
            }
        }
        i = i + 1;
    }
    let pieces: i64 = if same {
        n as i64 + 3
    } else {
        2 * (n as i64) + 4
    };
    push_int_item(buf, pieces, Ghost(items), Ghost(start));
    proof {
        items = items.push(LpItem::Int(pieces as int));
        assert(value_items(v.fields).take(n as int) =~= value_items(v.fields));
        assert(field_items(v.fields).take(2 * n) =~= field_items(v.fields));
        assert(items =~= entry_items(m, v));
    }
}

/// Appends the pieces that open a node of `count` live entries.
fn append_master(buf: &mut Vec<u8>, master: &StreamEntry, count: usize)
    requires
        entry_packable(rdb_types::entry_view(*master)),
        count <= u32::MAX,
    ensures
        final(buf)@ == old(buf)@ + bytes::concat_all(
            item_encoder(),
            master_items(rdb_types::entry_view(*master), count as int),
        ),
{
    let ghost start = buf@;
    let ghost v = rdb_types::entry_view(*master);
    let n: usize = master.2.len();
    let ghost mut items = Seq::<LpItem>::empty();
    assert(buf@ =~= start + bytes::concat_all(item_encoder(), items));
    push_int_item(buf, count as i64, Ghost(items), Ghost(start));
    proof {
        items = items.push(LpItem::Int(count as int));
    }
    push_int_item(buf, 0, Ghost(items), Ghost(start));
    proof {
        items = items.push(LpItem::Int(0));
    }
    push_int_item(buf, n as i64, Ghost(items), Ghost(start));
    proof {
        items = items.push(LpItem::Int(n as int));
    }
    let ghost head = items;
    let mut i: usize = 0;
    while i < n
        invariant
            i <= n == master.2@.len(),
            v == rdb_types::entry_view(*master),
            entry_packable(v),
            buf@ == start + bytes::concat_all(item_encoder(), items),
            items == head + name_items(v.fields).take(i as int),
        decreases n - i,
    {
        assert(v.fields[i as int] == (master.2@[i as int].0@, master.2@[i as int].1@));
        let name: &[u8] = master.2[i].0.as_slice();
        push_bytes_item(buf, name, Ghost(items), Ghost(start));
        proof {
            items = items.push(LpItem::Bytes(name@));
            assert(items =~= head + name_items(v.fields).take(i + 1));
        }
        i = i + 1;
    }
    push_int_item(buf, 0, Ghost(items), Ghost(start));
    proof {
        items = items.push(LpItem::Int(0));
        assert(name_items(v.fields).take(n as int) =~= name_items(v.fields));
        assert(items =~= master_items(v, count as int));
    }
}

proof fn lemma_member_items_front(node: Seq<EntryView>, e: EntryView, k: nat)
    requires
        1 <= node.len(),
        k <= node.len(),
    ensures
        member_items(node.push(e), k) == member_items(node, k),
    decreases k,
{
    if k > 0 {
        lemma_member_items_front(node, e, (k - 1) as nat);
    }
}

proof fn lemma_master_len(m: EntryView, a: int, b: int)
    requires
        0 <= a <= 127,
        0 <= b <= 127,
    ensures
        bytes::concat_all(item_encoder(), master_items(m, a)).len() == bytes::concat_all(
            item_encoder(),
            master_items(m, b),
        ).len(),
{
    let enc = item_encoder();
    let rest = seq![LpItem::Int(0), LpItem::Int(m.fields.len() as int)] + name_items(m.fields)
        + seq![LpItem::Int(0)];
    assert(master_items(m, a) =~= seq![LpItem::Int(a)] + rest);
    assert(master_items(m, b) =~= seq![LpItem::Int(b)] + rest);
    bytes::lemma_concat_append(enc, seq![LpItem::Int(a)], rest);
    bytes::lemma_concat_append(enc, seq![LpItem::Int(b)], rest);
    bytes::lemma_concat_push(enc, Seq::empty(), LpItem::Int(a));
    bytes::lemma_concat_push(enc, Seq::empty(), LpItem::Int(b));
    assert(Seq::<LpItem>::empty().push(LpItem::Int(a)) =~= seq![LpItem::Int(a)]);
    assert(Seq::<LpItem>::empty().push(LpItem::Int(b)) =~= seq![LpItem::Int(b)]);
    assert(bytes::concat_all(enc, seq![LpItem::Int(a)]) =~= item_bytes(LpItem::Int(a)));
    assert(bytes::concat_all(enc, seq![LpItem::Int(b)]) =~= item_bytes(LpItem::Int(b)));
    listpack::lemma_backlen_len(1);
}

/// How the length of a node grows.
proof fn lemma_node_len(node: Seq<EntryView>, e: EntryView)
    ensures
        node_len(seq![e]) == LISTPACK_BLOB_OVERHEAD + bytes::concat_all(
            item_encoder(),
            master_items(e, 1),
        ).len() + bytes::concat_all(item_encoder(), entry_items(e, e)).len(),
        1 <= node.len() < STREAM_NODE_MAX_ENTRIES ==> node_len(node.push(e)) == node_len(node)
            + bytes::concat_all(item_encoder(), entry_items(node[0], e)).len(),
{
    let enc = item_encoder();
    let one = seq![e];
    assert(member_items(one, 0) =~= Seq::empty());
    assert(member_items(one, 1) =~= entry_items(e, e));
    bytes::lemma_concat_append(enc, master_items(e, 1), entry_items(e, e));
    if 1 <= node.len() < STREAM_NODE_MAX_ENTRIES {
        let n = node.len();
        let more = node.push(e);
        lemma_member_items_front(node, e, n);
        bytes::lemma_concat_append(enc, master_items(node[0], n as int), member_items(node, n));
        bytes::lemma_concat_append(
            enc,
            master_items(node[0], n as int + 1),
            member_items(more, (n + 1) as nat),
        );
        bytes::lemma_concat_append(enc, member_items(node, n), entry_items(node[0], e));
        lemma_master_len(node[0], n as int, n as int + 1);
    }
}

proof fn lemma_payload_len_mono(fields: Seq<FieldView>, i: nat, j: nat)
    requires
        i <= j,
    ensures
        0 <= payload_len_upto(fields, i) <= payload_len_upto(fields, j),
    decreases j,
{
    if i < j {
        lemma_payload_len_mono(fields, i, (j - 1) as nat);
    } else if j > 0 {
        lemma_payload_len_mono(fields, (i - 1) as nat, (j - 1) as nat);
    }
}

/// The sum, capped at the size that closes a node.
fn capped_sum(a: usize, b: usize) -> (c: usize)
    ensures
        c == (if a + b >= STREAM_NODE_MAX_BYTES {
            STREAM_NODE_MAX_BYTES as int
        } else {
            a + b
        }),
{
    if a >= STREAM_NODE_MAX_BYTES || b >= STREAM_NODE_MAX_BYTES - a {
        STREAM_NODE_MAX_BYTES
    } else {
        a + b
    }
}

/// The bytes of the field names and values, capped at the size that closes a node.
fn capped_payload(e: &StreamEntry) -> (n: usize)
    ensures
        ({
            let len = payload_len(rdb_types::entry_view(*e));
            n == (if len >= STREAM_NODE_MAX_BYTES {
                STREAM_NODE_MAX_BYTES as int
            } else {
                len
            })
        }),
{
    let ghost v = rdb_types::entry_view(*e);
    let mut n: usize = 0;
    let mut i: usize = 0;
    while i < e.2.len()
        invariant
            i <= e.2@.len(),
            v == rdb_types::entry_view(*e),
            n == (if payload_len_upto(v.fields, i as nat) >= STREAM_NODE_MAX_BYTES {
                STREAM_NODE_MAX_BYTES as int
            } else {
                payload_len_upto(v.fields, i as nat)
            }),
        decreases e.2@.len() - i,
    {
        assert(v.fields[i as int] == (e.2@[i as int].0@, e.2@[i as int].1@));
        proof {
            lemma_payload_len_mono(v.fields, 0, i as nat);
        }
        n = capped_sum(capped_sum(n, e.2[i].0.len()), e.2[i].1.len());
        i = i + 1;
    }
    n
}

/// The offset behind node `i` of nodes that start at the given offsets.
pub open spec fn node_end(starts: Seq<usize>, i: int, total: int) -> int {
    if i + 1 < starts.len() {
        starts[i + 1] as int
    } else {
        total
    }
}

/// The nodes are the runs of entries between the offsets.
pub open spec fn nodes_match(
    entries: Seq<EntryView>,
    starts: Seq<usize>,
    k: int,
    nodes: Seq<Seq<EntryView>>,
) -> bool {
    &&& nodes.len() == starts.len()
    &&& forall|i: int|
        0 <= i < nodes.len() ==> (#[trigger] starts[i]) < node_end(starts, i, k) <= k && nodes[i]
            == entries.subrange(starts[i] as int, node_end(starts, i, k))
}

/// Finds where the nodes of a stream start.
fn split_nodes(entries: &[&StreamEntry]) -> (starts: Vec<usize>)
    requires
        forall|i: int|
            0 <= i < entries@.len() ==> entry_packable(#[trigger] ref_views(entries@)[i]),
    ensures
        nodes_match(
            ref_views(entries@),
            starts@,
            entries@.len() as int,
            stream_nodes(ref_views(entries@)),
        ),
{
    let ghost views = ref_views(entries@);
    let mut starts: Vec<usize> = Vec::new();
    let mut size: usize = 0;
    let mut k: usize = 0;
    while k < entries.len()
        invariant
            k <= entries@.len(),
            views == ref_views(entries@),
            forall|i: int| 0 <= i < entries@.len() ==> entry_packable(#[trigger] views[i]),
            nodes_match(views, starts@, k as int, nodes_upto(views, k as nat)),
            k > 0 ==> starts@.len() > 0,
            starts@.len() > 0 ==> {
                let len = node_len(nodes_upto(views, k as nat).last());
                size == (if len >= STREAM_NODE_MAX_BYTES {
                    STREAM_NODE_MAX_BYTES as int
                } else {
                    len
                })
            },
        decreases entries@.len() - k,
    {
        let e: &StreamEntry = entries[k];
        let ghost nodes = nodes_upto(views, k as nat);
        let ghost before = starts@;
        assert(views[k as int] == rdb_types::entry_view(*e));
        assert(entry_packable(views[k as int]));
        proof {
            law_nodes_bounded(views, k as nat);
        }
        let opens: bool = if starts.len() == 0 {
            true
        } else {
            let last: usize = starts[starts.len() - 1];
            proof {
                lemma_payload_len_mono(views[k as int].fields, 0, views[k as int].fields.len());
                let i = starts@.len() - 1;
                assert(starts@[i] < node_end(starts@, i, k as int) <= k);
                assert(nodes[i] == views.subrange(last as int, k as int));
            }
            capped_sum(size, capped_payload(e)) >= STREAM_NODE_MAX_BYTES || k - last
                >= STREAM_NODE_MAX_ENTRIES
        };
        proof {
            if starts@.len() > 0 {
                assert(opens == node_closed(nodes.last(), views[k as int]));
            }
        }
        let mut piece: Vec<u8> = Vec::new();
        if opens {
            append_master(&mut piece, e, 1);
            append_member(&mut piece, e, e);
            proof {
                lemma_node_len(nodes.last(), views[k as int]);
                let now = nodes.push(seq![views[k as int]]);
                let after = starts@.push(k);
                assert forall|i: int| 0 <= i < now.len() implies (#[trigger] after[i])
                    < node_end(after, i, k + 1) <= k + 1 && now[i] == views.subrange(
                    after[i] as int,
                    node_end(after, i, k + 1),
                ) by {
                    if i < nodes.len() {
                        assert(before[i] < node_end(before, i, k as int) <= k);
                        assert(node_end(after, i, k + 1) == node_end(before, i, k as int));
                    } else {
                        assert(seq![views[k as int]] =~= views.subrange(k as int, k + 1));
                    }
                }
            }
            starts.push(k);
            size = capped_sum(piece.len(), 7);
        } else {
            let last: usize = starts[starts.len() - 1];
            assert(before[before.len() - 1] < node_end(before, before.len() - 1, k as int) <= k);
            let master: &StreamEntry = entries[last];
            append_member(&mut piece, master, e);
            proof {
                let node = nodes.last();
                assert(node == views.subrange(last as int, k as int));
                assert(node[0] == views[last as int]);
                assert(views[last as int] == rdb_types::entry_view(*master));
                lemma_node_len(node, views[k as int]);
                let now = nodes.drop_last().push(node.push(views[k as int]));
                assert(nodes_upto(views, (k + 1) as nat) == now);
                assert forall|i: int| 0 <= i < now.len() implies (#[trigger] before[i])
                    < node_end(before, i, k + 1) <= k + 1 && now[i] == views.subrange(
                    before[i] as int,
                    node_end(before, i, k + 1),
                ) by {
                    assert(before[i] < node_end(before, i, k as int) <= k);
                    if i < nodes.len() - 1 {
                        assert(now[i] == nodes[i]);
                    } else {
                        assert(node.push(views[k as int]) =~= views.subrange(last as int, k + 1));
                    }
                }
            }
            size = capped_sum(size, piece.len());
        }
        k = k + 1;
    }
    starts
}

/// The pack of the node that `entries[start..end]` make, if its length fits the
/// header.
fn encode_node(entries: &[&StreamEntry], start: usize, end: usize) -> (r: Option<Vec<u8>>)
    requires
        start < end <= entries@.len(),
        end - start <= STREAM_NODE_MAX_ENTRIES,
        forall|i: int|
            0 <= i < entries@.len() ==> entry_packable(#[trigger] ref_views(entries@)[i]),
    ensures
        ({
            let node = ref_views(entries@).subrange(start as int, end as int);
            match r {
                Some(blob) => node_pack(node) == Some(blob@),
                None => node_pack(node) is None,
            }
        }),
{
    let ghost views = ref_views(entries@);
    let ghost node = views.subrange(start as int, end as int);
    let ghost enc = item_encoder();
    let ghost head = master_items(node[0], node.len() as int);
    let mut body: Vec<u8> = Vec::new();
    assert(node[0] == views[start as int]);
    assert(entry_packable(views[start as int]));
    append_master(&mut body, entries[start], end - start);
    let mut k: usize = start;
    let mut pieces: u64 = entries[start].2.len() as u64 + 4;
    proof {
        assert(body@ =~= bytes::concat_all(enc, head));
        assert(head + member_items(node, 0) =~= head);
    }
    while k < end
        invariant
            start <= k <= end <= entries@.len(),
            start < end,
            end - start <= STREAM_NODE_MAX_ENTRIES,
            views == ref_views(entries@),
            node == views.subrange(start as int, end as int),
            forall|i: int| 0 <= i < entries@.len() ==> entry_packable(#[trigger] views[i]),
            enc == item_encoder(),
            head == master_items(node[0], node.len() as int),
            body@ == bytes::concat_all(enc, head + member_items(node, (k - start) as nat)),
            pieces == (head + member_items(node, (k - start) as nat)).len(),
            pieces <= (k - start + 1) * 0x3_0000_0000,
        decreases end - k,
    {
        assert(node[0] == views[start as int]);
        assert(node[k - start] == views[k as int]);
        assert(entry_packable(views[k as int]));
        append_member(&mut body, entries[start], entries[k]);
        let n: u64 = entries[k].2.len() as u64;
        pieces = pieces + if entry_same_fields(entries[start], entries[k]) {
            n + 4
        } else {
            2 * n + 5
        };
        proof {
            let j = (k - start) as nat;
            let items = entry_items(node[0], node[k - start]);
            bytes::lemma_concat_append(enc, head + member_items(node, j), items);
            assert(head + member_items(node, j) + items =~= head + member_items(
                node,
                (j + 1) as nat,
            ));
        }
        k = k + 1;
    }
    assert(head + member_items(node, node.len()) == node_items(node));
    finish_listpack_blob(body, pieces)
}

/// Every node can be packed.
pub open spec fn all_packed(nodes: Seq<Seq<EntryView>>) -> bool {
    forall|i: int| 0 <= i < nodes.len() ==> node_pack(#[trigger] nodes[i]) is Some
}

proof fn lemma_flatten_contains(nodes: Seq<Seq<EntryView>>, j: int) -> (r: (int, int))
    requires
        0 <= j < flatten(nodes).len(),
    ensures
        0 <= r.0 < nodes.len(),
        0 <= r.1 < nodes[r.0].len(),
        nodes[r.0][r.1] == flatten(nodes)[j],
    decreases nodes.len(),
{
    let front = flatten(nodes.drop_last());
    if j < front.len() {
        lemma_flatten_contains(nodes.drop_last(), j)
    } else {
        (nodes.len() - 1, j - front.len())
    }
}

proof fn lemma_member_item_at(node: Seq<EntryView>, k: nat, b: int, p: int) -> (q: int)
    requires
        0 <= b < k,
        0 <= p < entry_items(node[0], node[b]).len(),
    ensures
        0 <= q < member_items(node, k).len(),
        member_items(node, k)[q] == entry_items(node[0], node[b])[p],
    decreases k,
{
    let front = member_items(node, (k - 1) as nat);
    if b < k - 1 {
        lemma_member_item_at(node, (k - 1) as nat, b, p)
    } else {
        front.len() + p
    }
}

pub proof fn lemma_unpackable_node(node: Seq<EntryView>, b: int)
    requires
        0 <= b < node.len(),
        !entry_packable(node[b]),
    ensures
        node_pack(node) is None,
{
    let e = node[b];
    let head = master_items(node[0], node.len() as int);
    let items = node_items(node);
    let own = entry_items(node[0], e);
    if e.fields.len() > u32::MAX {
        lemma_member_count(node, node.len(), b);
        lemma_item_count(items);
    } else {
        let i = choose|i: int|
            0 <= i < e.fields.len() && !(listpack_encode::packable((#[trigger] e.fields[i]).0)
                && listpack_encode::packable(e.fields[i].1));
        if same_fields(node[0], e) {
            if !listpack_encode::packable(e.fields[i].1) {
                assert(own[3 + i] == LpItem::Bytes(e.fields[i].1));
                let q = lemma_member_item_at(node, node.len(), b, 3 + i);
                assert(items[head.len() + q] == LpItem::Bytes(e.fields[i].1));
                lemma_unpackable_item(items, head.len() + q, e.fields[i].1);
            } else {
                assert(e.fields[i].0 == node[0].fields[i].0);
                assert(head[3 + i] == LpItem::Bytes(e.fields[i].0));
                assert(items[3 + i] == LpItem::Bytes(e.fields[i].0));
                lemma_unpackable_item(items, 3 + i, e.fields[i].0);
            }
        } else {
            let f = field_items(e.fields);
            assert((2 * i) / 2 == i && (2 * i + 1) / 2 == i);
            if !listpack_encode::packable(e.fields[i].1) {
                assert(f[2 * i + 1] == LpItem::Bytes(e.fields[i].1));
                assert(own[4 + (2 * i + 1)] == f[2 * i + 1]);
                let q = lemma_member_item_at(node, node.len(), b, 4 + (2 * i + 1));
                assert(items[head.len() + q] == LpItem::Bytes(e.fields[i].1));
                lemma_unpackable_item(items, head.len() + q, e.fields[i].1);
            } else {
                assert(f[2 * i] == LpItem::Bytes(e.fields[i].0));
                assert(own[4 + 2 * i] == f[2 * i]);
                let q = lemma_member_item_at(node, node.len(), b, 4 + 2 * i);
                assert(items[head.len() + q] == LpItem::Bytes(e.fields[i].0));
                lemma_unpackable_item(items, head.len() + q, e.fields[i].0);
            }
        }
    }
}

proof fn lemma_member_count(node: Seq<EntryView>, k: nat, b: int)
    requires
        0 <= b < k,
    ensures
        member_items(node, k).len() >= node[b].fields.len(),
    decreases k,
{
    if b < k - 1 {
        lemma_member_count(node, (k - 1) as nat, b);
    }
}

/// A node of a stream: its master's id and its pack.
#[derive(Debug, PartialEq, Eq)]
pub struct StreamNode {
    pub master: (u64, u64),
    pub listpack: Vec<u8>,
}

/// The nodes with their packs.
pub open spec fn node_matches(node: StreamNode, entries: Seq<EntryView>) -> bool {
    &&& node.master == (entries[0].ms, entries[0].seq)
    &&& node_pack(entries) == Some(node.listpack@)
}

/// Packs the entries of a stream into nodes, if every node can be packed.
pub fn pack_stream_nodes(entries: &[&StreamEntry]) -> (r: Option<Vec<StreamNode>>)
    ensures
        ({
            let nodes = stream_nodes(ref_views(entries@));
            match r {
                Some(packed) => {
                    &&& all_packed(nodes)
                    &&& packed@.len() == nodes.len()
                    &&& forall|i: int|
                        0 <= i < nodes.len() ==> node_matches(#[trigger] packed@[i], nodes[i])
                },
                None => !all_packed(nodes),
            }
        }),
{
    let ghost views = ref_views(entries@);
    let ghost nodes = stream_nodes(views);
    let mut k: usize = 0;
    while k < entries.len()
        invariant
            k <= entries@.len(),
            views == ref_views(entries@),
            nodes == stream_nodes(views),
            forall|i: int| 0 <= i < k ==> entry_packable(#[trigger] views[i]),
        decreases entries@.len() - k,
    {
        assert(views[k as int] == rdb_types::entry_view(*entries@[k as int]));
        if !is_entry_packable(entries[k]) {
            proof {
                law_nodes_hold_entries(views, views.len());
                assert(views.take(views.len() as int) =~= views);
                let (a, b) = lemma_flatten_contains(nodes, k as int);
                lemma_unpackable_node(nodes[a], b);
            }
            return None;
        }
        k = k + 1;
    }
    let starts: Vec<usize> = split_nodes(entries);
    let mut packed: Vec<StreamNode> = Vec::new();
    proof {
        law_nodes_bounded(views, views.len());
    }
    let mut i: usize = 0;
    while i < starts.len()
        invariant
            i <= starts@.len(),
            views == ref_views(entries@),
            nodes == stream_nodes(views),
            forall|i: int| 0 <= i < entries@.len() ==> entry_packable(#[trigger] views[i]),
            forall|i: int|
                0 <= i < nodes.len() ==> 1 <= (#[trigger] nodes[i]).len()
                    <= STREAM_NODE_MAX_ENTRIES,
            nodes_match(views, starts@, entries@.len() as int, nodes),
            packed@.len() == i,
            forall|j: int| 0 <= j < i ==> node_matches(#[trigger] packed@[j], nodes[j]),
        decreases starts@.len() - i,
    {
        let start: usize = starts[i];
        let end: usize = if i + 1 < starts.len() {
            starts[i + 1]
        } else {
            entries.len()
        };
        assert(starts@[i as int] < node_end(starts@, i as int, entries@.len() as int)
            <= entries@.len());
        assert(nodes[i as int] == views.subrange(start as int, end as int));
        match encode_node(entries, start, end) {
            None => {
                return None;
            },
            Some(listpack) => {
                let first: &StreamEntry = entries[start];
                assert(nodes[i as int][0] == views[start as int]);
                packed.push(StreamNode { master: (first.0, first.1), listpack });
            },
        }
        i = i + 1;
    }
    proof {
        assert forall|i: int| 0 <= i < nodes.len() implies node_pack(#[trigger] nodes[i]) is Some by {
            assert(node_matches(packed@[i], nodes[i]));
        }
    }
    Some(packed)
}

} // verus!
