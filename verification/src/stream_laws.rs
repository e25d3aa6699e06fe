//! What a stream in packs is read back as.

use vstd::prelude::*;

use crate::bytes;
use crate::listpack;
use crate::listpack::LpValue;
use crate::listpack_encode;
use crate::order;
use crate::rdb_save;
use crate::rdb_stream;
use crate::rdb_stream::{
    NodeView, PelView, SkeletonView, UpstreamStreamError, UPSTREAM_RDB_TYPE_STREAM_LISTPACKS_3,
};
use crate::rdb_types::{
    ConsumerView, EntryView, FieldView, GroupView, PendingView, StreamView, ValueView,
};
use crate::rdb_wire;
use crate::stream_encode;
use crate::stream_node;
use crate::stream_node::{LpItem, STREAM_NODE_MAX_ENTRIES};
use crate::stream_private;
use crate::stream_unpack;
use crate::stream_unpack::Unpacked;

verus! {

// ---------------------------------------------------------------------------
// Nodes
// ---------------------------------------------------------------------------

/// The field names of an entry.
pub open spec fn names_of(e: EntryView) -> Seq<Seq<u8>> {
    e.fields.map_values(|f: FieldView| f.0)
}

/// The values from `i` on stand for the pieces.
spec fn stand_for(blob: Seq<u8>, values: Seq<LpValue>, i: int, items: Seq<LpItem>) -> bool {
    &&& 0 <= i
    &&& i + items.len() <= values.len()
    &&& forall|p: int|
        0 <= p < items.len() ==> stream_node::value_is_item(blob, values[i + p], #[trigger] items[p])
}

proof fn lemma_stand_for_part(
    blob: Seq<u8>,
    values: Seq<LpValue>,
    i: int,
    items: Seq<LpItem>,
    from: int,
    part: Seq<LpItem>,
)
    requires
        stand_for(blob, values, i, items),
        0 <= from,
        from + part.len() <= items.len(),
        items.subrange(from, from + part.len()) == part,
    ensures
        stand_for(blob, values, i + from, part),
{
    assert forall|p: int| 0 <= p < part.len() implies stream_node::value_is_item(
        blob,
        values[i + from + p],
        #[trigger] part[p],
    ) by {
        assert(part[p] == items[from + p]);
    }
}

proof fn lemma_texts_read(
    blob: Seq<u8>,
    values: Seq<LpValue>,
    i: int,
    texts: Seq<Seq<u8>>,
    n: nat,
)
    requires
        0 <= i,
        n <= texts.len(),
        i + texts.len() <= values.len(),
        forall|k: int|
            0 <= k < texts.len() ==> listpack::value_bytes(blob, values[i + k])
                == #[trigger] texts[k],
    ensures
        stream_unpack::text_pieces(blob, values, i, n) == Ok::<Seq<Seq<u8>>, UpstreamStreamError>(
            texts.take(n as int),
        ),
    decreases n,
{
    if n == 0 {
        assert(texts.take(0) =~= Seq::empty());
    } else {
        lemma_texts_read(blob, values, i, texts, (n - 1) as nat);
        assert(texts.take(n as int) =~= texts.take(n - 1).push(texts[n - 1]));
        assert(listpack::value_bytes(blob, values[i + (n - 1)]) == texts[n - 1]);
    }
}

proof fn lemma_fields_read(
    blob: Seq<u8>,
    values: Seq<LpValue>,
    i: int,
    fields: Seq<FieldView>,
    n: nat,
)
    requires
        n <= fields.len(),
        stand_for(blob, values, i, stream_node::field_items(fields)),
    ensures
        stream_unpack::field_pieces(blob, values, i, n) == Ok::<Seq<FieldView>, UpstreamStreamError>(
            fields.take(n as int),
        ),
    decreases n,
{
    if n == 0 {
        assert(fields.take(0) =~= Seq::empty());
    } else {
        lemma_fields_read(blob, values, i, fields, (n - 1) as nat);
        let items = stream_node::field_items(fields);
        let a = 2 * (n - 1);
        assert(items[a] == LpItem::Bytes(fields[n - 1].0));
        assert(items[a + 1] == LpItem::Bytes(fields[n - 1].1));
        assert(fields.take(n as int) =~= fields.take(n - 1).push(fields[n - 1]));
    }
}

pub proof fn lemma_moved(a: u64, b: u64)
    ensures
        stream_unpack::moved(b, stream_node::id_delta(a, b)) == a,
        i64::MIN <= stream_node::id_delta(a, b) <= i64::MAX,
{
    bytes::lemma_pow256_values();
    let m = 0x1_0000_0000_0000_0000int;
    let r = (a - b) % m;
    let d = stream_node::id_delta(a, b);
    assert(d == r || d == r - m);
    assert(0 <= r < m);
    assert(r == a - b || r == a - b + m);
    assert(b + d == a || b + d == a - m || b + d == a + m);
    assert((b + d) % m == a as int);
}

/// The pieces of an entry are read as the entry.
proof fn lemma_entry_reads(
    blob: Seq<u8>,
    values: Seq<LpValue>,
    i: int,
    master: EntryView,
    e: EntryView,
)
    requires
        stand_for(blob, values, i, stream_node::entry_items(master, e)),
    ensures
        stream_unpack::entry_piece(blob, values, i, (master.ms, master.seq), names_of(master))
            == Ok::<(bool, EntryView, int), UpstreamStreamError>(
            (false, e, i + stream_node::entry_items(master, e).len()),
        ),
{
    let items = stream_node::entry_items(master, e);
    let names = names_of(master);
    let n = e.fields.len() as int;
    lemma_moved(e.ms, master.ms);
    lemma_moved(e.seq, master.seq);
    assert(items[1] == LpItem::Int(stream_node::id_delta(e.ms, master.ms)));
    assert(items[2] == LpItem::Int(stream_node::id_delta(e.seq, master.seq)));
    if stream_node::same_fields(master, e) {
        assert(items[0] == LpItem::Int(2));
        let texts = e.fields.map_values(|f: FieldView| f.1);
        let part = stream_node::value_items(e.fields);
        assert(items.subrange(3, 3 + n) =~= part);
        lemma_stand_for_part(blob, values, i, items, 3, part);
        assert forall|k: int| 0 <= k < texts.len() implies listpack::value_bytes(
            blob,
            values[i + 3 + k],
        ) == #[trigger] texts[k] by {
            assert(part[k] == LpItem::Bytes(e.fields[k].1));
        }
        lemma_texts_read(blob, values, i + 3, texts, texts.len());
        assert(texts.take(n) =~= texts);
        assert(stream_unpack::zipped(names, texts) =~= e.fields) by {
            assert forall|k: int| 0 <= k < n implies (names[k], texts[k]) == e.fields[k] by {
                assert(e.fields[k].0 == master.fields[k].0);
            }
        }
        assert(items[3 + n] == LpItem::Int(n + 3));
    } else {
        assert(items[0] == LpItem::Int(0));
        assert(items[3] == LpItem::Int(n));
        let part = stream_node::field_items(e.fields);
        assert(items.subrange(4, 4 + 2 * n) =~= part);
        lemma_stand_for_part(blob, values, i, items, 4, part);
        lemma_fields_read(blob, values, i + 4, e.fields, e.fields.len());
        assert(e.fields.take(n) =~= e.fields);
        assert(items[4 + 2 * n] == LpItem::Int(2 * n + 4));
    }
}

/// What is unpacked with more entries.
pub open spec fn with_entries(u: Unpacked, entries: Seq<EntryView>) -> Unpacked
    decreases entries.len(),
{
    if entries.len() == 0 {
        u
    } else {
        stream_unpack::unpacked_more(with_entries(u, entries.drop_last()), false, entries.last())
    }
}

proof fn lemma_with_entries(u: Unpacked, entries: Seq<EntryView>)
    ensures
        with_entries(u, entries).entries == u.entries + entries,
        with_entries(u, entries).fields == u.fields + stream_unpack::total_fields(entries),
    decreases entries.len(),
{
    if entries.len() == 0 {
        assert(u.entries + entries =~= u.entries);
    } else {
        lemma_with_entries(u, entries.drop_last());
        assert(u.entries + entries =~= (u.entries + entries.drop_last()).push(entries.last()));
    }
}

proof fn lemma_total_fields_mono(entries: Seq<EntryView>, k: int)
    requires
        0 <= k <= entries.len(),
    ensures
        stream_unpack::total_fields(entries.take(k)) <= stream_unpack::total_fields(entries),
        k < entries.len() ==> stream_unpack::total_fields(entries.take(k)) + entries[k].fields.len()
            <= stream_unpack::total_fields(entries),
    decreases entries.len(),
{
    if k == entries.len() {
        assert(entries.take(k) =~= entries);
    } else {
        let front = entries.drop_last();
        lemma_total_fields_mono(front, k);
        assert(front.take(k) =~= entries.take(k));
        if k == front.len() {
            assert(front.take(k) =~= front);
        }
    }
}

proof fn lemma_members_prefix(node: Seq<EntryView>, j: nat, n: nat)
    requires
        j <= n,
    ensures
        stream_node::member_items(node, j).len() <= stream_node::member_items(node, n).len(),
        stream_node::member_items(node, n).take(stream_node::member_items(node, j).len() as int)
            == stream_node::member_items(node, j),
    decreases n,
{
    let a = stream_node::member_items(node, j);
    let b = stream_node::member_items(node, n);
    if j == n {
        assert(b.take(a.len() as int) =~= a);
    } else {
        lemma_members_prefix(node, j, (n - 1) as nat);
        let c = stream_node::member_items(node, (n - 1) as nat);
        assert(b.take(a.len() as int) =~= c.take(a.len() as int));
    }
}

/// The members of a node from `j` on are read one after the other.
proof fn lemma_members_read(
    blob: Seq<u8>,
    values: Seq<LpValue>,
    start: int,
    node: Seq<EntryView>,
    j: nat,
    flat: bool,
    u: Unpacked,
)
    requires
        node.len() > 0,
        j <= node.len(),
        stand_for(blob, values, start, stream_node::member_items(node, node.len())),
        start + stream_node::member_items(node, node.len()).len() == values.len(),
        flat ==> u.fields + stream_unpack::total_fields(node) <= u32::MAX,
    ensures
        stream_unpack::entries_from(
            blob,
            values,
            start + stream_node::member_items(node, j).len(),
            (node[0].ms, node[0].seq),
            names_of(node[0]),
            flat,
            with_entries(u, node.take(j as int)),
            j,
            j,
        ) == Ok::<(Unpacked, nat, nat), UpstreamStreamError>(
            (with_entries(u, node), node.len(), node.len()),
        ),
    decreases node.len() - j,
{
    let all = stream_node::member_items(node, node.len());
    let here = stream_node::member_items(node, j);
    let at = start + here.len();
    if j == node.len() {
        assert(node.take(j as int) =~= node);
    } else {
        let e = node[j as int];
        let part = stream_node::entry_items(node[0], e);
        let next = stream_node::member_items(node, j + 1);
        lemma_members_prefix(node, j + 1, node.len());
        assert(next =~= here + part);
        assert(all.subrange(here.len() as int, here.len() as int + part.len()) =~= part) by {
            assert forall|p: int| 0 <= p < part.len() implies all[here.len() + p] == part[p] by {
                assert(all.take(next.len() as int)[here.len() + p] == next[here.len() + p]);
            }
        }
        lemma_stand_for_part(blob, values, start, all, here.len() as int, part);
        lemma_entry_reads(blob, values, at, node[0], e);
        lemma_members_read(blob, values, start, node, j + 1, flat, u);
        assert(node.take(j as int + 1).drop_last() =~= node.take(j as int));
        lemma_with_entries(u, node.take(j as int));
        lemma_total_fields_mono(node, j as int);
        assert(part.len() > 0);
    }
}

proof fn lemma_entry_items_fit(master: EntryView, e: EntryView, p: int)
    requires
        e.fields.len() <= u32::MAX,
        0 <= p < stream_node::entry_items(master, e).len(),
    ensures
        stream_node::item_fits(stream_node::entry_items(master, e)[p]),
{
    lemma_moved(e.ms, master.ms);
    lemma_moved(e.seq, master.seq);
}

proof fn lemma_members_fit(node: Seq<EntryView>, k: nat, p: int)
    requires
        forall|b: int| 0 <= b < k ==> (#[trigger] node[b]).fields.len() <= u32::MAX,
        0 <= p < stream_node::member_items(node, k).len(),
    ensures
        stream_node::item_fits(stream_node::member_items(node, k)[p]),
    decreases k,
{
    if k > 0 {
        let front = stream_node::member_items(node, (k - 1) as nat);
        if p < front.len() {
            lemma_members_fit(node, (k - 1) as nat, p);
        } else {
            lemma_entry_items_fit(node[0], node[k - 1], p - front.len());
        }
    }
}

/// A node is read back as its entries.
pub proof fn law_node_round_trip(node: Seq<EntryView>, pack: Seq<u8>, flat: bool, u: Unpacked)
    requires
        0 < node.len() <= STREAM_NODE_MAX_ENTRIES,
        stream_node::node_pack(node) == Some(pack),
        flat ==> u.fields + stream_unpack::total_fields(node) <= u32::MAX,
    ensures
        stream_unpack::unpack_node((node[0].ms, node[0].seq, pack), flat, u) == Ok::<
            Unpacked,
            UpstreamStreamError,
        >(with_entries(u, node)),
{
    let master = node[0];
    let items = stream_node::node_items(node);
    let head = stream_node::master_items(master, node.len() as int);
    let members = stream_node::member_items(node, node.len());
    let n = master.fields.len() as int;
    assert forall|b: int| 0 <= b < node.len() implies (#[trigger] node[b]).fields.len()
        <= u32::MAX by {
        if !stream_node::entry_packable(node[b]) {
            stream_node::lemma_unpackable_node(node, b);
        }
    }
    assert(master.fields.len() <= u32::MAX);
    assert forall|p: int| 0 <= p < items.len() implies stream_node::item_fits(
        #[trigger] items[p],
    ) by {
        if p < head.len() {
        } else {
            lemma_members_fit(node, node.len(), p - head.len());
        }
    }
    stream_node::law_item_pack_round_trip(items);
    let values = listpack::values_of(pack)->Ok_0;
    assert(stand_for(pack, values, 0, items));
    let names = names_of(master);
    assert(items[0] == LpItem::Int(node.len() as int));
    assert(items[1] == LpItem::Int(0));
    assert(items[2] == LpItem::Int(n));
    assert forall|k: int| 0 <= k < names.len() implies listpack::value_bytes(pack, values[3 + k])
        == #[trigger] names[k] by {
        assert(items[3 + k] == LpItem::Bytes(master.fields[k].0));
    }
    lemma_texts_read(pack, values, 3, names, names.len());
    assert(names.take(n) =~= names);
    assert(items[3 + n] == LpItem::Int(0));
    assert(head.len() == 4 + n);
    assert(items.subrange(4 + n, 4 + n + members.len()) =~= members);
    lemma_stand_for_part(pack, values, 0, items, 4 + n, members);
    lemma_members_read(pack, values, 4 + n, node, 0, flat, u);
    assert(stream_node::member_items(node, 0).len() == 0);
    assert(node.take(0) =~= Seq::empty());
}

/// The nodes of a stream as they are stored: the id of the master, and the pack.
pub open spec fn stored_nodes(nodes: Seq<Seq<EntryView>>) -> Seq<NodeView> {
    nodes.map_values(
        |node: Seq<EntryView>| (node[0].ms, node[0].seq, stream_node::node_pack(node)->Some_0),
    )
}

/// Nothing unpacked.
pub open spec fn nothing_unpacked() -> Unpacked {
    Unpacked { entries: Seq::empty(), fields: 0, value_bytes: 0 }
}

proof fn lemma_with_more(u: Unpacked, a: Seq<EntryView>, b: Seq<EntryView>)
    ensures
        with_entries(with_entries(u, a), b) == with_entries(u, a + b),
    decreases b.len(),
{
    if b.len() == 0 {
        assert(a + b =~= a);
    } else {
        lemma_with_more(u, a, b.drop_last());
        assert((a + b).drop_last() =~= a + b.drop_last());
    }
}

proof fn lemma_flatten_take(nodes: Seq<Seq<EntryView>>, k: int)
    requires
        0 <= k <= nodes.len(),
    ensures
        stream_unpack::total_fields(stream_node::flatten(nodes.take(k)))
            <= stream_unpack::total_fields(stream_node::flatten(nodes)),
        stream_node::flatten(nodes.take(k)).len() <= stream_node::flatten(nodes).len(),
    decreases nodes.len(),
{
    if k == nodes.len() {
        assert(nodes.take(k) =~= nodes);
    } else {
        let front = nodes.drop_last();
        lemma_flatten_take(front, k);
        assert(front.take(k) =~= nodes.take(k));
        let a = stream_node::flatten(front);
        let all = stream_node::flatten(nodes);
        assert(all.take(a.len() as int) =~= a);
        lemma_total_fields_mono(all, a.len() as int);
    }
}

/// Nodes are read back as their entries, one node behind the other.
pub proof fn law_nodes_round_trip(nodes: Seq<Seq<EntryView>>, k: nat, flat: bool)
    requires
        k <= nodes.len(),
        stream_node::all_packed(nodes),
        forall|i: int|
            0 <= i < nodes.len() ==> 1 <= (#[trigger] nodes[i]).len() <= STREAM_NODE_MAX_ENTRIES,
        flat ==> stream_unpack::total_fields(stream_node::flatten(nodes)) <= u32::MAX,
    ensures
        stream_unpack::unpack_upto(stored_nodes(nodes), k, flat) == Ok::<
            Unpacked,
            UpstreamStreamError,
        >(with_entries(nothing_unpacked(), stream_node::flatten(nodes.take(k as int)))),
    decreases k,
{
    if k == 0 {
        assert(nodes.take(0) =~= Seq::empty());
        assert(stream_node::flatten(nodes.take(0)) =~= Seq::empty());
    } else {
        law_nodes_round_trip(nodes, (k - 1) as nat, flat);
        let node = nodes[k - 1];
        let before = stream_node::flatten(nodes.take(k - 1));
        let u = with_entries(nothing_unpacked(), before);
        assert(stream_node::node_pack(node) is Some);
        lemma_with_entries(nothing_unpacked(), before);
        assert(nodes.take(k as int).drop_last() =~= nodes.take(k - 1));
        lemma_flatten_take(nodes, k as int);
        lemma_with_more(nothing_unpacked(), before, node);
        lemma_with_entries(u, node);
        lemma_with_entries(nothing_unpacked(), before + node);
        law_node_round_trip(node, stream_node::node_pack(node)->Some_0, flat, u);
    }
}

// ---------------------------------------------------------------------------
// Groups
// ---------------------------------------------------------------------------

/// The last pending entry with an id.
pub open spec fn last_with_id(pending: Seq<PendingView>, id: (u64, u64)) -> Option<PendingView>
    decreases pending.len(),
{
    if pending.len() == 0 {
        None
    } else if (pending.last().ms, pending.last().seq) == id {
        Some(pending.last())
    } else {
        last_with_id(pending.drop_last(), id)
    }
}

/// A pending entry with the delivery that its group has for its id: that of the last
/// pending entry with it.
pub open spec fn agreed(pending: Seq<PendingView>, p: PendingView) -> PendingView {
    match last_with_id(pending, (p.ms, p.seq)) {
        None => p,
        Some(q) => PendingView { deliveries: q.deliveries, delivered: q.delivered, ..p },
    }
}

/// Pending entries, each with the delivery that its group has for its id.
pub open spec fn all_agreed(pending: Seq<PendingView>, some: Seq<PendingView>) -> Seq<PendingView> {
    some.map_values(|p: PendingView| agreed(pending, p))
}

/// What a number that may be missing is read back as: all ones stand for none.
pub open spec fn loaded_number(n: Option<u64>) -> Option<u64> {
    if n == Some(u64::MAX) {
        None
    } else {
        n
    }
}

/// What a consumer is read back as.
pub open spec fn loaded_consumer(c: ConsumerView) -> ConsumerView {
    ConsumerView { active: loaded_number(c.active), ..c }
}

/// What a group is read back as: its pending entries stand consumer by consumer, each with
/// the delivery that the group has for its id.
pub open spec fn loaded_group(g: GroupView) -> GroupView {
    GroupView {
        entries_read: loaded_number(g.entries_read),
        consumers: g.consumers.map_values(|c: ConsumerView| loaded_consumer(c)),
        pending: rdb_save::by_consumer(g.consumers, all_agreed(g.pending, g.pending)),
        ..g
    }
}

/// No time and no number of entries read is the one that stands for none.
pub open spec fn numbers_known(g: GroupView) -> bool {
    &&& g.entries_read != Some(u64::MAX)
    &&& forall|i: int|
        0 <= i < g.consumers.len() ==> (#[trigger] g.consumers[i]).active != Some(u64::MAX)
}

/// The consumer can be read back.
pub open spec fn consumer_lasting(pending: Seq<PendingView>, c: ConsumerView) -> bool {
    &&& rdb_wire::storable(c.name)
    &&& pending.len() <= u64::MAX
}

/// The group can be read back: its names can.
pub open spec fn group_lasting(g: GroupView) -> bool {
    &&& rdb_wire::storable(g.name)
    &&& g.pending.len() <= u64::MAX
    &&& g.consumers.len() <= u64::MAX
    &&& forall|i: int|
        0 <= i < g.consumers.len() ==> consumer_lasting(g.pending, #[trigger] g.consumers[i])
}

/// A pending entry of a group as it is stored.
pub open spec fn pel_views(pending: Seq<PendingView>) -> Seq<PelView> {
    pending.map_values(|p: PendingView| ((p.ms, p.seq), (p.delivered, p.deliveries)))
}

proof fn lemma_last_with_id(pending: Seq<PendingView>, id: (u64, u64), i: int)
    requires
        0 <= i < pending.len(),
        (pending[i].ms, pending[i].seq) == id,
        forall|j: int|
            i < j < pending.len() ==> ((#[trigger] pending[j]).ms, pending[j].seq) != id,
    ensures
        last_with_id(pending, id) == Some(pending[i]),
    decreases pending.len(),
{
    if i < pending.len() - 1 {
        let front = pending.drop_last();
        assert((pending.last().ms, pending.last().seq) != id);
        assert forall|j: int| i < j < front.len() implies ((#[trigger] front[j]).ms, front[j].seq)
            != id by {
            assert(front[j] == pending[j]);
        }
        lemma_last_with_id(front, id, i);
    }
}

proof fn lemma_last_index(pending: Seq<PendingView>, id: (u64, u64), k: int) -> (i: int)
    requires
        0 <= k < pending.len(),
        (pending[k].ms, pending[k].seq) == id,
    ensures
        k <= i < pending.len(),
        (pending[i].ms, pending[i].seq) == id,
        forall|j: int|
            i < j < pending.len() ==> ((#[trigger] pending[j]).ms, pending[j].seq) != id,
    decreases pending.len(),
{
    if (pending.last().ms, pending.last().seq) == id {
        pending.len() - 1
    } else {
        let front = pending.drop_last();
        let i = lemma_last_index(front, id, k);
        assert forall|j: int| i < j < pending.len() implies ((#[trigger] pending[j]).ms, pending[j].seq)
            != id by {
            if j < front.len() {
                assert(front[j] == pending[j]);
            }
        }
        i
    }
}

/// Looking an id up in what is stored of a group gives its last pending entry.
proof fn lemma_find_last(pending: Seq<PendingView>, id: (u64, u64))
    ensures
        rdb_stream::pel_find(pel_views(stream_encode::last_of_each(pending)), id) == (
        match last_with_id(pending, id) {
            None => None,
            Some(q) => Some((q.delivered, q.deliveries)),
        }),
    decreases pending.len(),
{
    if pending.len() > 0 {
        let p = pending.last();
        let front = stream_encode::last_of_each(pending.drop_last());
        lemma_find_last(pending.drop_last(), id);
        let whole = stream_encode::last_of_each(pending);
        let views = pel_views(whole);
        assert(views.last() == ((p.ms, p.seq), (p.delivered, p.deliveries)));
        if front.len() > 0 && front.last().ms == p.ms && front.last().seq == p.seq {
            assert(views.drop_last() =~= pel_views(front).drop_last());
        } else {
            assert(views.drop_last() =~= pel_views(front));
        }
    }
}

/// Sorting by id keeps which pending entry is the last of its id.
proof fn lemma_sorted_last(pending: Seq<PendingView>, k: int)
    requires
        0 <= k < pending.len(),
    ensures
        ({
            let id = (pending[k].ms, pending[k].seq);
            last_with_id(order::sorted_by(pending, stream_encode::pending_key()), id)
                == last_with_id(pending, id) && last_with_id(pending, id) is Some
        }),
{
    let id = (pending[k].ms, pending[k].seq);
    let key = stream_encode::pending_key();
    let keys = pending.map_values(key);
    let sequence = order::stable_order(keys);
    let sorted = order::sorted_by(pending, key);
    order::law_stable_order(keys);
    let i = lemma_last_index(pending, id, k);
    lemma_last_with_id(pending, id, i);
    assert(sequence.contains(i));
    let a = sequence.index_of(i);
    assert(sequence[a] == i);
    assert forall|b: int| a < b < sorted.len() implies ((#[trigger] sorted[b]).ms, sorted[b].seq)
        != id by {
        assert(order::before(keys, sequence[a], sequence[b]));
        assert(sorted[b] == pending[sequence[b]]);
        if (sorted[b].ms, sorted[b].seq) == id {
            assert(keys[sequence[a]] == keys[sequence[b]]);
            assert(i < sequence[b]);
        }
    }
    assert(sorted[a] == pending[i]);
    lemma_last_with_id(sorted, id, a);
}

proof fn lemma_pending_of(pending: Seq<PendingView>, name: Seq<u8>, k: int) -> (i: int)
    requires
        0 <= k < stream_encode::pending_of(pending, name).len(),
    ensures
        0 <= i < pending.len(),
        pending[i] == stream_encode::pending_of(pending, name)[k],
        pending[i].consumer == name,
    decreases pending.len(),
{
    let front = stream_encode::pending_of(pending.drop_last(), name);
    if pending.last().consumer == name && k == front.len() {
        pending.len() - 1
    } else {
        lemma_pending_of(pending.drop_last(), name, k)
    }
}

proof fn lemma_pending_of_len(pending: Seq<PendingView>, name: Seq<u8>)
    ensures
        stream_encode::pending_of(pending, name).len() <= pending.len(),
    decreases pending.len(),
{
    if pending.len() > 0 {
        lemma_pending_of_len(pending.drop_last(), name);
    }
}

proof fn lemma_pending_of_agreed(all: Seq<PendingView>, some: Seq<PendingView>, name: Seq<u8>)
    ensures
        stream_encode::pending_of(all_agreed(all, some), name) == all_agreed(
            all,
            stream_encode::pending_of(some, name),
        ),
    decreases some.len(),
{
    let agreed_some = all_agreed(all, some);
    if some.len() == 0 {
        assert(agreed_some =~= Seq::empty());
        assert(all_agreed(all, stream_encode::pending_of(some, name)) =~= Seq::empty());
    } else {
        lemma_pending_of_agreed(all, some.drop_last(), name);
        assert(agreed_some.drop_last() =~= all_agreed(all, some.drop_last()));
        assert(agreed_some.last() == agreed(all, some.last()));
        let front = stream_encode::pending_of(some.drop_last(), name);
        assert(all_agreed(all, front.push(some.last())) =~= all_agreed(all, front).push(
            agreed(all, some.last()),
        ));
    }
}

pub proof fn lemma_id_reads(ms: u64, seq: u64, data: Seq<u8>, pos: int)
    requires
        bytes::has_at(data, pos, stream_encode::id_bytes(ms, seq)),
    ensures
        stream_encode::id_bytes(ms, seq).len() == 16,
        rdb_stream::id_at(data, pos) == Ok::<((u64, u64), int), UpstreamStreamError>(
            ((ms, seq), pos + 16),
        ),
{
    bytes::lemma_pow256_values();
    bytes::lemma_be_bytes_len(ms as nat, 8);
    bytes::lemma_be_bytes_len(seq as nat, 8);
    bytes::lemma_has_at_concat(
        data,
        pos,
        bytes::be_bytes(ms as nat, 8),
        bytes::be_bytes(seq as nat, 8),
    );
    bytes::lemma_be_at(data, pos, ms as nat, 8);
    bytes::lemma_be_at(data, pos + 8, seq as nat, 8);
}

pub proof fn lemma_time_reads(t: u64, data: Seq<u8>, pos: int)
    requires
        bytes::has_at(data, pos, stream_encode::time_bytes(t)),
    ensures
        stream_encode::time_bytes(t).len() == 8,
        rdb_stream::time_at(data, pos) == Ok::<(u64, int), UpstreamStreamError>((t, pos + 8)),
{
    bytes::lemma_pow256_values();
    bytes::lemma_le_bytes_len(t as nat, 8);
    bytes::lemma_le_at(data, pos, t as nat, 8);
}

pub proof fn lemma_number_reads(n: nat, data: Seq<u8>, pos: int)
    requires
        n <= u64::MAX,
        bytes::has_at(data, pos, rdb_wire::length_bytes(n)),
    ensures
        rdb_stream::number_at(data, pos) == Ok::<(u64, int), UpstreamStreamError>(
            (n as u64, pos + rdb_wire::length_bytes(n).len()),
        ),
{
    rdb_wire::law_length_round_trip(data, pos, n);
}

proof fn lemma_text_reads(s: Seq<u8>, data: Seq<u8>, pos: int)
    requires
        rdb_wire::storable(s),
        bytes::has_at(data, pos, rdb_wire::string_bytes(s)),
    ensures
        rdb_stream::text_at(data, pos) == Ok::<(Seq<u8>, int), UpstreamStreamError>(
            (s, pos + rdb_wire::string_bytes(s).len()),
        ),
{
    rdb_wire::law_string_round_trip(data, pos, s);
}

proof fn lemma_pel_reads(p: PendingView, data: Seq<u8>, pos: int)
    requires
        bytes::has_at(data, pos, stream_encode::pending_bytes(p)),
    ensures
        rdb_stream::pel_at(data, pos) == Ok::<(PelView, int), UpstreamStreamError>(
            (
                ((p.ms, p.seq), (p.delivered, p.deliveries)),
                pos + stream_encode::pending_bytes(p).len(),
            ),
        ),
{
    let a = stream_encode::id_bytes(p.ms, p.seq);
    let b = stream_encode::time_bytes(p.delivered);
    let c = stream_encode::number_bytes(p.deliveries);
    bytes::lemma_has_at_concat(data, pos, a + b, c);
    bytes::lemma_has_at_concat(data, pos, a, b);
    lemma_id_reads(p.ms, p.seq, data, pos);
    lemma_time_reads(p.delivered, data, pos + a.len());
    lemma_number_reads(p.deliveries as nat, data, pos + (a + b).len());
}

proof fn lemma_last_of_each_len(pending: Seq<PendingView>)
    ensures
        stream_encode::last_of_each(pending).len() <= pending.len(),
    decreases pending.len(),
{
    if pending.len() > 0 {
        lemma_last_of_each_len(pending.drop_last());
    }
}

/// What is stored of the pending entries of a group.
pub open spec fn group_pel(g: GroupView) -> Seq<PelView> {
    pel_views(stream_encode::group_pending(g.pending))
}

proof fn lemma_group_pel_reads(g: GroupView, data: Seq<u8>, pos: int)
    requires
        g.pending.len() <= u64::MAX,
        bytes::has_at(data, pos, stream_encode::group_pending_bytes(g)),
    ensures
        rdb_stream::group_pel_at(data, pos) == Ok::<(Seq<PelView>, int), UpstreamStreamError>(
            (group_pel(g), pos + stream_encode::group_pending_bytes(g).len()),
        ),
{
    let sources = stream_encode::group_pending(g.pending);
    let found = group_pel(g);
    let head = rdb_wire::length_bytes(sources.len());
    let encode = stream_encode::pending_encoder();
    let parse = rdb_stream::pel_parser();
    order::lemma_sorted_by_len(g.pending, stream_encode::pending_key());
    lemma_last_of_each_len(order::sorted_by(g.pending, stream_encode::pending_key()));
    bytes::lemma_has_at_concat(data, pos, head, bytes::concat_all(encode, sources));
    lemma_number_reads(sources.len(), data, pos);
    assert forall|k: int| 0 <= k < found.len() implies bytes::try_reads(
        parse,
        encode(#[trigger] sources[k]),
        found[k],
    ) by {
        assert forall|d: Seq<u8>, q: int| #[trigger]
            bytes::has_at(d, q, encode(sources[k])) implies parse(d, q) == Ok::<
            (PelView, int),
            UpstreamStreamError,
        >((found[k], q + encode(sources[k]).len())) by {
            lemma_pel_reads(sources[k], d, q);
        }
    }
    bytes::lemma_try_repeat_reads(parse, encode, sources, found, data, pos + head.len());
}

/// A consumer is read back with its pending entries.
proof fn lemma_consumer_reads(g: GroupView, c: ConsumerView, data: Seq<u8>, pos: int)
    requires
        consumer_lasting(g.pending, c),
        bytes::has_at(data, pos, stream_encode::consumer_bytes(g.pending, c)),
    ensures
        rdb_stream::consumer_at(3, group_pel(g), data, pos) == Ok::<
            ((ConsumerView, Seq<PendingView>), int),
            UpstreamStreamError,
        >(
            (
                (
                    loaded_consumer(c),
                    all_agreed(g.pending, stream_encode::pending_of(g.pending, c.name)),
                ),
                pos + stream_encode::consumer_bytes(g.pending, c).len(),
            ),
        ),
{
    reveal(rdb_stream::consumer_at);
    let own = stream_encode::pending_of(g.pending, c.name);
    let found = all_agreed(g.pending, own);
    let pel = group_pel(g);
    let p1 = rdb_wire::string_bytes(c.name);
    let p2 = stream_encode::time_bytes(c.seen);
    let p3 = stream_encode::time_bytes(stream_encode::active_time(c.active));
    let p4 = rdb_wire::length_bytes(own.len());
    let encode = stream_encode::pending_id_encoder();
    let p5 = bytes::concat_all(encode, own);
    let parse = rdb_stream::own_parser(pel, c.name);
    bytes::lemma_has_at_concat(data, pos, p1 + p2 + p3 + p4, p5);
    bytes::lemma_has_at_concat(data, pos, p1 + p2 + p3, p4);
    bytes::lemma_has_at_concat(data, pos, p1 + p2, p3);
    bytes::lemma_has_at_concat(data, pos, p1, p2);
    lemma_text_reads(c.name, data, pos);
    lemma_time_reads(c.seen, data, pos + p1.len());
    lemma_time_reads(stream_encode::active_time(c.active), data, pos + (p1 + p2).len());
    lemma_pending_of_len(g.pending, c.name);
    lemma_number_reads(own.len(), data, pos + (p1 + p2 + p3).len());
    assert forall|k: int| 0 <= k < found.len() implies bytes::try_reads(
        parse,
        encode(#[trigger] own[k]),
        found[k],
    ) by {
        let p = own[k];
        let i = lemma_pending_of(g.pending, c.name, k);
        let sorted = order::sorted_by(g.pending, stream_encode::pending_key());
        lemma_sorted_last(g.pending, i);
        lemma_find_last(sorted, (p.ms, p.seq));
        assert forall|d: Seq<u8>, q: int| #[trigger]
            bytes::has_at(d, q, encode(own[k])) implies parse(d, q) == Ok::<
            (PendingView, int),
            UpstreamStreamError,
        >((found[k], q + encode(own[k]).len())) by {
            lemma_id_reads(p.ms, p.seq, d, q);
        }
    }
    bytes::lemma_try_repeat_reads(
        parse,
        encode,
        own,
        found,
        data,
        pos + (p1 + p2 + p3 + p4).len(),
    );
}

/// The consumers of a group with their pending entries.
spec fn found_consumers(g: GroupView) -> Seq<(ConsumerView, Seq<PendingView>)> {
    g.consumers.map_values(
        |c: ConsumerView|
            (
                loaded_consumer(c),
                all_agreed(g.pending, stream_encode::pending_of(g.pending, c.name)),
            ),
    )
}

proof fn lemma_found_pending(g: GroupView, n: int)
    requires
        0 <= n <= g.consumers.len(),
    ensures
        rdb_stream::all_pending(found_consumers(g).take(n)) == rdb_save::by_consumer(
            g.consumers.take(n),
            all_agreed(g.pending, g.pending),
        ),
    decreases n,
{
    if n > 0 {
        lemma_found_pending(g, n - 1);
        let found = found_consumers(g).take(n);
        assert(found.drop_last() =~= found_consumers(g).take(n - 1));
        assert(g.consumers.take(n).drop_last() =~= g.consumers.take(n - 1));
        lemma_pending_of_agreed(g.pending, g.pending, g.consumers[n - 1].name);
    }
}

proof fn lemma_group_consumers_read(g: GroupView, data: Seq<u8>, pos: int)
    requires
        group_lasting(g),
        bytes::has_at(data, pos, stream_encode::group_consumer_bytes(g)),
    ensures
        rdb_stream::group_consumers_at(3, group_pel(g), data, pos) == Ok::<
            (Seq<(ConsumerView, Seq<PendingView>)>, int),
            UpstreamStreamError,
        >((found_consumers(g), pos + stream_encode::group_consumer_bytes(g).len())),
        rdb_stream::only_consumers(found_consumers(g)) == loaded_group(g).consumers,
        rdb_stream::all_pending(found_consumers(g)) == loaded_group(g).pending,
{
    let found = found_consumers(g);
    let head = rdb_wire::length_bytes(g.consumers.len());
    let encode = stream_encode::consumer_encoder(g.pending);
    let parse = rdb_stream::consumer_parser(3, group_pel(g));
    bytes::lemma_has_at_concat(data, pos, head, bytes::concat_all(encode, g.consumers));
    lemma_number_reads(g.consumers.len(), data, pos);
    assert forall|k: int| 0 <= k < found.len() implies bytes::try_reads(
        parse,
        encode(#[trigger] g.consumers[k]),
        found[k],
    ) by {
        let c = g.consumers[k];
        assert forall|d: Seq<u8>, q: int| #[trigger]
            bytes::has_at(d, q, encode(g.consumers[k])) implies parse(d, q) == Ok::<
            ((ConsumerView, Seq<PendingView>), int),
            UpstreamStreamError,
        >((found[k], q + encode(g.consumers[k]).len())) by {
            lemma_consumer_reads(g, c, d, q);
        }
    }
    bytes::lemma_try_repeat_reads(parse, encode, g.consumers, found, data, pos + head.len());
    assert(rdb_stream::only_consumers(found) =~= loaded_group(g).consumers);
    lemma_found_pending(g, g.consumers.len() as int);
    assert(found.take(found.len() as int) =~= found);
    assert(g.consumers.take(g.consumers.len() as int) =~= g.consumers);
}

proof fn lemma_group_head_reads(g: GroupView, data: Seq<u8>, pos: int)
    requires
        rdb_wire::storable(g.name),
        bytes::has_at(data, pos, stream_encode::group_head_bytes(g)),
    ensures
        rdb_stream::group_head_at(3, data, pos) == Ok::<
            ((Seq<u8>, (u64, u64), Option<u64>), int),
            UpstreamStreamError,
        >(
            (
                (g.name, (g.ms, g.seq), loaded_number(g.entries_read)),
                pos + stream_encode::group_head_bytes(g).len(),
            ),
        ),
{
    let h1 = rdb_wire::string_bytes(g.name);
    let h2 = stream_encode::number_bytes(g.ms);
    let h3 = stream_encode::number_bytes(g.seq);
    let h4 = stream_encode::number_bytes(stream_encode::active_time(g.entries_read));
    bytes::lemma_has_at_concat(data, pos, h1 + h2 + h3, h4);
    bytes::lemma_has_at_concat(data, pos, h1 + h2, h3);
    bytes::lemma_has_at_concat(data, pos, h1, h2);
    lemma_text_reads(g.name, data, pos);
    lemma_number_reads(g.ms as nat, data, pos + h1.len());
    lemma_number_reads(g.seq as nat, data, pos + (h1 + h2).len());
    lemma_number_reads(
        stream_encode::active_time(g.entries_read) as nat,
        data,
        pos + (h1 + h2 + h3).len(),
    );
}

/// A group is read back.
pub proof fn law_group_round_trip(g: GroupView, data: Seq<u8>, pos: int)
    requires
        group_lasting(g),
        bytes::has_at(data, pos, stream_encode::group_bytes(g)),
    ensures
        rdb_stream::group_at(3, data, pos) == Ok::<(GroupView, int), UpstreamStreamError>(
            (loaded_group(g), pos + stream_encode::group_bytes(g).len()),
        ),
{
    reveal(rdb_stream::group_at);
    let head = stream_encode::group_head_bytes(g);
    let pel = stream_encode::group_pending_bytes(g);
    let consumers = stream_encode::group_consumer_bytes(g);
    bytes::lemma_has_at_concat(data, pos, head + pel, consumers);
    bytes::lemma_has_at_concat(data, pos, head, pel);
    lemma_group_head_reads(g, data, pos);
    lemma_group_pel_reads(g, data, pos + head.len());
    lemma_group_consumers_read(g, data, pos + (head + pel).len());
}

/// Where the ids of pending entries differ, each keeps its own delivery.
proof fn lemma_agreed_same(pending: Seq<PendingView>)
    requires
        rdb_save::pending_ids_differ(pending),
    ensures
        all_agreed(pending, pending) == pending,
{
    assert forall|i: int| 0 <= i < pending.len() implies agreed(pending, #[trigger] pending[i])
        == pending[i] by {
        lemma_last_with_id(pending, (pending[i].ms, pending[i].seq), i);
    }
    assert(all_agreed(pending, pending) =~= pending);
}

/// Pending entries with different ids are read back as they are, consumer by consumer.
pub proof fn law_group_keeps_pending(g: GroupView)
    requires
        rdb_save::pending_ids_differ(g.pending),
    ensures
        loaded_group(g).pending == rdb_save::by_consumer(g.consumers, g.pending),
{
    lemma_agreed_same(g.pending);
}

/// A group that loses nothing in packs is read back as it is, where its numbers are known.
pub proof fn law_lossless_group(g: GroupView)
    requires
        rdb_save::group_lossless(g),
        numbers_known(g),
    ensures
        loaded_group(g) == g,
{
    lemma_agreed_same(g.pending);
    assert(loaded_group(g).consumers =~= g.consumers);
}

// ---------------------------------------------------------------------------
// Streams
// ---------------------------------------------------------------------------

/// The nodes of a stream.
pub open spec fn nodes_of(s: StreamView) -> Seq<Seq<EntryView>> {
    stream_node::stream_nodes(stream_encode::by_id(s.entries))
}

/// A stream in packs can be read back: its packs and its groups can, and its numbers fit.
pub open spec fn packed_lasting(s: StreamView) -> bool {
    &&& s.entries.len() <= u64::MAX
    &&& s.groups.len() <= u64::MAX
    &&& forall|i: int|
        0 <= i < nodes_of(s).len() ==> rdb_wire::storable(
            stream_node::node_pack(#[trigger] nodes_of(s)[i])->Some_0,
        )
    &&& forall|i: int| 0 <= i < s.groups.len() ==> group_lasting(#[trigger] s.groups[i])
}

/// What groups are read back as.
pub open spec fn loaded_groups(groups: Seq<GroupView>) -> Seq<GroupView> {
    groups.map_values(|g: GroupView| loaded_group(g))
}

/// What a stream in packs is read back as: its entries by id, its last id and the number of
/// entries ever added known, and its bytes kept.
pub open spec fn packed_loaded(s: StreamView) -> StreamView {
    let sorted = stream_encode::by_id(s.entries);
    StreamView {
        entries: sorted,
        watermark: Some(stream_encode::last_id(s.watermark, sorted)),
        groups: loaded_groups(s.groups),
        metadata: Some((UPSTREAM_RDB_TYPE_STREAM_LISTPACKS_3, stream_encode::stream_bytes(s))),
        entries_added: Some(stream_encode::added(s.entries_added, sorted.len()) as u64),
        max_deleted: stream_private::loaded_id(stream_encode::id_or_zero(s.max_deleted)),
    }
}

proof fn lemma_node_reads(node: Seq<EntryView>, data: Seq<u8>, pos: int)
    requires
        stream_node::node_pack(node) is Some,
        rdb_wire::storable(stream_node::node_pack(node)->Some_0),
        bytes::has_at(data, pos, stream_encode::node_bytes(node)),
    ensures
        rdb_stream::node_at(data, pos) == Ok::<(NodeView, int), UpstreamStreamError>(
            (
                (node[0].ms, node[0].seq, stream_node::node_pack(node)->Some_0),
                pos + stream_encode::node_bytes(node).len(),
            ),
        ),
{
    let key = stream_encode::id_bytes(node[0].ms, node[0].seq);
    let pack = stream_node::node_pack(node)->Some_0;
    let a = rdb_wire::string_bytes(key);
    bytes::lemma_has_at_whole(key);
    lemma_id_reads(node[0].ms, node[0].seq, key, 0);
    bytes::lemma_has_at_concat(data, pos, a, rdb_wire::string_bytes(pack));
    lemma_text_reads(key, data, pos);
    lemma_text_reads(pack, data, pos + a.len());
}

proof fn lemma_nodes_len(entries: Seq<EntryView>, k: nat)
    requires
        k <= entries.len(),
    ensures
        stream_node::nodes_upto(entries, k).len() <= k,
    decreases k,
{
    if k > 0 {
        lemma_nodes_len(entries, (k - 1) as nat);
    }
}

proof fn lemma_nodes_read(nodes: Seq<Seq<EntryView>>, data: Seq<u8>, pos: int)
    requires
        nodes.len() <= u64::MAX,
        stream_node::all_packed(nodes),
        forall|i: int|
            0 <= i < nodes.len() ==> rdb_wire::storable(
                stream_node::node_pack(#[trigger] nodes[i])->Some_0,
            ),
        bytes::has_at(data, pos, stream_encode::nodes_bytes(nodes)),
    ensures
        rdb_stream::nodes_at(data, pos) == Ok::<(Seq<NodeView>, int), UpstreamStreamError>(
            (stored_nodes(nodes), pos + stream_encode::nodes_bytes(nodes).len()),
        ),
{
    reveal(stream_encode::nodes_bytes);
    let found = stored_nodes(nodes);
    let head = rdb_wire::length_bytes(nodes.len());
    let encode = stream_encode::node_encoder();
    let parse = rdb_stream::node_parser();
    bytes::lemma_has_at_concat(data, pos, head, bytes::concat_all(encode, nodes));
    lemma_number_reads(nodes.len(), data, pos);
    assert forall|k: int| 0 <= k < found.len() implies bytes::try_reads(
        parse,
        encode(#[trigger] nodes[k]),
        found[k],
    ) by {
        assert(stream_node::node_pack(nodes[k]) is Some);
        assert forall|d: Seq<u8>, q: int| #[trigger]
            bytes::has_at(d, q, encode(nodes[k])) implies parse(d, q) == Ok::<
            (NodeView, int),
            UpstreamStreamError,
        >((found[k], q + encode(nodes[k]).len())) by {
            lemma_node_reads(nodes[k], d, q);
        }
    }
    bytes::lemma_try_repeat_reads(parse, encode, nodes, found, data, pos + head.len());
}

/// A number behind other bytes is read, and these stand in front of it.
pub proof fn lemma_number_behind(head: Seq<u8>, n: nat, data: Seq<u8>, pos: int)
    requires
        n <= u64::MAX,
        bytes::has_at(data, pos, head + rdb_wire::length_bytes(n)),
    ensures
        bytes::has_at(data, pos, head),
        rdb_stream::number_at(data, pos + head.len()) == Ok::<(u64, int), UpstreamStreamError>(
            (n as u64, pos + (head + rdb_wire::length_bytes(n)).len()),
        ),
{
    bytes::lemma_has_at_concat(data, pos, head, rdb_wire::length_bytes(n));
    lemma_number_reads(n, data, pos + head.len());
}

proof fn lemma_counters_read(s: StreamView, sorted: Seq<EntryView>, data: Seq<u8>, pos: int)
    requires
        sorted.len() <= u64::MAX,
        bytes::has_at(data, pos, stream_encode::counter_bytes(s, sorted)),
    ensures
        rdb_stream::base_counters_at(data, pos) matches Ok(((length, watermark), mid))
            && length == sorted.len() && watermark == stream_encode::last_id(s.watermark, sorted)
            && rdb_stream::late_counters_at(3, length, data, mid) == Ok::<
            (((u64, u64), u64), int),
            UpstreamStreamError,
        >(
            (
                (
                    stream_encode::id_or_zero(s.max_deleted),
                    stream_encode::added(s.entries_added, sorted.len()) as u64,
                ),
                pos + stream_encode::counter_bytes(s, sorted).len(),
            ),
        ),
{
    reveal(stream_encode::counter_bytes);
    let last = stream_encode::last_id(s.watermark, sorted);
    let first = stream_encode::first_id(sorted);
    let deleted = stream_encode::id_or_zero(s.max_deleted);
    let added = stream_encode::added(s.entries_added, sorted.len());
    let c1 = rdb_wire::length_bytes(sorted.len());
    let c2 = c1 + stream_encode::number_bytes(last.0);
    let c3 = c2 + stream_encode::number_bytes(last.1);
    let c4 = c3 + stream_encode::number_bytes(first.0);
    let c5 = c4 + stream_encode::number_bytes(first.1);
    let c6 = c5 + stream_encode::number_bytes(deleted.0);
    let c7 = c6 + stream_encode::number_bytes(deleted.1);
    lemma_number_behind(c7, added, data, pos);
    lemma_number_behind(c6, deleted.1 as nat, data, pos);
    lemma_number_behind(c5, deleted.0 as nat, data, pos);
    lemma_number_behind(c4, first.1 as nat, data, pos);
    lemma_number_behind(c3, first.0 as nat, data, pos);
    lemma_number_behind(c2, last.1 as nat, data, pos);
    lemma_number_behind(c1, last.0 as nat, data, pos);
    lemma_number_reads(sorted.len(), data, pos);
}

proof fn lemma_groups_read(groups: Seq<GroupView>, data: Seq<u8>, pos: int)
    requires
        groups.len() <= u64::MAX,
        forall|i: int| 0 <= i < groups.len() ==> group_lasting(#[trigger] groups[i]),
        bytes::has_at(data, pos, stream_encode::groups_bytes(groups)),
    ensures
        rdb_stream::groups_at(3, data, pos) == Ok::<(Seq<GroupView>, int), UpstreamStreamError>(
            (loaded_groups(groups), pos + stream_encode::groups_bytes(groups).len()),
        ),
{
    reveal(stream_encode::groups_bytes);
    let found = loaded_groups(groups);
    let head = rdb_wire::length_bytes(groups.len());
    let encode = stream_encode::group_encoder();
    let parse = rdb_stream::group_parser(3);
    bytes::lemma_has_at_concat(data, pos, head, bytes::concat_all(encode, groups));
    lemma_number_reads(groups.len(), data, pos);
    assert forall|k: int| 0 <= k < found.len() implies bytes::try_reads(
        parse,
        encode(#[trigger] groups[k]),
        found[k],
    ) by {
        assert forall|d: Seq<u8>, q: int| #[trigger]
            bytes::has_at(d, q, encode(groups[k])) implies parse(d, q) == Ok::<
            (GroupView, int),
            UpstreamStreamError,
        >((found[k], q + encode(groups[k]).len())) by {
            law_group_round_trip(groups[k], d, q);
        }
    }
    bytes::lemma_try_repeat_reads(parse, encode, groups, found, data, pos + head.len());
}

/// The nodes of a stream are read back, its groups and its numbers too, whatever follows
/// them.
pub proof fn law_skeleton_round_trip(s: StreamView, data: Seq<u8>)
    requires
        stream_encode::stream_packable(s),
        packed_lasting(s),
        bytes::has_at(data, 0, stream_encode::stream_bytes(s)),
    ensures
        rdb_stream::skeleton_of(UPSTREAM_RDB_TYPE_STREAM_LISTPACKS_3, data) matches Ok((k, end))
            && end == stream_encode::stream_bytes(s).len() && k.nodes == stored_nodes(nodes_of(s))
            && k.length == s.entries.len() && rdb_stream::stream_value(
            k,
            stream_encode::by_id(s.entries),
        ) == ValueView::Stream(packed_loaded(s)),
{
    let sorted = stream_encode::by_id(s.entries);
    let nodes = nodes_of(s);
    let a = stream_encode::nodes_bytes(nodes);
    let b = stream_encode::counter_bytes(s, sorted);
    let c = stream_encode::groups_bytes(s.groups);
    order::lemma_sorted_by_len(s.entries, stream_encode::entry_key());
    lemma_nodes_len(sorted, sorted.len());
    bytes::lemma_has_at_concat(data, 0, a + b, c);
    bytes::lemma_has_at_concat(data, 0, a, b);
    lemma_nodes_read(nodes, data, 0);
    lemma_counters_read(s, sorted, data, a.len() as int);
    lemma_groups_read(s.groups, data, (a + b).len() as int);
    bytes::lemma_has_at_subrange(data, 0, stream_encode::stream_bytes(s));
    assert(data.take(stream_encode::stream_bytes(s).len() as int) =~= data.subrange(
        0,
        stream_encode::stream_bytes(s).len() as int,
    ));
}

proof fn lemma_nodes_unpack(s: StreamView)
    requires
        stream_encode::stream_packable(s),
    ensures
        stream_unpack::unpack_all(stored_nodes(nodes_of(s)), false) matches Ok(u) && u.entries
            == stream_encode::by_id(s.entries),
{
    let sorted = stream_encode::by_id(s.entries);
    let nodes = nodes_of(s);
    stream_node::law_nodes_bounded(sorted, sorted.len());
    stream_node::law_nodes_hold_entries(sorted, sorted.len());
    law_nodes_round_trip(nodes, nodes.len(), false);
    assert(nodes.take(nodes.len() as int) =~= nodes);
    assert(sorted.take(sorted.len() as int) =~= sorted);
    lemma_with_entries(nothing_unpacked(), sorted);
    assert(nothing_unpacked().entries + sorted =~= sorted);
}

/// A stream in packs is read back from its bytes.
pub proof fn law_packed_stream_round_trip(s: StreamView, data: Seq<u8>)
    requires
        stream_encode::stream_packable(s),
        packed_lasting(s),
        bytes::has_at(data, 0, stream_encode::stream_bytes(s)),
    ensures
        rdb_stream::stream_of(UPSTREAM_RDB_TYPE_STREAM_LISTPACKS_3, data) == Ok::<
            (ValueView, int),
            UpstreamStreamError,
        >((ValueView::Stream(packed_loaded(s)), stream_encode::stream_bytes(s).len() as int)),
{
    law_skeleton_round_trip(s, data);
    lemma_nodes_unpack(s);
}

/// A stream that loses nothing in packs is read back as it is, with its bytes kept, where
/// the numbers of its groups are known.
pub proof fn law_lossless_stream(s: StreamView)
    requires
        rdb_save::stream_lossless(s),
        forall|i: int| 0 <= i < s.groups.len() ==> numbers_known(#[trigger] s.groups[i]),
    ensures
        packed_loaded(s) == (StreamView {
            metadata: Some(
                (UPSTREAM_RDB_TYPE_STREAM_LISTPACKS_3, stream_encode::stream_bytes(s)),
            ),
            entries_added: Some(stream_encode::added(s.entries_added, s.entries.len()) as u64),
            max_deleted: stream_private::loaded_id(stream_encode::id_or_zero(s.max_deleted)),
            ..s
        }),
{
    let key = stream_encode::entry_key();
    let entries = s.entries;
    assert forall|a: int, b: int| 0 <= a < b < entries.len() implies order::key_le(
        key(#[trigger] entries[a]),
        key(#[trigger] entries[b]),
    ) by {
        lemma_ids_in_order(entries, a, b);
    }
    order::law_sorted_is_kept(entries, key);
    assert(loaded_groups(s.groups) =~= s.groups) by {
        assert forall|i: int| 0 <= i < s.groups.len() implies loaded_group(#[trigger] s.groups[i])
            == s.groups[i] by {
            law_lossless_group(s.groups[i]);
        }
    }
}

proof fn lemma_ids_in_order(entries: Seq<EntryView>, a: int, b: int)
    requires
        rdb_save::ids_increase(entries),
        0 <= a < b < entries.len(),
    ensures
        order::key_le(
            stream_encode::entry_key()(entries[a]),
            stream_encode::entry_key()(entries[b]),
        ),
    decreases b - a,
{
    let key = stream_encode::entry_key();
    let before = entries[b - 1];
    let here = entries[b];
    assert(before.ms < here.ms || (before.ms == here.ms && before.seq < here.seq));
    if a < b - 1 {
        lemma_ids_in_order(entries, a, b - 1);
        order::lemma_key_transitive(key(entries[a]), key(before), key(here));
    }
}

// ---------------------------------------------------------------------------
// What is accepted
// ---------------------------------------------------------------------------

/// The numbers of the parts of a group fit in 64 bits.
pub open spec fn group_sized(g: GroupView) -> bool {
    &&& g.name.len() <= u64::MAX
    &&& g.pending.len() <= u64::MAX
    &&& g.consumers.len() <= u64::MAX
    &&& forall|i: int| 0 <= i < g.consumers.len() ==> (#[trigger] g.consumers[i]).name.len()
        <= u64::MAX
}

/// The numbers of the parts of a stream fit in 64 bits.
pub open spec fn stream_sized(s: StreamView) -> bool {
    &&& s.entries.len() <= u64::MAX
    &&& s.groups.len() <= u64::MAX
    &&& forall|i: int| 0 <= i < s.groups.len() ==> group_sized(#[trigger] s.groups[i])
}

proof fn lemma_nodes_accepted(nodes: Seq<Seq<EntryView>>, data: Seq<u8>, pos: int)
    requires
        nodes.len() <= u64::MAX,
        stream_node::all_packed(nodes),
        bytes::has_at(data, pos, stream_encode::nodes_bytes(nodes)),
    ensures
        rdb_stream::nodes_at(data, pos) is Ok ==> forall|i: int|
            0 <= i < nodes.len() ==> rdb_wire::storable(
                stream_node::node_pack(#[trigger] nodes[i])->Some_0,
            ),
{
    reveal(stream_encode::nodes_bytes);
    let head = rdb_wire::length_bytes(nodes.len());
    let encode = stream_encode::node_encoder();
    let parse = rdb_stream::node_parser();
    let lasts = |node: Seq<EntryView>| rdb_wire::storable(stream_node::node_pack(node)->Some_0);
    bytes::lemma_has_at_concat(data, pos, head, bytes::concat_all(encode, nodes));
    lemma_number_reads(nodes.len(), data, pos);
    assert forall|k: int| 0 <= k < nodes.len() implies bytes::reads_only(
        parse,
        encode(#[trigger] nodes[k]),
        lasts(nodes[k]),
    ) by {
        let node = nodes[k];
        let pack = stream_node::node_pack(node)->Some_0;
        assert(stream_node::node_pack(node) is Some);
        lemma_node_pack_len(node);
        assert forall|d: Seq<u8>, q: int| #[trigger]
            bytes::has_at(d, q, encode(node)) implies (parse(d, q) matches Ok((_, end)) ==> lasts(
            node,
        ) && end == q + encode(node).len()) by {
            let key = stream_encode::id_bytes(node[0].ms, node[0].seq);
            let a = rdb_wire::string_bytes(key);
            bytes::lemma_has_at_whole(key);
            lemma_id_reads(node[0].ms, node[0].seq, key, 0);
            bytes::lemma_has_at_concat(d, q, a, rdb_wire::string_bytes(pack));
            lemma_text_reads(key, d, q);
            rdb_wire::lemma_string_accepted(d, q + a.len(), pack);
            if lasts(node) {
                lemma_node_reads(node, d, q);
            }
        }
    }
    bytes::lemma_try_repeat_only(parse, encode, lasts, nodes, data, pos + head.len());
    if rdb_stream::nodes_at(data, pos) is Ok {
        assert forall|i: int| 0 <= i < nodes.len() implies rdb_wire::storable(
            stream_node::node_pack(#[trigger] nodes[i])->Some_0,
        ) by {
            assert(lasts(nodes[i]));
        }
    }
}

proof fn lemma_node_pack_len(node: Seq<EntryView>)
    requires
        stream_node::node_pack(node) is Some,
    ensures
        stream_node::node_pack(node)->Some_0.len() <= u32::MAX,
{
    let items = stream_node::node_items(node);
    listpack_encode::lemma_framed_parts(
        bytes::concat_all(stream_node::item_encoder(), items),
        items.len(),
        stream_node::node_pack(node)->Some_0,
    );
}

proof fn lemma_consumers_accepted(g: GroupView, data: Seq<u8>, pos: int)
    requires
        group_sized(g),
        bytes::has_at(data, pos, stream_encode::group_consumer_bytes(g)),
    ensures
        rdb_stream::group_consumers_at(3, group_pel(g), data, pos) is Ok ==> forall|i: int|
            0 <= i < g.consumers.len() ==> consumer_lasting(g.pending, #[trigger] g.consumers[i]),
{
    let head = rdb_wire::length_bytes(g.consumers.len());
    let encode = stream_encode::consumer_encoder(g.pending);
    let parse = rdb_stream::consumer_parser(3, group_pel(g));
    let lasts = |c: ConsumerView| consumer_lasting(g.pending, c);
    bytes::lemma_has_at_concat(data, pos, head, bytes::concat_all(encode, g.consumers));
    lemma_number_reads(g.consumers.len(), data, pos);
    assert forall|k: int| 0 <= k < g.consumers.len() implies bytes::reads_only(
        parse,
        encode(#[trigger] g.consumers[k]),
        lasts(g.consumers[k]),
    ) by {
        let c = g.consumers[k];
        assert forall|d: Seq<u8>, q: int| #[trigger]
            bytes::has_at(d, q, encode(c)) implies (parse(d, q) matches Ok((_, end)) ==> lasts(c)
            && end == q + encode(c).len()) by {
            lemma_consumer_accepted(g, c, d, q);
            if lasts(c) {
                lemma_consumer_reads(g, c, d, q);
            }
        }
    }
    bytes::lemma_try_repeat_only(parse, encode, lasts, g.consumers, data, pos + head.len());
    if rdb_stream::group_consumers_at(3, group_pel(g), data, pos) is Ok {
        assert forall|i: int| 0 <= i < g.consumers.len() implies consumer_lasting(
            g.pending,
            #[trigger] g.consumers[i],
        ) by {
            assert(lasts(g.consumers[i]));
        }
    }
}

proof fn lemma_consumer_accepted(g: GroupView, c: ConsumerView, data: Seq<u8>, pos: int)
    requires
        c.name.len() <= u64::MAX,
        bytes::has_at(data, pos, stream_encode::consumer_bytes(g.pending, c)),
    ensures
        rdb_stream::consumer_at(3, group_pel(g), data, pos) is Ok ==> rdb_wire::storable(c.name),
{
    reveal(rdb_stream::consumer_at);
    let own = stream_encode::pending_of(g.pending, c.name);
    let p1 = rdb_wire::string_bytes(c.name);
    let p2 = stream_encode::time_bytes(c.seen);
    let p3 = stream_encode::time_bytes(stream_encode::active_time(c.active));
    let p4 = rdb_wire::length_bytes(own.len());
    let p5 = bytes::concat_all(stream_encode::pending_id_encoder(), own);
    bytes::lemma_has_at_concat(data, pos, p1 + p2 + p3 + p4, p5);
    bytes::lemma_has_at_concat(data, pos, p1 + p2 + p3, p4);
    bytes::lemma_has_at_concat(data, pos, p1 + p2, p3);
    bytes::lemma_has_at_concat(data, pos, p1, p2);
    rdb_wire::lemma_string_accepted(data, pos, c.name);
}

/// The parts of a group that is accepted are.
proof fn lemma_group_parts(data: Seq<u8>, pos: int)
    ensures
        rdb_stream::group_at(3, data, pos) is Ok ==> (rdb_stream::group_head_at(3, data, pos)
            matches Ok((_, p1)) && (rdb_stream::group_pel_at(data, p1) matches Ok((pel, p2))
            && rdb_stream::group_consumers_at(3, pel, data, p2) is Ok)),
{
    reveal(rdb_stream::group_at);
}

/// A group that is accepted can be read back.
proof fn lemma_group_accepted(g: GroupView, data: Seq<u8>, pos: int)
    requires
        group_sized(g),
        bytes::has_at(data, pos, stream_encode::group_bytes(g)),
    ensures
        rdb_stream::group_at(3, data, pos) is Ok ==> group_lasting(g),
{
    lemma_group_parts(data, pos);
    let head = stream_encode::group_head_bytes(g);
    let pel = stream_encode::group_pending_bytes(g);
    let consumers = stream_encode::group_consumer_bytes(g);
    bytes::lemma_has_at_concat(data, pos, head + pel, consumers);
    bytes::lemma_has_at_concat(data, pos, head, pel);
    lemma_group_head_accepted(g, data, pos);
    if rdb_wire::storable(g.name) {
        lemma_group_head_reads(g, data, pos);
        lemma_group_pel_reads(g, data, pos + head.len());
        lemma_consumers_accepted(g, data, pos + (head + pel).len());
    }
}

proof fn lemma_group_head_accepted(g: GroupView, data: Seq<u8>, pos: int)
    requires
        g.name.len() <= u64::MAX,
        bytes::has_at(data, pos, stream_encode::group_head_bytes(g)),
    ensures
        rdb_stream::group_head_at(3, data, pos) is Ok ==> rdb_wire::storable(g.name),
{
    let h1 = rdb_wire::string_bytes(g.name);
    let h2 = stream_encode::number_bytes(g.ms);
    let h3 = stream_encode::number_bytes(g.seq);
    let h4 = stream_encode::number_bytes(stream_encode::active_time(g.entries_read));
    bytes::lemma_has_at_concat(data, pos, h1 + h2 + h3, h4);
    bytes::lemma_has_at_concat(data, pos, h1 + h2, h3);
    bytes::lemma_has_at_concat(data, pos, h1, h2);
    rdb_wire::lemma_string_accepted(data, pos, g.name);
}

proof fn lemma_groups_accepted(groups: Seq<GroupView>, data: Seq<u8>, pos: int)
    requires
        groups.len() <= u64::MAX,
        forall|i: int| 0 <= i < groups.len() ==> group_sized(#[trigger] groups[i]),
        bytes::has_at(data, pos, stream_encode::groups_bytes(groups)),
    ensures
        rdb_stream::groups_at(3, data, pos) is Ok ==> forall|i: int|
            0 <= i < groups.len() ==> group_lasting(#[trigger] groups[i]),
{
    reveal(stream_encode::groups_bytes);
    let head = rdb_wire::length_bytes(groups.len());
    let encode = stream_encode::group_encoder();
    let parse = rdb_stream::group_parser(3);
    let lasts = |g: GroupView| group_lasting(g);
    bytes::lemma_has_at_concat(data, pos, head, bytes::concat_all(encode, groups));
    lemma_number_reads(groups.len(), data, pos);
    assert forall|k: int| 0 <= k < groups.len() implies bytes::reads_only(
        parse,
        encode(#[trigger] groups[k]),
        lasts(groups[k]),
    ) by {
        let g = groups[k];
        assert forall|d: Seq<u8>, q: int| #[trigger]
            bytes::has_at(d, q, encode(g)) implies (parse(d, q) matches Ok((_, end)) ==> lasts(g)
            && end == q + encode(g).len()) by {
            lemma_group_accepted(g, d, q);
            if lasts(g) {
                law_group_round_trip(g, d, q);
            }
        }
    }
    bytes::lemma_try_repeat_only(parse, encode, lasts, groups, data, pos + head.len());
    if rdb_stream::groups_at(3, data, pos) is Ok {
        assert forall|i: int| 0 <= i < groups.len() implies group_lasting(
            #[trigger] groups[i],
        ) by {
            assert(lasts(groups[i]));
        }
    }
}

/// A written stream that is accepted can be read back: all of its bytes are taken, and its
/// entries are those of the stream by their ids.
pub proof fn law_accepted_stream_round_trip(s: StreamView, data: Seq<u8>)
    requires
        stream_encode::stream_packable(s),
        stream_sized(s),
        bytes::has_at(data, 0, stream_encode::stream_bytes(s)),
    ensures
        rdb_stream::skeleton_of(UPSTREAM_RDB_TYPE_STREAM_LISTPACKS_3, data) is Ok
            <==> packed_lasting(s),
        rdb_stream::skeleton_of(UPSTREAM_RDB_TYPE_STREAM_LISTPACKS_3, data) matches Ok((k, end))
            ==> end == stream_encode::stream_bytes(s).len() && k.length == s.entries.len() && (
        stream_unpack::unpack_all(k.nodes, false) matches Ok(u) && u.entries
            == stream_encode::by_id(s.entries)),
{
    let sorted = stream_encode::by_id(s.entries);
    let nodes = nodes_of(s);
    let a = stream_encode::nodes_bytes(nodes);
    let b = stream_encode::counter_bytes(s, sorted);
    let c = stream_encode::groups_bytes(s.groups);
    order::lemma_sorted_by_len(s.entries, stream_encode::entry_key());
    lemma_nodes_len(sorted, sorted.len());
    bytes::lemma_has_at_concat(data, 0, a + b, c);
    bytes::lemma_has_at_concat(data, 0, a, b);
    if rdb_stream::skeleton_of(UPSTREAM_RDB_TYPE_STREAM_LISTPACKS_3, data) is Ok {
        lemma_nodes_accepted(nodes, data, 0);
        lemma_nodes_read(nodes, data, 0);
        lemma_counters_read(s, sorted, data, a.len() as int);
        lemma_groups_accepted(s.groups, data, (a + b).len() as int);
    }
    if packed_lasting(s) {
        law_skeleton_round_trip(s, data);
        lemma_nodes_unpack(s);
    }
}

/// What is written of a stream passes the check of its entries, where their ids differ and
/// their fields can be indexed.
pub proof fn law_written_stream_is_valid(s: StreamView, k: SkeletonView)
    requires
        stream_encode::stream_packable(s),
        k.nodes == stored_nodes(nodes_of(s)),
        k.length == s.entries.len(),
        stream_unpack::entry_ids(stream_encode::by_id(s.entries)).no_duplicates(),
        stream_unpack::total_fields(stream_encode::by_id(s.entries)) <= u32::MAX,
    ensures
        rdb_stream::validated(k) == Ok::<
            Option<(u64, u64)>,
            UpstreamStreamError,
        >(rdb_stream::greatest_id(stream_unpack::entry_ids(stream_encode::by_id(s.entries)))),
{
    let sorted = stream_encode::by_id(s.entries);
    let nodes = nodes_of(s);
    order::lemma_sorted_by_len(s.entries, stream_encode::entry_key());
    stream_node::law_nodes_bounded(sorted, sorted.len());
    stream_node::law_nodes_hold_entries(sorted, sorted.len());
    assert(nodes.take(nodes.len() as int) =~= nodes);
    assert(sorted.take(sorted.len() as int) =~= sorted);
    law_nodes_round_trip(nodes, nodes.len(), true);
    lemma_with_entries(nothing_unpacked(), sorted);
    assert(nothing_unpacked().entries + sorted =~= sorted);
}

} // verus!
