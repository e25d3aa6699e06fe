//! What a stream is written as.

use vstd::prelude::*;

use crate::bytes;
use crate::node_laws;
use crate::node_laws::StoredEntry;
use crate::order;
use crate::pack_laws::PackValue;
use crate::rdb_save;
use crate::rdb_types::{
    ConsumerView, EntryView, FieldView, GroupView, PendingView, RdbStreamConsumer,
    RdbStreamConsumerGroup, RdbStreamPendingEntry, StreamEntry, StreamView, ValueView,
};
use crate::rdb_wire;
use crate::records;
use crate::records::Record;
use crate::snapshot_items::Text;
use crate::stream_encode;
use crate::stream_laws;
use crate::stream_layouts;
use crate::stream_layouts::{StoredConsumer, StoredGroup, StoredPending, StoredStream};
use crate::stream_node;
use crate::stream_node::LpItem;
use crate::stream_private;

verus! {

// ---------------------------------------------------------------------------
// Counters
// ---------------------------------------------------------------------------

/// The id is not greater than the other.
pub open spec fn id_le(a: (u64, u64), b: (u64, u64)) -> bool {
    a.0 < b.0 || (a.0 == b.0 && a.1 <= b.1)
}

/// The id is that of an entry, and no entry has a lesser one.
pub open spec fn is_least(entries: Seq<EntryView>, id: (u64, u64)) -> bool {
    &&& exists|i: int| 0 <= i < entries.len() && ((#[trigger] entries[i]).ms, entries[i].seq) == id
    &&& forall|i: int|
        0 <= i < entries.len() ==> id_le(id, ((#[trigger] entries[i]).ms, entries[i].seq))
}

/// The id is that of an entry, and no entry has a greater one.
pub open spec fn is_greatest(entries: Seq<EntryView>, id: (u64, u64)) -> bool {
    &&& exists|i: int| 0 <= i < entries.len() && ((#[trigger] entries[i]).ms, entries[i].seq) == id
    &&& forall|i: int|
        0 <= i < entries.len() ==> id_le(((#[trigger] entries[i]).ms, entries[i].seq), id)
}

proof fn lemma_ends(entries: Seq<EntryView>)
    requires
        entries.len() > 0,
    ensures
        ({
            let sorted = stream_encode::by_id(entries);
            &&& sorted.len() == entries.len()
            &&& is_least(entries, (sorted[0].ms, sorted[0].seq))
            &&& is_greatest(entries, (sorted.last().ms, sorted.last().seq))
        }),
{
    let key = stream_encode::entry_key();
    let sorted = stream_encode::by_id(entries);
    order::law_sorting_keeps_items(entries, key);
    order::law_sorted_in_order(entries, key);
    order::lemma_sorted_by_len(entries, key);
    let first = sorted[0];
    let last = sorted.last();
    vstd::seq_lib::to_multiset_contains(sorted, first);
    vstd::seq_lib::to_multiset_contains(entries, first);
    vstd::seq_lib::to_multiset_contains(sorted, last);
    vstd::seq_lib::to_multiset_contains(entries, last);
    assert(sorted.contains(first));
    assert(sorted.contains(last));
    let a = choose|a: int| 0 <= a < entries.len() && entries[a] == first;
    let b = choose|b: int| 0 <= b < entries.len() && entries[b] == last;
    assert((entries[a].ms, entries[a].seq) == (first.ms, first.seq));
    assert((entries[b].ms, entries[b].seq) == (last.ms, last.seq));
    assert forall|i: int| 0 <= i < entries.len() implies id_le(
        (first.ms, first.seq),
        ((#[trigger] entries[i]).ms, entries[i].seq),
    ) && id_le((entries[i].ms, entries[i].seq), (last.ms, last.seq)) by {
        let e = entries[i];
        vstd::seq_lib::to_multiset_contains(entries, e);
        vstd::seq_lib::to_multiset_contains(sorted, e);
        let k = choose|k: int| 0 <= k < sorted.len() && sorted[k] == e;
        if k > 0 {
            assert(order::key_le(key(sorted[0]), key(sorted[k])));
        }
        if k < sorted.len() - 1 {
            assert(order::key_le(key(sorted[k]), key(sorted[sorted.len() - 1])));
        }
    }
}

proof fn lemma_eight_parts(
    a: Seq<u8>,
    b: Seq<u8>,
    c: Seq<u8>,
    d: Seq<u8>,
    e: Seq<u8>,
    f: Seq<u8>,
    g: Seq<u8>,
    h: Seq<u8>,
)
    ensures
        a + b + c + d + e + f + g + h == (a + b + c) + (d + e + f + g + h),
{
    let front = a + b + c;
    bytes::lemma_add_assoc(front, d, e);
    bytes::lemma_add_assoc(front, d + e, f);
    bytes::lemma_add_assoc(front, d + e + f, g);
    bytes::lemma_add_assoc(front, d + e + f + g, h);
}

/// A stream is written with its length, its last id, its first id, the greatest id that was
/// deleted and the number of entries ever added. Where they are not told, the last id is the
/// greatest one, the deleted one is zero, and the number is that of its entries.
pub proof fn law_counters_are_written(s: StreamView) -> (t: StoredStream)
    requires
        s.entries.len() <= u64::MAX,
    ensures
        stream_encode::counter_bytes(s, stream_encode::by_id(s.entries))
            == stream_layouts::base_bytes(t) + stream_layouts::late_bytes(t),
        t.length == s.entries.len(),
        s.watermark matches Some(id) ==> t.last == id,
        s.watermark is None && s.entries.len() > 0 ==> is_greatest(s.entries, t.last),
        s.watermark is None && s.entries.len() == 0 ==> t.last == (0u64, 0u64),
        s.entries.len() > 0 ==> is_least(s.entries, t.first),
        s.entries.len() == 0 ==> t.first == (0u64, 0u64),
        s.max_deleted matches Some(id) ==> t.deleted == id,
        s.max_deleted is None ==> t.deleted == (0u64, 0u64),
        s.entries_added matches Some(n) ==> t.added == n,
        s.entries_added is None ==> t.added == s.entries.len(),
{
    reveal(stream_encode::counter_bytes);
    let sorted = stream_encode::by_id(s.entries);
    order::lemma_sorted_by_len(s.entries, stream_encode::entry_key());
    if s.entries.len() > 0 {
        lemma_ends(s.entries);
    }
    let t = StoredStream {
        nodes: Seq::empty(),
        length: sorted.len() as u64,
        last: stream_encode::last_id(s.watermark, sorted),
        first: stream_encode::first_id(sorted),
        deleted: stream_encode::id_or_zero(s.max_deleted),
        added: stream_encode::added(s.entries_added, sorted.len()) as u64,
        groups: Seq::empty(),
    };
    lemma_eight_parts(
        stream_layouts::number(t.length),
        stream_layouts::number(t.last.0),
        stream_layouts::number(t.last.1),
        stream_layouts::number(t.first.0),
        stream_layouts::number(t.first.1),
        stream_layouts::number(t.deleted.0),
        stream_layouts::number(t.deleted.1),
        stream_layouts::number(t.added),
    );
    t
}

/// The plain form starts with the last id, the number of entries ever added and the greatest id
/// that was deleted, each in eight bytes or twice eight. Where they are not told, the ids are
/// zero and the number is that of its entries.
pub proof fn law_plain_counters(s: StreamView)
    requires
        s.entries.len() <= u64::MAX,
    ensures
        ({
            let last = match s.watermark {
                Some(id) => id,
                None => (0u64, 0u64),
            };
            let deleted = match s.max_deleted {
                Some(id) => id,
                None => (0u64, 0u64),
            };
            let added = match s.entries_added {
                Some(n) => n as nat,
                None => s.entries.len(),
            };
            stream_private::counters_bytes(s) == bytes::le_bytes(last.0 as nat, 8)
                + bytes::le_bytes(last.1 as nat, 8) + bytes::le_bytes(added, 8) + bytes::le_bytes(
                deleted.0 as nat,
                8,
            ) + bytes::le_bytes(deleted.1 as nat, 8)
        }),
{
    reveal(stream_private::counters_bytes);
    let last = match s.watermark {
        Some(id) => id,
        None => (0u64, 0u64),
    };
    let deleted = match s.max_deleted {
        Some(id) => id,
        None => (0u64, 0u64),
    };
    let added = match s.entries_added {
        Some(n) => n as nat,
        None => s.entries.len(),
    };
    assert(stream_private::counters_bytes(s) =~= bytes::le_bytes(last.0 as nat, 8)
        + bytes::le_bytes(last.1 as nat, 8) + bytes::le_bytes(added, 8) + bytes::le_bytes(
        deleted.0 as nat,
        8,
    ) + bytes::le_bytes(deleted.1 as nat, 8));
}

// ---------------------------------------------------------------------------
// Groups
// ---------------------------------------------------------------------------

proof fn lemma_same_parts<X, Y>(
    e: spec_fn(X) -> Seq<u8>,
    xs: Seq<X>,
    f: spec_fn(Y) -> Seq<u8>,
    ys: Seq<Y>,
)
    requires
        xs.len() == ys.len(),
        forall|i: int| 0 <= i < xs.len() ==> e(#[trigger] xs[i]) == f(ys[i]),
    ensures
        bytes::concat_all(e, xs) == bytes::concat_all(f, ys),
    decreases xs.len(),
{
    if xs.len() > 0 {
        let (x, y) = (xs.drop_last(), ys.drop_last());
        assert forall|i: int| 0 <= i < x.len() implies e(#[trigger] x[i]) == f(y[i]) by {
            assert(x[i] == xs[i]);
        }
        lemma_same_parts(e, x, f, y);
        assert(e(xs[xs.len() - 1]) == f(ys[ys.len() - 1]));
    }
}

proof fn lemma_pending_filter(pending: Seq<PendingView>, name: Seq<u8>)
    ensures
        stream_encode::pending_of(pending, name) == pending.filter(
            |p: PendingView| p.consumer == name,
        ),
    decreases pending.len(),
{
    reveal(Seq::filter);
    if pending.len() > 0 {
        lemma_pending_filter(pending.drop_last(), name);
    }
}

/// The string as it is written.
pub open spec fn written(s: Seq<u8>) -> Text {
    Text { encoding: rdb_wire::string_bytes(s), text: s }
}

/// What is written of a consumer: its name, its times, all ones where it was never active, and
/// the ids of the pending entries that are its own, in order.
pub open spec fn consumer_of(pending: Seq<PendingView>, c: ConsumerView) -> StoredConsumer {
    StoredConsumer {
        name: written(c.name),
        seen: c.seen,
        active: match c.active {
            Some(t) => t,
            None => 0xffff_ffff_ffff_ffff,
        },
        own: pending.filter(|p: PendingView| p.consumer == c.name).map_values(
            |p: PendingView| (p.ms, p.seq),
        ),
    }
}

proof fn lemma_consumer(pending: Seq<PendingView>, c: ConsumerView)
    ensures
        stream_encode::consumer_bytes(pending, c) == stream_layouts::consumer_bytes(
            3,
            consumer_of(pending, c),
        ),
{
    lemma_pending_filter(pending, c.name);
    let own = stream_encode::pending_of(pending, c.name);
    let t = consumer_of(pending, c);
    lemma_same_parts(
        stream_encode::pending_id_encoder(),
        own,
        stream_layouts::own_encoder(),
        t.own,
    );
}

/// What is written of a pending entry.
pub open spec fn pending_entry_of(p: PendingView) -> StoredPending {
    StoredPending { ms: p.ms, seq: p.seq, delivered: p.delivered, deliveries: p.deliveries }
}

proof fn lemma_last_of_each(sorted: Seq<PendingView>)
    requires
        forall|i: int, j: int|
            0 <= i < j < sorted.len() ==> id_le(
                ((#[trigger] sorted[i]).ms, sorted[i].seq),
                ((#[trigger] sorted[j]).ms, sorted[j].seq),
            ),
    ensures
        ({
            let kept = stream_encode::last_of_each(sorted);
            &&& sorted.len() > 0 ==> kept.len() > 0 && kept.last() == sorted.last()
            &&& forall|i: int, j: int|
                0 <= i < j < kept.len() ==> !id_le(
                    ((#[trigger] kept[j]).ms, kept[j].seq),
                    ((#[trigger] kept[i]).ms, kept[i].seq),
                )
            &&& forall|i: int| 0 <= i < kept.len() ==> sorted.contains(#[trigger] kept[i])
        }),
    decreases sorted.len(),
{
    if sorted.len() > 0 {
        let front = sorted.drop_last();
        let p = sorted.last();
        assert forall|i: int, j: int| 0 <= i < j < front.len() implies id_le(
            ((#[trigger] front[i]).ms, front[i].seq),
            ((#[trigger] front[j]).ms, front[j].seq),
        ) by {
            assert(front[i] == sorted[i] && front[j] == sorted[j]);
        }
        lemma_last_of_each(front);
        let before = stream_encode::last_of_each(front);
        let kept = stream_encode::last_of_each(sorted);
        if before.len() > 0 {
            let q = front.last();
            assert(front.len() > 0);
            assert(id_le(
                (sorted[front.len() - 1].ms, sorted[front.len() - 1].seq),
                (sorted[sorted.len() - 1].ms, sorted[sorted.len() - 1].seq),
            ));
            assert(before.last() == q);
        }
        assert forall|i: int| 0 <= i < kept.len() implies sorted.contains(#[trigger] kept[i]) by {
            if i < kept.len() - 1 {
                assert(kept[i] == before[i]);
                let k = choose|k: int| 0 <= k < front.len() && front[k] == before[i];
                assert(sorted[k] == kept[i]);
            } else {
                assert(sorted[sorted.len() - 1] == kept[i]);
            }
        }
        assert forall|i: int, j: int| 0 <= i < j < kept.len() implies !id_le(
            ((#[trigger] kept[j]).ms, kept[j].seq),
            ((#[trigger] kept[i]).ms, kept[i].seq),
        ) by {
            assert(kept[i] == before[i]);
            if j < kept.len() - 1 {
                assert(kept[j] == before[j]);
            } else if i < before.len() - 1 {
                assert(!id_le(
                    (before[before.len() - 1].ms, before[before.len() - 1].seq),
                    (before[i].ms, before[i].seq),
                ));
            }
        }
    }
}

/// A group is written with its name, its last id, the number of entries read, all ones where it
/// is not known, its pending entries by ascending ids, and its consumers as they stand.
pub proof fn law_group_is_written(g: GroupView) -> (t: StoredGroup)
    ensures
        stream_encode::group_bytes(g) == stream_layouts::group_bytes(3, t),
        t.name == written(g.name),
        t.ms == g.ms,
        t.seq == g.seq,
        t.read == (match g.entries_read {
            Some(n) => n,
            None => 0xffff_ffff_ffff_ffff,
        }),
        t.consumers == g.consumers.map_values(|c: ConsumerView| consumer_of(g.pending, c)),
        forall|i: int, j: int|
            0 <= i < j < t.pending.len() ==> !id_le(
                ((#[trigger] t.pending[j]).ms, t.pending[j].seq),
                ((#[trigger] t.pending[i]).ms, t.pending[i].seq),
            ),
        forall|i: int|
            0 <= i < t.pending.len() ==> exists|k: int|
                0 <= k < g.pending.len() && pending_entry_of(#[trigger] g.pending[k])
                    == #[trigger] t.pending[i],
{
    reveal(stream_layouts::group_bytes);
    let key = stream_encode::pending_key();
    let sorted = order::sorted_by(g.pending, key);
    let pel = stream_encode::group_pending(g.pending);
    let t = StoredGroup {
        name: written(g.name),
        ms: g.ms,
        seq: g.seq,
        read: match g.entries_read {
            Some(n) => n,
            None => 0xffff_ffff_ffff_ffff,
        },
        pending: pel.map_values(|p: PendingView| pending_entry_of(p)),
        consumers: g.consumers.map_values(|c: ConsumerView| consumer_of(g.pending, c)),
    };
    lemma_same_parts(
        stream_encode::pending_encoder(),
        pel,
        stream_layouts::pending_encoder(),
        t.pending,
    );
    assert forall|i: int| 0 <= i < g.consumers.len() implies stream_encode::consumer_encoder(
        g.pending,
    )(#[trigger] g.consumers[i]) == stream_layouts::consumer_encoder(3)(t.consumers[i]) by {
        lemma_consumer(g.pending, g.consumers[i]);
    }
    lemma_same_parts(
        stream_encode::consumer_encoder(g.pending),
        g.consumers,
        stream_layouts::consumer_encoder(3),
        t.consumers,
    );
    order::law_sorted_in_order(g.pending, key);
    order::lemma_sorted_by_len(g.pending, key);
    order::law_sorting_keeps_items(g.pending, key);
    assert forall|i: int, j: int| 0 <= i < j < sorted.len() implies id_le(
        ((#[trigger] sorted[i]).ms, sorted[i].seq),
        ((#[trigger] sorted[j]).ms, sorted[j].seq),
    ) by {
        assert(order::key_le(key(sorted[i]), key(sorted[j])));
    }
    lemma_last_of_each(sorted);
    assert forall|i: int| 0 <= i < t.pending.len() implies exists|k: int|
        0 <= k < g.pending.len() && pending_entry_of(#[trigger] g.pending[k])
            == #[trigger] t.pending[i] by {
        assert(sorted.contains(pel[i]));
        vstd::seq_lib::to_multiset_contains(sorted, pel[i]);
        vstd::seq_lib::to_multiset_contains(g.pending, pel[i]);
        let k = choose|k: int| 0 <= k < g.pending.len() && g.pending[k] == pel[i];
        assert(pending_entry_of(g.pending[k]) == t.pending[i]);
    }
    t
}

// ---------------------------------------------------------------------------
// The plain form
// ---------------------------------------------------------------------------

/// A number of eight bytes, the lowest first.
pub open spec fn eight(n: u64) -> Seq<u8> {
    bytes::le_bytes(n as nat, 8)
}

/// A number that may be missing: all ones if it is.
pub open spec fn eight_or_ones(n: Option<u64>) -> Seq<u8> {
    match n {
        Some(n) => bytes::le_bytes(n as nat, 8),
        None => bytes::le_bytes(0xffff_ffff_ffff_ffff, 8),
    }
}

/// Parts with their number before them.
pub open spec fn listed<X>(part: spec_fn(X) -> Seq<u8>, items: Seq<X>) -> Seq<u8> {
    rdb_wire::length_bytes(items.len()) + bytes::concat_all(part, items)
}

/// A field: its name and its value.
pub open spec fn field_part() -> spec_fn(FieldView) -> Seq<u8> {
    |f: FieldView| rdb_wire::string_bytes(f.0) + rdb_wire::string_bytes(f.1)
}

/// An entry: its id and its fields.
pub open spec fn entry_part() -> spec_fn(EntryView) -> Seq<u8> {
    |e: EntryView| eight(e.ms) + eight(e.seq) + listed(field_part(), e.fields)
}

/// A consumer: its name and its times.
pub open spec fn consumer_part() -> spec_fn(ConsumerView) -> Seq<u8> {
    |c: ConsumerView| rdb_wire::string_bytes(c.name) + (eight(c.seen) + eight_or_ones(c.active))
}

/// A pending entry: its id, its consumer, the number of deliveries and the time of the last.
pub open spec fn pending_part() -> spec_fn(PendingView) -> Seq<u8> {
    |p: PendingView|
        eight(p.ms) + eight(p.seq) + rdb_wire::string_bytes(p.consumer) + (eight(p.deliveries)
            + eight(p.delivered))
}

/// A group: its name, its last id, the number of entries read, its consumers and its pending
/// entries.
pub open spec fn group_part() -> spec_fn(GroupView) -> Seq<u8> {
    |g: GroupView|
        rdb_wire::string_bytes(g.name) + (eight(g.ms) + eight(g.seq)) + eight_or_ones(
            g.entries_read,
        ) + listed(consumer_part(), g.consumers) + listed(pending_part(), g.pending)
}

pub proof fn lemma_listed<T: Record>(part: spec_fn(T::Model) -> Seq<u8>, items: Seq<T::Model>)
    requires
        forall|m: T::Model| #[trigger] part(m) == T::stored(m),
    ensures
        records::counted_bytes::<T>(items) == listed(part, items),
{
    reveal(records::counted_bytes);
    lemma_same_parts(records::encoder::<T>(), items, part, items);
}

/// The plain form of a stream is its counters, its entries and its groups.
pub proof fn law_plain_form(s: StreamView)
    ensures
        stream_private::private_stream_bytes(s) == stream_private::counters_bytes(s) + listed(
            entry_part(),
            s.entries,
        ) + listed(group_part(), s.groups),
{
    assert forall|m: FieldView| #[trigger] field_part()(m) == <(Vec<u8>, Vec<u8>) as Record>::stored(
        m,
    ) by {}
    assert forall|e: EntryView| #[trigger] entry_part()(e) == <StreamEntry as Record>::stored(e) by {
        lemma_listed::<(Vec<u8>, Vec<u8>)>(field_part(), e.fields);
    }
    lemma_listed::<StreamEntry>(entry_part(), s.entries);
    assert forall|c: ConsumerView| #[trigger] consumer_part()(c)
        == <RdbStreamConsumer as Record>::stored(c) by {}
    assert forall|p: PendingView| #[trigger] pending_part()(p)
        == <RdbStreamPendingEntry as Record>::stored(p) by {}
    assert forall|g: GroupView| #[trigger] group_part()(g)
        == <RdbStreamConsumerGroup as Record>::stored(g) by {
        lemma_listed::<RdbStreamConsumer>(consumer_part(), g.consumers);
        lemma_listed::<RdbStreamPendingEntry>(pending_part(), g.pending);
    }
    lemma_listed::<RdbStreamConsumerGroup>(group_part(), s.groups);
}

// ---------------------------------------------------------------------------
// Nodes
// ---------------------------------------------------------------------------

/// The bytes of names and values.
pub open spec fn text_size(fields: Seq<FieldView>) -> nat
    decreases fields.len(),
{
    if fields.len() == 0 {
        0
    } else {
        text_size(fields.drop_last()) + fields.last().0.len() + fields.last().1.len()
    }
}

/// The bytes of the pack of a node.
pub open spec fn node_size(node: Seq<EntryView>) -> nat {
    7 + bytes::concat_all(stream_node::item_encoder(), stream_node::node_items(node)).len()
}

proof fn lemma_text_size(fields: Seq<FieldView>, k: nat)
    requires
        k <= fields.len(),
    ensures
        stream_node::payload_len_upto(fields, k) == text_size(fields.take(k as int)),
    decreases k,
{
    if k > 0 {
        lemma_text_size(fields, (k - 1) as nat);
        assert(fields.take(k as int).drop_last() =~= fields.take(k - 1));
    }
}

/// The node has room for the entry: it holds less than 100, and stays below 4096 bytes with the
/// names and values of the entry.
pub open spec fn has_room(node: Seq<EntryView>, e: EntryView) -> bool {
    node.len() < 100 && node_size(node) + text_size(e.fields) < 4096
}

/// Every entry but the first had room in the node.
pub open spec fn node_fits(node: Seq<EntryView>) -> bool {
    &&& node.len() > 0
    &&& forall|j: int| 0 < j < node.len() ==> has_room(#[trigger] node.take(j), node[j])
}

proof fn lemma_room(node: Seq<EntryView>, e: EntryView)
    ensures
        stream_node::node_closed(node, e) <==> !has_room(node, e),
{
    lemma_text_size(e.fields, e.fields.len());
    assert(e.fields.take(e.fields.len() as int) =~= e.fields);
}

proof fn lemma_nodes(entries: Seq<EntryView>, k: nat)
    requires
        k <= entries.len(),
    ensures
        ({
            let nodes = stream_node::nodes_upto(entries, k);
            &&& forall|i: int| 0 <= i < nodes.len() ==> node_fits(#[trigger] nodes[i])
            &&& forall|i: int, j: int|
                0 <= i && j == i + 1 && j < nodes.len() ==> !has_room(
                    #[trigger] nodes[i],
                    (#[trigger] nodes[j])[0],
                )
        }),
    decreases k,
{
    if k > 0 {
        lemma_nodes(entries, (k - 1) as nat);
        let before = stream_node::nodes_upto(entries, (k - 1) as nat);
        let nodes = stream_node::nodes_upto(entries, k);
        let e = entries[k - 1];
        if before.len() == 0 || stream_node::node_closed(before.last(), e) {
            if before.len() > 0 {
                lemma_room(before.last(), e);
            }
        } else {
            let last = before.last();
            lemma_room(last, e);
            let more = last.push(e);
            assert(node_fits(before[before.len() - 1]));
            assert forall|j: int| 0 < j < more.len() implies has_room(
                #[trigger] more.take(j),
                more[j],
            ) by {
                if j < last.len() {
                    assert(more.take(j) =~= last.take(j));
                } else {
                    assert(more.take(j) =~= last);
                }
            }
            assert(more[0] == last[0]);
            assert forall|i: int, j: int|
                0 <= i && j == i + 1 && j < nodes.len() implies !has_room(
                #[trigger] nodes[i],
                (#[trigger] nodes[j])[0],
            ) by {
                assert(nodes[i] == before[i]);
                assert(before[j][0] == nodes[j][0]);
            }
        }
    }
}

/// A stream is cut into nodes that take entries as long as they have room for the next one.
pub proof fn law_stream_nodes_are_filled(entries: Seq<EntryView>, i: int)
    requires
        0 <= i < stream_node::stream_nodes(entries).len(),
    ensures
        node_fits(stream_node::stream_nodes(entries)[i]),
        i + 1 < stream_node::stream_nodes(entries).len() ==> !has_room(
            stream_node::stream_nodes(entries)[i],
            stream_node::stream_nodes(entries)[i + 1][0],
        ),
{
    lemma_nodes(entries, entries.len());
    let nodes = stream_node::stream_nodes(entries);
    assert(node_fits(nodes[i]));
    if i + 1 < nodes.len() {
        assert(!has_room(nodes[i], nodes[i + 1][0]));
    }
}

/// A piece that is written as the value.
pub open spec fn piece_of(v: PackValue) -> LpItem {
    match v {
        PackValue::Integer(n) => LpItem::Int(n),
        PackValue::Text(s) => LpItem::Bytes(s),
    }
}

/// The pieces that are written as values.
pub open spec fn pieces_of(values: Seq<PackValue>) -> Seq<LpItem> {
    Seq::new(values.len(), |i: int| piece_of(values[i]))
}

/// The texts as values.
pub open spec fn names_as_values(fields: Seq<FieldView>) -> Seq<PackValue> {
    Seq::new(fields.len(), |i: int| PackValue::Text(fields[i].0))
}

/// What is written of an entry: it is not deleted, and has names of its own only where they are
/// not those of the first entry of its node.
pub open spec fn is_written_entry(master: EntryView, e: EntryView, t: StoredEntry) -> bool {
    &&& !t.deleted
    &&& node_laws::half_of(master.ms, t.ms, e.ms)
    &&& node_laws::half_of(master.seq, t.seq, e.seq)
    &&& i64::MIN <= t.ms <= i64::MAX
    &&& i64::MIN <= t.seq <= i64::MAX
    &&& t.own_names == (if names_as_values(e.fields) == names_as_values(master.fields) {
        None
    } else {
        Some(names_as_values(e.fields))
    })
    &&& t.values == Seq::new(e.fields.len(), |i: int| PackValue::Text(e.fields[i].1))
}

proof fn lemma_half_written(a: u64, b: u64)
    ensures
        node_laws::half_of(b, stream_node::id_delta(a, b), a),
        i64::MIN <= stream_node::id_delta(a, b) <= i64::MAX,
{
    stream_laws::lemma_moved(a, b);
    let d = stream_node::id_delta(a, b);
    let turns = -((b + d) / 0x1_0000_0000_0000_0000int);
    assert((turns * 0x1_0000_0000_0000_0000) + b + d == a);
}

/// An entry is written as its pieces.
pub proof fn law_entry_is_written(master: EntryView, e: EntryView) -> (t: StoredEntry)
    ensures
        is_written_entry(master, e, t),
        stream_node::entry_items(master, e) == pieces_of(node_laws::entry_pieces(t)),
{
    let names = names_as_values(e.fields);
    let others = names_as_values(master.fields);
    let same = names == others;
    assert(same <==> stream_node::same_fields(master, e)) by {
        if same {
            assert(names.len() == others.len());
            assert forall|i: int| 0 <= i < e.fields.len() implies (#[trigger] e.fields[i]).0
                == master.fields[i].0 by {
                assert(names[i] == PackValue::Text(e.fields[i].0));
                assert(others[i] == PackValue::Text(master.fields[i].0));
            }
        }
        if stream_node::same_fields(master, e) {
            assert(names =~= others);
        }
    }
    let t = StoredEntry {
        deleted: false,
        ms: stream_node::id_delta(e.ms, master.ms),
        seq: stream_node::id_delta(e.seq, master.seq),
        own_names: if same {
            None
        } else {
            Some(names)
        },
        values: Seq::new(e.fields.len(), |i: int| PackValue::Text(e.fields[i].1)),
    };
    lemma_half_written(e.ms, master.ms);
    lemma_half_written(e.seq, master.seq);
    assert(stream_node::entry_items(master, e) =~= pieces_of(node_laws::entry_pieces(t)));
    t
}

// ---------------------------------------------------------------------------
// Forms
// ---------------------------------------------------------------------------

/// The pending entries of a group stand consumer by consumer: `at` tells the consumer of each.
pub open spec fn stands_by_consumer(g: GroupView, at: Seq<int>) -> bool {
    &&& at.len() == g.pending.len()
    &&& forall|i: int|
        0 <= i < at.len() ==> 0 <= #[trigger] at[i] < g.consumers.len()
            && g.consumers[at[i]].name == g.pending[i].consumer
    &&& forall|i: int, j: int| 0 <= i < j < at.len() ==> #[trigger] at[i] <= #[trigger] at[j]
}

/// The names of the consumers of a group differ, as do the ids of its pending entries.
pub open spec fn all_differ(g: GroupView) -> bool {
    &&& forall|i: int, j: int|
        0 <= i < j < g.consumers.len() ==> (#[trigger] g.consumers[i]).name != (
        #[trigger] g.consumers[j]).name
    &&& forall|i: int, j: int|
        0 <= i < j < g.pending.len() ==> (#[trigger] g.pending[i]).ms != (
        #[trigger] g.pending[j]).ms || g.pending[i].seq != g.pending[j].seq
}

proof fn lemma_run_of(pending: Seq<PendingView>, name: Seq<u8>, lo: int, hi: int)
    requires
        0 <= lo <= hi <= pending.len(),
        forall|i: int|
            0 <= i < pending.len() ==> ((#[trigger] pending[i]).consumer == name <==> lo <= i < hi),
    ensures
        stream_encode::pending_of(pending, name) == pending.subrange(lo, hi),
    decreases pending.len(),
{
    if pending.len() == 0 {
        assert(pending.subrange(lo, hi) =~= Seq::empty());
    } else {
        let front = pending.drop_last();
        let n = front.len() as int;
        let h = if hi > n {
            n
        } else {
            hi
        };
        let l = if lo > n {
            n
        } else {
            lo
        };
        assert forall|i: int| 0 <= i < n implies ((#[trigger] front[i]).consumer == name <==> l <= i
            < h) by {
            assert(front[i] == pending[i]);
        }
        lemma_run_of(front, name, l, h);
        assert(pending[n].consumer == name <==> lo <= n < hi);
        if lo <= n < hi {
            assert(front.subrange(l, h).push(pending.last()) =~= pending.subrange(lo, hi));
        } else {
            assert(front.subrange(l, h) =~= pending.subrange(lo, hi));
        }
    }
}

/// How many of a non-decreasing sequence are below a bound.
spec fn below(at: Seq<int>, k: int) -> int
    decreases at.len(),
{
    if at.len() == 0 || at.last() < k {
        at.len() as int
    } else {
        below(at.drop_last(), k)
    }
}

proof fn lemma_below(at: Seq<int>, k: int)
    requires
        forall|i: int, j: int| 0 <= i < j < at.len() ==> #[trigger] at[i] <= #[trigger] at[j],
    ensures
        0 <= below(at, k) <= at.len(),
        forall|i: int| 0 <= i < at.len() ==> (#[trigger] at[i] < k <==> i < below(at, k)),
    decreases at.len(),
{
    if at.len() > 0 {
        if at.last() >= k {
            let front = at.drop_last();
            lemma_below(front, k);
            assert forall|i: int| 0 <= i < at.len() implies (#[trigger] at[i] < k <==> i < below(
                at,
                k,
            )) by {
                if i < front.len() {
                    assert(front[i] == at[i]);
                }
            }
        } else {
            assert forall|i: int| 0 <= i < at.len() implies #[trigger] at[i] < k by {
                if i < at.len() - 1 {
                    assert(at[i] <= at[at.len() - 1]);
                }
            }
        }
    }
}

proof fn lemma_by_consumer(g: GroupView, at: Seq<int>, k: int)
    requires
        stands_by_consumer(g, at),
        all_differ(g),
        0 <= k <= g.consumers.len(),
    ensures
        rdb_save::by_consumer(g.consumers.take(k), g.pending) == g.pending.take(below(at, k)),
    decreases k,
{
    lemma_below(at, k);
    if k == 0 {
        if below(at, 0) > 0 {
            assert(at[0] < 0);
        }
        assert(g.pending.take(0) =~= Seq::empty());
    } else {
        lemma_by_consumer(g, at, k - 1);
        lemma_below(at, k - 1);
        assert(g.consumers.take(k).drop_last() =~= g.consumers.take(k - 1));
        let lo = below(at, k - 1);
        let hi = below(at, k);
        if lo > hi {
            assert(at[hi] < k - 1);
        }
        let name = g.consumers[k - 1].name;
        assert forall|i: int| 0 <= i < g.pending.len() implies ((
        #[trigger] g.pending[i]).consumer == name <==> lo <= i < hi) by {
            assert(at[i] < k - 1 <==> i < lo);
            assert(at[i] < k <==> i < hi);
            assert(g.consumers[at[i]].name == g.pending[i].consumer);
            if at[i] < k - 1 {
                assert(g.consumers[at[i]].name != g.consumers[k - 1].name);
            } else if at[i] > k - 1 {
                assert(g.consumers[k - 1].name != g.consumers[at[i]].name);
            }
        }
        lemma_run_of(g.pending, name, lo, hi);
        assert(g.pending.take(lo) + g.pending.subrange(lo, hi) =~= g.pending.take(hi));
    }
}

proof fn lemma_group_lossless(g: GroupView, at: Seq<int>)
    requires
        stands_by_consumer(g, at),
        all_differ(g),
    ensures
        rdb_save::group_lossless(g),
{
    let n = g.consumers.len() as int;
    lemma_by_consumer(g, at, n);
    lemma_below(at, n);
    assert(g.consumers.take(n) =~= g.consumers);
    if below(at, n) < at.len() {
        assert(at[below(at, n)] < n);
    }
    assert(g.pending.take(g.pending.len() as int) =~= g.pending);
    assert forall|i: int| 0 <= i < g.pending.len() implies stream_encode::has_consumer(
        g.consumers,
        (#[trigger] g.pending[i]).consumer,
    ) by {
        assert(g.consumers[at[i]].name == g.pending[i].consumer);
    }
}

/// A stream that was read is written as it was read. Another one is written in packs if its last
/// id is told, its ids ascend, its nodes can be packed, and the pending entries of its groups
/// stand consumer by consumer and differ; in the plain form if the last id is not told, if ids do
/// not ascend, or if a pending entry is of no consumer.
pub proof fn law_stream_form(s: StreamView, ats: Seq<Seq<int>>, k: int)
    ensures
        ({
            let stored = rdb_save::value_stored(ValueView::Stream(s), None);
            let ascend = forall|i: int, j: int|
                0 <= i < j < s.entries.len() ==> !id_le(
                    ((#[trigger] s.entries[j]).ms, s.entries[j].seq),
                    ((#[trigger] s.entries[i]).ms, s.entries[i].seq),
                );
            &&& s.metadata matches Some(m) ==> stored == m
            &&& s.metadata is None && s.watermark is Some && ascend && ats.len() == s.groups.len()
                && stream_node::all_packed(
                stream_node::stream_nodes(stream_encode::by_id(s.entries)),
            ) && (forall|i: int|
                0 <= i < s.groups.len() ==> all_differ(#[trigger] s.groups[i])
                    && stands_by_consumer(s.groups[i], ats[i])) ==> stored.0 == 21
            &&& s.metadata is None && s.watermark is None ==> stored.0 == 15
            &&& s.metadata is None && 0 <= k < s.entries.len() - 1 && id_le(
                (s.entries[k + 1].ms, s.entries[k + 1].seq),
                (s.entries[k].ms, s.entries[k].seq),
            ) ==> stored.0 == 15
        }),
{
    reveal(rdb_save::value_stored);
    if s.metadata is None && s.watermark is Some && (forall|i: int, j: int|
        0 <= i < j < s.entries.len() ==> !id_le(
            ((#[trigger] s.entries[j]).ms, s.entries[j].seq),
            ((#[trigger] s.entries[i]).ms, s.entries[i].seq),
        )) && ats.len() == s.groups.len() && (forall|i: int|
        0 <= i < s.groups.len() ==> all_differ(#[trigger] s.groups[i]) && stands_by_consumer(
            s.groups[i],
            ats[i],
        )) {
        assert forall|i: int| 0 <= i < s.groups.len() implies rdb_save::group_lossless(
            #[trigger] s.groups[i],
        ) && stream_encode::group_closed(s.groups[i]) by {
            lemma_group_lossless(s.groups[i], ats[i]);
        }
        assert forall|i: int| 0 < i < s.entries.len() implies ({
            let a = s.entries[i - 1];
            let b = #[trigger] s.entries[i];
            a.ms < b.ms || (a.ms == b.ms && a.seq < b.seq)
        }) by {
            let a = s.entries[i - 1];
            let b = s.entries[i];
            assert(!id_le((b.ms, b.seq), (a.ms, a.seq)));
        }
    }
    if 0 <= k < s.entries.len() - 1 {
        let a = s.entries[k];
        let b = s.entries[k + 1];
        if rdb_save::ids_increase(s.entries) {
            assert(s.entries[(k + 1) - 1] == a);
            assert(a.ms < b.ms || (a.ms == b.ms && a.seq < b.seq));
        }
    }
}

} // verus!
