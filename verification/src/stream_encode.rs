//! Streams as snapshots store them: packed nodes, counters, consumer groups.

use vstd::prelude::*;

use crate::bytes;
use crate::bytes::{bytes_equal, push_be, push_le};
use crate::order;
use crate::order::{order_of, KeyView, SortKey};
use crate::rdb_types;
use crate::rdb_types::{
    ConsumerView, EntryView, GroupView, PendingView, RdbStreamConsumer, RdbStreamConsumerGroup,
    RdbStreamPendingEntry, StreamEntry, StreamView,
};
use crate::rdb_wire;
use crate::rdb_wire::{encode_number, rdb_encode_length, rdb_encode_string};
use crate::stream_node;
use crate::stream_node::{pack_stream_nodes, StreamNode};

verus! {

// ---------------------------------------------------------------------------
// What is written
// ---------------------------------------------------------------------------

/// The sort key of an id.
pub open spec fn id_key(ms: u64, seq: u64) -> KeyView {
    KeyView { major: ms as nat, minor: seq as nat, bytes: Seq::empty() }
}

/// The sort key of an entry.
pub open spec fn entry_key() -> spec_fn(EntryView) -> KeyView {
    |e: EntryView| id_key(e.ms, e.seq)
}

/// The sort key of a pending entry.
pub open spec fn pending_key() -> spec_fn(PendingView) -> KeyView {
    |p: PendingView| id_key(p.ms, p.seq)
}

/// The entries by their ids.
pub open spec fn by_id(entries: Seq<EntryView>) -> Seq<EntryView> {
    order::sorted_by(entries, entry_key())
}

/// An id: both halves, most significant byte first.
pub open spec fn id_bytes(ms: u64, seq: u64) -> Seq<u8> {
    bytes::be_bytes(ms as nat, 8) + bytes::be_bytes(seq as nat, 8)
}

/// A time, least significant byte first.
pub open spec fn time_bytes(t: u64) -> Seq<u8> {
    bytes::le_bytes(t as nat, 8)
}

/// A number in the form of a length.
pub open spec fn number_bytes(n: u64) -> Seq<u8> {
    rdb_wire::length_bytes(n as nat)
}

/// A node: its master's id and its pack, as strings.
pub open spec fn node_bytes(node: Seq<EntryView>) -> Seq<u8> {
    rdb_wire::string_bytes(id_bytes(node[0].ms, node[0].seq)) + rdb_wire::string_bytes(
        stream_node::node_pack(node)->Some_0,
    )
}

/// A node, as a function value.
pub open spec fn node_encoder() -> spec_fn(Seq<EntryView>) -> Seq<u8> {
    |node: Seq<EntryView>| node_bytes(node)
}

/// Of pending entries in the order of their ids, the last of each id.
pub open spec fn last_of_each(pending: Seq<PendingView>) -> Seq<PendingView>
    decreases pending.len(),
{
    if pending.len() == 0 {
        Seq::empty()
    } else {
        let front = last_of_each(pending.drop_last());
        let p = pending.last();
        if front.len() > 0 && front.last().ms == p.ms && front.last().seq == p.seq {
            front.drop_last().push(p)
        } else {
            front.push(p)
        }
    }
}

/// The pending entries of a group by their ids, each id once: the last that has it.
pub open spec fn group_pending(pending: Seq<PendingView>) -> Seq<PendingView> {
    last_of_each(order::sorted_by(pending, pending_key()))
}

/// A pending entry of a group: id, time of delivery, number of deliveries.
pub open spec fn pending_bytes(p: PendingView) -> Seq<u8> {
    id_bytes(p.ms, p.seq) + time_bytes(p.delivered) + number_bytes(p.deliveries)
}

/// A pending entry of a group, as a function value.
pub open spec fn pending_encoder() -> spec_fn(PendingView) -> Seq<u8> {
    |p: PendingView| pending_bytes(p)
}

/// A pending entry of a consumer: its id.
pub open spec fn pending_id_encoder() -> spec_fn(PendingView) -> Seq<u8> {
    |p: PendingView| id_bytes(p.ms, p.seq)
}

/// The pending entries of the consumer `name`.
pub open spec fn pending_of(pending: Seq<PendingView>, name: Seq<u8>) -> Seq<PendingView>
    decreases pending.len(),
{
    if pending.len() == 0 {
        Seq::empty()
    } else {
        let front = pending_of(pending.drop_last(), name);
        if pending.last().consumer == name {
            front.push(pending.last())
        } else {
            front
        }
    }
}

/// The time at which a consumer was active; all ones for never.
pub open spec fn active_time(active: Option<u64>) -> u64 {
    match active {
        Some(t) => t,
        None => u64::MAX,
    }
}

/// A consumer: name, times, and the ids of its pending entries.
pub open spec fn consumer_bytes(pending: Seq<PendingView>, c: ConsumerView) -> Seq<u8> {
    let own = pending_of(pending, c.name);
    rdb_wire::string_bytes(c.name) + time_bytes(c.seen) + time_bytes(active_time(c.active))
        + rdb_wire::length_bytes(own.len()) + bytes::concat_all(pending_id_encoder(), own)
}

/// A consumer, as a function value.
pub open spec fn consumer_encoder(pending: Seq<PendingView>) -> spec_fn(ConsumerView) -> Seq<u8> {
    |c: ConsumerView| consumer_bytes(pending, c)
}

/// The head of a group: name, last id, entries read.
pub open spec fn group_head_bytes(g: GroupView) -> Seq<u8> {
    rdb_wire::string_bytes(g.name) + number_bytes(g.ms) + number_bytes(g.seq) + number_bytes(
        active_time(g.entries_read),
    )
}

/// The pending entries of a group, with their number before them.
pub open spec fn group_pending_bytes(g: GroupView) -> Seq<u8> {
    let pel = group_pending(g.pending);
    rdb_wire::length_bytes(pel.len()) + bytes::concat_all(pending_encoder(), pel)
}

/// The consumers of a group, with their number before them.
pub open spec fn group_consumer_bytes(g: GroupView) -> Seq<u8> {
    rdb_wire::length_bytes(g.consumers.len()) + bytes::concat_all(
        consumer_encoder(g.pending),
        g.consumers,
    )
}

/// A group: head, pending entries, consumers.
pub open spec fn group_bytes(g: GroupView) -> Seq<u8> {
    group_head_bytes(g) + group_pending_bytes(g) + group_consumer_bytes(g)
}

/// A group, as a function value.
pub open spec fn group_encoder() -> spec_fn(GroupView) -> Seq<u8> {
    |g: GroupView| group_bytes(g)
}

/// Some consumer has the name.
pub open spec fn has_consumer(consumers: Seq<ConsumerView>, name: Seq<u8>) -> bool {
    exists|i: int| 0 <= i < consumers.len() && (#[trigger] consumers[i]).name == name
}

/// Every pending entry is of a consumer of the group.
pub open spec fn group_closed(g: GroupView) -> bool {
    forall|i: int|
        0 <= i < g.pending.len() ==> has_consumer(g.consumers, (#[trigger] g.pending[i]).consumer)
}

/// The id, or 0-0.
pub open spec fn id_or_zero(id: Option<(u64, u64)>) -> (u64, u64) {
    match id {
        Some(id) => id,
        None => (0, 0),
    }
}

/// The last id of a stream: the one given, else that of its last entry.
pub open spec fn last_id(watermark: Option<(u64, u64)>, sorted: Seq<EntryView>) -> (u64, u64) {
    match watermark {
        Some(id) => id,
        None => if sorted.len() > 0 {
            (sorted.last().ms, sorted.last().seq)
        } else {
            (0, 0)
        },
    }
}

/// The first id of a stream.
pub open spec fn first_id(sorted: Seq<EntryView>) -> (u64, u64) {
    if sorted.len() > 0 {
        (sorted[0].ms, sorted[0].seq)
    } else {
        (0, 0)
    }
}

/// The number of entries ever added: the one given, else the number of entries.
pub open spec fn added(entries_added: Option<u64>, n: nat) -> nat {
    match entries_added {
        Some(k) => k as nat,
        None => n,
    }
}

/// The nodes of a stream, with their number before them.
#[verifier::opaque]
pub open spec fn nodes_bytes(nodes: Seq<Seq<EntryView>>) -> Seq<u8> {
    rdb_wire::length_bytes(nodes.len()) + bytes::concat_all(node_encoder(), nodes)
}

/// The counters of a stream.
#[verifier::opaque]
pub open spec fn counter_bytes(s: StreamView, sorted: Seq<EntryView>) -> Seq<u8> {
    rdb_wire::length_bytes(sorted.len()) + number_bytes(last_id(s.watermark, sorted).0)
        + number_bytes(last_id(s.watermark, sorted).1) + number_bytes(first_id(sorted).0)
        + number_bytes(first_id(sorted).1) + number_bytes(id_or_zero(s.max_deleted).0)
        + number_bytes(id_or_zero(s.max_deleted).1) + rdb_wire::length_bytes(
        added(s.entries_added, sorted.len()),
    )
}

/// The groups of a stream, with their number before them.
#[verifier::opaque]
pub open spec fn groups_bytes(groups: Seq<GroupView>) -> Seq<u8> {
    rdb_wire::length_bytes(groups.len()) + bytes::concat_all(group_encoder(), groups)
}

/// A stream can be stored in packs: its nodes fit, and its groups are closed.
pub open spec fn stream_packable(s: StreamView) -> bool {
    &&& stream_node::all_packed(stream_node::stream_nodes(by_id(s.entries)))
    &&& forall|i: int| 0 <= i < s.groups.len() ==> group_closed(#[trigger] s.groups[i])
}

/// A stream in packs.
pub open spec fn stream_bytes(s: StreamView) -> Seq<u8> {
    let sorted = by_id(s.entries);
    nodes_bytes(stream_node::stream_nodes(sorted)) + counter_bytes(s, sorted) + groups_bytes(
        s.groups,
    )
}

// ---------------------------------------------------------------------------
// Writing
// ---------------------------------------------------------------------------

/// The sixteen bytes of an id.
pub fn stream_id_bytes(ms: u64, seq: u64) -> (out: Vec<u8>)
    ensures
        out@ == id_bytes(ms, seq),
{
    let mut out: Vec<u8> = Vec::new();
    append_stream_id(&mut out, ms, seq);
    assert(out@ =~= id_bytes(ms, seq));
    out
}

/// Appends the sixteen bytes of an id.
pub fn append_stream_id(buf: &mut Vec<u8>, ms: u64, seq: u64)
    ensures
        final(buf)@ == old(buf)@ + id_bytes(ms, seq),
{
    push_be(buf, ms, 8);
    push_be(buf, seq, 8);
    assert(buf@ =~= old(buf)@ + id_bytes(ms, seq));
}

/// Appends an id as a string.
pub fn encode_stream_id_string(buf: &mut Vec<u8>, ms: u64, seq: u64)
    ensures
        final(buf)@ == old(buf)@ + rdb_wire::string_bytes(id_bytes(ms, seq)),
{
    let id: Vec<u8> = stream_id_bytes(ms, seq);
    rdb_encode_string(buf, id.as_slice());
}

/// The entries in the order of their ids.
fn sort_entries<'a>(entries: &'a [StreamEntry]) -> (out: Vec<&'a StreamEntry>)
    ensures
        stream_node::ref_views(out@) == by_id(rdb_types::entry_views(entries@)),
{
    let ghost views = rdb_types::entry_views(entries@);
    let mut keys: Vec<SortKey> = Vec::new();
    let none: [u8; 0] = [];
    let mut i: usize = 0;
    while i < entries.len()
        invariant
            i <= entries@.len(),
            views == rdb_types::entry_views(entries@),
            keys@.len() == i,
            none@.len() == 0,
            forall|k: int|
                0 <= k < i ==> (#[trigger] keys@[k])@ == id_key(views[k].ms, views[k].seq),
        decreases entries@.len() - i,
    {
        let e: &StreamEntry = &entries[i];
        let key = SortKey { major: e.0, minor: e.1, bytes: none.as_slice() };
        assert(key@.bytes =~= Seq::<u8>::empty());
        keys.push(key);
        i = i + 1;
    }
    let order: Vec<usize> = order_of(keys.as_slice());
    proof {
        assert(order::key_views(keys@) =~= views.map_values(entry_key()));
    }
    let ghost o = order::stable_order(views.map_values(entry_key()));
    let mut out: Vec<&StreamEntry> = Vec::new();
    let mut j: usize = 0;
    while j < order.len()
        invariant
            j <= order@.len() == entries@.len(),
            views == rdb_types::entry_views(entries@),
            o == order@.map_values(|i: usize| i as int),
            forall|a: int| 0 <= a < order@.len() ==> (#[trigger] order@[a]) < entries@.len(),
            out@.len() == j,
            forall|k: int| 0 <= k < j ==> rdb_types::entry_view(*(#[trigger] out@[k])) == views[o[k]],
        decreases order@.len() - j,
    {
        assert(order@[j as int] < entries@.len());
        out.push(&entries[order[j]]);
        j = j + 1;
    }
    assert(stream_node::ref_views(out@) =~= by_id(views));
    out
}

/// The pending entries by their ids, each id once: the last that has it.
fn sort_pending<'a>(pending: &'a [RdbStreamPendingEntry]) -> (out: Vec<&'a RdbStreamPendingEntry>)
    ensures
        out@.map_values(|p: &RdbStreamPendingEntry| p@) == group_pending(
            rdb_types::pending_views(pending@),
        ),
{
    let ghost views = rdb_types::pending_views(pending@);
    let mut keys: Vec<SortKey> = Vec::new();
    let none: [u8; 0] = [];
    let mut i: usize = 0;
    while i < pending.len()
        invariant
            i <= pending@.len(),
            views == rdb_types::pending_views(pending@),
            keys@.len() == i,
            none@.len() == 0,
            forall|k: int|
                0 <= k < i ==> (#[trigger] keys@[k])@ == id_key(views[k].ms, views[k].seq),
        decreases pending@.len() - i,
    {
        let p: &RdbStreamPendingEntry = &pending[i];
        let key = SortKey {
            major: p.entry_id_ms,
            minor: p.entry_id_seq,
            bytes: none.as_slice(),
        };
        assert(key@.bytes =~= Seq::<u8>::empty());
        keys.push(key);
        i = i + 1;
    }
    let order: Vec<usize> = order_of(keys.as_slice());
    let ghost sorted = order::sorted_by(views, pending_key());
    let ghost o = order::stable_order(views.map_values(pending_key()));
    proof {
        assert(order::key_views(keys@) =~= views.map_values(pending_key()));
    }
    let mut out: Vec<&RdbStreamPendingEntry> = Vec::new();
    let mut j: usize = 0;
    assert(out@.map_values(|p: &RdbStreamPendingEntry| p@) =~= last_of_each(sorted.take(0)));
    while j < order.len()
        invariant
            j <= order@.len() == pending@.len(),
            views == rdb_types::pending_views(pending@),
            o == order@.map_values(|i: usize| i as int),
            sorted == o.map_values(|i: int| views[i]),
            forall|a: int| 0 <= a < order@.len() ==> (#[trigger] order@[a]) < pending@.len(),
            out@.map_values(|p: &RdbStreamPendingEntry| p@) == last_of_each(sorted.take(j as int)),
        decreases order@.len() - j,
    {
        assert(order@[j as int] < pending@.len());
        let p: &RdbStreamPendingEntry = &pending[order[j]];
        let ghost before = out@.map_values(|p: &RdbStreamPendingEntry| p@);
        proof {
            assert(sorted[j as int] == p@);
            assert(sorted.take(j + 1).drop_last() =~= sorted.take(j as int));
            assert(sorted.take(j + 1).last() == p@);
            if out@.len() > 0 {
                assert(before.last() == out@[out@.len() - 1]@);
            }
        }
        if out.len() > 0 && out[out.len() - 1].entry_id_ms == p.entry_id_ms && out[out.len()
            - 1].entry_id_seq == p.entry_id_seq {
            let _ = out.pop();
            out.push(p);
            assert(out@.map_values(|p: &RdbStreamPendingEntry| p@) =~= before.drop_last().push(p@));
        } else {
            out.push(p);
            assert(out@.map_values(|p: &RdbStreamPendingEntry| p@) =~= before.push(p@));
        }
        j = j + 1;
    }
    assert(sorted.take(j as int) =~= sorted);
    out
}

/// The pending entries of one consumer.
fn select_pending<'a>(pending: &'a [RdbStreamPendingEntry], name: &[u8]) -> (out: Vec<
    &'a RdbStreamPendingEntry,
>)
    ensures
        out@.map_values(|p: &RdbStreamPendingEntry| p@) == pending_of(
            rdb_types::pending_views(pending@),
            name@,
        ),
{
    let ghost views = rdb_types::pending_views(pending@);
    let mut out: Vec<&RdbStreamPendingEntry> = Vec::new();
    let mut i: usize = 0;
    assert(out@.map_values(|p: &RdbStreamPendingEntry| p@) =~= pending_of(views.take(0), name@));
    while i < pending.len()
        invariant
            i <= pending@.len(),
            views == rdb_types::pending_views(pending@),
            out@.map_values(|p: &RdbStreamPendingEntry| p@) == pending_of(
                views.take(i as int),
                name@,
            ),
        decreases pending@.len() - i,
    {
        let p: &RdbStreamPendingEntry = &pending[i];
        let ghost before = out@.map_values(|p: &RdbStreamPendingEntry| p@);
        proof {
            assert(views.take(i + 1).drop_last() =~= views.take(i as int));
            assert(views.take(i + 1).last() == p@);
        }
        if bytes_equal(p.consumer.as_slice(), name) {
            out.push(p);
            assert(out@.map_values(|p: &RdbStreamPendingEntry| p@) =~= before.push(p@));
        }
        i = i + 1;
    }
    assert(views.take(i as int) =~= views);
    out
}

fn consumer_known(consumers: &[RdbStreamConsumer], name: &[u8]) -> (r: bool)
    ensures
        r == has_consumer(rdb_types::consumer_views(consumers@), name@),
{
    let ghost views = rdb_types::consumer_views(consumers@);
    let mut i: usize = 0;
    while i < consumers.len()
        invariant
            i <= consumers@.len(),
            views == rdb_types::consumer_views(consumers@),
            forall|k: int| 0 <= k < i ==> (#[trigger] views[k]).name != name@,
        decreases consumers@.len() - i,
    {
        assert(views[i as int].name == consumers@[i as int].name@);
        if bytes_equal(consumers[i].name.as_slice(), name) {
            return true;
        }
        i = i + 1;
    }
    false
}

/// Whether every pending entry is of a consumer of the group.
pub fn is_group_closed(group: &RdbStreamConsumerGroup) -> (r: bool)
    ensures
        r == group_closed(group@),
{
    let ghost g = group@;
    let mut i: usize = 0;
    while i < group.pending.len()
        invariant
            i <= group.pending@.len(),
            g == group@,
            forall|k: int|
                0 <= k < i ==> has_consumer(g.consumers, (#[trigger] g.pending[k]).consumer),
        decreases group.pending@.len() - i,
    {
        assert(g.pending[i as int].consumer == group.pending@[i as int].consumer@);
        if !consumer_known(group.consumers.as_slice(), group.pending[i].consumer.as_slice()) {
            return false;
        }
        i = i + 1;
    }
    true
}

fn encode_consumer(buf: &mut Vec<u8>, pending: &[RdbStreamPendingEntry], c: &RdbStreamConsumer)
    ensures
        final(buf)@ == old(buf)@ + consumer_bytes(rdb_types::pending_views(pending@), c@),
{
    let ghost start = buf@;
    let own: Vec<&RdbStreamPendingEntry> = select_pending(pending, c.name.as_slice());
    let ghost views = own@.map_values(|p: &RdbStreamPendingEntry| p@);
    rdb_encode_string(buf, c.name.as_slice());
    push_le(buf, c.seen_time_ms, 8);
    let active: u64 = match c.active_time_ms {
        Some(t) => t,
        None => u64::MAX,
    };
    push_le(buf, active, 8);
    rdb_encode_length(buf, own.len());
    let ghost head = buf@;
    let mut i: usize = 0;
    assert(views.take(0) =~= Seq::empty());
    assert(buf@ =~= head + bytes::concat_all(pending_id_encoder(), views.take(0)));
    while i < own.len()
        invariant
            i <= own@.len(),
            views == own@.map_values(|p: &RdbStreamPendingEntry| p@),
            buf@ == head + bytes::concat_all(pending_id_encoder(), views.take(i as int)),
        decreases own@.len() - i,
    {
        append_stream_id(buf, own[i].entry_id_ms, own[i].entry_id_seq);
        proof {
            bytes::lemma_concat_take(pending_id_encoder(), views, i as int);
            assert(buf@ =~= head + bytes::concat_all(pending_id_encoder(), views.take(i + 1)));
        }
        i = i + 1;
    }
    assert(views.take(i as int) =~= views);
    assert(buf@ =~= start + consumer_bytes(rdb_types::pending_views(pending@), c@));
}

fn encode_group_head(buf: &mut Vec<u8>, group: &RdbStreamConsumerGroup)
    ensures
        final(buf)@ == old(buf)@ + group_head_bytes(group@),
{
    rdb_encode_string(buf, group.name.as_slice());
    encode_number(buf, group.last_delivered_id_ms);
    encode_number(buf, group.last_delivered_id_seq);
    let entries_read: u64 = match group.entries_read {
        Some(n) => n,
        None => u64::MAX,
    };
    encode_number(buf, entries_read);
    assert(buf@ =~= old(buf)@ + group_head_bytes(group@));
}

fn encode_group_pending(buf: &mut Vec<u8>, group: &RdbStreamConsumerGroup)
    ensures
        final(buf)@ == old(buf)@ + group_pending_bytes(group@),
{
    let ghost start = buf@;
    let pel: Vec<&RdbStreamPendingEntry> = sort_pending(group.pending.as_slice());
    let ghost views = pel@.map_values(|p: &RdbStreamPendingEntry| p@);
    rdb_encode_length(buf, pel.len());
    let ghost head = buf@;
    let mut i: usize = 0;
    assert(views.take(0) =~= Seq::empty());
    assert(buf@ =~= head + bytes::concat_all(pending_encoder(), views.take(0)));
    while i < pel.len()
        invariant
            i <= pel@.len(),
            views == pel@.map_values(|p: &RdbStreamPendingEntry| p@),
            buf@ == head + bytes::concat_all(pending_encoder(), views.take(i as int)),
        decreases pel@.len() - i,
    {
        let p: &RdbStreamPendingEntry = pel[i];
        assert(views[i as int] == p@);
        append_stream_id(buf, p.entry_id_ms, p.entry_id_seq);
        push_le(buf, p.last_delivered_ms, 8);
        encode_number(buf, p.deliveries);
        proof {
            bytes::lemma_concat_take(pending_encoder(), views, i as int);
            assert(buf@ =~= head + bytes::concat_all(pending_encoder(), views.take(i + 1)));
        }
        i = i + 1;
    }
    assert(views.take(i as int) =~= views);
    assert(buf@ =~= start + group_pending_bytes(group@));
}

fn encode_group_consumers(buf: &mut Vec<u8>, group: &RdbStreamConsumerGroup)
    ensures
        final(buf)@ == old(buf)@ + group_consumer_bytes(group@),
{
    let ghost start = buf@;
    let ghost g = group@;
    rdb_encode_length(buf, group.consumers.len());
    let ghost middle = buf@;
    let ghost enc = consumer_encoder(g.pending);
    let mut j: usize = 0;
    assert(g.consumers.take(0) =~= Seq::empty());
    assert(buf@ =~= middle + bytes::concat_all(enc, g.consumers.take(0)));
    while j < group.consumers.len()
        invariant
            j <= group.consumers@.len(),
            g == group@,
            enc == consumer_encoder(g.pending),
            buf@ == middle + bytes::concat_all(enc, g.consumers.take(j as int)),
        decreases group.consumers@.len() - j,
    {
        assert(g.consumers[j as int] == group.consumers@[j as int]@);
        encode_consumer(buf, group.pending.as_slice(), &group.consumers[j]);
        proof {
            bytes::lemma_concat_take(enc, g.consumers, j as int);
            bytes::lemma_add_assoc(
                middle,
                bytes::concat_all(enc, g.consumers.take(j as int)),
                consumer_bytes(g.pending, g.consumers[j as int]),
            );
        }
        j = j + 1;
    }
    assert(g.consumers.take(j as int) =~= g.consumers);
    assert(buf@ =~= start + group_consumer_bytes(g));
}

/// Appends a group.
pub fn encode_consumer_group(buf: &mut Vec<u8>, group: &RdbStreamConsumerGroup)
    ensures
        final(buf)@ == old(buf)@ + group_bytes(group@),
{
    let ghost start = buf@;
    encode_group_head(buf, group);
    encode_group_pending(buf, group);
    encode_group_consumers(buf, group);
    proof {
        let g = group@;
        bytes::lemma_add_assoc(start, group_head_bytes(g), group_pending_bytes(g));
        bytes::lemma_add_assoc(
            start,
            group_head_bytes(g) + group_pending_bytes(g),
            group_consumer_bytes(g),
        );
    }
}

/// Appends the nodes of a stream.
fn encode_nodes(buf: &mut Vec<u8>, packed: &[StreamNode], Ghost(nodes): Ghost<Seq<Seq<EntryView>>>)
    requires
        packed@.len() == nodes.len(),
        forall|i: int|
            0 <= i < nodes.len() ==> stream_node::node_matches(#[trigger] packed@[i], nodes[i]),
    ensures
        final(buf)@ == old(buf)@ + nodes_bytes(nodes),
{
    proof {
        reveal(nodes_bytes);
    }
    let ghost start = buf@;
    rdb_encode_length(buf, packed.len());
    let ghost head = buf@;
    let mut i: usize = 0;
    assert(nodes.take(0) =~= Seq::empty());
    assert(buf@ =~= head + bytes::concat_all(node_encoder(), nodes.take(0)));
    while i < packed.len()
        invariant
            i <= packed@.len() == nodes.len(),
            forall|i: int|
                0 <= i < nodes.len() ==> stream_node::node_matches(#[trigger] packed@[i], nodes[i]),
            buf@ == head + bytes::concat_all(node_encoder(), nodes.take(i as int)),
        decreases packed@.len() - i,
    {
        assert(stream_node::node_matches(packed@[i as int], nodes[i as int]));
        encode_stream_id_string(buf, packed[i].master.0, packed[i].master.1);
        rdb_encode_string(buf, packed[i].listpack.as_slice());
        proof {
            bytes::lemma_concat_take(node_encoder(), nodes, i as int);
            assert(buf@ =~= head + bytes::concat_all(node_encoder(), nodes.take(i + 1)));
        }
        i = i + 1;
    }
    assert(nodes.take(i as int) =~= nodes);
    assert(buf@ =~= start + nodes_bytes(nodes));
}

fn push_id(buf: &mut Vec<u8>, id: (u64, u64), Ghost(start): Ghost<Seq<u8>>, Ghost(acc): Ghost<Seq<u8>>)
    requires
        old(buf)@ == start + acc,
    ensures
        final(buf)@ == start + (acc + number_bytes(id.0) + number_bytes(id.1)),
{
    encode_number(buf, id.0);
    encode_number(buf, id.1);
    proof {
        bytes::lemma_add_assoc(start, acc, number_bytes(id.0));
        bytes::lemma_add_assoc(start, acc + number_bytes(id.0), number_bytes(id.1));
    }
}

/// Appends the counters of a stream.
fn encode_counters(
    buf: &mut Vec<u8>,
    sorted: &[&StreamEntry],
    watermark: Option<(u64, u64)>,
    entries_added: Option<u64>,
    max_deleted: Option<(u64, u64)>,
    Ghost(s): Ghost<StreamView>,
)
    requires
        s.watermark == watermark,
        s.entries_added == entries_added,
        s.max_deleted == max_deleted,
        stream_node::ref_views(sorted@) == by_id(s.entries),
    ensures
        final(buf)@ == old(buf)@ + counter_bytes(s, by_id(s.entries)),
{
    proof {
        reveal(counter_bytes);
    }
    let ghost start = buf@;
    let ghost views = by_id(s.entries);
    let n: usize = sorted.len();
    assert(views.len() == n);
    let last: (u64, u64) = match watermark {
        Some(id) => id,
        None => if n > 0 {
            assert(views.last() == rdb_types::entry_view(*sorted@[n - 1]));
            (sorted[n - 1].0, sorted[n - 1].1)
        } else {
            (0, 0)
        },
    };
    let first: (u64, u64) = if n > 0 {
        assert(views[0] == rdb_types::entry_view(*sorted@[0]));
        (sorted[0].0, sorted[0].1)
    } else {
        (0, 0)
    };
    let deleted: (u64, u64) = match max_deleted {
        Some(id) => id,
        None => (0, 0),
    };
    let total: u64 = match entries_added {
        Some(k) => k,
        None => n as u64,
    };
    let ghost mut acc = rdb_wire::length_bytes(n as nat);
    rdb_encode_length(buf, n);
    push_id(buf, last, Ghost(start), Ghost(acc));
    proof {
        acc = acc + number_bytes(last.0) + number_bytes(last.1);
    }
    push_id(buf, first, Ghost(start), Ghost(acc));
    proof {
        acc = acc + number_bytes(first.0) + number_bytes(first.1);
    }
    push_id(buf, deleted, Ghost(start), Ghost(acc));
    proof {
        acc = acc + number_bytes(deleted.0) + number_bytes(deleted.1);
    }
    encode_number(buf, total);
    proof {
        bytes::lemma_add_assoc(start, acc, number_bytes(total));
    }
}

/// Appends the groups of a stream, if all are closed.
fn encode_groups(buf: &mut Vec<u8>, groups: &[RdbStreamConsumerGroup]) -> (ok: bool)
    ensures
        ok == (forall|i: int|
            0 <= i < groups@.len() ==> group_closed(
                #[trigger] rdb_types::group_views(groups@)[i],
            )),
        ok ==> final(buf)@ == old(buf)@ + groups_bytes(rdb_types::group_views(groups@)),
{
    proof {
        reveal(groups_bytes);
    }
    let ghost start = buf@;
    let ghost views = rdb_types::group_views(groups@);
    rdb_encode_length(buf, groups.len());
    let ghost middle = buf@;
    let mut j: usize = 0;
    assert(views.take(0) =~= Seq::empty());
    assert(buf@ =~= middle + bytes::concat_all(group_encoder(), views.take(0)));
    while j < groups.len()
        invariant
            j <= groups@.len(),
            views == rdb_types::group_views(groups@),
            forall|k: int| 0 <= k < j ==> group_closed(#[trigger] views[k]),
            buf@ == middle + bytes::concat_all(group_encoder(), views.take(j as int)),
        decreases groups@.len() - j,
    {
        assert(views[j as int] == groups@[j as int]@);
        if !is_group_closed(&groups[j]) {
            assert(!group_closed(views[j as int]));
            return false;
        }
        encode_consumer_group(buf, &groups[j]);
        proof {
            bytes::lemma_concat_take(group_encoder(), views, j as int);
            bytes::lemma_add_assoc(
                middle,
                bytes::concat_all(group_encoder(), views.take(j as int)),
                group_bytes(views[j as int]),
            );
        }
        j = j + 1;
    }
    assert(views.take(j as int) =~= views);
    proof {
        bytes::lemma_add_assoc(
            start,
            rdb_wire::length_bytes(views.len()),
            bytes::concat_all(group_encoder(), views),
        );
    }
    true
}

/// What the parts of a stream say.
pub open spec fn parts_view(
    entries: Seq<StreamEntry>,
    watermark: Option<(u64, u64)>,
    groups: Seq<RdbStreamConsumerGroup>,
    entries_added: Option<u64>,
    max_deleted: Option<(u64, u64)>,
) -> StreamView {
    StreamView {
        entries: rdb_types::entry_views(entries),
        watermark,
        groups: rdb_types::group_views(groups),
        metadata: None,
        entries_added,
        max_deleted,
    }
}

/// A stream in packs, if its nodes fit and its groups are closed.
pub fn encode_upstream_stream_listpacks3(
    entries: &[StreamEntry],
    watermark: Option<(u64, u64)>,
    groups: &[RdbStreamConsumerGroup],
    entries_added: Option<u64>,
    max_deleted: Option<(u64, u64)>,
) -> (r: Option<Vec<u8>>)
    ensures
        ({
            let s = parts_view(entries@, watermark, groups@, entries_added, max_deleted);
            match r {
                Some(payload) => stream_packable(s) && payload@ == stream_bytes(s),
                None => !stream_packable(s),
            }
        }),
{
    let ghost s = parts_view(entries@, watermark, groups@, entries_added, max_deleted);
    let ghost views = by_id(s.entries);
    let ghost nodes = stream_node::stream_nodes(views);
    let sorted: Vec<&StreamEntry> = sort_entries(entries);
    let packed: Vec<StreamNode> = match pack_stream_nodes(sorted.as_slice()) {
        None => {
            return None;
        },
        Some(packed) => packed,
    };
    let mut buf: Vec<u8> = Vec::new();
    encode_nodes(&mut buf, packed.as_slice(), Ghost(nodes));
    encode_counters(
        &mut buf,
        sorted.as_slice(),
        watermark,
        entries_added,
        max_deleted,
        Ghost(s),
    );
    if !encode_groups(&mut buf, groups) {
        proof {
            let i = choose|i: int|
                0 <= i < groups@.len() && !group_closed(
                    #[trigger] rdb_types::group_views(groups@)[i],
                );
            assert(!group_closed(s.groups[i]));
        }
        return None;
    }
    proof {
        assert(Seq::<u8>::empty() + nodes_bytes(nodes) =~= nodes_bytes(nodes));
    }
    Some(buf)
}

/// The payload of a stream for a dump: what stands behind the type byte.
pub fn encode_upstream_stream_listpacks3_payload(
    entries: &[StreamEntry],
    watermark: Option<(u64, u64)>,
    groups: &[RdbStreamConsumerGroup],
    entries_added: Option<u64>,
    max_deleted: Option<(u64, u64)>,
) -> (r: Option<Vec<u8>>)
    ensures
        ({
            let s = parts_view(entries@, watermark, groups@, entries_added, max_deleted);
            match r {
                Some(payload) => stream_packable(s) && payload@ == stream_bytes(s),
                None => !stream_packable(s),
            }
        }),
{
    encode_upstream_stream_listpacks3(entries, watermark, groups, entries_added, max_deleted)
}

} // verus!
