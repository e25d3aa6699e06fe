//! What stored streams of the three layouts are read as, whoever wrote them.

use vstd::prelude::*;

use crate::bytes;
use crate::rdb_stream;
use crate::rdb_stream::{NodeView, PelView, SkeletonView, UpstreamStreamError};
use crate::rdb_types::{ConsumerView, GroupView, PendingView};
use crate::rdb_wire;
use crate::snapshot_items;
use crate::snapshot_items::{Number, Text};
use crate::stream_laws;

verus! {

// ---------------------------------------------------------------------------
// What is stored
// ---------------------------------------------------------------------------

/// A consumer as it is stored: its name, its times, and the ids of its pending entries. All
/// ones for the time at which it was active stand for never.
pub struct StoredConsumer {
    pub name: Text,
    pub seen: u64,
    pub active: u64,
    pub own: Seq<(u64, u64)>,
}

/// A pending entry of a group as it is stored.
pub struct StoredPending {
    pub ms: u64,
    pub seq: u64,
    pub delivered: u64,
    pub deliveries: u64,
}

/// A group as it is stored. All ones for the number of entries read stand for none.
pub struct StoredGroup {
    pub name: Text,
    pub ms: u64,
    pub seq: u64,
    pub read: u64,
    pub pending: Seq<StoredPending>,
    pub consumers: Seq<StoredConsumer>,
}

/// A node as it is stored: the id of its master, and its pack.
pub struct StoredNode {
    pub ms: u64,
    pub seq: u64,
    pub key: Text,
    pub pack: Text,
}

/// A stream as it is stored.
pub struct StoredStream {
    pub nodes: Seq<StoredNode>,
    pub length: u64,
    pub last: (u64, u64),
    pub first: (u64, u64),
    pub deleted: (u64, u64),
    pub added: u64,
    pub groups: Seq<StoredGroup>,
}

/// Both halves of an id, most significant byte first.
pub open spec fn id16(ms: u64, seq: u64) -> Seq<u8> {
    bytes::be_bytes(ms as nat, 8) + bytes::be_bytes(seq as nat, 8)
}

/// A number in the form of a length.
pub open spec fn number(n: u64) -> Seq<u8> {
    rdb_wire::length_bytes(n as nat)
}

/// A time, least significant byte first.
pub open spec fn time(t: u64) -> Seq<u8> {
    bytes::le_bytes(t as nat, 8)
}

/// What only the layouts from `since` on have.
pub open spec fn from_layout(layout: int, since: int, part: Seq<u8>) -> Seq<u8> {
    if layout >= since {
        part
    } else {
        Seq::empty()
    }
}

/// The bytes of an id.
pub open spec fn own_encoder() -> spec_fn((u64, u64)) -> Seq<u8> {
    |id: (u64, u64)| id16(id.0, id.1)
}

/// The bytes of a consumer.
pub open spec fn consumer_bytes(layout: int, c: StoredConsumer) -> Seq<u8> {
    c.name.encoding + from_layout(layout, 2, time(c.seen)) + from_layout(layout, 3, time(c.active))
        + rdb_wire::length_bytes(c.own.len()) + bytes::concat_all(own_encoder(), c.own)
}

/// The bytes of a consumer, as a function value.
pub open spec fn consumer_encoder(layout: int) -> spec_fn(StoredConsumer) -> Seq<u8> {
    |c: StoredConsumer| consumer_bytes(layout, c)
}

/// The bytes of a pending entry.
pub open spec fn pending_encoder() -> spec_fn(StoredPending) -> Seq<u8> {
    |p: StoredPending| id16(p.ms, p.seq) + time(p.delivered) + number(p.deliveries)
}

/// The head of a group: its name, its last id, and the number of entries read.
pub open spec fn head_bytes(layout: int, g: StoredGroup) -> Seq<u8> {
    g.name.encoding + number(g.ms) + number(g.seq) + from_layout(layout, 2, number(g.read))
}

/// The pending entries of a group.
pub open spec fn pel_bytes(g: StoredGroup) -> Seq<u8> {
    rdb_wire::length_bytes(g.pending.len()) + bytes::concat_all(pending_encoder(), g.pending)
}

/// The consumers of a group.
pub open spec fn consumers_bytes(layout: int, g: StoredGroup) -> Seq<u8> {
    rdb_wire::length_bytes(g.consumers.len()) + bytes::concat_all(
        consumer_encoder(layout),
        g.consumers,
    )
}

/// The bytes of a group.
#[verifier::opaque]
pub open spec fn group_bytes(layout: int, g: StoredGroup) -> Seq<u8> {
    head_bytes(layout, g) + pel_bytes(g) + consumers_bytes(layout, g)
}

/// The bytes of a group, as a function value.
pub open spec fn group_encoder(layout: int) -> spec_fn(StoredGroup) -> Seq<u8> {
    |g: StoredGroup| group_bytes(layout, g)
}

/// The bytes of a node, as a function value.
pub open spec fn node_encoder() -> spec_fn(StoredNode) -> Seq<u8> {
    |n: StoredNode| n.key.encoding + n.pack.encoding
}

/// The nodes of a stream.
#[verifier::opaque]
pub open spec fn nodes_bytes(nodes: Seq<StoredNode>) -> Seq<u8> {
    rdb_wire::length_bytes(nodes.len()) + bytes::concat_all(node_encoder(), nodes)
}

/// The counters of all layouts: the length and the last id.
pub open spec fn base_bytes(s: StoredStream) -> Seq<u8> {
    number(s.length) + number(s.last.0) + number(s.last.1)
}

/// The counters of the later layouts: the first id, the greatest deleted one, and the entries
/// ever added.
pub open spec fn late_bytes(s: StoredStream) -> Seq<u8> {
    number(s.first.0) + number(s.first.1) + number(s.deleted.0) + number(s.deleted.1) + number(
        s.added,
    )
}

/// The groups of a stream.
#[verifier::opaque]
pub open spec fn groups_bytes(layout: int, groups: Seq<StoredGroup>) -> Seq<u8> {
    rdb_wire::length_bytes(groups.len()) + bytes::concat_all(group_encoder(layout), groups)
}

/// The bytes of a stream.
pub open spec fn stream_bytes(layout: int, s: StoredStream) -> Seq<u8> {
    nodes_bytes(s.nodes) + base_bytes(s) + from_layout(layout, 2, late_bytes(s)) + groups_bytes(
        layout,
        s.groups,
    )
}

// ---------------------------------------------------------------------------
// What is read
// ---------------------------------------------------------------------------

/// A number of which all ones stand for none.
pub open spec fn known(n: u64) -> Option<u64> {
    if n == u64::MAX {
        None
    } else {
        Some(n)
    }
}

/// What a consumer is read as: older layouts have no times.
pub open spec fn read_consumer(layout: int, c: StoredConsumer) -> ConsumerView {
    ConsumerView {
        name: c.name.text,
        seen: if layout >= 2 {
            c.seen
        } else {
            0
        },
        active: if layout >= 3 {
            known(c.active)
        } else {
            None
        },
    }
}

/// The only pending entry of the group with an id.
pub open spec fn is_pending_with(pending: Seq<StoredPending>, j: int, id: (u64, u64)) -> bool {
    &&& 0 <= j < pending.len()
    &&& (pending[j].ms, pending[j].seq) == id
    &&& forall|k: int|
        0 <= k < pending.len() && ((#[trigger] pending[k]).ms, pending[k].seq) == id ==> k == j
}

/// A pending entry of a consumer has the delivery that the group has for its id.
pub open spec fn is_read_pending(
    pending: Seq<StoredPending>,
    name: Seq<u8>,
    id: (u64, u64),
    p: PendingView,
) -> bool {
    exists|j: int| #[trigger]
        is_pending_with(pending, j, id) && p == (PendingView {
            ms: id.0,
            seq: id.1,
            consumer: name,
            deliveries: pending[j].deliveries,
            delivered: pending[j].delivered,
        })
}

/// The pending entries of a consumer, one for each of its ids.
pub open spec fn are_read_pending(
    pending: Seq<StoredPending>,
    c: StoredConsumer,
    found: Seq<PendingView>,
) -> bool {
    &&& found.len() == c.own.len()
    &&& forall|i: int|
        0 <= i < found.len() ==> is_read_pending(pending, c.name.text, c.own[i], #[trigger] found[i])
}

/// The pending entries of all consumers, one consumer behind the other.
pub open spec fn joined(parts: Seq<Seq<PendingView>>) -> Seq<PendingView>
    decreases parts.len(),
{
    if parts.len() == 0 {
        Seq::empty()
    } else {
        joined(parts.drop_last()) + parts.last()
    }
}

/// The group is what is stored of it: its name and last id, the number of entries read in the
/// layouts that have it, its consumers as they stand, and their pending entries.
pub open spec fn is_read_group(layout: int, g: StoredGroup, found: GroupView) -> bool {
    &&& found.name == g.name.text
    &&& found.ms == g.ms
    &&& found.seq == g.seq
    &&& found.entries_read == (if layout >= 2 {
        known(g.read)
    } else {
        None
    })
    &&& found.consumers == g.consumers.map_values(|c: StoredConsumer| read_consumer(layout, c))
    &&& exists|parts: Seq<Seq<PendingView>>| #[trigger]
        pending_parts(g, parts) && found.pending == joined(parts)
}

/// The pending entries of each consumer.
pub open spec fn pending_parts(g: StoredGroup, parts: Seq<Seq<PendingView>>) -> bool {
    &&& parts.len() == g.consumers.len()
    &&& forall|i: int|
        0 <= i < parts.len() ==> are_read_pending(g.pending, g.consumers[i], #[trigger] parts[i])
}

/// A group is whole: its names are read from their encodings, its numbers fit, and each id of
/// a consumer is that of one pending entry of the group.
pub open spec fn group_right(g: StoredGroup) -> bool {
    &&& snapshot_items::is_string(g.name.encoding, g.name.text)
    &&& g.pending.len() <= u64::MAX
    &&& g.consumers.len() <= u64::MAX
    &&& forall|i: int| 0 <= i < g.consumers.len() ==> consumer_right(g, #[trigger] g.consumers[i])
}

/// A consumer of a group is whole.
pub open spec fn consumer_right(g: StoredGroup, c: StoredConsumer) -> bool {
    &&& snapshot_items::is_string(c.name.encoding, c.name.text)
    &&& c.own.len() <= u64::MAX
    &&& forall|i: int|
        0 <= i < c.own.len() ==> exists|j: int| is_pending_with(g.pending, j, #[trigger] c.own[i])
}

/// The pending entries of a group as they are read.
spec fn pel_of(g: StoredGroup) -> Seq<PelView> {
    g.pending.map_values(|p: StoredPending| ((p.ms, p.seq), (p.delivered, p.deliveries)))
}

proof fn lemma_pel_found(pel: Seq<PelView>, id: (u64, u64), j: int)
    requires
        0 <= j < pel.len(),
        pel[j].0 == id,
        forall|k: int| 0 <= k < pel.len() && (#[trigger] pel[k]).0 == id ==> k == j,
    ensures
        rdb_stream::pel_find(pel, id) == Some(pel[j].1),
    decreases pel.len(),
{
    if j < pel.len() - 1 {
        let front = pel.drop_last();
        assert(pel[pel.len() - 1].0 != id);
        assert forall|k: int| 0 <= k < front.len() && (#[trigger] front[k]).0 == id implies k
            == j by {
            assert(front[k] == pel[k]);
        }
        lemma_pel_found(front, id, j);
    }
}

proof fn lemma_pel_missing(pel: Seq<PelView>, id: (u64, u64))
    requires
        forall|k: int| 0 <= k < pel.len() ==> (#[trigger] pel[k]).0 != id,
    ensures
        rdb_stream::pel_find(pel, id) is None,
    decreases pel.len(),
{
    if pel.len() > 0 {
        let front = pel.drop_last();
        assert forall|k: int| 0 <= k < front.len() implies (#[trigger] front[k]).0 != id by {
            assert(front[k] == pel[k]);
        }
        assert(pel[pel.len() - 1].0 != id);
        lemma_pel_missing(front, id);
    }
}

proof fn lemma_pel_reads(g: StoredGroup, data: Seq<u8>, pos: int)
    requires
        g.pending.len() <= u64::MAX,
        bytes::has_at(data, pos, pel_bytes(g)),
    ensures
        rdb_stream::group_pel_at(data, pos) == Ok::<(Seq<PelView>, int), UpstreamStreamError>(
            (pel_of(g), pos + pel_bytes(g).len()),
        ),
{
    let head = rdb_wire::length_bytes(g.pending.len());
    let encode = pending_encoder();
    let parse = rdb_stream::pel_parser();
    let found = pel_of(g);
    bytes::lemma_has_at_concat(data, pos, head, bytes::concat_all(encode, g.pending));
    stream_laws::lemma_number_reads(g.pending.len(), data, pos);
    assert forall|k: int| 0 <= k < found.len() implies bytes::try_reads(
        parse,
        encode(#[trigger] g.pending[k]),
        found[k],
    ) by {
        let p = g.pending[k];
        assert forall|d: Seq<u8>, q: int| #[trigger] bytes::has_at(d, q, encode(p)) implies parse(
            d,
            q,
        ) == Ok::<(PelView, int), UpstreamStreamError>((found[k], q + encode(p).len())) by {
            let a = id16(p.ms, p.seq);
            let b = time(p.delivered);
            bytes::lemma_has_at_concat(d, q, a + b, number(p.deliveries));
            bytes::lemma_has_at_concat(d, q, a, b);
            stream_laws::lemma_id_reads(p.ms, p.seq, d, q);
            stream_laws::lemma_time_reads(p.delivered, d, q + a.len());
            stream_laws::lemma_number_reads(p.deliveries as nat, d, q + (a + b).len());
        }
    }
    bytes::lemma_try_repeat_reads(parse, encode, g.pending, found, data, pos + head.len());
}

proof fn lemma_times_read(layout: int, c: StoredConsumer, data: Seq<u8>, pos: int)
    requires
        1 <= layout <= 3,
        0 <= pos,
        bytes::has_at(
            data,
            pos,
            from_layout(layout, 2, time(c.seen)) + from_layout(layout, 3, time(c.active)),
        ),
    ensures
        rdb_stream::times_at(layout, data, pos) == Ok::<
            ((u64, Option<u64>), int),
            UpstreamStreamError,
        >(
            (
                (read_consumer(layout, c).seen, read_consumer(layout, c).active),
                pos + from_layout(layout, 2, time(c.seen)).len() + from_layout(
                    layout,
                    3,
                    time(c.active),
                ).len(),
            ),
        ),
{
    let a = from_layout(layout, 2, time(c.seen));
    let b = from_layout(layout, 3, time(c.active));
    bytes::lemma_has_at_concat(data, pos, a, b);
    if layout >= 2 {
        stream_laws::lemma_time_reads(c.seen, data, pos);
    }
    if layout >= 3 {
        stream_laws::lemma_time_reads(c.active, data, pos + a.len());
    }
}

/// The pending entries that a consumer is read with.
spec fn own_found(g: StoredGroup, c: StoredConsumer) -> Seq<PendingView> {
    Seq::new(
        c.own.len(),
        |i: int|
            {
                let d = rdb_stream::pel_find(pel_of(g), c.own[i])->Some_0;
                PendingView {
                    ms: c.own[i].0,
                    seq: c.own[i].1,
                    consumer: c.name.text,
                    deliveries: d.1,
                    delivered: d.0,
                }
            },
    )
}

proof fn lemma_own_found(g: StoredGroup, c: StoredConsumer)
    requires
        consumer_right(g, c),
    ensures
        are_read_pending(g.pending, c, own_found(g, c)),
        forall|i: int|
            0 <= i < c.own.len() ==> rdb_stream::pel_find(pel_of(g), #[trigger] c.own[i]) is Some,
{
    let pel = pel_of(g);
    assert forall|i: int| 0 <= i < c.own.len() implies rdb_stream::pel_find(
        pel,
        #[trigger] c.own[i],
    ) is Some && is_read_pending(g.pending, c.name.text, c.own[i], own_found(g, c)[i]) by {
        let j = choose|j: int| is_pending_with(g.pending, j, c.own[i]);
        assert(is_pending_with(g.pending, j, c.own[i]));
        assert forall|k: int| 0 <= k < pel.len() && (#[trigger] pel[k]).0 == c.own[i] implies k
            == j by {
            assert((g.pending[k].ms, g.pending[k].seq) == c.own[i]);
        }
        lemma_pel_found(pel, c.own[i], j);
    }
}

proof fn lemma_consumer_reads(layout: int, g: StoredGroup, c: StoredConsumer, data: Seq<u8>, pos: int)
    requires
        1 <= layout <= 3,
        consumer_right(g, c),
        bytes::has_at(data, pos, consumer_bytes(layout, c)),
    ensures
        rdb_stream::consumer_at(layout, pel_of(g), data, pos) == Ok::<
            ((ConsumerView, Seq<PendingView>), int),
            UpstreamStreamError,
        >(((read_consumer(layout, c), own_found(g, c)), pos + consumer_bytes(layout, c).len())),
{
    reveal(rdb_stream::consumer_at);
    let pel = pel_of(g);
    let p1 = c.name.encoding;
    let p2 = from_layout(layout, 2, time(c.seen));
    let p3 = from_layout(layout, 3, time(c.active));
    let p4 = rdb_wire::length_bytes(c.own.len());
    let encode = own_encoder();
    let p5 = bytes::concat_all(encode, c.own);
    let parse = rdb_stream::own_parser(pel, c.name.text);
    let found = own_found(g, c);
    bytes::lemma_has_at_concat(data, pos, p1 + p2 + p3 + p4, p5);
    bytes::lemma_has_at_concat(data, pos, p1 + p2 + p3, p4);
    assert(p1 + p2 + p3 =~= p1 + (p2 + p3));
    bytes::lemma_has_at_concat(data, pos, p1, p2 + p3);
    lemma_times_read(layout, c, data, pos + p1.len());
    stream_laws::lemma_number_reads(c.own.len(), data, pos + (p1 + p2 + p3).len());
    lemma_own_found(g, c);
    assert forall|k: int| 0 <= k < found.len() implies bytes::try_reads(
        parse,
        encode(#[trigger] c.own[k]),
        found[k],
    ) by {
        let id = c.own[k];
        assert(rdb_stream::pel_find(pel, id) is Some);
        assert forall|d: Seq<u8>, q: int| #[trigger] bytes::has_at(d, q, encode(id)) implies parse(
            d,
            q,
        ) == Ok::<(PendingView, int), UpstreamStreamError>((found[k], q + encode(id).len())) by {
            stream_laws::lemma_id_reads(id.0, id.1, d, q);
        }
    }
    bytes::lemma_try_repeat_reads(
        parse,
        encode,
        c.own,
        found,
        data,
        pos + (p1 + p2 + p3 + p4).len(),
    );
}

spec fn consumers_found(layout: int, g: StoredGroup) -> Seq<(ConsumerView, Seq<PendingView>)> {
    g.consumers.map_values(|c: StoredConsumer| (read_consumer(layout, c), own_found(g, c)))
}

proof fn lemma_consumers_read(layout: int, g: StoredGroup, data: Seq<u8>, pos: int)
    requires
        1 <= layout <= 3,
        group_right(g),
        bytes::has_at(data, pos, consumers_bytes(layout, g)),
    ensures
        rdb_stream::group_consumers_at(layout, pel_of(g), data, pos) == Ok::<
            (Seq<(ConsumerView, Seq<PendingView>)>, int),
            UpstreamStreamError,
        >((consumers_found(layout, g), pos + consumers_bytes(layout, g).len())),
{
    let found = consumers_found(layout, g);
    let head = rdb_wire::length_bytes(g.consumers.len());
    let encode = consumer_encoder(layout);
    let parse = rdb_stream::consumer_parser(layout, pel_of(g));
    bytes::lemma_has_at_concat(data, pos, head, bytes::concat_all(encode, g.consumers));
    stream_laws::lemma_number_reads(g.consumers.len(), data, pos);
    assert forall|k: int| 0 <= k < found.len() implies bytes::try_reads(
        parse,
        encode(#[trigger] g.consumers[k]),
        found[k],
    ) by {
        let c = g.consumers[k];
        assert forall|d: Seq<u8>, q: int| #[trigger] bytes::has_at(d, q, encode(c)) implies parse(
            d,
            q,
        ) == Ok::<((ConsumerView, Seq<PendingView>), int), UpstreamStreamError>(
            (found[k], q + encode(c).len()),
        ) by {
            lemma_consumer_reads(layout, g, c, d, q);
        }
    }
    bytes::lemma_try_repeat_reads(parse, encode, g.consumers, found, data, pos + head.len());
}

proof fn lemma_joined(found: Seq<(ConsumerView, Seq<PendingView>)>)
    ensures
        rdb_stream::all_pending(found) == joined(
            found.map_values(|c: (ConsumerView, Seq<PendingView>)| c.1),
        ),
    decreases found.len(),
{
    let parts = found.map_values(|c: (ConsumerView, Seq<PendingView>)| c.1);
    if found.len() > 0 {
        lemma_joined(found.drop_last());
        assert(parts.drop_last() =~= found.drop_last().map_values(
            |c: (ConsumerView, Seq<PendingView>)| c.1,
        ));
    }
}

proof fn lemma_head_reads(layout: int, g: StoredGroup, data: Seq<u8>, pos: int)
    requires
        1 <= layout <= 3,
        snapshot_items::is_string(g.name.encoding, g.name.text),
        bytes::has_at(data, pos, head_bytes(layout, g)),
    ensures
        rdb_stream::group_head_at(layout, data, pos) == Ok::<
            ((Seq<u8>, (u64, u64), Option<u64>), int),
            UpstreamStreamError,
        >(
            (
                (
                    g.name.text,
                    (g.ms, g.seq),
                    if layout >= 2 {
                        known(g.read)
                    } else {
                        None
                    },
                ),
                pos + head_bytes(layout, g).len(),
            ),
        ),
{
    let h1 = g.name.encoding;
    let h2 = number(g.ms);
    let h3 = number(g.seq);
    let h4 = from_layout(layout, 2, number(g.read));
    bytes::lemma_has_at_concat(data, pos, h1 + h2 + h3, h4);
    bytes::lemma_has_at_concat(data, pos, h1 + h2, h3);
    bytes::lemma_has_at_concat(data, pos, h1, h2);
    stream_laws::lemma_number_reads(g.ms as nat, data, pos + h1.len());
    stream_laws::lemma_number_reads(g.seq as nat, data, pos + (h1 + h2).len());
    if layout >= 2 {
        stream_laws::lemma_number_reads(g.read as nat, data, pos + (h1 + h2 + h3).len());
    }
}

/// What a group of a layout is read as.
spec fn group_found(layout: int, g: StoredGroup) -> GroupView {
    GroupView {
        name: g.name.text,
        ms: g.ms,
        seq: g.seq,
        entries_read: if layout >= 2 {
            known(g.read)
        } else {
            None
        },
        consumers: rdb_stream::only_consumers(consumers_found(layout, g)),
        pending: rdb_stream::all_pending(consumers_found(layout, g)),
    }
}

proof fn lemma_group_found(layout: int, g: StoredGroup)
    requires
        group_right(g),
    ensures
        is_read_group(layout, g, group_found(layout, g)),
{
    let found = consumers_found(layout, g);
    let parts = found.map_values(|c: (ConsumerView, Seq<PendingView>)| c.1);
    lemma_joined(found);
    assert(rdb_stream::only_consumers(found) =~= g.consumers.map_values(
        |c: StoredConsumer| read_consumer(layout, c),
    ));
    assert forall|i: int| 0 <= i < parts.len() implies are_read_pending(
        g.pending,
        g.consumers[i],
        #[trigger] parts[i],
    ) by {
        lemma_own_found(g, g.consumers[i]);
    }
    assert(pending_parts(g, parts));
}

proof fn lemma_group_parts(layout: int, data: Seq<u8>, pos: int)
    ensures
        rdb_stream::group_head_at(layout, data, pos) matches Ok(((name, id, entries_read), p1))
            ==> (rdb_stream::group_pel_at(data, p1) matches Ok((pel, p2))
            ==> (rdb_stream::group_consumers_at(layout, pel, data, p2) matches Ok((found, end))
            ==> rdb_stream::group_at(layout, data, pos) == Ok::<
            (GroupView, int),
            UpstreamStreamError,
        >(
            (
                GroupView {
                    name,
                    ms: id.0,
                    seq: id.1,
                    entries_read,
                    consumers: rdb_stream::only_consumers(found),
                    pending: rdb_stream::all_pending(found),
                },
                end,
            ),
        ))),
{
    reveal(rdb_stream::group_at);
}

proof fn lemma_group_reads(layout: int, g: StoredGroup, data: Seq<u8>, pos: int)
    requires
        1 <= layout <= 3,
        group_right(g),
        bytes::has_at(data, pos, group_bytes(layout, g)),
    ensures
        rdb_stream::group_at(layout, data, pos) == Ok::<(GroupView, int), UpstreamStreamError>(
            (group_found(layout, g), pos + group_bytes(layout, g).len()),
        ),
{
    reveal(group_bytes);
    let a = head_bytes(layout, g);
    let b = pel_bytes(g);
    let c = consumers_bytes(layout, g);
    bytes::lemma_has_at_concat(data, pos, a + b, c);
    bytes::lemma_has_at_concat(data, pos, a, b);
    lemma_head_reads(layout, g, data, pos);
    lemma_pel_reads(g, data, pos + a.len());
    lemma_consumers_read(layout, g, data, pos + (a + b).len());
    lemma_group_parts(layout, data, pos);
}

/// A group of any layout is read as what is stored of it: its name, its last id, in this
/// order of halves, and what else the layout has.
pub proof fn law_stored_group_is_read(layout: int, g: StoredGroup, data: Seq<u8>, pos: int)
    requires
        1 <= layout <= 3,
        group_right(g),
        bytes::has_at(data, pos, group_bytes(layout, g)),
    ensures
        rdb_stream::group_at(layout, data, pos) matches Ok((found, end)) && is_read_group(
            layout,
            g,
            found,
        ) && end == pos + group_bytes(layout, g).len(),
{
    lemma_group_reads(layout, g, data, pos);
    lemma_group_found(layout, g);
}

/// A pending entry of a consumer that the group does not have is an error.
pub proof fn law_unknown_pending_is_rejected(
    pel: Seq<PelView>,
    name: Seq<u8>,
    id: (u64, u64),
    data: Seq<u8>,
    pos: int,
)
    requires
        forall|k: int| 0 <= k < pel.len() ==> (#[trigger] pel[k]).0 != id,
        bytes::has_at(data, pos, id16(id.0, id.1)),
    ensures
        rdb_stream::own_at(pel, name, data, pos) == Err::<(PendingView, int), UpstreamStreamError>(
            UpstreamStreamError::MissingGlobalPelEntry,
        ),
{
    stream_laws::lemma_id_reads(id.0, id.1, data, pos);
    lemma_pel_missing(pel, id);
}

// ---------------------------------------------------------------------------
// Streams
// ---------------------------------------------------------------------------

/// A node is whole: its key is read as the sixteen bytes of its id.
pub open spec fn node_right(n: StoredNode) -> bool {
    &&& snapshot_items::is_string(n.key.encoding, n.key.text)
    &&& n.key.text == id16(n.ms, n.seq)
    &&& snapshot_items::is_string(n.pack.encoding, n.pack.text)
}

/// A stream is whole.
pub open spec fn stream_right(s: StoredStream) -> bool {
    &&& s.nodes.len() <= u64::MAX
    &&& s.groups.len() <= u64::MAX
    &&& forall|i: int| 0 <= i < s.nodes.len() ==> node_right(#[trigger] s.nodes[i])
    &&& forall|i: int| 0 <= i < s.groups.len() ==> group_right(#[trigger] s.groups[i])
}

/// The nodes of a stream as they are read.
pub open spec fn read_nodes(nodes: Seq<StoredNode>) -> Seq<NodeView> {
    nodes.map_values(|n: StoredNode| (n.ms, n.seq, n.pack.text))
}

/// The skeleton is what is stored of the stream. The oldest layout has neither a greatest
/// deleted id nor a number of entries ever added; the length counts as the latter. An id of
/// zeros stands for none.
pub open spec fn is_read_stream(layout: int, s: StoredStream, k: SkeletonView) -> bool {
    &&& k.length == s.length
    &&& k.nodes == read_nodes(s.nodes)
    &&& k.watermark == s.last
    &&& k.entries_added == (if layout >= 2 {
        s.added
    } else {
        s.length
    })
    &&& k.max_deleted == (if layout >= 2 && s.deleted != (0u64, 0u64) {
        Some(s.deleted)
    } else {
        None
    })
    &&& k.groups.len() == s.groups.len()
    &&& forall|i: int|
        0 <= i < s.groups.len() ==> is_read_group(layout, s.groups[i], #[trigger] k.groups[i])
}

proof fn lemma_nodes_read(nodes: Seq<StoredNode>, data: Seq<u8>, pos: int)
    requires
        nodes.len() <= u64::MAX,
        forall|i: int| 0 <= i < nodes.len() ==> node_right(#[trigger] nodes[i]),
        bytes::has_at(data, pos, nodes_bytes(nodes)),
    ensures
        rdb_stream::nodes_at(data, pos) == Ok::<(Seq<NodeView>, int), UpstreamStreamError>(
            (read_nodes(nodes), pos + nodes_bytes(nodes).len()),
        ),
{
    reveal(nodes_bytes);
    let found = read_nodes(nodes);
    let head = rdb_wire::length_bytes(nodes.len());
    let encode = node_encoder();
    let parse = rdb_stream::node_parser();
    bytes::lemma_has_at_concat(data, pos, head, bytes::concat_all(encode, nodes));
    stream_laws::lemma_number_reads(nodes.len(), data, pos);
    assert forall|k: int| 0 <= k < found.len() implies bytes::try_reads(
        parse,
        encode(#[trigger] nodes[k]),
        found[k],
    ) by {
        let n = nodes[k];
        assert(node_right(n));
        assert forall|d: Seq<u8>, q: int| #[trigger] bytes::has_at(d, q, encode(n)) implies parse(
            d,
            q,
        ) == Ok::<(NodeView, int), UpstreamStreamError>((found[k], q + encode(n).len())) by {
            bytes::lemma_has_at_concat(d, q, n.key.encoding, n.pack.encoding);
            bytes::lemma_has_at_whole(n.key.text);
            stream_laws::lemma_id_reads(n.ms, n.seq, n.key.text, 0);
        }
    }
    bytes::lemma_try_repeat_reads(parse, encode, nodes, found, data, pos + head.len());
}

proof fn lemma_base_reads(s: StoredStream, data: Seq<u8>, pos: int)
    requires
        bytes::has_at(data, pos, base_bytes(s)),
    ensures
        rdb_stream::base_counters_at(data, pos) == Ok::<
            ((u64, (u64, u64)), int),
            UpstreamStreamError,
        >(((s.length, s.last), pos + base_bytes(s).len())),
{
    let c1 = number(s.length);
    let c2 = c1 + number(s.last.0);
    stream_laws::lemma_number_behind(c2, s.last.1 as nat, data, pos);
    stream_laws::lemma_number_behind(c1, s.last.0 as nat, data, pos);
    stream_laws::lemma_number_reads(s.length as nat, data, pos);
}

proof fn lemma_late_reads(layout: int, s: StoredStream, data: Seq<u8>, pos: int)
    requires
        1 <= layout <= 3,
        bytes::has_at(data, pos, from_layout(layout, 2, late_bytes(s))),
    ensures
        rdb_stream::late_counters_at(layout, s.length, data, pos) == Ok::<
            (((u64, u64), u64), int),
            UpstreamStreamError,
        >(
            (
                if layout >= 2 {
                    (s.deleted, s.added)
                } else {
                    ((0u64, 0u64), s.length)
                },
                pos + from_layout(layout, 2, late_bytes(s)).len(),
            ),
        ),
{
    if layout >= 2 {
        let c1 = number(s.first.0);
        let c2 = c1 + number(s.first.1);
        let c3 = c2 + number(s.deleted.0);
        let c4 = c3 + number(s.deleted.1);
        stream_laws::lemma_number_behind(c4, s.added as nat, data, pos);
        stream_laws::lemma_number_behind(c3, s.deleted.1 as nat, data, pos);
        stream_laws::lemma_number_behind(c2, s.deleted.0 as nat, data, pos);
        stream_laws::lemma_number_behind(c1, s.first.1 as nat, data, pos);
        stream_laws::lemma_number_reads(s.first.0 as nat, data, pos);
    }
}

spec fn groups_found(layout: int, groups: Seq<StoredGroup>) -> Seq<GroupView> {
    groups.map_values(|g: StoredGroup| group_found(layout, g))
}

proof fn lemma_groups_read(layout: int, groups: Seq<StoredGroup>, data: Seq<u8>, pos: int)
    requires
        1 <= layout <= 3,
        groups.len() <= u64::MAX,
        forall|i: int| 0 <= i < groups.len() ==> group_right(#[trigger] groups[i]),
        bytes::has_at(data, pos, groups_bytes(layout, groups)),
    ensures
        rdb_stream::groups_at(layout, data, pos) == Ok::<(Seq<GroupView>, int), UpstreamStreamError>(
            (groups_found(layout, groups), pos + groups_bytes(layout, groups).len()),
        ),
{
    reveal(groups_bytes);
    let found = groups_found(layout, groups);
    let head = rdb_wire::length_bytes(groups.len());
    let encode = group_encoder(layout);
    let parse = rdb_stream::group_parser(layout);
    bytes::lemma_has_at_concat(data, pos, head, bytes::concat_all(encode, groups));
    stream_laws::lemma_number_reads(groups.len(), data, pos);
    assert forall|k: int| 0 <= k < found.len() implies bytes::try_reads(
        parse,
        encode(#[trigger] groups[k]),
        found[k],
    ) by {
        let g = groups[k];
        assert(group_right(g));
        assert forall|d: Seq<u8>, q: int| #[trigger] bytes::has_at(d, q, encode(g)) implies parse(
            d,
            q,
        ) == Ok::<(GroupView, int), UpstreamStreamError>((found[k], q + encode(g).len())) by {
            lemma_group_reads(layout, g, d, q);
        }
    }
    bytes::lemma_try_repeat_reads(parse, encode, groups, found, data, pos + head.len());
}

/// The layout of a type byte: the first is 15, the second 19, the third 21.
pub open spec fn type_of_layout(layout: int) -> u8 {
    if layout == 1 {
        15
    } else if layout == 2 {
        19
    } else {
        21
    }
}

/// The parts of a stream make up its skeleton.
proof fn lemma_skeleton_parts(
    layout: int,
    data: Seq<u8>,
    nodes: Seq<NodeView>,
    p1: int,
    length: u64,
    last: (u64, u64),
    p2: int,
    deleted: (u64, u64),
    added: u64,
    p3: int,
    groups: Seq<GroupView>,
    end: int,
)
    requires
        1 <= layout <= 3,
        rdb_stream::nodes_at(data, 0) == Ok::<(Seq<NodeView>, int), UpstreamStreamError>(
            (nodes, p1),
        ),
        rdb_stream::base_counters_at(data, p1) == Ok::<
            ((u64, (u64, u64)), int),
            UpstreamStreamError,
        >(((length, last), p2)),
        rdb_stream::late_counters_at(layout, length, data, p2) == Ok::<
            (((u64, u64), u64), int),
            UpstreamStreamError,
        >(((deleted, added), p3)),
        rdb_stream::groups_at(layout, data, p3) == Ok::<
            (Seq<GroupView>, int),
            UpstreamStreamError,
        >((groups, end)),
    ensures
        rdb_stream::skeleton_of(type_of_layout(layout), data) matches Ok((k, e)) && e == end
            && k.length == length && k.nodes == nodes && k.watermark == last && k.groups == groups
            && k.type_byte == type_of_layout(layout) && k.payload == data.take(end)
            && k.entries_added == added && k.max_deleted == (if deleted == (0u64, 0u64) {
            None
        } else {
            Some(deleted)
        }),
{
}

proof fn lemma_groups_found(layout: int, groups: Seq<StoredGroup>)
    requires
        forall|i: int| 0 <= i < groups.len() ==> group_right(#[trigger] groups[i]),
    ensures
        groups_found(layout, groups).len() == groups.len(),
        forall|i: int|
            0 <= i < groups.len() ==> is_read_group(
                layout,
                groups[i],
                #[trigger] groups_found(layout, groups)[i],
            ),
{
    assert forall|i: int| 0 <= i < groups.len() implies is_read_group(
        layout,
        groups[i],
        #[trigger] groups_found(layout, groups)[i],
    ) by {
        lemma_group_found(layout, groups[i]);
    }
}

/// Where the parts of a stream stand.
proof fn lemma_stream_parts(layout: int, s: StoredStream, data: Seq<u8>)
    requires
        bytes::has_at(data, 0, stream_bytes(layout, s)),
    ensures
        ({
            let p1 = nodes_bytes(s.nodes).len() as int;
            let p2 = p1 + base_bytes(s).len();
            let p3 = p2 + from_layout(layout, 2, late_bytes(s)).len();
            let n = stream_bytes(layout, s).len() as int;
            &&& bytes::has_at(data, 0, nodes_bytes(s.nodes))
            &&& bytes::has_at(data, p1, base_bytes(s))
            &&& bytes::has_at(data, p2, from_layout(layout, 2, late_bytes(s)))
            &&& bytes::has_at(data, p3, groups_bytes(layout, s.groups))
            &&& p3 + groups_bytes(layout, s.groups).len() == n
            &&& data.take(n) == stream_bytes(layout, s)
        }),
{
    let a = nodes_bytes(s.nodes);
    let b = base_bytes(s);
    let c = from_layout(layout, 2, late_bytes(s));
    let d = groups_bytes(layout, s.groups);
    bytes::lemma_has_at_concat(data, 0, a + b + c, d);
    bytes::lemma_has_at_concat(data, 0, a + b, c);
    bytes::lemma_has_at_concat(data, 0, a, b);
    bytes::lemma_has_at_subrange(data, 0, stream_bytes(layout, s));
    let n = stream_bytes(layout, s).len() as int;
    assert(data.take(n) =~= data.subrange(0, n));
}

/// A stream of any layout is read as what is stored of it, whatever follows it, and keeps its
/// own bytes.
pub proof fn law_stored_stream_is_read(layout: int, s: StoredStream, data: Seq<u8>)
    requires
        1 <= layout <= 3,
        stream_right(s),
        bytes::has_at(data, 0, stream_bytes(layout, s)),
    ensures
        rdb_stream::skeleton_of(type_of_layout(layout), data) matches Ok((k, end))
            && is_read_stream(layout, s, k) && end == stream_bytes(layout, s).len()
            && k.type_byte == type_of_layout(layout) && k.payload == stream_bytes(layout, s),
{
    let p1 = nodes_bytes(s.nodes).len() as int;
    let p2 = p1 + base_bytes(s).len();
    let p3 = p2 + from_layout(layout, 2, late_bytes(s)).len();
    lemma_stream_parts(layout, s, data);
    lemma_nodes_read(s.nodes, data, 0);
    lemma_base_reads(s, data, p1);
    lemma_late_reads(layout, s, data, p2);
    lemma_groups_read(layout, s.groups, data, p3);
    lemma_groups_found(layout, s.groups);
    let late = if layout >= 2 {
        (s.deleted, s.added)
    } else {
        ((0u64, 0u64), s.length)
    };
    lemma_skeleton_parts(
        layout,
        data,
        read_nodes(s.nodes),
        p1,
        s.length,
        s.last,
        p2,
        late.0,
        late.1,
        p3,
        groups_found(layout, s.groups),
        stream_bytes(layout, s).len() as int,
    );
}

/// No other type byte is that of a stream in packs.
pub proof fn law_other_types_are_no_streams(type_byte: u8, data: Seq<u8>)
    requires
        type_byte != 15,
        type_byte != 19,
        type_byte != 21,
    ensures
        rdb_stream::skeleton_of(type_byte, data) == Err::<(SkeletonView, int), UpstreamStreamError>(
            UpstreamStreamError::UnsupportedTypeByte(type_byte),
        ),
{
}

/// Of pending entries of a group with one id, the last counts for its consumers.
pub proof fn law_last_pending_counts(pel: Seq<PelView>, id: (u64, u64), j: int)
    requires
        0 <= j < pel.len(),
        pel[j].0 == id,
        forall|k: int| j < k < pel.len() ==> (#[trigger] pel[k]).0 != id,
    ensures
        rdb_stream::pel_find(pel, id) == Some(pel[j].1),
    decreases pel.len(),
{
    if j < pel.len() - 1 {
        assert(pel[pel.len() - 1].0 != id);
        law_last_pending_counts(pel.drop_last(), id, j);
    }
}

/// A stream without its number of nodes, with a key of a node that is no string, and with one
/// that has not sixteen bytes is refused, each with an error of its own.
pub proof fn law_stream_start_errors(type_byte: u8, data: Seq<u8>, n: Number, key: Text)
    requires
        type_byte == 15 || type_byte == 19 || type_byte == 21,
        snapshot_items::is_length(n.encoding, n.number),
        0 < n.number <= u64::MAX,
        snapshot_items::is_string(key.encoding, key.text),
    ensures
        rdb_wire::length_at(data, 0) is None ==> (rdb_stream::skeleton_of(
            type_byte,
            data,
        ) matches Err(e) && e == UpstreamStreamError::InvalidLength),
        bytes::has_at(data, 0, n.encoding) && rdb_wire::string_at(
            data,
            n.encoding.len() as int,
        ) is None ==> (rdb_stream::skeleton_of(type_byte, data) matches Err(e) && e
            == UpstreamStreamError::InvalidString),
        bytes::has_at(data, 0, n.encoding + key.encoding) && key.text.len() != 16 ==> (
        rdb_stream::skeleton_of(type_byte, data) matches Err(e) && e
            == UpstreamStreamError::InvalidNodekeyLength),
{
    bytes::lemma_has_at_concat(data, 0, n.encoding, key.encoding);
    let parse = rdb_stream::node_parser();
    let start = n.encoding.len() as int;
    if bytes::has_at(data, 0, n.encoding) && parse(data, start) is Err {
        assert(bytes::try_repeat(parse, data, start, 0) == Ok::<
            (Seq<NodeView>, int),
            UpstreamStreamError,
        >((Seq::empty(), start)));
        assert(bytes::try_repeat(parse, data, start, 1) == Err::<
            (Seq<NodeView>, int),
            UpstreamStreamError,
        >(parse(data, start)->Err_0));
        bytes::lemma_try_repeat_err(parse, data, start, 1, n.number);
    }
}

} // verus!
