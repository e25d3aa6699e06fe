//! Writing snapshots.

use vstd::prelude::*;

use crate::bytes;
use crate::bytes::{bytes_equal, push_le};
use crate::crc64;
use crate::crc64::crc64_redis;
use crate::listpack_encode;
use crate::order;
use crate::order::{has_equal_keys, order_of, KeyView, SortKey};
use crate::rdb_compact;
use crate::rdb_compact::{
    encode_compact_hash_listpack, encode_compact_list_quicklist2, encode_compact_set_intset,
    encode_compact_set_listpack, encode_compact_zset_listpack, encode_quicklist2_packed_payload,
    CompactRdbThresholds,
};
use crate::rdb_stream::UPSTREAM_RDB_TYPE_STREAM_LISTPACKS_3;
use crate::rdb_types;
use crate::rdb_types::{
    ConsumerView, EntryView, GroupView, PendingView, RdbEntry, RdbEntryView, RdbStreamConsumerGroup,
    RdbStreamMetadata, RdbStreamPendingEntry, RdbStringEntryRef, RdbValue, StreamEntry, StreamView,
    ValueView,
};
use crate::rdb_wire;
use crate::rdb_wire::{rdb_encode_length, rdb_encode_string};
use crate::records;
use crate::records::write_counted;
use crate::score::RdbScore;
use crate::stream_encode;
use crate::stream_encode::{encode_upstream_stream_listpacks3, is_group_closed};
use crate::stream_private;
use crate::stream_private::encode_private_stream;

verus! {

/// The version that snapshots are written in.
pub const RDB_VERSION: u32 = 11;

pub const RDB_OPCODE_FUNCTION2: u8 = 0xF5;

pub const RDB_OPCODE_IDLE: u8 = 0xF8;

pub const RDB_OPCODE_FREQ: u8 = 0xF9;

pub const RDB_OPCODE_AUX: u8 = 0xFA;

pub const RDB_OPCODE_RESIZEDB: u8 = 0xFB;

pub const RDB_OPCODE_EXPIRETIME_MS: u8 = 0xFC;

pub const RDB_OPCODE_EXPIRETIME: u8 = 0xFD;

pub const RDB_OPCODE_SELECTDB: u8 = 0xFE;

pub const RDB_OPCODE_EOF: u8 = 0xFF;

pub const RDB_TYPE_STRING: u8 = 0;

pub const RDB_TYPE_LIST: u8 = 1;

pub const RDB_TYPE_SET: u8 = 2;

/// A sorted set whose scores are text.
pub const RDB_TYPE_ZSET: u8 = 3;

pub const RDB_TYPE_HASH: u8 = 4;

/// A sorted set whose scores are doubles.
pub const RDB_TYPE_ZSET_2: u8 = 5;

pub const RDB_TYPE_HASH_ZIPMAP: u8 = 9;

pub const RDB_TYPE_LIST_ZIPLIST: u8 = 10;

pub const RDB_TYPE_SET_INTSET: u8 = 11;

pub const RDB_TYPE_ZSET_ZIPLIST: u8 = 12;

pub const RDB_TYPE_HASH_ZIPLIST: u8 = 13;

pub const RDB_TYPE_LIST_QUICKLIST: u8 = 14;

/// A stream in the plain form.
pub const RDB_TYPE_STREAM: u8 = 15;

pub const RDB_TYPE_HASH_LISTPACK: u8 = 16;

pub const RDB_TYPE_ZSET_LISTPACK: u8 = 17;

pub const RDB_TYPE_LIST_QUICKLIST_2: u8 = 18;

pub const RDB_TYPE_SET_LISTPACK: u8 = 20;

/// A hash whose fields have deadlines.
pub const RDB_TYPE_HASH_WITH_TTLS: u8 = 100;

/// How a snapshot is written.
#[derive(Debug, Clone, Copy)]
pub struct RdbEncodeOptions {
    /// Up to which sizes collections are stored in their compact forms; `None` for
    /// never.
    pub compact: Option<CompactRdbThresholds>,
}

impl Default for RdbEncodeOptions {
    fn default() -> (o: Self)
        ensures
            o.compact is None,
    {
        RdbEncodeOptions { compact: None }
    }
}

// ---------------------------------------------------------------------------
// What a value is written as
// ---------------------------------------------------------------------------

/// The payload of a compact form, if compact forms are wanted and this one is found.
pub open spec fn list_compact(items: Seq<Seq<u8>>, compact: Option<CompactRdbThresholds>) -> Option<
    Seq<u8>,
> {
    match compact {
        None => None,
        Some(t) => rdb_compact::list_payload(items, t),
    }
}

/// A list: its packs, or its items.
pub open spec fn list_stored(items: Seq<Seq<u8>>, compact: Option<CompactRdbThresholds>) -> (
    u8,
    Seq<u8>,
) {
    match list_compact(items, compact) {
        Some(payload) => (RDB_TYPE_LIST_QUICKLIST_2, payload),
        None => (RDB_TYPE_LIST, records::counted_bytes::<Vec<u8>>(items)),
    }
}

/// A set: its members.
pub open spec fn plain_set_stored(members: Seq<Seq<u8>>) -> (u8, Seq<u8>) {
    (RDB_TYPE_SET, records::counted_bytes::<Vec<u8>>(members))
}

/// A set: a set of integers, a pack, or its members.
pub open spec fn set_stored(members: Seq<Seq<u8>>, compact: Option<CompactRdbThresholds>) -> (
    u8,
    Seq<u8>,
) {
    match compact {
        None => plain_set_stored(members),
        Some(t) => match rdb_compact::intset_payload(members, t) {
            Some(payload) => (RDB_TYPE_SET_INTSET, payload),
            None => match rdb_compact::set_payload(members, t) {
                Some(payload) => (RDB_TYPE_SET_LISTPACK, payload),
                None => plain_set_stored(members),
            },
        },
    }
}

/// A hash: a pack, or its fields.
pub open spec fn hash_stored(
    fields: Seq<rdb_types::FieldView>,
    compact: Option<CompactRdbThresholds>,
) -> (u8, Seq<u8>) {
    let packed = match compact {
        None => None,
        Some(t) => rdb_compact::hash_payload(fields, t),
    };
    match packed {
        Some(payload) => (RDB_TYPE_HASH_LISTPACK, payload),
        None => (RDB_TYPE_HASH, records::counted_bytes::<(Vec<u8>, Vec<u8>)>(fields)),
    }
}

/// A sorted set: a pack, or its members with the bits of their scores.
pub open spec fn zset_stored(
    members: Seq<(Seq<u8>, crate::score::ScoreView)>,
    compact: Option<CompactRdbThresholds>,
) -> (u8, Seq<u8>) {
    let packed = match compact {
        None => None,
        Some(t) => rdb_compact::zset_payload(members, t),
    };
    match packed {
        Some(payload) => (RDB_TYPE_ZSET_LISTPACK, payload),
        None => (RDB_TYPE_ZSET_2, records::counted_bytes::<(Vec<u8>, RdbScore)>(members)),
    }
}

/// Each id is less than the next.
pub open spec fn ids_increase(entries: Seq<EntryView>) -> bool {
    forall|i: int|
        0 < i < entries.len() ==> {
            let a = entries[i - 1];
            let b = #[trigger] entries[i];
            a.ms < b.ms || (a.ms == b.ms && a.seq < b.seq)
        }
}

/// The ids of pending entries differ.
pub open spec fn pending_ids_differ(pending: Seq<PendingView>) -> bool {
    forall|a: int, b: int|
        0 <= a < b < pending.len() ==> ((#[trigger] pending[a]).ms, pending[a].seq) != (
            (#[trigger] pending[b]).ms,
            pending[b].seq,
        )
}

/// The pending entries, consumer by consumer.
pub open spec fn by_consumer(consumers: Seq<ConsumerView>, pending: Seq<PendingView>) -> Seq<
    PendingView,
>
    decreases consumers.len(),
{
    if consumers.len() == 0 {
        Seq::empty()
    } else {
        by_consumer(consumers.drop_last(), pending) + stream_encode::pending_of(
            pending,
            consumers.last().name,
        )
    }
}

/// A group loses nothing in packs: its pending entries are of its consumers, their ids
/// differ, and they already stand consumer by consumer.
pub open spec fn group_lossless(g: GroupView) -> bool {
    &&& stream_encode::group_closed(g)
    &&& pending_ids_differ(g.pending)
    &&& by_consumer(g.consumers, g.pending) == g.pending
}

/// A stream of these parts loses nothing in packs.
pub open spec fn lossless(
    entries: Seq<EntryView>,
    watermark: Option<(u64, u64)>,
    groups: Seq<GroupView>,
) -> bool {
    &&& watermark is Some
    &&& ids_increase(entries)
    &&& forall|i: int| 0 <= i < groups.len() ==> group_lossless(#[trigger] groups[i])
}

/// A stream loses nothing in packs.
pub open spec fn stream_lossless(s: StreamView) -> bool {
    lossless(s.entries, s.watermark, s.groups)
}

/// A stream: as it was read, in packs where that loses nothing, or in the plain form.
pub open spec fn stream_stored(s: StreamView) -> (u8, Seq<u8>) {
    match s.metadata {
        Some(m) => m,
        None => if stream_lossless(s) && stream_encode::stream_packable(s) {
            (UPSTREAM_RDB_TYPE_STREAM_LISTPACKS_3, stream_encode::stream_bytes(s))
        } else {
            (RDB_TYPE_STREAM, stream_private::private_stream_bytes(s))
        },
    }
}

/// The type byte and the payload of a value.
#[verifier::opaque]
pub open spec fn value_stored(v: ValueView, compact: Option<CompactRdbThresholds>) -> (u8, Seq<u8>) {
    match v {
        ValueView::String(s) => (RDB_TYPE_STRING, rdb_wire::string_bytes(s)),
        ValueView::List(items) => list_stored(items, compact),
        ValueView::ListPacked(packs) => (
            RDB_TYPE_LIST_QUICKLIST_2,
            rdb_compact::packed_list_payload(packs),
        ),
        ValueView::MemberSet(members) => set_stored(members, compact),
        ValueView::SetHashtable(members) => plain_set_stored(members),
        ValueView::Hash(fields) => hash_stored(fields, compact),
        ValueView::HashWithTtls(fields) => (
            RDB_TYPE_HASH_WITH_TTLS,
            records::counted_bytes::<(Vec<u8>, Vec<u8>, Option<u64>)>(fields),
        ),
        ValueView::SortedSet(members) => zset_stored(members, compact),
        ValueView::Stream(s) => stream_stored(s),
    }
}

/// The scores of a value are doubles, with their texts where it goes into a pack.
pub open spec fn value_writable(v: ValueView, compact: Option<CompactRdbThresholds>) -> bool {
    v matches ValueView::SortedSet(members) ==> rdb_compact::zset_writable(members, compact)
}

// ---------------------------------------------------------------------------
// Streams
// ---------------------------------------------------------------------------

fn entries_increase(entries: &[StreamEntry]) -> (r: bool)
    ensures
        r == ids_increase(rdb_types::entry_views(entries@)),
{
    let ghost all = rdb_types::entry_views(entries@);
    let mut i: usize = 1;
    while i < entries.len()
        invariant
            1 <= i,
            all == rdb_types::entry_views(entries@),
            forall|k: int|
                0 < k < i && k < all.len() ==> {
                    let a = all[k - 1];
                    let b = #[trigger] all[k];
                    a.ms < b.ms || (a.ms == b.ms && a.seq < b.seq)
                },
        decreases entries@.len() - i,
    {
        let a = &entries[i - 1];
        let b = &entries[i];
        assert(all[i - 1] == rdb_types::entry_view(*a));
        assert(all[i as int] == rdb_types::entry_view(*b));
        if !(a.0 < b.0 || (a.0 == b.0 && a.1 < b.1)) {
            return false;
        }
        i = i + 1;
    }
    true
}

fn pending_keys_differ(pending: &[RdbStreamPendingEntry]) -> (r: bool)
    ensures
        r == pending_ids_differ(rdb_types::pending_views(pending@)),
{
    let ghost all = rdb_types::pending_views(pending@);
    let none: Vec<u8> = Vec::new();
    let mut keys: Vec<SortKey> = Vec::new();
    let mut i: usize = 0;
    while i < pending.len()
        invariant
            i <= pending@.len(),
            all == rdb_types::pending_views(pending@),
            none@.len() == 0,
            keys@.len() == i,
            forall|k: int|
                0 <= k < i ==> (#[trigger] keys@[k])@ == stream_encode::id_key(
                    all[k].ms,
                    all[k].seq,
                ),
        decreases pending@.len() - i,
    {
        let p = &pending[i];
        assert(all[i as int] == p@);
        keys.push(SortKey { major: p.entry_id_ms, minor: p.entry_id_seq, bytes: none.as_slice() });
        assert(keys@[i as int]@ =~= stream_encode::id_key(all[i as int].ms, all[i as int].seq));
        i = i + 1;
    }
    let equal: bool = has_equal_keys(keys.as_slice());
    proof {
        if equal {
            let (a, b) = choose|a: int, b: int|
                0 <= a < b < keys@.len() && #[trigger] keys@[a]@ == #[trigger] keys@[b]@;
            assert(keys@[a]@ == keys@[b]@);
            assert((all[a].ms, all[a].seq) == (all[b].ms, all[b].seq));
        } else {
            assert forall|a: int, b: int| 0 <= a < b < all.len() implies (
                (#[trigger] all[a]).ms,
                all[a].seq,
            ) != ((#[trigger] all[b]).ms, all[b].seq) by {
                assert(keys@[a]@ == stream_encode::id_key(all[a].ms, all[a].seq));
                assert(keys@[b]@ == stream_encode::id_key(all[b].ms, all[b].seq));
            }
        }
    }
    !equal
}

fn pending_equal(a: &RdbStreamPendingEntry, b: &RdbStreamPendingEntry) -> (r: bool)
    ensures
        r == (a@ == b@),
{
    a.entry_id_ms == b.entry_id_ms && a.entry_id_seq == b.entry_id_seq && a.deliveries
        == b.deliveries && a.last_delivered_ms == b.last_delivered_ms && bytes_equal(
        a.consumer.as_slice(),
        b.consumer.as_slice(),
    )
}

spec fn same_prefix(a: Seq<PendingView>, b: Seq<PendingView>) -> bool {
    a.len() <= b.len() && b.take(a.len() as int) == a
}

proof fn lemma_by_consumer_prefix(consumers: Seq<ConsumerView>, pending: Seq<PendingView>, k: int)
    requires
        0 <= k <= consumers.len(),
    ensures
        same_prefix(by_consumer(consumers.take(k), pending), by_consumer(consumers, pending)),
    decreases consumers.len(),
{
    if k < consumers.len() {
        let front = consumers.drop_last();
        lemma_by_consumer_prefix(front, pending, k);
        assert(front.take(k) =~= consumers.take(k));
        let a = by_consumer(consumers.take(k), pending);
        let b = by_consumer(front, pending);
        let c = by_consumer(consumers, pending);
        assert(c.take(a.len() as int) =~= b.take(a.len() as int));
    } else {
        assert(consumers.take(k) =~= consumers);
        let a = by_consumer(consumers, pending);
        assert(a.take(a.len() as int) =~= a);
    }
}

proof fn lemma_pending_of_prefix(pending: Seq<PendingView>, name: Seq<u8>, k: int)
    requires
        0 <= k <= pending.len(),
    ensures
        same_prefix(
            stream_encode::pending_of(pending.take(k), name),
            stream_encode::pending_of(pending, name),
        ),
    decreases pending.len(),
{
    if k < pending.len() {
        let front = pending.drop_last();
        lemma_pending_of_prefix(front, name, k);
        assert(front.take(k) =~= pending.take(k));
        let a = stream_encode::pending_of(pending.take(k), name);
        let b = stream_encode::pending_of(front, name);
        let c = stream_encode::pending_of(pending, name);
        assert(c.take(a.len() as int) =~= b.take(a.len() as int));
    } else {
        assert(pending.take(k) =~= pending);
        let a = stream_encode::pending_of(pending, name);
        assert(a.take(a.len() as int) =~= a);
    }
}

/// What stands at `at` in the listing consumer by consumer.
proof fn lemma_listed(
    consumers: Seq<ConsumerView>,
    pending: Seq<PendingView>,
    i: int,
    j: int,
    at: int,
)
    requires
        0 <= i < consumers.len(),
        0 <= j < pending.len(),
        pending[j].consumer == consumers[i].name,
        at == by_consumer(consumers.take(i), pending).len() + stream_encode::pending_of(
            pending.take(j),
            consumers[i].name,
        ).len(),
    ensures
        at < by_consumer(consumers, pending).len(),
        by_consumer(consumers, pending)[at] == pending[j],
{
    let name = consumers[i].name;
    let a = by_consumer(consumers.take(i), pending);
    let p = stream_encode::pending_of(pending.take(j), name);
    let q = stream_encode::pending_of(pending.take(j + 1), name);
    assert(pending.take(j + 1).drop_last() =~= pending.take(j));
    assert(q == p.push(pending[j]));
    lemma_pending_of_prefix(pending, name, j + 1);
    let whole = stream_encode::pending_of(pending, name);
    assert(whole.take(q.len() as int)[p.len() as int] == pending[j]);
    assert(consumers.take(i + 1).drop_last() =~= consumers.take(i));
    let b = by_consumer(consumers.take(i + 1), pending);
    assert(b == a + whole);
    lemma_by_consumer_prefix(consumers, pending, i + 1);
    let all = by_consumer(consumers, pending);
    assert(all.take(b.len() as int)[at] == b[at]);
}

/// Whether the pending entries stand consumer by consumer.
fn pending_listed(group: &RdbStreamConsumerGroup) -> (r: bool)
    ensures
        r == (by_consumer(group@.consumers, group@.pending) == group@.pending),
{
    let ghost consumers = group@.consumers;
    let ghost pending = group@.pending;
    let ghost listed = by_consumer(consumers, pending);
    let mut at: usize = 0;
    let mut i: usize = 0;
    assert(consumers.take(0) =~= Seq::empty());
    assert(pending.take(0) =~= Seq::empty());
    while i < group.consumers.len()
        invariant
            i <= group.consumers@.len(),
            consumers == group@.consumers,
            pending == group@.pending,
            listed == by_consumer(consumers, pending),
            at == by_consumer(consumers.take(i as int), pending).len(),
            at <= pending.len(),
            same_prefix(by_consumer(consumers.take(i as int), pending), pending),
        decreases group.consumers@.len() - i,
    {
        let name: &[u8] = group.consumers[i].name.as_slice();
        assert(consumers[i as int].name == name@);
        let ghost before = by_consumer(consumers.take(i as int), pending);
        let mut j: usize = 0;
        assert(pending.take(0) =~= Seq::empty());
        assert(before + stream_encode::pending_of(pending.take(0), name@) =~= before);
        while j < group.pending.len()
            invariant
                i < group.consumers@.len(),
                j <= group.pending@.len(),
                consumers == group@.consumers,
                pending == group@.pending,
                listed == by_consumer(consumers, pending),
                consumers[i as int].name == name@,
                before == by_consumer(consumers.take(i as int), pending),
                at == before.len() + stream_encode::pending_of(pending.take(j as int), name@).len(),
                at <= pending.len(),
                same_prefix(
                    before + stream_encode::pending_of(pending.take(j as int), name@),
                    pending,
                ),
            decreases group.pending@.len() - j,
        {
            assert(pending[j as int] == group.pending@[j as int]@);
            let ghost p = stream_encode::pending_of(pending.take(j as int), name@);
            assert(pending.take(j as int + 1).drop_last() =~= pending.take(j as int));
            if bytes_equal(group.pending[j].consumer.as_slice(), name) {
                proof {
                    lemma_listed(consumers, pending, i as int, j as int, at as int);
                }
                if at >= group.pending.len() || !pending_equal(&group.pending[at], &group.pending[j]) {
                    return false;
                }
                proof {
                    let now = before + p.push(pending[j as int]);
                    assert(pending[at as int] == group.pending@[at as int]@);
                    assert(pending.take(now.len() as int) =~= pending.take(at as int).push(
                        pending[at as int],
                    ));
                    assert(now =~= (before + p).push(pending[j as int]));
                }
                at = at + 1;
            }
            j = j + 1;
        }
        proof {
            assert(pending.take(j as int) =~= pending);
            assert(consumers.take(i as int + 1).drop_last() =~= consumers.take(i as int));
        }
        i = i + 1;
    }
    assert(consumers.take(i as int) =~= consumers);
    assert(at == group.pending@.len() ==> pending.take(at as int) =~= pending);
    at == group.pending.len()
}

/// Whether a group loses nothing in packs.
pub fn consumer_group_is_lossless_type21(group: &RdbStreamConsumerGroup) -> (r: bool)
    ensures
        r == group_lossless(group@),
{
    is_group_closed(group) && pending_keys_differ(group.pending.as_slice()) && pending_listed(group)
}

/// Whether a stream loses nothing in packs.
pub fn can_encode_upstream_stream_losslessly(
    entries: &[StreamEntry],
    watermark: Option<(u64, u64)>,
    groups: &[RdbStreamConsumerGroup],
) -> (r: bool)
    ensures
        r == lossless(
            rdb_types::entry_views(entries@),
            watermark,
            rdb_types::group_views(groups@),
        ),
{
    let ghost views = rdb_types::group_views(groups@);
    if watermark.is_none() || !entries_increase(entries) {
        return false;
    }
    let mut i: usize = 0;
    while i < groups.len()
        invariant
            i <= groups@.len(),
            views == rdb_types::group_views(groups@),
            forall|k: int| 0 <= k < i ==> group_lossless(#[trigger] views[k]),
        decreases groups@.len() - i,
    {
        assert(views[i as int] == groups@[i as int]@);
        if !consumer_group_is_lossless_type21(&groups[i]) {
            assert(!group_lossless(views[i as int]));
            return false;
        }
        i = i + 1;
    }
    true
}

/// Appends the type byte and the key of a value.
fn push_key(buf: &mut Vec<u8>, tag: u8, key: &[u8])
    ensures
        final(buf)@ == old(buf)@ + (seq![tag] + rdb_wire::string_bytes(key@)),
{
    buf.push(tag);
    rdb_encode_string(buf, key);
    assert(buf@ =~= old(buf)@ + (seq![tag] + rdb_wire::string_bytes(key@)));
}

/// Type byte, key, payload.
pub open spec fn tagged(key: Seq<u8>, stored: (u8, Seq<u8>)) -> Seq<u8> {
    seq![stored.0] + rdb_wire::string_bytes(key) + stored.1
}

/// Appends a value whose payload is at hand.
fn push_payload(buf: &mut Vec<u8>, tag: u8, key: &[u8], payload: &[u8])
    ensures
        final(buf)@ == old(buf)@ + tagged(key@, (tag, payload@)),
{
    push_key(buf, tag, key);
    buf.extend_from_slice(payload);
    proof {
        bytes::lemma_add_assoc(old(buf)@, seq![tag] + rdb_wire::string_bytes(key@), payload@);
    }
}

/// Appends a value that is written out record by record.
fn push_records<T: records::Record>(buf: &mut Vec<u8>, tag: u8, key: &[u8], items: &[T])
    requires
        records::all_writable::<T>(records::models(items@)),
    ensures
        final(buf)@ == old(buf)@ + tagged(
            key@,
            (tag, records::counted_bytes::<T>(records::models(items@))),
        ),
{
    push_key(buf, tag, key);
    write_counted(buf, items);
    proof {
        bytes::lemma_add_assoc(
            old(buf)@,
            seq![tag] + rdb_wire::string_bytes(key@),
            records::counted_bytes::<T>(records::models(items@)),
        );
    }
}

/// Appends a stream under its key.
fn encode_stream_rdb_value(
    buf: &mut Vec<u8>,
    key: &[u8],
    entries: &[StreamEntry],
    watermark: Option<(u64, u64)>,
    groups: &[RdbStreamConsumerGroup],
    metadata: &Option<RdbStreamMetadata>,
    entries_added: Option<u64>,
    max_deleted: Option<(u64, u64)>,
)
    ensures
        final(buf)@ == old(buf)@ + tagged(
            key@,
            stream_stored(
                (StreamView {
                    metadata: rdb_types::metadata_view(*metadata),
                    ..stream_encode::parts_view(
                        entries@,
                        watermark,
                        groups@,
                        entries_added,
                        max_deleted,
                    )
                }),
            ),
        ),
{
    let ghost s = stream_encode::parts_view(entries@, watermark, groups@, entries_added, max_deleted);
    if let Some(m) = metadata {
        push_payload(buf, m.upstream_type_byte, key, m.upstream_payload.as_slice());
        return;
    }
    if can_encode_upstream_stream_losslessly(entries, watermark, groups) {
        if let Some(payload) = encode_upstream_stream_listpacks3(
            entries,
            watermark,
            groups,
            entries_added,
            max_deleted,
        ) {
            push_payload(buf, UPSTREAM_RDB_TYPE_STREAM_LISTPACKS_3, key, payload.as_slice());
            return;
        }
    }
    encode_private_stream_rdb_value(
        buf,
        key,
        entries,
        watermark,
        groups,
        entries_added,
        max_deleted,
    );
}

/// Appends a stream in the plain form under its key.
fn encode_private_stream_rdb_value(
    buf: &mut Vec<u8>,
    key: &[u8],
    entries: &[StreamEntry],
    watermark: Option<(u64, u64)>,
    groups: &[RdbStreamConsumerGroup],
    entries_added: Option<u64>,
    max_deleted: Option<(u64, u64)>,
)
    ensures
        final(buf)@ == old(buf)@ + tagged(
            key@,
            (
                RDB_TYPE_STREAM,
                stream_private::private_stream_bytes(
                    stream_encode::parts_view(
                        entries@,
                        watermark,
                        groups@,
                        entries_added,
                        max_deleted,
                    ),
                ),
            ),
        ),
{
    push_key(buf, RDB_TYPE_STREAM, key);
    encode_private_stream(buf, entries, watermark, groups, entries_added, max_deleted);
    proof {
        bytes::lemma_add_assoc(
            old(buf)@,
            seq![RDB_TYPE_STREAM] + rdb_wire::string_bytes(key@),
            stream_private::private_stream_bytes(
                stream_encode::parts_view(entries@, watermark, groups@, entries_added, max_deleted),
            ),
        );
    }
}

// ---------------------------------------------------------------------------
// Values
// ---------------------------------------------------------------------------

fn push_list(buf: &mut Vec<u8>, key: &[u8], items: &Vec<Vec<u8>>, options: &RdbEncodeOptions)
    ensures
        final(buf)@ == old(buf)@ + tagged(
            key@,
            list_stored(bytes::views(items@), options.compact),
        ),
{
    if let Some(t) = &options.compact {
        if let Some(payload) = encode_compact_list_quicklist2(items.as_slice(), t) {
            push_payload(buf, RDB_TYPE_LIST_QUICKLIST_2, key, payload.as_slice());
            return;
        }
    }
    assert(records::models(items@) =~= bytes::views(items@));
    push_records(buf, RDB_TYPE_LIST, key, items.as_slice());
}

fn push_plain_set(buf: &mut Vec<u8>, key: &[u8], members: &Vec<Vec<u8>>)
    ensures
        final(buf)@ == old(buf)@ + tagged(key@, plain_set_stored(bytes::views(members@))),
{
    assert(records::models(members@) =~= bytes::views(members@));
    push_records(buf, RDB_TYPE_SET, key, members.as_slice());
}

fn push_set(buf: &mut Vec<u8>, key: &[u8], members: &Vec<Vec<u8>>, options: &RdbEncodeOptions)
    ensures
        final(buf)@ == old(buf)@ + tagged(
            key@,
            set_stored(bytes::views(members@), options.compact),
        ),
{
    if let Some(t) = &options.compact {
        if let Some(payload) = encode_compact_set_intset(members.as_slice(), t) {
            push_payload(buf, RDB_TYPE_SET_INTSET, key, payload.as_slice());
            return;
        }
        if let Some(payload) = encode_compact_set_listpack(members.as_slice(), t) {
            push_payload(buf, RDB_TYPE_SET_LISTPACK, key, payload.as_slice());
            return;
        }
    }
    push_plain_set(buf, key, members);
}

fn push_hash(
    buf: &mut Vec<u8>,
    key: &[u8],
    fields: &Vec<(Vec<u8>, Vec<u8>)>,
    options: &RdbEncodeOptions,
)
    ensures
        final(buf)@ == old(buf)@ + tagged(
            key@,
            hash_stored(rdb_types::field_views(fields@), options.compact),
        ),
{
    if let Some(t) = &options.compact {
        if let Some(payload) = encode_compact_hash_listpack(fields.as_slice(), t) {
            push_payload(buf, RDB_TYPE_HASH_LISTPACK, key, payload.as_slice());
            return;
        }
    }
    assert(records::models(fields@) =~= rdb_types::field_views(fields@));
    push_records(buf, RDB_TYPE_HASH, key, fields.as_slice());
}

fn push_zset(
    buf: &mut Vec<u8>,
    key: &[u8],
    members: &Vec<(Vec<u8>, RdbScore)>,
    options: &RdbEncodeOptions,
)
    requires
        rdb_compact::zset_writable(rdb_types::member_views(members@), options.compact),
    ensures
        final(buf)@ == old(buf)@ + tagged(
            key@,
            zset_stored(rdb_types::member_views(members@), options.compact),
        ),
{
    if let Some(t) = &options.compact {
        if let Some(payload) = encode_compact_zset_listpack(members.as_slice(), t) {
            push_payload(buf, RDB_TYPE_ZSET_LISTPACK, key, payload.as_slice());
            return;
        }
    }
    assert(records::models(members@) =~= rdb_types::member_views(members@));
    push_records(buf, RDB_TYPE_ZSET_2, key, members.as_slice());
}

/// Appends a value under its key.
fn push_value(buf: &mut Vec<u8>, key: &[u8], value: &RdbValue, options: &RdbEncodeOptions)
    requires
        value_writable(value@, options.compact),
    ensures
        final(buf)@ == old(buf)@ + tagged(key@, value_stored(value@, options.compact)),
{
    proof {
        reveal(value_stored);
    }
    match value {
        RdbValue::String(s) => {
            push_key(buf, RDB_TYPE_STRING, key);
            rdb_encode_string(buf, s.as_slice());
            proof {
                bytes::lemma_add_assoc(
                    old(buf)@,
                    seq![RDB_TYPE_STRING] + rdb_wire::string_bytes(key@),
                    rdb_wire::string_bytes(s@),
                );
            }
        },
        RdbValue::List(items) => push_list(buf, key, items, options),
        RdbValue::ListQuicklist2Packed(nodes) => {
            let payload: Vec<u8> = encode_quicklist2_packed_payload(nodes.as_slice());
            push_payload(buf, RDB_TYPE_LIST_QUICKLIST_2, key, payload.as_slice());
        },
        RdbValue::MemberSet(members) => push_set(buf, key, members, options),
        RdbValue::SetHashtable(members) => push_plain_set(buf, key, members),
        RdbValue::Hash(fields) => push_hash(buf, key, fields, options),
        RdbValue::HashWithTtls(fields) => {
            assert(records::models(fields@) =~= rdb_types::ttl_field_views(fields@));
            push_records(buf, RDB_TYPE_HASH_WITH_TTLS, key, fields.as_slice());
        },
        RdbValue::SortedSet(members) => push_zset(buf, key, members, options),
        RdbValue::Stream(entries, watermark, groups, metadata, entries_added, max_deleted) => {
            encode_stream_rdb_value(
                buf,
                key,
                entries.as_slice(),
                *watermark,
                groups.as_slice(),
                metadata,
                *entries_added,
                *max_deleted,
            );
        },
    }
}

// ---------------------------------------------------------------------------
// Whole snapshots
// ---------------------------------------------------------------------------

/// The signature and the version.
pub open spec fn header_bytes() -> Seq<u8> {
    seq![82u8, 69u8, 68u8, 73u8, 83u8, 48u8, 48u8, 49u8, 49u8]
}

/// A name with its value.
pub open spec fn aux_encoder() -> spec_fn(rdb_types::FieldView) -> Seq<u8> {
    |a: rdb_types::FieldView| seq![RDB_OPCODE_AUX] + records::pair_bytes(a)
}

/// A library of functions.
pub open spec fn function_encoder() -> spec_fn(Seq<u8>) -> Seq<u8> {
    |code: Seq<u8>| seq![RDB_OPCODE_FUNCTION2] + rdb_wire::string_bytes(code)
}

/// The time at which an entry expires.
pub open spec fn expiry_bytes(expire_ms: Option<u64>) -> Seq<u8> {
    match expire_ms {
        None => Seq::empty(),
        Some(ms) => seq![RDB_OPCODE_EXPIRETIME_MS] + records::number_bytes(ms),
    }
}

/// An entry: its expiry, then its value under its key.
pub open spec fn entry_encoder(compact: Option<CompactRdbThresholds>) -> spec_fn(
    RdbEntryView,
) -> Seq<u8> {
    |e: RdbEntryView| expiry_bytes(e.expire_ms) + tagged(e.key, value_stored(e.value, compact))
}

/// The end of the run of entries from `j` on that are in the database `db`.
pub open spec fn db_end(entries: Seq<RdbEntryView>, j: int, db: nat) -> int
    decreases entries.len() - j,
{
    if 0 <= j < entries.len() && entries[j].db == db {
        db_end(entries, j + 1, db)
    } else {
        j
    }
}

/// How many entries of a sequence expire.
pub open spec fn expiring(entries: Seq<RdbEntryView>) -> nat
    decreases entries.len(),
{
    if entries.len() == 0 {
        0
    } else {
        expiring(entries.drop_last()) + if entries.last().expire_ms is Some {
            1nat
        } else {
            0
        }
    }
}

/// The head of a database: its number, and the numbers of its entries and of those
/// that expire.
pub open spec fn db_head_bytes(entries: Seq<RdbEntryView>) -> Seq<u8> {
    seq![RDB_OPCODE_SELECTDB] + rdb_wire::length_bytes(entries[0].db) + seq![RDB_OPCODE_RESIZEDB]
        + rdb_wire::length_bytes(entries.len()) + rdb_wire::length_bytes(expiring(entries))
}

/// A database: its head and its entries.
pub open spec fn db_bytes(
    entries: Seq<RdbEntryView>,
    compact: Option<CompactRdbThresholds>,
) -> Seq<u8> {
    db_head_bytes(entries) + bytes::concat_all(entry_encoder(compact), entries)
}

pub proof fn lemma_db_end(entries: Seq<RdbEntryView>, j: int, db: nat)
    requires
        0 <= j <= entries.len(),
    ensures
        j <= db_end(entries, j, db) <= entries.len(),
        forall|k: int| j <= k < db_end(entries, j, db) ==> (#[trigger] entries[k]).db == db,
        j < entries.len() && entries[j].db == db ==> j < db_end(entries, j, db),
    decreases entries.len() - j,
{
    if j < entries.len() && entries[j].db == db {
        lemma_db_end(entries, j + 1, db);
    }
}

/// The entries from `i` on, each run of one database behind its head.
pub open spec fn keyspace_from(
    entries: Seq<RdbEntryView>,
    i: int,
    compact: Option<CompactRdbThresholds>,
) -> Seq<u8>
    decreases entries.len() - i,
{
    if 0 <= i < entries.len() {
        let j = db_end(entries, i, entries[i].db);
        proof {
            lemma_db_end(entries, i, entries[i].db);
        }
        db_bytes(entries.subrange(i, j), compact) + keyspace_from(entries, j, compact)
    } else {
        Seq::empty()
    }
}

/// The key that orders entries: by database, then by key.
pub open spec fn entry_key() -> spec_fn(RdbEntryView) -> KeyView {
    |e: RdbEntryView| KeyView { major: e.db, minor: 0, bytes: e.key }
}

/// A snapshot up to its checksum.
pub open spec fn unchecked_bytes(
    entries: Seq<RdbEntryView>,
    aux: Seq<rdb_types::FieldView>,
    functions: Seq<Seq<u8>>,
    compact: Option<CompactRdbThresholds>,
) -> Seq<u8> {
    header_bytes() + bytes::concat_all(aux_encoder(), aux) + bytes::concat_all(
        function_encoder(),
        functions,
    ) + keyspace_from(entries, 0, compact) + seq![RDB_OPCODE_EOF]
}

/// A snapshot of entries in the order in which they stand.
pub open spec fn ordered_snapshot_bytes(
    entries: Seq<RdbEntryView>,
    aux: Seq<rdb_types::FieldView>,
    functions: Seq<Seq<u8>>,
    compact: Option<CompactRdbThresholds>,
) -> Seq<u8> {
    let body = unchecked_bytes(entries, aux, functions, compact);
    body + records::number_bytes(crc64::crc64(body))
}

/// A snapshot, its entries in the order of databases and keys.
pub open spec fn snapshot_bytes(
    entries: Seq<RdbEntryView>,
    aux: Seq<rdb_types::FieldView>,
    functions: Seq<Seq<u8>>,
    compact: Option<CompactRdbThresholds>,
) -> Seq<u8> {
    ordered_snapshot_bytes(order::sorted_by(entries, entry_key()), aux, functions, compact)
}

/// The bytes of names with their values.
pub open spec fn aux_views(aux: Seq<(&str, &str)>) -> Seq<rdb_types::FieldView> {
    aux.map_values(|a: (&str, &str)| (vstd::utf8::encode_utf8(a.0@), vstd::utf8::encode_utf8(a.1@)))
}

/// Something that is an entry of a snapshot.
pub trait SnapshotEntry {
    spec fn entry_view(&self) -> RdbEntryView;

    fn entry_db(&self) -> (db: usize)
        ensures
            db == self.entry_view().db,
    ;

    fn entry_expiry(&self) -> (ms: Option<u64>)
        ensures
            ms == self.entry_view().expire_ms,
    ;

    fn write_entry_value(&self, buf: &mut Vec<u8>, options: &RdbEncodeOptions)
        requires
            value_writable(self.entry_view().value, options.compact),
        ensures
            final(buf)@ == old(buf)@ + tagged(
                self.entry_view().key,
                value_stored(self.entry_view().value, options.compact),
            ),
    ;
}

impl SnapshotEntry for RdbEntry {
    open spec fn entry_view(&self) -> RdbEntryView {
        self@
    }

    fn entry_db(&self) -> (db: usize) {
        self.db
    }

    fn entry_expiry(&self) -> (ms: Option<u64>) {
        self.expire_ms
    }

    fn write_entry_value(&self, buf: &mut Vec<u8>, options: &RdbEncodeOptions) {
        push_value(buf, self.key.as_slice(), &self.value, options);
    }
}

impl<'a> SnapshotEntry for RdbStringEntryRef<'a> {
    open spec fn entry_view(&self) -> RdbEntryView {
        self.entry()
    }

    fn entry_db(&self) -> (db: usize) {
        self.db
    }

    fn entry_expiry(&self) -> (ms: Option<u64>) {
        self.expire_ms
    }

    fn write_entry_value(&self, buf: &mut Vec<u8>, options: &RdbEncodeOptions) {
        push_key(buf, RDB_TYPE_STRING, self.key);
        rdb_encode_string(buf, self.value);
        proof {
            reveal(value_stored);
            bytes::lemma_add_assoc(
                old(buf)@,
                seq![RDB_TYPE_STRING] + rdb_wire::string_bytes(self.key@),
                rdb_wire::string_bytes(self.value@),
            );
        }
    }
}

/// What entries are, taken in a sequence of their indices.
pub open spec fn listed<T: SnapshotEntry>(entries: Seq<T>, sequence: Seq<usize>) -> Seq<
    RdbEntryView,
> {
    sequence.map_values(|k: usize| entries[k as int].entry_view())
}

/// The indices are within the entries.
pub open spec fn indices_fit(n: nat, sequence: Seq<usize>) -> bool {
    forall|k: int| 0 <= k < sequence.len() ==> (#[trigger] sequence[k]) < n
}

/// All scores of all values are doubles, with their texts where a value goes into a pack.
pub open spec fn all_values_writable(
    entries: Seq<RdbEntryView>,
    compact: Option<CompactRdbThresholds>,
) -> bool {
    forall|k: int| 0 <= k < entries.len() ==> value_writable((#[trigger] entries[k]).value, compact)
}

/// Appends one entry.
fn push_entry<T: SnapshotEntry>(buf: &mut Vec<u8>, entry: &T, options: &RdbEncodeOptions)
    requires
        value_writable(entry.entry_view().value, options.compact),
    ensures
        final(buf)@ == old(buf)@ + entry_encoder(options.compact)(entry.entry_view()),
{
    let ghost e = entry.entry_view();
    let ghost start = buf@;
    match entry.entry_expiry() {
        None => {
            assert(start + expiry_bytes(e.expire_ms) =~= start);
        },
        Some(ms) => {
            buf.push(RDB_OPCODE_EXPIRETIME_MS);
            push_le(buf, ms, 8);
            assert(buf@ =~= start + expiry_bytes(e.expire_ms));
        },
    }
    entry.write_entry_value(buf, options);
    proof {
        bytes::lemma_add_assoc(
            start,
            expiry_bytes(e.expire_ms),
            tagged(e.key, value_stored(e.value, options.compact)),
        );
    }
}

/// The end of the run of entries of one database, and how many of them expire.
fn measure_db<T: SnapshotEntry>(entries: &[T], sequence: &Vec<usize>, start: usize) -> (r: (
    usize,
    usize,
))
    requires
        start < sequence@.len(),
        indices_fit(entries@.len(), sequence@),
    ensures
        ({
            let all = listed(entries@, sequence@);
            &&& r.0 == db_end(all, start as int, all[start as int].db)
            &&& start < r.0 <= sequence@.len()
            &&& r.1 == expiring(all.subrange(start as int, r.0 as int))
        }),
{
    let ghost all = listed(entries@, sequence@);
    let db: usize = entries[sequence[start]].entry_db();
    let mut end: usize = start;
    let mut expires: usize = 0;
    proof {
        assert(all[start as int] == entries@[sequence@[start as int] as int].entry_view());
        lemma_db_end(all, start as int, db as nat);
        assert(all.subrange(start as int, start as int) =~= Seq::empty());
    }
    while end < sequence.len() && entries[sequence[end]].entry_db() == db
        invariant
            start <= end <= sequence@.len(),
            indices_fit(entries@.len(), sequence@),
            all == listed(entries@, sequence@),
            db_end(all, end as int, db as nat) == db_end(all, start as int, db as nat),
            expires == expiring(all.subrange(start as int, end as int)),
            expires <= end - start,
        ensures
            end == sequence@.len() || all[end as int].db != db,
        decreases sequence@.len() - end,
    {
        proof {
            assert(all[end as int] == entries@[sequence@[end as int] as int].entry_view());
            assert(all.subrange(start as int, end + 1).drop_last() =~= all.subrange(
                start as int,
                end as int,
            ));
        }
        if entries[sequence[end]].entry_expiry().is_some() {
            expires = expires + 1;
        }
        end = end + 1;
    }
    (end, expires)
}

/// Appends one database.
fn push_db<T: SnapshotEntry>(
    buf: &mut Vec<u8>,
    entries: &[T],
    sequence: &Vec<usize>,
    start: usize,
    end: usize,
    expires: usize,
    options: &RdbEncodeOptions,
)
    requires
        start < end <= sequence@.len(),
        indices_fit(entries@.len(), sequence@),
        all_values_writable(listed(entries@, sequence@), options.compact),
        expires == expiring(listed(entries@, sequence@).subrange(start as int, end as int)),
    ensures
        final(buf)@ == old(buf)@ + db_bytes(
            listed(entries@, sequence@).subrange(start as int, end as int),
            options.compact,
        ),
{
    let ghost all = listed(entries@, sequence@);
    let ghost part = all.subrange(start as int, end as int);
    let ghost e = entry_encoder(options.compact);
    let ghost origin = buf@;
    assert(part[0] == entries@[sequence@[start as int] as int].entry_view());
    buf.push(RDB_OPCODE_SELECTDB);
    rdb_encode_length(buf, entries[sequence[start]].entry_db());
    buf.push(RDB_OPCODE_RESIZEDB);
    rdb_encode_length(buf, end - start);
    rdb_encode_length(buf, expires);
    let ghost head = buf@;
    proof {
        assert(head =~= origin + db_head_bytes(part));
        assert(part.take(0) =~= Seq::empty());
        assert(head + bytes::concat_all(e, part.take(0)) =~= head);
    }
    let mut k: usize = start;
    while k < end
        invariant
            start <= k <= end <= sequence@.len(),
            indices_fit(entries@.len(), sequence@),
            all == listed(entries@, sequence@),
            all_values_writable(all, options.compact),
            part == all.subrange(start as int, end as int),
            e == entry_encoder(options.compact),
            buf@ == head + bytes::concat_all(e, part.take(k - start)),
        decreases end - k,
    {
        assert(all[k as int] == entries@[sequence@[k as int] as int].entry_view());
        push_entry(buf, &entries[sequence[k]], options);
        proof {
            bytes::lemma_concat_take(e, part, k - start);
            bytes::lemma_add_assoc(
                head,
                bytes::concat_all(e, part.take(k - start)),
                e(part[k - start]),
            );
        }
        k = k + 1;
    }
    proof {
        assert(part.take(end - start) =~= part);
        bytes::lemma_add_assoc(origin, db_head_bytes(part), bytes::concat_all(e, part));
    }
}

/// Appends all databases.
fn push_keyspace<T: SnapshotEntry>(
    buf: &mut Vec<u8>,
    entries: &[T],
    sequence: &Vec<usize>,
    options: &RdbEncodeOptions,
)
    requires
        indices_fit(entries@.len(), sequence@),
        all_values_writable(listed(entries@, sequence@), options.compact),
    ensures
        final(buf)@ == old(buf)@ + keyspace_from(listed(entries@, sequence@), 0, options.compact),
{
    let ghost all = listed(entries@, sequence@);
    let ghost origin = buf@;
    let ghost whole = keyspace_from(all, 0, options.compact);
    let ghost mut done = Seq::<u8>::empty();
    let mut start: usize = 0;
    proof {
        assert(done + keyspace_from(all, 0, options.compact) =~= whole);
        assert(origin + done =~= origin);
    }
    while start < sequence.len()
        invariant
            start <= sequence@.len(),
            indices_fit(entries@.len(), sequence@),
            all == listed(entries@, sequence@),
            all_values_writable(all, options.compact),
            buf@ == origin + done,
            done + keyspace_from(all, start as int, options.compact) == whole,
        decreases sequence@.len() - start,
    {
        let (end, expires) = measure_db(entries, sequence, start);
        push_db(buf, entries, sequence, start, end, expires, options);
        proof {
            let part = db_bytes(all.subrange(start as int, end as int), options.compact);
            bytes::lemma_add_assoc(origin, done, part);
            bytes::lemma_add_assoc(done, part, keyspace_from(all, end as int, options.compact));
            done = done + part;
        }
        start = end;
    }
    assert(done + keyspace_from(all, start as int, options.compact) =~= done);
}

/// Appends names with their values.
fn push_aux(buf: &mut Vec<u8>, aux: &[(&str, &str)])
    ensures
        final(buf)@ == old(buf)@ + bytes::concat_all(aux_encoder(), aux_views(aux@)),
{
    let ghost all = aux_views(aux@);
    let ghost origin = buf@;
    let ghost e = aux_encoder();
    let mut i: usize = 0;
    proof {
        assert(all.take(0) =~= Seq::empty());
        assert(origin + bytes::concat_all(e, all.take(0)) =~= origin);
    }
    while i < aux.len()
        invariant
            i <= aux@.len(),
            all == aux_views(aux@),
            e == aux_encoder(),
            buf@ == origin + bytes::concat_all(e, all.take(i as int)),
        decreases aux@.len() - i,
    {
        let ghost before = buf@;
        let (name, value): (&str, &str) = aux[i];
        buf.push(RDB_OPCODE_AUX);
        rdb_encode_string(buf, name.as_bytes());
        rdb_encode_string(buf, value.as_bytes());
        proof {
            assert(buf@ =~= before + e(all[i as int]));
            bytes::lemma_concat_take(e, all, i as int);
            bytes::lemma_add_assoc(
                origin,
                bytes::concat_all(e, all.take(i as int)),
                e(all[i as int]),
            );
        }
        i = i + 1;
    }
    assert(all.take(i as int) =~= all);
}

/// Appends libraries of functions.
fn push_functions(buf: &mut Vec<u8>, functions: &[&[u8]])
    ensures
        final(buf)@ == old(buf)@ + bytes::concat_all(
            function_encoder(),
            listpack_encode::slice_views(functions@),
        ),
{
    let ghost all = listpack_encode::slice_views(functions@);
    let ghost origin = buf@;
    let ghost e = function_encoder();
    let mut i: usize = 0;
    proof {
        assert(all.take(0) =~= Seq::empty());
        assert(origin + bytes::concat_all(e, all.take(0)) =~= origin);
    }
    while i < functions.len()
        invariant
            i <= functions@.len(),
            all == listpack_encode::slice_views(functions@),
            e == function_encoder(),
            buf@ == origin + bytes::concat_all(e, all.take(i as int)),
        decreases functions@.len() - i,
    {
        let ghost before = buf@;
        buf.push(RDB_OPCODE_FUNCTION2);
        rdb_encode_string(buf, functions[i]);
        proof {
            assert(buf@ =~= before + e(all[i as int]));
            bytes::lemma_concat_take(e, all, i as int);
            bytes::lemma_add_assoc(
                origin,
                bytes::concat_all(e, all.take(i as int)),
                e(all[i as int]),
            );
        }
        i = i + 1;
    }
    assert(all.take(i as int) =~= all);
}

/// Writes a snapshot of entries in the given sequence.
fn encode_in_sequence<T: SnapshotEntry>(
    entries: &[T],
    sequence: &Vec<usize>,
    aux: &[(&str, &str)],
    functions: &[&[u8]],
    options: &RdbEncodeOptions,
) -> (out: Vec<u8>)
    requires
        indices_fit(entries@.len(), sequence@),
        all_values_writable(listed(entries@, sequence@), options.compact),
    ensures
        out@ == ordered_snapshot_bytes(
            listed(entries@, sequence@),
            aux_views(aux@),
            listpack_encode::slice_views(functions@),
            options.compact,
        ),
{
    let ghost all = listed(entries@, sequence@);
    let ghost names = aux_views(aux@);
    let ghost codes = listpack_encode::slice_views(functions@);
    let mut buf: Vec<u8> = vec![82u8, 69u8, 68u8, 73u8, 83u8, 48u8, 48u8, 49u8, 49u8];
    assert(buf@ =~= header_bytes());
    push_aux(&mut buf, aux);
    push_functions(&mut buf, functions);
    push_keyspace(&mut buf, entries, sequence, options);
    buf.push(RDB_OPCODE_EOF);
    let ghost body = buf@;
    assert(body =~= unchecked_bytes(all, names, codes, options.compact));
    let checksum: u64 = crc64_redis(buf.as_slice());
    push_le(&mut buf, checksum, 8);
    buf
}

/// The sequence of entries by database and key.
fn sort_entries(entries: &[RdbEntry]) -> (sequence: Vec<usize>)
    ensures
        indices_fit(entries@.len(), sequence@),
        listed(entries@, sequence@) == order::sorted_by(rdb_types::rdb_views(entries@), entry_key()),
{
    let ghost all = rdb_types::rdb_views(entries@);
    let mut keys: Vec<SortKey> = Vec::new();
    let mut i: usize = 0;
    while i < entries.len()
        invariant
            i <= entries@.len(),
            all == rdb_types::rdb_views(entries@),
            keys@.len() == i,
            forall|k: int| 0 <= k < i ==> (#[trigger] keys@[k])@ == entry_key()(all[k]),
        decreases entries@.len() - i,
    {
        assert(all[i as int] == entries@[i as int]@);
        keys.push(
            SortKey { major: entries[i].db as u64, minor: 0, bytes: entries[i].key.as_slice() },
        );
        assert(keys@[i as int]@ =~= entry_key()(all[i as int]));
        i = i + 1;
    }
    let sequence: Vec<usize> = order_of(keys.as_slice());
    proof {
        assert(order::key_views(keys@) =~= all.map_values(entry_key()));
        order::lemma_sorted_by_len(all, entry_key());
        let sorted = order::sorted_by(all, entry_key());
        let o = order::stable_order(all.map_values(entry_key()));
        assert forall|k: int| 0 <= k < sequence@.len() implies listed(entries@, sequence@)[k]
            == sorted[k] by {
            assert(o[k] == sequence@.map_values(|i: usize| i as int)[k]);
        }
        assert(listed(entries@, sequence@) =~= sorted);
    }
    sequence
}

/// Writes a snapshot.
fn encode_rdb_internal(
    entries: &[RdbEntry],
    aux: &[(&str, &str)],
    functions: &[&[u8]],
    options: RdbEncodeOptions,
) -> (out: Vec<u8>)
    requires
        all_values_writable(rdb_types::rdb_views(entries@), options.compact),
    ensures
        out@ == snapshot_bytes(
            rdb_types::rdb_views(entries@),
            aux_views(aux@),
            listpack_encode::slice_views(functions@),
            options.compact,
        ),
{
    let ghost all = rdb_types::rdb_views(entries@);
    let sequence: Vec<usize> = sort_entries(entries);
    proof {
        order::lemma_sorted_by_len(all, entry_key());
        let sorted = order::sorted_by(all, entry_key());
        assert forall|k: int| 0 <= k < sorted.len() implies value_writable(
            (#[trigger] sorted[k]).value,
            options.compact,
        ) by {
            assert(all.contains(sorted[k]));
            let i = choose|i: int| 0 <= i < all.len() && all[i] == sorted[k];
            assert(value_writable(all[i].value, options.compact));
        }
    }
    encode_in_sequence(entries, &sequence, aux, functions, &options)
}

/// Writes a snapshot with compact forms up to the default sizes.
pub fn encode_rdb(entries: &[RdbEntry], aux: &[(&str, &str)]) -> (out: Vec<u8>)
    requires
        all_values_writable(
            rdb_types::rdb_views(entries@),
            Some(rdb_compact::default_thresholds()),
        ),
    ensures
        out@ == snapshot_bytes(
            rdb_types::rdb_views(entries@),
            aux_views(aux@),
            Seq::empty(),
            Some(rdb_compact::default_thresholds()),
        ),
{
    let functions: Vec<&[u8]> = Vec::new();
    assert(listpack_encode::slice_views(functions@) =~= Seq::empty());
    encode_rdb_internal(
        entries,
        aux,
        functions.as_slice(),
        RdbEncodeOptions { compact: Some(CompactRdbThresholds::default()) },
    )
}

/// Writes a snapshot as the options say.
pub fn encode_rdb_with_options(
    entries: &[RdbEntry],
    aux: &[(&str, &str)],
    options: RdbEncodeOptions,
) -> (out: Vec<u8>)
    requires
        all_values_writable(rdb_types::rdb_views(entries@), options.compact),
    ensures
        out@ == snapshot_bytes(
            rdb_types::rdb_views(entries@),
            aux_views(aux@),
            Seq::empty(),
            options.compact,
        ),
{
    let functions: Vec<&[u8]> = Vec::new();
    assert(listpack_encode::slice_views(functions@) =~= Seq::empty());
    encode_rdb_internal(entries, aux, functions.as_slice(), options)
}

/// Writes a snapshot with libraries of functions.
pub fn encode_rdb_with_functions(
    entries: &[RdbEntry],
    aux: &[(&str, &str)],
    functions: &[&[u8]],
) -> (out: Vec<u8>)
    requires
        all_values_writable(
            rdb_types::rdb_views(entries@),
            Some(rdb_compact::default_thresholds()),
        ),
    ensures
        out@ == snapshot_bytes(
            rdb_types::rdb_views(entries@),
            aux_views(aux@),
            listpack_encode::slice_views(functions@),
            Some(rdb_compact::default_thresholds()),
        ),
{
    encode_rdb_internal(
        entries,
        aux,
        functions,
        RdbEncodeOptions { compact: Some(CompactRdbThresholds::default()) },
    )
}

/// Writes a snapshot with libraries of functions, and with compact forms up to the
/// given sizes.
pub fn encode_rdb_with_functions_and_thresholds(
    entries: &[RdbEntry],
    aux: &[(&str, &str)],
    functions: &[&[u8]],
    thresholds: CompactRdbThresholds,
) -> (out: Vec<u8>)
    requires
        all_values_writable(rdb_types::rdb_views(entries@), Some(thresholds)),
    ensures
        out@ == snapshot_bytes(
            rdb_types::rdb_views(entries@),
            aux_views(aux@),
            listpack_encode::slice_views(functions@),
            Some(thresholds),
        ),
{
    encode_rdb_internal(entries, aux, functions, RdbEncodeOptions { compact: Some(thresholds) })
}

/// What borrowed string entries say.
pub open spec fn string_entry_views(entries: Seq<RdbStringEntryRef>) -> Seq<RdbEntryView> {
    entries.map_values(|e: RdbStringEntryRef| e.entry())
}

/// The entries stand in the order of databases and keys.
pub open spec fn in_key_order(entries: Seq<RdbEntryView>) -> bool {
    forall|a: int, b: int|
        0 <= a < b < entries.len() ==> order::key_le(
            entry_key()(#[trigger] entries[a]),
            entry_key()(#[trigger] entries[b]),
        )
}

/// Writes a snapshot of string entries that stand in order. They are written as they
/// stand; in order, as any snapshot of the same entries.
pub fn encode_rdb_string_entries_with_functions(
    entries: &[RdbStringEntryRef<'_>],
    aux: &[(&str, &str)],
    functions: &[&[u8]],
) -> (out: Vec<u8>)
    ensures
        out@ == ordered_snapshot_bytes(
            string_entry_views(entries@),
            aux_views(aux@),
            listpack_encode::slice_views(functions@),
            Some(rdb_compact::default_thresholds()),
        ),
        in_key_order(string_entry_views(entries@)) ==> out@ == snapshot_bytes(
            string_entry_views(entries@),
            aux_views(aux@),
            listpack_encode::slice_views(functions@),
            Some(rdb_compact::default_thresholds()),
        ),
{
    let ghost all = string_entry_views(entries@);
    let mut sequence: Vec<usize> = Vec::new();
    let mut i: usize = 0;
    while i < entries.len()
        invariant
            i <= entries@.len(),
            sequence@.len() == i,
            forall|k: int| 0 <= k < i ==> (#[trigger] sequence@[k]) == k,
        decreases entries@.len() - i,
    {
        sequence.push(i);
        i = i + 1;
    }
    proof {
        assert(listed(entries@, sequence@) =~= all);
        if in_key_order(all) {
            order::law_sorted_is_kept(all, entry_key());
        }
    }
    encode_in_sequence(
        entries,
        &sequence,
        aux,
        functions,
        &RdbEncodeOptions { compact: Some(CompactRdbThresholds::default()) },
    )
}

} // verus!
