//! The entries of a snapshot.

use vstd::prelude::*;

use crate::bytes;
use crate::bytes::copy_bytes;
use crate::score::{RdbScore, ScoreView};

verus! {

/// A stream entry: the two halves of its id, and its fields with their values.
pub type StreamEntry = (u64, u64, Vec<(Vec<u8>, Vec<u8>)>);

/// A delivered entry that its consumer has not acknowledged.
#[derive(Debug, PartialEq)]
pub struct RdbStreamPendingEntry {
    pub entry_id_ms: u64,
    pub entry_id_seq: u64,
    pub consumer: Vec<u8>,
    pub deliveries: u64,
    pub last_delivered_ms: u64,
}

/// A consumer of a group. One that never consumed has no active time.
#[derive(Debug, PartialEq, Eq)]
pub struct RdbStreamConsumer {
    pub name: Vec<u8>,
    pub seen_time_ms: u64,
    pub active_time_ms: Option<u64>,
}

impl RdbStreamConsumer {
    /// A consumer of which only the name is known.
    pub fn named(name: Vec<u8>) -> (consumer: Self)
        ensures
            consumer == (RdbStreamConsumer { name, seen_time_ms: 0, active_time_ms: None }),
    {
        RdbStreamConsumer { name, seen_time_ms: 0, active_time_ms: None }
    }
}

/// A consumer group of a stream.
#[derive(Debug, PartialEq)]
pub struct RdbStreamConsumerGroup {
    pub name: Vec<u8>,
    pub last_delivered_id_ms: u64,
    pub last_delivered_id_seq: u64,
    pub entries_read: Option<u64>,
    pub consumers: Vec<RdbStreamConsumer>,
    pub pending: Vec<RdbStreamPendingEntry>,
}

/// The encoding that a stream was loaded from, kept to be written back unchanged.
#[derive(Debug, PartialEq, Eq)]
pub struct RdbStreamMetadata {
    pub upstream_type_byte: u8,
    pub upstream_payload: Vec<u8>,
}

/// A value of a snapshot.
#[derive(Debug, Clone, PartialEq)]
pub enum RdbValue {
    String(Vec<u8>),
    List(Vec<Vec<u8>>),
    /// A list whose packs are at hand; it is loaded as a `List`.
    ListQuicklist2Packed(Vec<Vec<u8>>),
    MemberSet(Vec<Vec<u8>>),
    /// A set that is stored member by member even where it would fit a pack.
    SetHashtable(Vec<Vec<u8>>),
    Hash(Vec<(Vec<u8>, Vec<u8>)>),
    /// A hash whose fields may expire, each at a time in milliseconds.
    HashWithTtls(Vec<(Vec<u8>, Vec<u8>, Option<u64>)>),
    SortedSet(Vec<(Vec<u8>, RdbScore)>),
    /// Entries, last id, groups, the encoding it was loaded from, number of entries
    /// ever added, greatest deleted id.
    Stream(
        Vec<StreamEntry>,
        Option<(u64, u64)>,
        Vec<RdbStreamConsumerGroup>,
        Option<RdbStreamMetadata>,
        Option<u64>,
        Option<(u64, u64)>,
    ),
}

/// An entry of a snapshot.
#[derive(Debug, Clone, PartialEq)]
pub struct RdbEntry {
    pub db: usize,
    pub key: Vec<u8>,
    pub value: RdbValue,
    pub expire_ms: Option<u64>,
}

/// A borrowed entry whose value is a string.
#[derive(Debug, Clone, Copy, PartialEq, Eq)]
pub struct RdbStringEntryRef<'a> {
    pub db: usize,
    pub key: &'a [u8],
    pub value: &'a [u8],
    pub expire_ms: Option<u64>,
}

// ---------------------------------------------------------------------------
// Views
// ---------------------------------------------------------------------------

/// A field with its value.
pub type FieldView = (Seq<u8>, Seq<u8>);

/// What a stream entry says.
#[verifier::ext_equal]
pub struct EntryView {
    pub ms: u64,
    pub seq: u64,
    pub fields: Seq<FieldView>,
}

/// What a pending entry says.
#[verifier::ext_equal]
pub struct PendingView {
    pub ms: u64,
    pub seq: u64,
    pub consumer: Seq<u8>,
    pub deliveries: u64,
    pub delivered: u64,
}

/// What a consumer says.
#[verifier::ext_equal]
pub struct ConsumerView {
    pub name: Seq<u8>,
    pub seen: u64,
    pub active: Option<u64>,
}

/// What a consumer group says.
#[verifier::ext_equal]
pub struct GroupView {
    pub name: Seq<u8>,
    pub ms: u64,
    pub seq: u64,
    pub entries_read: Option<u64>,
    pub consumers: Seq<ConsumerView>,
    pub pending: Seq<PendingView>,
}

/// What a stream says.
#[verifier::ext_equal]
pub struct StreamView {
    pub entries: Seq<EntryView>,
    pub watermark: Option<(u64, u64)>,
    pub groups: Seq<GroupView>,
    pub metadata: Option<(u8, Seq<u8>)>,
    pub entries_added: Option<u64>,
    pub max_deleted: Option<(u64, u64)>,
}

/// What a value says.
#[verifier::ext_equal]
pub enum ValueView {
    String(Seq<u8>),
    List(Seq<Seq<u8>>),
    ListPacked(Seq<Seq<u8>>),
    MemberSet(Seq<Seq<u8>>),
    SetHashtable(Seq<Seq<u8>>),
    Hash(Seq<FieldView>),
    HashWithTtls(Seq<(Seq<u8>, Seq<u8>, Option<u64>)>),
    SortedSet(Seq<(Seq<u8>, ScoreView)>),
    Stream(StreamView),
}

/// What an entry says.
#[verifier::ext_equal]
pub struct RdbEntryView {
    pub db: nat,
    pub key: Seq<u8>,
    pub value: ValueView,
    pub expire_ms: Option<u64>,
}

/// What fields with their values say.
pub open spec fn field_views(fields: Seq<(Vec<u8>, Vec<u8>)>) -> Seq<FieldView> {
    fields.map_values(|f: (Vec<u8>, Vec<u8>)| (f.0@, f.1@))
}

/// What fields with expiry times say.
pub open spec fn ttl_field_views(fields: Seq<(Vec<u8>, Vec<u8>, Option<u64>)>) -> Seq<
    (Seq<u8>, Seq<u8>, Option<u64>),
> {
    fields.map_values(|f: (Vec<u8>, Vec<u8>, Option<u64>)| (f.0@, f.1@, f.2))
}

/// What members with their scores say.
pub open spec fn member_views(members: Seq<(Vec<u8>, RdbScore)>) -> Seq<(Seq<u8>, ScoreView)> {
    members.map_values(|m: (Vec<u8>, RdbScore)| (m.0@, m.1@))
}

/// What a stream entry says.
pub open spec fn entry_view(e: StreamEntry) -> EntryView {
    EntryView { ms: e.0, seq: e.1, fields: field_views(e.2@) }
}

/// What stream entries say.
pub open spec fn entry_views(entries: Seq<StreamEntry>) -> Seq<EntryView> {
    entries.map_values(|e: StreamEntry| entry_view(e))
}

impl View for RdbStreamPendingEntry {
    type V = PendingView;

    open spec fn view(&self) -> PendingView {
        PendingView {
            ms: self.entry_id_ms,
            seq: self.entry_id_seq,
            consumer: self.consumer@,
            deliveries: self.deliveries,
            delivered: self.last_delivered_ms,
        }
    }
}

/// What pending entries say.
pub open spec fn pending_views(pending: Seq<RdbStreamPendingEntry>) -> Seq<PendingView> {
    pending.map_values(|p: RdbStreamPendingEntry| p@)
}

impl View for RdbStreamConsumer {
    type V = ConsumerView;

    open spec fn view(&self) -> ConsumerView {
        ConsumerView { name: self.name@, seen: self.seen_time_ms, active: self.active_time_ms }
    }
}

/// What consumers say.
pub open spec fn consumer_views(consumers: Seq<RdbStreamConsumer>) -> Seq<ConsumerView> {
    consumers.map_values(|c: RdbStreamConsumer| c@)
}

impl View for RdbStreamConsumerGroup {
    type V = GroupView;

    open spec fn view(&self) -> GroupView {
        GroupView {
            name: self.name@,
            ms: self.last_delivered_id_ms,
            seq: self.last_delivered_id_seq,
            entries_read: self.entries_read,
            consumers: consumer_views(self.consumers@),
            pending: pending_views(self.pending@),
        }
    }
}

/// What consumer groups say.
pub open spec fn group_views(groups: Seq<RdbStreamConsumerGroup>) -> Seq<GroupView> {
    groups.map_values(|g: RdbStreamConsumerGroup| g@)
}

impl View for RdbStreamMetadata {
    type V = (u8, Seq<u8>);

    open spec fn view(&self) -> (u8, Seq<u8>) {
        (self.upstream_type_byte, self.upstream_payload@)
    }
}

impl Clone for RdbStreamPendingEntry {
    fn clone(&self) -> (copy: Self)
        ensures
            copy@ == self@,
    {
        RdbStreamPendingEntry {
            entry_id_ms: self.entry_id_ms,
            entry_id_seq: self.entry_id_seq,
            consumer: copy_bytes(self.consumer.as_slice()),
            deliveries: self.deliveries,
            last_delivered_ms: self.last_delivered_ms,
        }
    }
}

impl Clone for RdbStreamConsumer {
    fn clone(&self) -> (copy: Self)
        ensures
            copy@ == self@,
    {
        RdbStreamConsumer {
            name: copy_bytes(self.name.as_slice()),
            seen_time_ms: self.seen_time_ms,
            active_time_ms: self.active_time_ms,
        }
    }
}

impl Clone for RdbStreamConsumerGroup {
    fn clone(&self) -> (copy: Self)
        ensures
            copy@ == self@,
    {
        let mut consumers: Vec<RdbStreamConsumer> = Vec::new();
        let mut i: usize = 0;
        while i < self.consumers.len()
            invariant
                i <= self.consumers@.len(),
                consumers@.len() == i,
                forall|k: int| 0 <= k < i ==> (#[trigger] consumers@[k])@ == self.consumers@[k]@,
            decreases self.consumers@.len() - i,
        {
            consumers.push(self.consumers[i].clone());
            i = i + 1;
        }
        let mut pending: Vec<RdbStreamPendingEntry> = Vec::new();
        let mut j: usize = 0;
        while j < self.pending.len()
            invariant
                j <= self.pending@.len(),
                pending@.len() == j,
                forall|k: int| 0 <= k < j ==> (#[trigger] pending@[k])@ == self.pending@[k]@,
            decreases self.pending@.len() - j,
        {
            pending.push(self.pending[j].clone());
            j = j + 1;
        }
        proof {
            assert(consumer_views(consumers@) =~= consumer_views(self.consumers@));
            assert(pending_views(pending@) =~= pending_views(self.pending@));
        }
        RdbStreamConsumerGroup {
            name: copy_bytes(self.name.as_slice()),
            last_delivered_id_ms: self.last_delivered_id_ms,
            last_delivered_id_seq: self.last_delivered_id_seq,
            entries_read: self.entries_read,
            consumers,
            pending,
        }
    }
}

impl Clone for RdbStreamMetadata {
    fn clone(&self) -> (copy: Self)
        ensures
            copy@ == self@,
    {
        RdbStreamMetadata {
            upstream_type_byte: self.upstream_type_byte,
            upstream_payload: copy_bytes(self.upstream_payload.as_slice()),
        }
    }
}

/// What an optional encoding says.
pub open spec fn metadata_view(metadata: Option<RdbStreamMetadata>) -> Option<(u8, Seq<u8>)> {
    match metadata {
        Some(m) => Some(m@),
        None => None,
    }
}

impl View for RdbValue {
    type V = ValueView;

    open spec fn view(&self) -> ValueView {
        match *self {
            RdbValue::String(s) => ValueView::String(s@),
            RdbValue::List(items) => ValueView::List(bytes::views(items@)),
            RdbValue::ListQuicklist2Packed(nodes) => ValueView::ListPacked(bytes::views(nodes@)),
            RdbValue::MemberSet(members) => ValueView::MemberSet(bytes::views(members@)),
            RdbValue::SetHashtable(members) => ValueView::SetHashtable(bytes::views(members@)),
            RdbValue::Hash(fields) => ValueView::Hash(field_views(fields@)),
            RdbValue::HashWithTtls(fields) => ValueView::HashWithTtls(ttl_field_views(fields@)),
            RdbValue::SortedSet(members) => ValueView::SortedSet(member_views(members@)),
            RdbValue::Stream(entries, watermark, groups, metadata, entries_added, max_deleted) => {
                ValueView::Stream(
                    StreamView {
                        entries: entry_views(entries@),
                        watermark,
                        groups: group_views(groups@),
                        metadata: metadata_view(metadata),
                        entries_added,
                        max_deleted,
                    },
                )
            },
        }
    }
}

impl View for RdbEntry {
    type V = RdbEntryView;

    open spec fn view(&self) -> RdbEntryView {
        RdbEntryView {
            db: self.db as nat,
            key: self.key@,
            value: self.value@,
            expire_ms: self.expire_ms,
        }
    }
}

/// What the entries of a snapshot say.
pub open spec fn rdb_views(entries: Seq<RdbEntry>) -> Seq<RdbEntryView> {
    entries.map_values(|e: RdbEntry| e@)
}

impl<'a> RdbStringEntryRef<'a> {
    /// What the entry says.
    pub open spec fn entry(self) -> RdbEntryView {
        RdbEntryView {
            db: self.db as nat,
            key: self.key@,
            value: ValueView::String(self.value@),
            expire_ms: self.expire_ms,
        }
    }
}

} // verus!
