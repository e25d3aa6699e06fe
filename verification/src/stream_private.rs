//! Streams in the plain form: every entry and every group written out.

use vstd::prelude::*;

use crate::bytes;
use crate::bytes::push_le;
use crate::rdb_types;
use crate::rdb_types::{
    ConsumerView, EntryView, FieldView, GroupView, PendingView, RdbStreamConsumer,
    RdbStreamConsumerGroup, RdbStreamPendingEntry, RdbValue, StreamEntry, StreamView, ValueView,
};
use crate::rdb_wire;
use crate::rdb_wire::{rdb_decode_string, rdb_encode_string};
use crate::records;
use crate::records::{
    option_from_stored, option_to_stored, read_counted, read_number, write_counted, Record,
};
use crate::stream_encode;

verus! {

// ---------------------------------------------------------------------------
// Entries
// ---------------------------------------------------------------------------

/// Two numbers of eight bytes.
pub open spec fn id_bytes(id: (u64, u64)) -> Seq<u8> {
    records::number_bytes(id.0) + records::number_bytes(id.1)
}

/// The two numbers at an offset.
pub open spec fn id_at(data: Seq<u8>, pos: int) -> Option<((u64, u64), int)> {
    match records::number_at(data, pos) {
        None => None,
        Some((a, mid)) => match records::number_at(data, mid) {
            None => None,
            Some((b, end)) => Some(((a, b), end)),
        },
    }
}

pub proof fn lemma_id_reads(id: (u64, u64), data: Seq<u8>, pos: int)
    requires
        bytes::has_at(data, pos, id_bytes(id)),
    ensures
        id_at(data, pos) == Some((id, pos + 16)),
        id_bytes(id).len() == 16,
{
    bytes::lemma_has_at_concat(data, pos, records::number_bytes(id.0), records::number_bytes(id.1));
    records::lemma_number_reads(id.0, data, pos);
    records::lemma_number_reads(id.1, data, pos + 8);
}

proof fn lemma_id_keeps(data: Seq<u8>, other: Seq<u8>, n: int, pos: int)
    requires
        bytes::same_upto(data, other, n),
    ensures
        id_at(data, pos) matches Some((_, end)) ==> pos < end <= data.len() && (end <= n ==> id_at(
            other,
            pos,
        ) == id_at(data, pos)),
{
    records::lemma_number_keeps(data, other, n, pos);
    if let Some((_, mid)) = records::number_at(data, pos) {
        records::lemma_number_keeps(data, other, n, mid);
    }
}

fn write_id(buf: &mut Vec<u8>, id: (u64, u64))
    ensures
        final(buf)@ == old(buf)@ + id_bytes(id),
{
    push_le(buf, id.0, 8);
    push_le(buf, id.1, 8);
    assert(buf@ =~= old(buf)@ + id_bytes(id));
}

fn read_id(data: &[u8], pos: usize) -> (r: Option<((u64, u64), usize)>)
    ensures
        match r {
            Some((id, end)) => id_at(data@, pos as int) == Some((id, end as int)) && pos <= end
                <= data@.len(),
            None => id_at(data@, pos as int) is None,
        },
{
    match read_number(data, pos) {
        None => None,
        Some((a, mid)) => match read_number(data, mid) {
            None => None,
            Some((b, end)) => Some(((a, b), end)),
        },
    }
}

/// The fields of an entry as they are stored.
pub open spec fn fields_bytes(fields: Seq<FieldView>) -> Seq<u8> {
    records::counted_bytes::<(Vec<u8>, Vec<u8>)>(fields)
}

/// The fields at an offset.
pub open spec fn fields_at(data: Seq<u8>, pos: int) -> Option<(Seq<FieldView>, int)> {
    records::counted_at::<(Vec<u8>, Vec<u8>)>(data, pos)
}

impl Record for StreamEntry {
    type Model = EntryView;

    open spec fn model(&self) -> EntryView {
        rdb_types::entry_view(*self)
    }

    open spec fn writable(m: EntryView) -> bool {
        true
    }

    open spec fn stored(m: EntryView) -> Seq<u8> {
        id_bytes((m.ms, m.seq)) + fields_bytes(m.fields)
    }

    open spec fn at(data: Seq<u8>, pos: int) -> Option<(EntryView, int)> {
        match id_at(data, pos) {
            None => None,
            Some((id, mid)) => match fields_at(data, mid) {
                None => None,
                Some((fields, end)) => Some((EntryView { ms: id.0, seq: id.1, fields }, end)),
            },
        }
    }

    open spec fn lasting(m: EntryView) -> bool {
        m.fields.len() <= u64::MAX && records::all_lasting::<(Vec<u8>, Vec<u8>)>(m.fields)
    }

    open spec fn sized(m: EntryView) -> bool {
        records::all_sized::<(Vec<u8>, Vec<u8>)>(m.fields)
    }

    proof fn keeps(data: Seq<u8>, other: Seq<u8>, n: int, pos: int) {
        lemma_id_keeps(data, other, n, pos);
        if let Some((_, mid)) = id_at(data, pos) {
            records::lemma_counted_keeps::<(Vec<u8>, Vec<u8>)>(data, other, n, mid);
        }
    }

    proof fn spans(m: EntryView, data: Seq<u8>, pos: int) {
        bytes::lemma_has_at_concat(data, pos, id_bytes((m.ms, m.seq)), fields_bytes(m.fields));
        lemma_id_reads((m.ms, m.seq), data, pos);
        records::lemma_counted_spans::<(Vec<u8>, Vec<u8>)>(m.fields, data, pos + 16);
    }

    proof fn reads(m: EntryView, data: Seq<u8>, pos: int) {
        bytes::lemma_has_at_concat(data, pos, id_bytes((m.ms, m.seq)), fields_bytes(m.fields));
        lemma_id_reads((m.ms, m.seq), data, pos);
        records::law_counted_round_trip::<(Vec<u8>, Vec<u8>)>(m.fields, data, pos + 16);
    }

    fn write(&self, buf: &mut Vec<u8>) {
        write_id(buf, (self.0, self.1));
        let ghost mid = buf@;
        assert(records::models(self.2@) =~= rdb_types::field_views(self.2@));
        write_counted(buf, self.2.as_slice());
        proof {
            bytes::lemma_add_assoc(
                old(buf)@,
                id_bytes((self.0, self.1)),
                fields_bytes(rdb_types::field_views(self.2@)),
            );
        }
    }

    fn read(data: &[u8], pos: usize) -> (r: Option<(Self, usize)>) {
        let (id, mid) = match read_id(data, pos) {
            None => {
                return None;
            },
            Some(found) => found,
        };
        match read_counted::<(Vec<u8>, Vec<u8>)>(data, mid) {
            None => None,
            Some((fields, end)) => {
                assert(records::models(fields@) =~= rdb_types::field_views(fields@));
                Some(((id.0, id.1, fields), end))
            },
        }
    }
}

// ---------------------------------------------------------------------------
// Groups
// ---------------------------------------------------------------------------

impl Record for RdbStreamConsumer {
    type Model = ConsumerView;

    open spec fn model(&self) -> ConsumerView {
        self@
    }

    open spec fn writable(m: ConsumerView) -> bool {
        true
    }

    open spec fn stored(m: ConsumerView) -> Seq<u8> {
        rdb_wire::string_bytes(m.name) + id_bytes((m.seen, records::stored_option(m.active)))
    }

    open spec fn at(data: Seq<u8>, pos: int) -> Option<(ConsumerView, int)> {
        match rdb_wire::string_at(data, pos) {
            None => None,
            Some((name, mid)) => match id_at(data, mid) {
                None => None,
                Some((times, end)) => Some(
                    (
                        ConsumerView {
                            name,
                            seen: times.0,
                            active: records::loaded_option(times.1),
                        },
                        end,
                    ),
                ),
            },
        }
    }

    open spec fn lasting(m: ConsumerView) -> bool {
        rdb_wire::storable(m.name) && m.active != Some(u64::MAX)
    }

    open spec fn sized(m: ConsumerView) -> bool {
        m.name.len() <= u64::MAX
    }

    proof fn keeps(data: Seq<u8>, other: Seq<u8>, n: int, pos: int) {
        rdb_wire::lemma_string_local(data, other, n, pos);
        if let Some((_, mid)) = rdb_wire::string_at(data, pos) {
            lemma_id_keeps(data, other, n, mid);
        }
    }

    proof fn spans(m: ConsumerView, data: Seq<u8>, pos: int) {
        let a = rdb_wire::string_bytes(m.name);
        let times = (m.seen, records::stored_option(m.active));
        bytes::lemma_has_at_concat(data, pos, a, id_bytes(times));
        rdb_wire::lemma_string_spans(data, pos, m.name);
        lemma_id_reads(times, data, pos + a.len());
    }

    proof fn reads(m: ConsumerView, data: Seq<u8>, pos: int) {
        let a = rdb_wire::string_bytes(m.name);
        let times = (m.seen, records::stored_option(m.active));
        bytes::lemma_has_at_concat(data, pos, a, id_bytes(times));
        rdb_wire::law_string_round_trip(data, pos, m.name);
        lemma_id_reads(times, data, pos + a.len());
    }

    fn write(&self, buf: &mut Vec<u8>) {
        rdb_encode_string(buf, self.name.as_slice());
        let active: u64 = option_to_stored(self.active_time_ms);
        write_id(buf, (self.seen_time_ms, active));
        proof {
            bytes::lemma_add_assoc(
                old(buf)@,
                rdb_wire::string_bytes(self.name@),
                id_bytes((self.seen_time_ms, active)),
            );
        }
    }

    fn read(data: &[u8], pos: usize) -> (r: Option<(Self, usize)>) {
        let (name, mid) = match rdb_decode_string(data, pos) {
            None => {
                return None;
            },
            Some(found) => found,
        };
        match read_id(data, mid) {
            None => None,
            Some((times, end)) => Some(
                (
                    RdbStreamConsumer {
                        name,
                        seen_time_ms: times.0,
                        active_time_ms: option_from_stored(times.1),
                    },
                    end,
                ),
            ),
        }
    }
}

impl Record for RdbStreamPendingEntry {
    type Model = PendingView;

    open spec fn model(&self) -> PendingView {
        self@
    }

    open spec fn writable(m: PendingView) -> bool {
        true
    }

    open spec fn stored(m: PendingView) -> Seq<u8> {
        id_bytes((m.ms, m.seq)) + rdb_wire::string_bytes(m.consumer) + id_bytes(
            (m.deliveries, m.delivered),
        )
    }

    open spec fn at(data: Seq<u8>, pos: int) -> Option<(PendingView, int)> {
        match id_at(data, pos) {
            None => None,
            Some((id, p1)) => match rdb_wire::string_at(data, p1) {
                None => None,
                Some((consumer, p2)) => match id_at(data, p2) {
                    None => None,
                    Some((counts, end)) => Some(
                        (
                            PendingView {
                                ms: id.0,
                                seq: id.1,
                                consumer,
                                deliveries: counts.0,
                                delivered: counts.1,
                            },
                            end,
                        ),
                    ),
                },
            },
        }
    }

    open spec fn lasting(m: PendingView) -> bool {
        rdb_wire::storable(m.consumer)
    }

    open spec fn sized(m: PendingView) -> bool {
        m.consumer.len() <= u64::MAX
    }

    proof fn keeps(data: Seq<u8>, other: Seq<u8>, n: int, pos: int) {
        lemma_id_keeps(data, other, n, pos);
        if let Some((_, p1)) = id_at(data, pos) {
            rdb_wire::lemma_string_local(data, other, n, p1);
            if let Some((_, p2)) = rdb_wire::string_at(data, p1) {
                lemma_id_keeps(data, other, n, p2);
            }
        }
    }

    proof fn spans(m: PendingView, data: Seq<u8>, pos: int) {
        let a = id_bytes((m.ms, m.seq));
        let b = rdb_wire::string_bytes(m.consumer);
        let c = id_bytes((m.deliveries, m.delivered));
        bytes::lemma_has_at_concat(data, pos, a + b, c);
        bytes::lemma_has_at_concat(data, pos, a, b);
        lemma_id_reads((m.ms, m.seq), data, pos);
        rdb_wire::lemma_string_spans(data, pos + 16, m.consumer);
        lemma_id_reads((m.deliveries, m.delivered), data, pos + 16 + b.len());
    }

    proof fn reads(m: PendingView, data: Seq<u8>, pos: int) {
        let a = id_bytes((m.ms, m.seq));
        let b = rdb_wire::string_bytes(m.consumer);
        let c = id_bytes((m.deliveries, m.delivered));
        bytes::lemma_has_at_concat(data, pos, a + b, c);
        bytes::lemma_has_at_concat(data, pos, a, b);
        lemma_id_reads((m.ms, m.seq), data, pos);
        rdb_wire::law_string_round_trip(data, pos + 16, m.consumer);
        lemma_id_reads((m.deliveries, m.delivered), data, pos + 16 + b.len());
    }

    fn write(&self, buf: &mut Vec<u8>) {
        write_id(buf, (self.entry_id_ms, self.entry_id_seq));
        rdb_encode_string(buf, self.consumer.as_slice());
        write_id(buf, (self.deliveries, self.last_delivered_ms));
        proof {
            let a = id_bytes((self.entry_id_ms, self.entry_id_seq));
            let b = rdb_wire::string_bytes(self.consumer@);
            let c = id_bytes((self.deliveries, self.last_delivered_ms));
            bytes::lemma_add_assoc(old(buf)@, a, b);
            bytes::lemma_add_assoc(old(buf)@, a + b, c);
        }
    }

    fn read(data: &[u8], pos: usize) -> (r: Option<(Self, usize)>) {
        let (id, p1) = match read_id(data, pos) {
            None => {
                return None;
            },
            Some(found) => found,
        };
        let (consumer, p2) = match rdb_decode_string(data, p1) {
            None => {
                return None;
            },
            Some(found) => found,
        };
        match read_id(data, p2) {
            None => None,
            Some((counts, end)) => Some(
                (
                    RdbStreamPendingEntry {
                        entry_id_ms: id.0,
                        entry_id_seq: id.1,
                        consumer,
                        deliveries: counts.0,
                        last_delivered_ms: counts.1,
                    },
                    end,
                ),
            ),
        }
    }
}

/// The head of a group: name, last id, entries read.
pub open spec fn head_bytes(g: GroupView) -> Seq<u8> {
    rdb_wire::string_bytes(g.name) + id_bytes((g.ms, g.seq)) + records::number_bytes(
        records::stored_option(g.entries_read),
    )
}

/// The name, the last id and the entries read at an offset.
pub open spec fn head_at(data: Seq<u8>, pos: int) -> Option<
    ((Seq<u8>, (u64, u64), Option<u64>), int),
> {
    match rdb_wire::string_at(data, pos) {
        None => None,
        Some((name, p1)) => match id_at(data, p1) {
            None => None,
            Some((id, p2)) => match records::number_at(data, p2) {
                None => None,
                Some((n, end)) => Some(((name, id, records::loaded_option(n)), end)),
            },
        },
    }
}

/// The consumers of a group as they are stored.
pub open spec fn consumers_bytes(g: GroupView) -> Seq<u8> {
    records::counted_bytes::<RdbStreamConsumer>(g.consumers)
}

/// The pending entries of a group as they are stored.
pub open spec fn pendings_bytes(g: GroupView) -> Seq<u8> {
    records::counted_bytes::<RdbStreamPendingEntry>(g.pending)
}

proof fn lemma_head_reads(g: GroupView, data: Seq<u8>, pos: int)
    requires
        rdb_wire::storable(g.name),
        g.entries_read != Some(u64::MAX),
        bytes::has_at(data, pos, head_bytes(g)),
    ensures
        head_at(data, pos) == Some(
            ((g.name, (g.ms, g.seq), g.entries_read), pos + head_bytes(g).len()),
        ),
{
    let a = rdb_wire::string_bytes(g.name);
    let b = id_bytes((g.ms, g.seq));
    let c = records::number_bytes(records::stored_option(g.entries_read));
    bytes::lemma_has_at_concat(data, pos, a + b, c);
    bytes::lemma_has_at_concat(data, pos, a, b);
    rdb_wire::law_string_round_trip(data, pos, g.name);
    lemma_id_reads((g.ms, g.seq), data, pos + a.len());
    records::lemma_number_reads(
        records::stored_option(g.entries_read),
        data,
        pos + a.len() + b.len(),
    );
}

proof fn lemma_head_keeps(data: Seq<u8>, other: Seq<u8>, n: int, pos: int)
    requires
        bytes::same_upto(data, other, n),
    ensures
        head_at(data, pos) matches Some((_, end)) ==> pos < end <= data.len() && (end <= n
            ==> head_at(other, pos) == head_at(data, pos)),
{
    rdb_wire::lemma_string_local(data, other, n, pos);
    if let Some((_, p1)) = rdb_wire::string_at(data, pos) {
        lemma_id_keeps(data, other, n, p1);
        if let Some((_, p2)) = id_at(data, p1) {
            records::lemma_number_keeps(data, other, n, p2);
        }
    }
}

proof fn lemma_head_spans(m: GroupView, data: Seq<u8>, pos: int)
    requires
        m.name.len() <= u64::MAX,
        bytes::has_at(data, pos, head_bytes(m)),
    ensures
        head_at(data, pos) matches Some((_, end)) ==> end == pos + head_bytes(m).len(),
{
    let a = rdb_wire::string_bytes(m.name);
    let b = id_bytes((m.ms, m.seq));
    let c = records::number_bytes(records::stored_option(m.entries_read));
    bytes::lemma_has_at_concat(data, pos, a + b, c);
    bytes::lemma_has_at_concat(data, pos, a, b);
    rdb_wire::lemma_string_spans(data, pos, m.name);
    lemma_id_reads((m.ms, m.seq), data, pos + a.len());
    records::lemma_number_reads(
        records::stored_option(m.entries_read),
        data,
        pos + a.len() + b.len(),
    );
}

fn write_head(buf: &mut Vec<u8>, g: &RdbStreamConsumerGroup)
    ensures
        final(buf)@ == old(buf)@ + head_bytes(g@),
{
    rdb_encode_string(buf, g.name.as_slice());
    write_id(buf, (g.last_delivered_id_ms, g.last_delivered_id_seq));
    let n: u64 = option_to_stored(g.entries_read);
    push_le(buf, n, 8);
    proof {
        let a = rdb_wire::string_bytes(g.name@);
        let b = id_bytes((g.last_delivered_id_ms, g.last_delivered_id_seq));
        bytes::lemma_add_assoc(old(buf)@, a, b);
        bytes::lemma_add_assoc(old(buf)@, a + b, records::number_bytes(n));
    }
}

fn read_head(data: &[u8], pos: usize) -> (r: Option<
    ((Vec<u8>, (u64, u64), Option<u64>), usize),
>)
    ensures
        match r {
            Some((h, end)) => head_at(data@, pos as int) == Some(
                ((h.0@, h.1, h.2), end as int),
            ) && pos <= end <= data@.len(),
            None => head_at(data@, pos as int) is None,
        },
{
    let (name, p1) = match rdb_decode_string(data, pos) {
        None => {
            return None;
        },
        Some(found) => found,
    };
    let (id, p2) = match read_id(data, p1) {
        None => {
            return None;
        },
        Some(found) => found,
    };
    match read_number(data, p2) {
        None => None,
        Some((n, end)) => Some(((name, id, option_from_stored(n)), end)),
    }
}

impl Record for RdbStreamConsumerGroup {
    type Model = GroupView;

    open spec fn model(&self) -> GroupView {
        self@
    }

    open spec fn writable(m: GroupView) -> bool {
        true
    }

    open spec fn stored(m: GroupView) -> Seq<u8> {
        head_bytes(m) + consumers_bytes(m) + pendings_bytes(m)
    }

    open spec fn at(data: Seq<u8>, pos: int) -> Option<(GroupView, int)> {
        match head_at(data, pos) {
            None => None,
            Some((h, p1)) => match records::counted_at::<RdbStreamConsumer>(data, p1) {
                None => None,
                Some((consumers, p2)) => match records::counted_at::<RdbStreamPendingEntry>(
                    data,
                    p2,
                ) {
                    None => None,
                    Some((pending, end)) => Some(
                        (
                            GroupView {
                                name: h.0,
                                ms: h.1.0,
                                seq: h.1.1,
                                entries_read: h.2,
                                consumers,
                                pending,
                            },
                            end,
                        ),
                    ),
                },
            },
        }
    }

    open spec fn lasting(m: GroupView) -> bool {
        &&& rdb_wire::storable(m.name)
        &&& m.entries_read != Some(u64::MAX)
        &&& m.consumers.len() <= u64::MAX
        &&& m.pending.len() <= u64::MAX
        &&& records::all_lasting::<RdbStreamConsumer>(m.consumers)
        &&& records::all_lasting::<RdbStreamPendingEntry>(m.pending)
    }

    open spec fn sized(m: GroupView) -> bool {
        &&& m.name.len() <= u64::MAX
        &&& records::all_sized::<RdbStreamConsumer>(m.consumers)
        &&& records::all_sized::<RdbStreamPendingEntry>(m.pending)
    }

    proof fn keeps(data: Seq<u8>, other: Seq<u8>, n: int, pos: int) {
        lemma_head_keeps(data, other, n, pos);
        if let Some((_, p1)) = head_at(data, pos) {
            records::lemma_counted_keeps::<RdbStreamConsumer>(data, other, n, p1);
            if let Some((_, p2)) = records::counted_at::<RdbStreamConsumer>(data, p1) {
                records::lemma_counted_keeps::<RdbStreamPendingEntry>(data, other, n, p2);
            }
        }
    }

    proof fn spans(m: GroupView, data: Seq<u8>, pos: int) {
        let a = head_bytes(m);
        let b = consumers_bytes(m);
        let c = pendings_bytes(m);
        bytes::lemma_has_at_concat(data, pos, a + b, c);
        bytes::lemma_has_at_concat(data, pos, a, b);
        lemma_head_spans(m, data, pos);
        records::lemma_counted_spans::<RdbStreamConsumer>(m.consumers, data, pos + a.len());
        records::lemma_counted_spans::<RdbStreamPendingEntry>(
            m.pending,
            data,
            pos + a.len() + b.len(),
        );
    }

    proof fn reads(m: GroupView, data: Seq<u8>, pos: int) {
        let a = head_bytes(m);
        let b = consumers_bytes(m);
        let c = pendings_bytes(m);
        bytes::lemma_has_at_concat(data, pos, a + b, c);
        bytes::lemma_has_at_concat(data, pos, a, b);
        lemma_head_reads(m, data, pos);
        records::law_counted_round_trip::<RdbStreamConsumer>(m.consumers, data, pos + a.len());
        records::law_counted_round_trip::<RdbStreamPendingEntry>(
            m.pending,
            data,
            pos + a.len() + b.len(),
        );
    }

    fn write(&self, buf: &mut Vec<u8>) {
        write_head(buf, self);
        proof {
            assert(records::models(self.consumers@) =~= self@.consumers);
            assert(records::models(self.pending@) =~= self@.pending);
        }
        write_counted(buf, self.consumers.as_slice());
        write_counted(buf, self.pending.as_slice());
        proof {
            let g = self@;
            bytes::lemma_add_assoc(old(buf)@, head_bytes(g), consumers_bytes(g));
            bytes::lemma_add_assoc(
                old(buf)@,
                head_bytes(g) + consumers_bytes(g),
                pendings_bytes(g),
            );
        }
    }

    fn read(data: &[u8], pos: usize) -> (r: Option<(Self, usize)>) {
        let (h, p1) = match read_head(data, pos) {
            None => {
                return None;
            },
            Some(found) => found,
        };
        let (consumers, p2) = match read_counted::<RdbStreamConsumer>(data, p1) {
            None => {
                return None;
            },
            Some(found) => found,
        };
        let (pending, end) = match read_counted::<RdbStreamPendingEntry>(data, p2) {
            None => {
                return None;
            },
            Some(found) => found,
        };
        let group = RdbStreamConsumerGroup {
            name: h.0,
            last_delivered_id_ms: h.1.0,
            last_delivered_id_seq: h.1.1,
            entries_read: h.2,
            consumers,
            pending,
        };
        proof {
            assert(records::models(consumers@) =~= group@.consumers);
            assert(records::models(pending@) =~= group@.pending);
        }
        Some((group, end))
    }
}

// ---------------------------------------------------------------------------
// Streams
// ---------------------------------------------------------------------------

/// An id as it is stored says something.
pub open spec fn loaded_id(id: (u64, u64)) -> Option<(u64, u64)> {
    if id == (0u64, 0u64) {
        None
    } else {
        Some(id)
    }
}

/// The number of entries ever added, as it is stored.
pub open spec fn stored_added(s: StreamView) -> u64 {
    match s.entries_added {
        Some(n) => n,
        None => s.entries.len() as u64,
    }
}

/// The counters of a stream.
#[verifier::opaque]
pub open spec fn counters_bytes(s: StreamView) -> Seq<u8> {
    id_bytes(stream_encode::id_or_zero(s.watermark)) + records::number_bytes(stored_added(s))
        + id_bytes(stream_encode::id_or_zero(s.max_deleted))
}

/// A stream in the plain form.
pub open spec fn private_stream_bytes(s: StreamView) -> Seq<u8> {
    counters_bytes(s) + records::counted_bytes::<StreamEntry>(s.entries) + records::counted_bytes::<
        RdbStreamConsumerGroup,
    >(s.groups)
}

/// The counters at an offset: last id, entries added, greatest id deleted.
#[verifier::opaque]
pub open spec fn counters_at(data: Seq<u8>, pos: int) -> Option<
    (((u64, u64), u64, (u64, u64)), int),
> {
    match id_at(data, pos) {
        None => None,
        Some((watermark, p1)) => match records::number_at(data, p1) {
            None => None,
            Some((added, p2)) => match id_at(data, p2) {
                None => None,
                Some((deleted, end)) => Some(((watermark, added, deleted), end)),
            },
        },
    }
}

/// The plain stream at an offset.
pub open spec fn private_stream_at(data: Seq<u8>, pos: int) -> Option<(StreamView, int)> {
    match counters_at(data, pos) {
        None => None,
        Some((c, p1)) => match records::counted_at::<StreamEntry>(data, p1) {
            None => None,
            Some((entries, p2)) => match records::counted_at::<RdbStreamConsumerGroup>(data, p2) {
                None => None,
                Some((groups, end)) => Some(
                    (
                        StreamView {
                            entries,
                            watermark: loaded_id(c.0),
                            groups,
                            metadata: None,
                            entries_added: Some(c.1),
                            max_deleted: loaded_id(c.2),
                        },
                        end,
                    ),
                ),
            },
        },
    }
}

/// What a plain stream says once it is read back: the number of entries ever added is
/// known.
pub open spec fn private_loaded(s: StreamView) -> StreamView {
    StreamView {
        entries_added: Some(stored_added(s)),
        metadata: None,
        watermark: loaded_id(stream_encode::id_or_zero(s.watermark)),
        max_deleted: loaded_id(stream_encode::id_or_zero(s.max_deleted)),
        ..s
    }
}

/// The entries and groups of a stream read back as they were written.
pub open spec fn private_lasting(s: StreamView) -> bool {
    &&& s.entries.len() <= u64::MAX
    &&& s.groups.len() <= u64::MAX
    &&& records::all_lasting::<StreamEntry>(s.entries)
    &&& records::all_lasting::<RdbStreamConsumerGroup>(s.groups)
}

proof fn lemma_counters_read(s: StreamView, data: Seq<u8>, pos: int)
    requires
        bytes::has_at(data, pos, counters_bytes(s)),
    ensures
        counters_at(data, pos) == Some(
            (
                (
                    stream_encode::id_or_zero(s.watermark),
                    stored_added(s),
                    stream_encode::id_or_zero(s.max_deleted),
                ),
                pos + counters_bytes(s).len(),
            ),
        ),
{
    reveal(counters_bytes);
    reveal(counters_at);
    let a = id_bytes(stream_encode::id_or_zero(s.watermark));
    let b = records::number_bytes(stored_added(s));
    let c = id_bytes(stream_encode::id_or_zero(s.max_deleted));
    bytes::lemma_has_at_concat(data, pos, a + b, c);
    bytes::lemma_has_at_concat(data, pos, a, b);
    lemma_id_reads(stream_encode::id_or_zero(s.watermark), data, pos);
    records::lemma_number_reads(stored_added(s), data, pos + 16);
    lemma_id_reads(stream_encode::id_or_zero(s.max_deleted), data, pos + 24);
}

/// A plain stream within the first `n` bytes is read the same where these are the same.
pub proof fn lemma_private_stream_keeps(data: Seq<u8>, other: Seq<u8>, n: int, pos: int)
    requires
        0 <= pos,
        bytes::same_upto(data, other, n),
    ensures
        private_stream_at(data, pos) matches Some((_, end)) ==> pos <= end <= data.len() && (end
            <= n ==> private_stream_at(other, pos) == private_stream_at(data, pos)),
{
    lemma_counters_keep(data, other, n, pos);
    if let Some((_, p1)) = counters_at(data, pos) {
        records::lemma_counted_keeps::<StreamEntry>(data, other, n, p1);
        if let Some((_, p2)) = records::counted_at::<StreamEntry>(data, p1) {
            records::lemma_counted_keeps::<RdbStreamConsumerGroup>(data, other, n, p2);
        }
    }
}

proof fn lemma_counters_keep(data: Seq<u8>, other: Seq<u8>, n: int, pos: int)
    requires
        bytes::same_upto(data, other, n),
    ensures
        counters_at(data, pos) matches Some((_, end)) ==> pos < end <= data.len() && (end <= n
            ==> counters_at(other, pos) == counters_at(data, pos)),
{
    reveal(counters_at);
    lemma_id_keeps(data, other, n, pos);
    if let Some((_, p1)) = id_at(data, pos) {
        records::lemma_number_keeps(data, other, n, p1);
        if let Some((_, p2)) = records::number_at(data, p1) {
            lemma_id_keeps(data, other, n, p2);
        }
    }
}

/// Where a plain stream stands, reading it fails or ends behind it.
pub proof fn lemma_private_stream_spans(s: StreamView, data: Seq<u8>, pos: int)
    requires
        records::all_sized::<StreamEntry>(s.entries),
        records::all_sized::<RdbStreamConsumerGroup>(s.groups),
        bytes::has_at(data, pos, private_stream_bytes(s)),
    ensures
        private_stream_at(data, pos) matches Some((_, end)) ==> end == pos + private_stream_bytes(
            s,
        ).len(),
{
    let a = counters_bytes(s);
    let b = records::counted_bytes::<StreamEntry>(s.entries);
    let c = records::counted_bytes::<RdbStreamConsumerGroup>(s.groups);
    bytes::lemma_has_at_concat(data, pos, a + b, c);
    bytes::lemma_has_at_concat(data, pos, a, b);
    lemma_counters_read(s, data, pos);
    records::lemma_counted_spans::<StreamEntry>(s.entries, data, pos + a.len());
    records::lemma_counted_spans::<RdbStreamConsumerGroup>(
        s.groups,
        data,
        pos + a.len() + b.len(),
    );
}

/// A plain stream is read back from its bytes.
pub proof fn law_private_stream_round_trip(s: StreamView, data: Seq<u8>, pos: int)
    requires
        private_lasting(s),
        bytes::has_at(data, pos, private_stream_bytes(s)),
    ensures
        private_stream_at(data, pos) == Some(
            (private_loaded(s), pos + private_stream_bytes(s).len()),
        ),
{
    let a = counters_bytes(s);
    let b = records::counted_bytes::<StreamEntry>(s.entries);
    let c = records::counted_bytes::<RdbStreamConsumerGroup>(s.groups);
    bytes::lemma_has_at_concat(data, pos, a + b, c);
    bytes::lemma_has_at_concat(data, pos, a, b);
    lemma_counters_read(s, data, pos);
    records::law_counted_round_trip::<StreamEntry>(s.entries, data, pos + a.len());
    records::law_counted_round_trip::<RdbStreamConsumerGroup>(
        s.groups,
        data,
        pos + a.len() + b.len(),
    );
}

fn id_or_zero(id: Option<(u64, u64)>) -> (r: (u64, u64))
    ensures
        r == stream_encode::id_or_zero(id),
{
    match id {
        Some(id) => id,
        None => (0, 0),
    }
}

fn id_from_stored(id: (u64, u64)) -> (r: Option<(u64, u64)>)
    ensures
        r == loaded_id(id),
{
    if id.0 == 0 && id.1 == 0 {
        None
    } else {
        Some(id)
    }
}

/// Appends a stream in the plain form.
pub fn encode_private_stream(
    buf: &mut Vec<u8>,
    entries: &[StreamEntry],
    watermark: Option<(u64, u64)>,
    groups: &[RdbStreamConsumerGroup],
    entries_added: Option<u64>,
    max_deleted: Option<(u64, u64)>,
)
    ensures
        final(buf)@ == old(buf)@ + private_stream_bytes(
            stream_encode::parts_view(entries@, watermark, groups@, entries_added, max_deleted),
        ),
{
    let ghost s = stream_encode::parts_view(
        entries@,
        watermark,
        groups@,
        entries_added,
        max_deleted,
    );
    let ghost start = buf@;
    write_id(buf, id_or_zero(watermark));
    let n: u64 = match entries_added {
        Some(n) => n,
        None => entries.len() as u64,
    };
    assert(s.entries.len() == entries@.len());
    push_le(buf, n, 8);
    write_id(buf, id_or_zero(max_deleted));
    proof {
        reveal(counters_bytes);
        let a = id_bytes(stream_encode::id_or_zero(watermark));
        let b = records::number_bytes(n);
        let c = id_bytes(stream_encode::id_or_zero(max_deleted));
        bytes::lemma_add_assoc(start, a, b);
        bytes::lemma_add_assoc(start, a + b, c);
        assert(records::models(entries@) =~= s.entries);
        assert(records::models(groups@) =~= s.groups);
    }
    write_counted(buf, entries);
    write_counted(buf, groups);
    proof {
        let a = counters_bytes(s);
        let b = records::counted_bytes::<StreamEntry>(s.entries);
        let c = records::counted_bytes::<RdbStreamConsumerGroup>(s.groups);
        bytes::lemma_add_assoc(start, a, b);
        bytes::lemma_add_assoc(start, a + b, c);
    }
}

fn read_counters(data: &[u8], pos: usize) -> (r: Option<
    (((u64, u64), u64, (u64, u64)), usize),
>)
    ensures
        match r {
            Some((c, end)) => counters_at(data@, pos as int) == Some((c, end as int)) && pos <= end
                <= data@.len(),
            None => counters_at(data@, pos as int) is None,
        },
{
    proof {
        reveal(counters_at);
    }
    let (watermark, p1) = match read_id(data, pos) {
        None => {
            return None;
        },
        Some(found) => found,
    };
    let (added, p2) = match read_number(data, p1) {
        None => {
            return None;
        },
        Some(found) => found,
    };
    match read_id(data, p2) {
        None => None,
        Some((deleted, end)) => Some(((watermark, added, deleted), end)),
    }
}

/// Reads a plain stream.
pub fn decode_private_stream(data: &[u8], pos: usize) -> (r: Option<(RdbValue, usize)>)
    ensures
        match r {
            Some((value, end)) => private_stream_at(data@, pos as int) matches Some((s, e))
                && value@ == ValueView::Stream(s) && end == e && pos <= end <= data@.len(),
            None => private_stream_at(data@, pos as int) is None,
        },
{
    let (c, p1) = match read_counters(data, pos) {
        None => {
            return None;
        },
        Some(found) => found,
    };
    let (entries, p2) = match read_counted::<StreamEntry>(data, p1) {
        None => {
            return None;
        },
        Some(found) => found,
    };
    let (groups, end) = match read_counted::<RdbStreamConsumerGroup>(data, p2) {
        None => {
            return None;
        },
        Some(found) => found,
    };
    proof {
        assert(records::models(entries@) =~= rdb_types::entry_views(entries@));
        assert(records::models(groups@) =~= rdb_types::group_views(groups@));
    }
    let value = RdbValue::Stream(
        entries,
        id_from_stored(c.0),
        groups,
        None,
        Some(c.1),
        id_from_stored(c.2),
    );
    Some((value, end))
}

} // verus!
