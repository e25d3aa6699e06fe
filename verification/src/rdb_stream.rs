//! Reading streams from snapshots.
//!
//! Three layouts are known: the first; the second, which adds counters and the time
//! at which a consumer was seen; and the third, which adds the time at which a
//! consumer was active.

use vstd::prelude::*;

use crate::bytes;
use crate::bytes::{copy_bytes, copy_window, read_be, read_le};
use crate::listpack::ListpackError;
use crate::order;
use crate::order::{find_last, has_equal_keys, order_of, KeyView, SortKey};
use crate::rdb_types;
use crate::rdb_types::{
    ConsumerView, EntryView, GroupView, PendingView, RdbStreamConsumer, RdbStreamConsumerGroup,
    RdbStreamMetadata, RdbStreamPendingEntry, RdbValue, StreamEntry, StreamView, ValueView,
};
use crate::rdb_wire;
use crate::rdb_wire::{rdb_decode_length, rdb_decode_string};
use crate::stream_unpack;
use crate::stream_unpack::{unpack_nodes, StreamOut, Unpacked};

verus! {

/// Type byte of the first layout.
pub const UPSTREAM_RDB_TYPE_STREAM_LISTPACKS: u8 = 15;

/// Type byte of the second layout.
pub const UPSTREAM_RDB_TYPE_STREAM_LISTPACKS_2: u8 = 19;

/// Type byte of the third layout.
pub const UPSTREAM_RDB_TYPE_STREAM_LISTPACKS_3: u8 = 21;

/// Why a stream is rejected.
#[derive(Debug, Clone, Copy, PartialEq, Eq)]
pub enum UpstreamStreamError {
    /// A number could not be read.
    InvalidLength,
    /// A string could not be read.
    InvalidString,
    /// The id of a node is not sixteen bytes long.
    InvalidNodekeyLength,
    /// No layout has this type byte.
    UnsupportedTypeByte(u8),
    /// A node is no pack.
    InvalidListpack(ListpackError),
    /// A node ends within its pieces.
    ShortListpackEntries,
    /// A string stands where an integer is due.
    ExpectedListpackInteger,
    /// An integer stands where a string is due.
    ExpectedListpackString,
    /// A number of fields is negative or too large.
    InvalidFieldCount,
    /// A node or the stream does not hold the number of entries that it says, or an id
    /// repeats.
    InconsistentEntryCount,
    /// An entry does not take the number of pieces that it says.
    InconsistentEntryTrailer,
    /// A consumer's pending entry is not among the group's.
    MissingGlobalPelEntry,
}

impl From<ListpackError> for UpstreamStreamError {
    fn from(value: ListpackError) -> (e: Self) {
        UpstreamStreamError::InvalidListpack(value)
    }
}

impl vstd::std_specs::convert::FromSpecImpl<ListpackError> for UpstreamStreamError {
    open spec fn obeys_from_spec() -> bool {
        true
    }

    open spec fn from_spec(value: ListpackError) -> Self {
        UpstreamStreamError::InvalidListpack(value)
    }
}

// ---------------------------------------------------------------------------
// What a stored stream says
// ---------------------------------------------------------------------------

/// A node: the halves of its master's id, and its pack.
pub type NodeView = (u64, u64, Seq<u8>);

/// A pending entry of a group: its id, time of delivery and number of deliveries.
pub type PelView = ((u64, u64), (u64, u64));

/// A stored stream whose nodes are not yet unpacked.
#[verifier::ext_equal]
pub struct SkeletonView {
    pub length: nat,
    pub nodes: Seq<NodeView>,
    pub watermark: (u64, u64),
    pub groups: Seq<GroupView>,
    pub type_byte: u8,
    pub payload: Seq<u8>,
    pub entries_added: u64,
    pub max_deleted: Option<(u64, u64)>,
}

/// A number in the form of a length.
pub open spec fn number_at(data: Seq<u8>, pos: int) -> Result<(u64, int), UpstreamStreamError> {
    match rdb_wire::length_at(data, pos) {
        None => Err(UpstreamStreamError::InvalidLength),
        Some((n, end)) => Ok((n as u64, end)),
    }
}

/// A string.
pub open spec fn text_at(data: Seq<u8>, pos: int) -> Result<(Seq<u8>, int), UpstreamStreamError> {
    match rdb_wire::string_at(data, pos) {
        None => Err(UpstreamStreamError::InvalidString),
        Some(found) => Ok(found),
    }
}

/// Two numbers.
pub open spec fn number_pair_at(data: Seq<u8>, pos: int) -> Result<
    ((u64, u64), int),
    UpstreamStreamError,
> {
    match number_at(data, pos) {
        Err(e) => Err(e),
        Ok((a, mid)) => match number_at(data, mid) {
            Err(e) => Err(e),
            Ok((b, end)) => Ok(((a, b), end)),
        },
    }
}

/// The sixteen bytes of an id.
pub open spec fn id_at(data: Seq<u8>, pos: int) -> Result<((u64, u64), int), UpstreamStreamError> {
    if pos + 16 > data.len() {
        Err(UpstreamStreamError::InvalidLength)
    } else {
        Ok(
            (
                (bytes::be_at(data, pos, 8) as u64, bytes::be_at(data, pos + 8, 8) as u64),
                pos + 16,
            ),
        )
    }
}

/// The eight bytes of a time.
pub open spec fn time_at(data: Seq<u8>, pos: int) -> Result<(u64, int), UpstreamStreamError> {
    if pos + 8 > data.len() {
        Err(UpstreamStreamError::InvalidLength)
    } else {
        Ok((bytes::le_at(data, pos, 8) as u64, pos + 8))
    }
}

/// A node: its master's id and its pack, as strings.
pub open spec fn node_at(data: Seq<u8>, pos: int) -> Result<(NodeView, int), UpstreamStreamError> {
    match text_at(data, pos) {
        Err(e) => Err(e),
        Ok((key, mid)) => if key.len() != 16 {
            Err(UpstreamStreamError::InvalidNodekeyLength)
        } else {
            match text_at(data, mid) {
                Err(e) => Err(e),
                Ok((pack, end)) => Ok(
                    (
                        (bytes::be_at(key, 0, 8) as u64, bytes::be_at(key, 8, 8) as u64, pack),
                        end,
                    ),
                ),
            }
        },
    }
}

/// The parser of one node.
pub open spec fn node_parser() -> bytes::TryParser<NodeView, UpstreamStreamError> {
    |data: Seq<u8>, pos: int| node_at(data, pos)
}

/// A pending entry of a group.
pub open spec fn pel_at(data: Seq<u8>, pos: int) -> Result<(PelView, int), UpstreamStreamError> {
    match id_at(data, pos) {
        Err(e) => Err(e),
        Ok((id, mid)) => match time_at(data, mid) {
            Err(e) => Err(e),
            Ok((time, next)) => match number_at(data, next) {
                Err(e) => Err(e),
                Ok((count, end)) => Ok(((id, (time, count)), end)),
            },
        },
    }
}

/// The parser of one pending entry of a group.
pub open spec fn pel_parser() -> bytes::TryParser<PelView, UpstreamStreamError> {
    |data: Seq<u8>, pos: int| pel_at(data, pos)
}

/// The time and count that the group has for an id: those of the last entry with it.
pub open spec fn pel_find(pel: Seq<PelView>, id: (u64, u64)) -> Option<(u64, u64)>
    decreases pel.len(),
{
    if pel.len() == 0 {
        None
    } else if pel.last().0 == id {
        Some(pel.last().1)
    } else {
        pel_find(pel.drop_last(), id)
    }
}

/// A pending entry of a consumer, which the group must have.
pub open spec fn own_at(
    pel: Seq<PelView>,
    consumer: Seq<u8>,
    data: Seq<u8>,
    pos: int,
) -> Result<(PendingView, int), UpstreamStreamError> {
    match id_at(data, pos) {
        Err(e) => Err(e),
        Ok((id, end)) => match pel_find(pel, id) {
            None => Err(UpstreamStreamError::MissingGlobalPelEntry),
            Some((time, count)) => Ok(
                (
                    PendingView { ms: id.0, seq: id.1, consumer, deliveries: count, delivered: time },
                    end,
                ),
            ),
        },
    }
}

/// The parser of one pending entry of a consumer.
pub open spec fn own_parser(pel: Seq<PelView>, consumer: Seq<u8>) -> bytes::TryParser<
    PendingView,
    UpstreamStreamError,
> {
    |data: Seq<u8>, pos: int| own_at(pel, consumer, data, pos)
}

/// The times of a consumer, as far as the layout has them.
pub open spec fn times_at(version: int, data: Seq<u8>, pos: int) -> Result<
    ((u64, Option<u64>), int),
    UpstreamStreamError,
> {
    if version < 2 {
        Ok(((0, None), pos))
    } else {
        match time_at(data, pos) {
            Err(e) => Err(e),
            Ok((seen, mid)) => if version < 3 {
                Ok(((seen, None), mid))
            } else {
                match time_at(data, mid) {
                    Err(e) => Err(e),
                    Ok((active, end)) => Ok(
                        (
                            (
                                seen,
                                if active == u64::MAX {
                                    None
                                } else {
                                    Some(active)
                                },
                            ),
                            end,
                        ),
                    ),
                }
            },
        }
    }
}

/// A consumer with its pending entries.
#[verifier::opaque]
pub open spec fn consumer_at(version: int, pel: Seq<PelView>, data: Seq<u8>, pos: int) -> Result<
    ((ConsumerView, Seq<PendingView>), int),
    UpstreamStreamError,
> {
    match text_at(data, pos) {
        Err(e) => Err(e),
        Ok((name, p1)) => match times_at(version, data, p1) {
            Err(e) => Err(e),
            Ok(((seen, active), p2)) => match number_at(data, p2) {
                Err(e) => Err(e),
                Ok((count, p3)) => match bytes::try_repeat(
                    own_parser(pel, name),
                    data,
                    p3,
                    count as nat,
                ) {
                    Err(e) => Err(e),
                    Ok((own, end)) => Ok(((ConsumerView { name, seen, active }, own), end)),
                },
            },
        },
    }
}

/// The parser of one consumer.
pub open spec fn consumer_parser(version: int, pel: Seq<PelView>) -> bytes::TryParser<
    (ConsumerView, Seq<PendingView>),
    UpstreamStreamError,
> {
    |data: Seq<u8>, pos: int| consumer_at(version, pel, data, pos)
}

/// The consumers, without their pending entries.
pub open spec fn only_consumers(found: Seq<(ConsumerView, Seq<PendingView>)>) -> Seq<ConsumerView> {
    found.map_values(|c: (ConsumerView, Seq<PendingView>)| c.0)
}

/// The pending entries of the consumers, one consumer behind the other.
pub open spec fn all_pending(found: Seq<(ConsumerView, Seq<PendingView>)>) -> Seq<PendingView>
    decreases found.len(),
{
    if found.len() == 0 {
        Seq::empty()
    } else {
        all_pending(found.drop_last()) + found.last().1
    }
}

/// The head of a group: name, last id, and entries read where the layout has it.
pub open spec fn group_head_at(version: int, data: Seq<u8>, pos: int) -> Result<
    ((Seq<u8>, (u64, u64), Option<u64>), int),
    UpstreamStreamError,
> {
    match text_at(data, pos) {
        Err(e) => Err(e),
        Ok((name, p1)) => match number_pair_at(data, p1) {
            Err(e) => Err(e),
            Ok((id, p2)) => if version < 2 {
                Ok(((name, id, None), p2))
            } else {
                match number_at(data, p2) {
                    Err(e) => Err(e),
                    Ok((read, end)) => Ok(
                        (
                            (
                                name,
                                id,
                                if read == u64::MAX {
                                    None
                                } else {
                                    Some(read)
                                },
                            ),
                            end,
                        ),
                    ),
                }
            },
        },
    }
}

/// The pending entries of a group, with their number before them.
pub open spec fn group_pel_at(data: Seq<u8>, pos: int) -> Result<
    (Seq<PelView>, int),
    UpstreamStreamError,
> {
    match number_at(data, pos) {
        Err(e) => Err(e),
        Ok((count, start)) => bytes::try_repeat(pel_parser(), data, start, count as nat),
    }
}

/// The consumers of a group, with their number before them.
pub open spec fn group_consumers_at(
    version: int,
    pel: Seq<PelView>,
    data: Seq<u8>,
    pos: int,
) -> Result<(Seq<(ConsumerView, Seq<PendingView>)>, int), UpstreamStreamError> {
    match number_at(data, pos) {
        Err(e) => Err(e),
        Ok((count, start)) => bytes::try_repeat(
            consumer_parser(version, pel),
            data,
            start,
            count as nat,
        ),
    }
}

/// A group.
#[verifier::opaque]
pub open spec fn group_at(version: int, data: Seq<u8>, pos: int) -> Result<
    (GroupView, int),
    UpstreamStreamError,
> {
    match group_head_at(version, data, pos) {
        Err(e) => Err(e),
        Ok(((name, id, entries_read), p1)) => match group_pel_at(data, p1) {
            Err(e) => Err(e),
            Ok((pel, p2)) => match group_consumers_at(version, pel, data, p2) {
                Err(e) => Err(e),
                Ok((found, end)) => Ok(
                    (
                        GroupView {
                            name,
                            ms: id.0,
                            seq: id.1,
                            entries_read,
                            consumers: only_consumers(found),
                            pending: all_pending(found),
                        },
                        end,
                    ),
                ),
            },
        },
    }
}

/// The parser of one group.
pub open spec fn group_parser(version: int) -> bytes::TryParser<GroupView, UpstreamStreamError> {
    |data: Seq<u8>, pos: int| group_at(version, data, pos)
}

/// The nodes of a stream, with their number before them.
pub open spec fn nodes_at(data: Seq<u8>, pos: int) -> Result<
    (Seq<NodeView>, int),
    UpstreamStreamError,
> {
    match number_at(data, pos) {
        Err(e) => Err(e),
        Ok((count, start)) => bytes::try_repeat(node_parser(), data, start, count as nat),
    }
}

/// The counters that all layouts have: length and last id.
pub open spec fn base_counters_at(data: Seq<u8>, pos: int) -> Result<
    ((u64, (u64, u64)), int),
    UpstreamStreamError,
> {
    match number_at(data, pos) {
        Err(e) => Err(e),
        Ok((length, mid)) => match number_pair_at(data, mid) {
            Err(e) => Err(e),
            Ok((id, end)) => Ok(((length, id), end)),
        },
    }
}

/// The counters that later layouts add: first id, greatest deleted id, entries ever
/// added. Without them the length counts as the entries ever added.
pub open spec fn late_counters_at(version: int, length: u64, data: Seq<u8>, pos: int) -> Result<
    (((u64, u64), u64), int),
    UpstreamStreamError,
> {
    if version < 2 {
        Ok((((0, 0), length), pos))
    } else {
        match number_pair_at(data, pos) {
            Err(e) => Err(e),
            Ok((_, p1)) => match number_pair_at(data, p1) {
                Err(e) => Err(e),
                Ok((deleted, p2)) => match number_at(data, p2) {
                    Err(e) => Err(e),
                    Ok((added, end)) => Ok(((deleted, added), end)),
                },
            },
        }
    }
}

/// The groups of a stream, with their number before them.
pub open spec fn groups_at(version: int, data: Seq<u8>, pos: int) -> Result<
    (Seq<GroupView>, int),
    UpstreamStreamError,
> {
    match number_at(data, pos) {
        Err(e) => Err(e),
        Ok((count, start)) => bytes::try_repeat(group_parser(version), data, start, count as nat),
    }
}

/// The layout that a type byte stands for, or zero.
pub open spec fn layout_of(type_byte: u8) -> int {
    if type_byte == UPSTREAM_RDB_TYPE_STREAM_LISTPACKS {
        1
    } else if type_byte == UPSTREAM_RDB_TYPE_STREAM_LISTPACKS_2 {
        2
    } else if type_byte == UPSTREAM_RDB_TYPE_STREAM_LISTPACKS_3 {
        3
    } else {
        0
    }
}

/// The stored stream at the start of `data`, with its length.
pub open spec fn skeleton_of(type_byte: u8, data: Seq<u8>) -> Result<
    (SkeletonView, int),
    UpstreamStreamError,
> {
    let version = layout_of(type_byte);
    if version == 0 {
        Err(UpstreamStreamError::UnsupportedTypeByte(type_byte))
    } else {
        match nodes_at(data, 0) {
            Err(e) => Err(e),
            Ok((nodes, p1)) => match base_counters_at(data, p1) {
                Err(e) => Err(e),
                Ok(((length, watermark), p2)) => match late_counters_at(version, length, data, p2) {
                    Err(e) => Err(e),
                    Ok(((deleted, entries_added), p3)) => match groups_at(version, data, p3) {
                        Err(e) => Err(e),
                        Ok((groups, end)) => Ok(
                            (
                                SkeletonView {
                                    length: length as nat,
                                    nodes,
                                    watermark,
                                    groups,
                                    type_byte,
                                    payload: data.take(end),
                                    entries_added,
                                    max_deleted: if deleted == (0u64, 0u64) {
                                        None
                                    } else {
                                        Some(deleted)
                                    },
                                },
                                end,
                            ),
                        ),
                    },
                },
            },
        }
    }
}

// ---------------------------------------------------------------------------
// Reading the parts
// ---------------------------------------------------------------------------

fn take_number(data: &[u8], pos: usize) -> (r: Result<(u64, usize), UpstreamStreamError>)
    ensures
        match number_at(data@, pos as int) {
            Ok((n, end)) => r == Ok::<(u64, usize), UpstreamStreamError>((n, end as usize)) && pos
                < end <= data@.len() <= usize::MAX,
            Err(e) => r == Err::<(u64, usize), UpstreamStreamError>(e),
        },
{
    let len: usize = data.len();
    match rdb_decode_length(data, pos) {
        None => Err(UpstreamStreamError::InvalidLength),
        Some(found) => Ok(found),
    }
}

fn take_number_pair(data: &[u8], pos: usize) -> (r: Result<
    ((u64, u64), usize),
    UpstreamStreamError,
>)
    ensures
        match number_pair_at(data@, pos as int) {
            Ok((id, end)) => r == Ok::<((u64, u64), usize), UpstreamStreamError>(
                (id, end as usize),
            ) && pos < end <= data@.len() <= usize::MAX,
            Err(e) => r == Err::<((u64, u64), usize), UpstreamStreamError>(e),
        },
{
    let (a, mid) = match take_number(data, pos) {
        Err(e) => {
            return Err(e);
        },
        Ok(found) => found,
    };
    match take_number(data, mid) {
        Err(e) => Err(e),
        Ok((b, end)) => Ok(((a, b), end)),
    }
}

fn take_text(data: &[u8], pos: usize) -> (r: Result<(Vec<u8>, usize), UpstreamStreamError>)
    ensures
        match text_at(data@, pos as int) {
            Ok((s, end)) => r matches Ok((v, next)) && v@ == s && next == end && pos < end
                <= data@.len() <= usize::MAX,
            Err(e) => r == Err::<(Vec<u8>, usize), UpstreamStreamError>(e),
        },
{
    let len: usize = data.len();
    match rdb_decode_string(data, pos) {
        None => Err(UpstreamStreamError::InvalidString),
        Some(found) => Ok(found),
    }
}

/// Reads the sixteen bytes of an id.
pub fn take_raw_stream_id(data: &[u8], pos: usize) -> (r: Result<
    ((u64, u64), usize),
    UpstreamStreamError,
>)
    requires
        pos <= data@.len(),
    ensures
        match id_at(data@, pos as int) {
            Ok((id, end)) => r == Ok::<((u64, u64), usize), UpstreamStreamError>(
                (id, end as usize),
            ) && pos < end <= data@.len() <= usize::MAX,
            Err(e) => r == Err::<((u64, u64), usize), UpstreamStreamError>(e),
        },
{
    if data.len() - pos < 16 {
        return Err(UpstreamStreamError::InvalidLength);
    }
    Ok(((read_be(data, pos, 8), read_be(data, pos + 8, 8)), pos + 16))
}

/// Reads the eight bytes of a time.
pub fn take_millisecond_time(data: &[u8], pos: usize) -> (r: Result<
    (u64, usize),
    UpstreamStreamError,
>)
    requires
        pos <= data@.len(),
    ensures
        match time_at(data@, pos as int) {
            Ok((t, end)) => r == Ok::<(u64, usize), UpstreamStreamError>((t, end as usize)) && pos
                < end <= data@.len() <= usize::MAX,
            Err(e) => r == Err::<(u64, usize), UpstreamStreamError>(e),
        },
{
    if data.len() - pos < 8 {
        return Err(UpstreamStreamError::InvalidLength);
    }
    Ok((read_le(data, pos, 8), pos + 8))
}

/// The nodes say what the stored nodes are.
pub open spec fn node_views(nodes: Seq<(u64, u64, Vec<u8>)>) -> Seq<NodeView> {
    nodes.map_values(|n: (u64, u64, Vec<u8>)| (n.0, n.1, n.2@))
}

fn take_node(data: &[u8], pos: usize) -> (r: Result<
    ((u64, u64, Vec<u8>), usize),
    UpstreamStreamError,
>)
    ensures
        match node_at(data@, pos as int) {
            Ok((n, end)) => r matches Ok((node, next)) && (node.0, node.1, node.2@) == n && next
                == end && pos < end <= data@.len() <= usize::MAX,
            Err(e) => r == Err::<((u64, u64, Vec<u8>), usize), UpstreamStreamError>(e),
        },
{
    let (key, mid) = match take_text(data, pos) {
        Err(e) => {
            return Err(e);
        },
        Ok(found) => found,
    };
    if key.len() != 16 {
        return Err(UpstreamStreamError::InvalidNodekeyLength);
    }
    let ms: u64 = read_be(key.as_slice(), 0, 8);
    let seq: u64 = read_be(key.as_slice(), 8, 8);
    match take_text(data, mid) {
        Err(e) => Err(e),
        Ok((pack, end)) => Ok(((ms, seq, pack), end)),
    }
}

fn take_nodes(data: &[u8], pos: usize) -> (r: Result<
    (Vec<(u64, u64, Vec<u8>)>, usize),
    UpstreamStreamError,
>)
    ensures
        match nodes_at(data@, pos as int) {
            Ok((nodes, end)) => r matches Ok((found, next)) && node_views(found@) == nodes && next
                == end && pos < end <= data@.len() <= usize::MAX,
            Err(e) => r == Err::<(Vec<(u64, u64, Vec<u8>)>, usize), UpstreamStreamError>(e),
        },
{
    let (count, start) = match take_number(data, pos) {
        Err(e) => {
            return Err(e);
        },
        Ok(found) => found,
    };
    let mut nodes: Vec<(u64, u64, Vec<u8>)> = Vec::new();
    let mut cursor: usize = start;
    let mut k: u64 = 0;
    assert(node_views(nodes@) =~= Seq::empty());
    while k < count
        invariant
            k <= count,
            pos < start <= cursor <= data@.len() <= usize::MAX,
            bytes::try_repeat(node_parser(), data@, start as int, k as nat) == Ok::<
                (Seq<NodeView>, int),
                UpstreamStreamError,
            >((node_views(nodes@), cursor as int)),
            number_at(data@, pos as int) == Ok::<(u64, int), UpstreamStreamError>(
                (count, start as int),
            ),
        decreases count - k,
    {
        match take_node(data, cursor) {
            Err(e) => {
                proof {
                    bytes::lemma_try_repeat_err(
                        node_parser(),
                        data@,
                        start as int,
                        (k + 1) as nat,
                        count as nat,
                    );
                }
                return Err(e);
            },
            Ok((node, next)) => {
                assert(node_views(nodes@.push(node)) =~= node_views(nodes@).push(
                    (node.0, node.1, node.2@),
                ));
                nodes.push(node);
                cursor = next;
            },
        }
        k = k + 1;
    }
    Ok((nodes, cursor))
}

/// A pending entry of a group: its id, time of delivery and number of deliveries.
pub type PelEntry = ((u64, u64), (u64, u64));

fn take_pel_entry(data: &[u8], pos: usize) -> (r: Result<(PelEntry, usize), UpstreamStreamError>)
    requires
        pos <= data@.len(),
    ensures
        match pel_at(data@, pos as int) {
            Ok((p, end)) => r == Ok::<(PelEntry, usize), UpstreamStreamError>((p, end as usize))
                && pos < end <= data@.len() <= usize::MAX,
            Err(e) => r == Err::<(PelEntry, usize), UpstreamStreamError>(e),
        },
{
    let (id, mid) = match take_raw_stream_id(data, pos) {
        Err(e) => {
            return Err(e);
        },
        Ok(found) => found,
    };
    let (time, next) = match take_millisecond_time(data, mid) {
        Err(e) => {
            return Err(e);
        },
        Ok(found) => found,
    };
    match take_number(data, next) {
        Err(e) => Err(e),
        Ok((count, end)) => Ok(((id, (time, count)), end)),
    }
}

fn take_pel(data: &[u8], pos: usize) -> (r: Result<(Vec<PelEntry>, usize), UpstreamStreamError>)
    ensures
        match group_pel_at(data@, pos as int) {
            Ok((pel, end)) => r matches Ok((found, next)) && found@ == pel && next == end && pos
                < end <= data@.len() <= usize::MAX,
            Err(e) => r == Err::<(Vec<PelEntry>, usize), UpstreamStreamError>(e),
        },
{
    let (count, start) = match take_number(data, pos) {
        Err(e) => {
            return Err(e);
        },
        Ok(found) => found,
    };
    let mut pel: Vec<PelEntry> = Vec::new();
    let mut cursor: usize = start;
    let mut k: u64 = 0;
    while k < count
        invariant
            k <= count,
            pos < start <= cursor <= data@.len() <= usize::MAX,
            bytes::try_repeat(pel_parser(), data@, start as int, k as nat) == Ok::<
                (Seq<PelView>, int),
                UpstreamStreamError,
            >((pel@, cursor as int)),
            number_at(data@, pos as int) == Ok::<(u64, int), UpstreamStreamError>(
                (count, start as int),
            ),
        decreases count - k,
    {
        match take_pel_entry(data, cursor) {
            Err(e) => {
                proof {
                    bytes::lemma_try_repeat_err(
                        pel_parser(),
                        data@,
                        start as int,
                        (k + 1) as nat,
                        count as nat,
                    );
                }
                return Err(e);
            },
            Ok((p, next)) => {
                pel.push(p);
                cursor = next;
            },
        }
        k = k + 1;
    }
    Ok((pel, cursor))
}

spec fn pel_key(id: (u64, u64)) -> KeyView {
    KeyView { major: id.0 as nat, minor: id.1 as nat, bytes: Seq::empty() }
}

proof fn lemma_pel_find(pel: Seq<PelView>, id: (u64, u64), i: int)
    requires
        0 <= i < pel.len(),
        pel[i].0 == id,
        forall|j: int| i < j < pel.len() ==> (#[trigger] pel[j]).0 != id,
    ensures
        pel_find(pel, id) == Some(pel[i].1),
    decreases pel.len(),
{
    if i < pel.len() - 1 {
        assert(pel[pel.len() - 1].0 != id);
        lemma_pel_find(pel.drop_last(), id, i);
    }
}

proof fn lemma_pel_find_none(pel: Seq<PelView>, id: (u64, u64))
    requires
        forall|j: int| 0 <= j < pel.len() ==> (#[trigger] pel[j]).0 != id,
    ensures
        pel_find(pel, id) is None,
    decreases pel.len(),
{
    if pel.len() > 0 {
        assert(pel[pel.len() - 1].0 != id);
        lemma_pel_find_none(pel.drop_last(), id);
    }
}

/// The keys of the pending entries of a group.
spec fn keys_match(pel: Seq<PelEntry>, keys: Seq<SortKey>) -> bool {
    &&& keys.len() == pel.len()
    &&& forall|i: int| 0 <= i < pel.len() ==> (#[trigger] keys[i])@ == pel_key(pel[i].0)
}

fn find_in_pel(pel: &[PelEntry], keys: &[SortKey], order: &[usize], id: (u64, u64)) -> (r: Option<
    (u64, u64),
>)
    requires
        keys_match(pel@, keys@),
        order@.map_values(|i: usize| i as int) == order::stable_order(order::key_views(keys@)),
    ensures
        r == pel_find(pel@, id),
{
    let none: [u8; 0] = [];
    let target = SortKey { major: id.0, minor: id.1, bytes: none.as_slice() };
    assert(target@.bytes =~= Seq::<u8>::empty());
    match find_last(keys, order, &target) {
        Some(i) => {
            proof {
                assert(keys@[i as int]@ == pel_key(pel@[i as int].0));
                assert forall|j: int| i < j < pel@.len() implies (#[trigger] pel@[j]).0 != id by {
                    assert(keys@[j]@ == pel_key(pel@[j].0));
                }
                lemma_pel_find(pel@, id, i as int);
            }
            Some(pel[i].1)
        },
        None => {
            proof {
                assert forall|j: int| 0 <= j < pel@.len() implies (#[trigger] pel@[j]).0 != id by {
                    assert(keys@[j]@ == pel_key(pel@[j].0));
                }
                lemma_pel_find_none(pel@, id);
            }
            None
        },
    }
}

/// Reads the pending entries of a consumer and appends them.
fn take_own(
    data: &[u8],
    pos: usize,
    count: u64,
    name: &[u8],
    pel: &[PelEntry],
    keys: &[SortKey],
    order: &[usize],
    pending: &mut Vec<RdbStreamPendingEntry>,
) -> (r: Result<usize, UpstreamStreamError>)
    requires
        pos <= data@.len(),
        keys_match(pel@, keys@),
        order@.map_values(|i: usize| i as int) == order::stable_order(order::key_views(keys@)),
    ensures
        match bytes::try_repeat(own_parser(pel@, name@), data@, pos as int, count as nat) {
            Ok((own, end)) => r == Ok::<usize, UpstreamStreamError>(end as usize)
                && rdb_types::pending_views(final(pending)@) == rdb_types::pending_views(
                old(pending)@,
            ) + own && pos <= end <= data@.len() <= usize::MAX,
            Err(e) => r == Err::<usize, UpstreamStreamError>(e),
        },
{
    let ghost before = rdb_types::pending_views(pending@);
    let ghost mut own = Seq::<PendingView>::empty();
    let len: usize = data.len();
    let mut cursor: usize = pos;
    let mut k: u64 = 0;
    assert(before + own =~= before);
    while k < count
        invariant
            k <= count,
            pos <= cursor <= data@.len() <= usize::MAX,
            keys_match(pel@, keys@),
            order@.map_values(|i: usize| i as int) == order::stable_order(
                order::key_views(keys@),
            ),
            bytes::try_repeat(own_parser(pel@, name@), data@, pos as int, k as nat) == Ok::<
                (Seq<PendingView>, int),
                UpstreamStreamError,
            >((own, cursor as int)),
            rdb_types::pending_views(pending@) == before + own,
        decreases count - k,
    {
        let ghost parser = own_parser(pel@, name@);
        match take_raw_stream_id(data, cursor) {
            Err(e) => {
                proof {
                    bytes::lemma_try_repeat_err(
                        parser,
                        data@,
                        pos as int,
                        (k + 1) as nat,
                        count as nat,
                    );
                }
                return Err(e);
            },
            Ok((id, next)) => match find_in_pel(pel, keys, order, id) {
                None => {
                    proof {
                        bytes::lemma_try_repeat_err(
                            parser,
                            data@,
                            pos as int,
                            (k + 1) as nat,
                            count as nat,
                        );
                    }
                    return Err(UpstreamStreamError::MissingGlobalPelEntry);
                },
                Some((time, deliveries)) => {
                    let p = RdbStreamPendingEntry {
                        entry_id_ms: id.0,
                        entry_id_seq: id.1,
                        consumer: copy_bytes(name),
                        deliveries,
                        last_delivered_ms: time,
                    };
                    proof {
                        assert(rdb_types::pending_views(pending@.push(p))
                            =~= rdb_types::pending_views(pending@).push(p@));
                        assert((before + own).push(p@) =~= before + own.push(p@));
                        own = own.push(p@);
                    }
                    pending.push(p);
                    cursor = next;
                },
            },
        }
        k = k + 1;
    }
    Ok(cursor)
}

fn take_times(data: &[u8], pos: usize, version: u8) -> (r: Result<
    ((u64, Option<u64>), usize),
    UpstreamStreamError,
>)
    requires
        pos <= data@.len(),
    ensures
        match times_at(version as int, data@, pos as int) {
            Ok((times, end)) => r == Ok::<((u64, Option<u64>), usize), UpstreamStreamError>(
                (times, end as usize),
            ) && pos <= end <= data@.len() <= usize::MAX,
            Err(e) => r == Err::<((u64, Option<u64>), usize), UpstreamStreamError>(e),
        },
{
    let len: usize = data.len();
    if version < 2 {
        return Ok(((0, None), pos));
    }
    let (seen, mid) = match take_millisecond_time(data, pos) {
        Err(e) => {
            return Err(e);
        },
        Ok(found) => found,
    };
    if version < 3 {
        return Ok(((seen, None), mid));
    }
    match take_millisecond_time(data, mid) {
        Err(e) => Err(e),
        Ok((active, end)) => {
            let active: Option<u64> = if active == u64::MAX {
                None
            } else {
                Some(active)
            };
            Ok(((seen, active), end))
        },
    }
}

/// Reads a consumer and appends its pending entries.
fn take_consumer(
    data: &[u8],
    pos: usize,
    version: u8,
    pel: &[PelEntry],
    keys: &[SortKey],
    order: &[usize],
    pending: &mut Vec<RdbStreamPendingEntry>,
) -> (r: Result<(RdbStreamConsumer, usize), UpstreamStreamError>)
    requires
        pos <= data@.len(),
        keys_match(pel@, keys@),
        order@.map_values(|i: usize| i as int) == order::stable_order(order::key_views(keys@)),
    ensures
        match consumer_at(version as int, pel@, data@, pos as int) {
            Ok(((c, own), end)) => {
                &&& r matches Ok((consumer, next)) && consumer@ == c && next == end
                &&& rdb_types::pending_views(final(pending)@) == rdb_types::pending_views(
                    old(pending)@,
                ) + own
                &&& pos < end <= data@.len() <= usize::MAX
            },
            Err(e) => r == Err::<(RdbStreamConsumer, usize), UpstreamStreamError>(e),
        },
{
    proof {
        reveal(consumer_at);
    }
    let (name, p1) = match take_text(data, pos) {
        Err(e) => {
            return Err(e);
        },
        Ok(found) => found,
    };
    let ((seen, active), p2) = match take_times(data, p1, version) {
        Err(e) => {
            return Err(e);
        },
        Ok(found) => found,
    };
    let (count, p3) = match take_number(data, p2) {
        Err(e) => {
            return Err(e);
        },
        Ok(found) => found,
    };
    match take_own(data, p3, count, name.as_slice(), pel, keys, order, pending) {
        Err(e) => Err(e),
        Ok(end) => Ok(
            (RdbStreamConsumer { name, seen_time_ms: seen, active_time_ms: active }, end),
        ),
    }
}

fn take_consumers(data: &[u8], pos: usize, version: u8, pel: &[PelEntry]) -> (r: Result<
    (Vec<RdbStreamConsumer>, Vec<RdbStreamPendingEntry>, usize),
    UpstreamStreamError,
>)
    ensures
        match group_consumers_at(version as int, pel@, data@, pos as int) {
            Ok((found, end)) => {
                &&& r matches Ok((consumers, pending, next)) && rdb_types::consumer_views(
                    consumers@,
                ) == only_consumers(found) && rdb_types::pending_views(pending@) == all_pending(
                    found,
                ) && next == end
                &&& pos < end <= data@.len() <= usize::MAX
            },
            Err(e) => r == Err::<
                (Vec<RdbStreamConsumer>, Vec<RdbStreamPendingEntry>, usize),
                UpstreamStreamError,
            >(e),
        },
{
    let (count, start) = match take_number(data, pos) {
        Err(e) => {
            return Err(e);
        },
        Ok(found) => found,
    };
    let none: [u8; 0] = [];
    let mut keys: Vec<SortKey> = Vec::new();
    let mut i: usize = 0;
    while i < pel.len()
        invariant
            i <= pel@.len(),
            keys@.len() == i,
            none@.len() == 0,
            forall|k: int| 0 <= k < i ==> (#[trigger] keys@[k])@ == pel_key(pel@[k].0),
        decreases pel@.len() - i,
    {
        let key = SortKey { major: pel[i].0.0, minor: pel[i].0.1, bytes: none.as_slice() };
        assert(key@.bytes =~= Seq::<u8>::empty());
        keys.push(key);
        i = i + 1;
    }
    let order: Vec<usize> = order_of(keys.as_slice());
    let ghost parser = consumer_parser(version as int, pel@);
    let mut consumers: Vec<RdbStreamConsumer> = Vec::new();
    let mut pending: Vec<RdbStreamPendingEntry> = Vec::new();
    let ghost mut found = Seq::<(ConsumerView, Seq<PendingView>)>::empty();
    let mut cursor: usize = start;
    let mut k: u64 = 0;
    proof {
        assert(rdb_types::consumer_views(consumers@) =~= only_consumers(found));
        assert(rdb_types::pending_views(pending@) =~= all_pending(found));
    }
    while k < count
        invariant
            k <= count,
            pos < start <= cursor <= data@.len() <= usize::MAX,
            keys_match(pel@, keys@),
            order@.map_values(|i: usize| i as int) == order::stable_order(
                order::key_views(keys@),
            ),
            parser == consumer_parser(version as int, pel@),
            bytes::try_repeat(parser, data@, start as int, k as nat) == Ok::<
                (Seq<(ConsumerView, Seq<PendingView>)>, int),
                UpstreamStreamError,
            >((found, cursor as int)),
            number_at(data@, pos as int) == Ok::<(u64, int), UpstreamStreamError>(
                (count, start as int),
            ),
            rdb_types::consumer_views(consumers@) == only_consumers(found),
            rdb_types::pending_views(pending@) == all_pending(found),
        decreases count - k,
    {
        match take_consumer(
            data,
            cursor,
            version,
            pel,
            keys.as_slice(),
            order.as_slice(),
            &mut pending,
        ) {
            Err(e) => {
                proof {
                    bytes::lemma_try_repeat_err(
                        parser,
                        data@,
                        start as int,
                        (k + 1) as nat,
                        count as nat,
                    );
                }
                return Err(e);
            },
            Ok((consumer, next)) => {
                proof {
                    let item = consumer_at(version as int, pel@, data@, cursor as int)->Ok_0.0;
                    assert(rdb_types::consumer_views(consumers@.push(consumer))
                        =~= rdb_types::consumer_views(consumers@).push(consumer@));
                    assert(only_consumers(found.push(item)) =~= only_consumers(found).push(item.0));
                    assert(found.push(item).drop_last() =~= found);
                    found = found.push(item);
                }
                consumers.push(consumer);
                cursor = next;
            },
        }
        k = k + 1;
    }
    Ok((consumers, pending, cursor))
}

fn take_group(data: &[u8], pos: usize, version: u8) -> (r: Result<
    (RdbStreamConsumerGroup, usize),
    UpstreamStreamError,
>)
    ensures
        match group_at(version as int, data@, pos as int) {
            Ok((g, end)) => r matches Ok((group, next)) && group@ == g && next == end && pos < end
                <= data@.len() <= usize::MAX,
            Err(e) => r == Err::<(RdbStreamConsumerGroup, usize), UpstreamStreamError>(e),
        },
{
    proof {
        reveal(group_at);
    }
    let (name, p1) = match take_text(data, pos) {
        Err(e) => {
            return Err(e);
        },
        Ok(found) => found,
    };
    let (id, p2) = match take_number_pair(data, p1) {
        Err(e) => {
            return Err(e);
        },
        Ok(found) => found,
    };
    let mut entries_read: Option<u64> = None;
    let mut p3: usize = p2;
    if version >= 2 {
        match take_number(data, p2) {
            Err(e) => {
                return Err(e);
            },
            Ok((read, end)) => {
                if read != u64::MAX {
                    entries_read = Some(read);
                }
                p3 = end;
            },
        }
    }
    let (pel, p4) = match take_pel(data, p3) {
        Err(e) => {
            return Err(e);
        },
        Ok(found) => found,
    };
    match take_consumers(data, p4, version, pel.as_slice()) {
        Err(e) => Err(e),
        Ok((consumers, pending, end)) => Ok(
            (
                RdbStreamConsumerGroup {
                    name,
                    last_delivered_id_ms: id.0,
                    last_delivered_id_seq: id.1,
                    entries_read,
                    consumers,
                    pending,
                },
                end,
            ),
        ),
    }
}

fn take_groups(data: &[u8], pos: usize, version: u8) -> (r: Result<
    (Vec<RdbStreamConsumerGroup>, usize),
    UpstreamStreamError,
>)
    ensures
        match groups_at(version as int, data@, pos as int) {
            Ok((groups, end)) => r matches Ok((found, next)) && rdb_types::group_views(found@)
                == groups && next == end && pos < end <= data@.len() <= usize::MAX,
            Err(e) => r == Err::<(Vec<RdbStreamConsumerGroup>, usize), UpstreamStreamError>(e),
        },
{
    let (count, start) = match take_number(data, pos) {
        Err(e) => {
            return Err(e);
        },
        Ok(found) => found,
    };
    let ghost parser = group_parser(version as int);
    let mut groups: Vec<RdbStreamConsumerGroup> = Vec::new();
    let mut cursor: usize = start;
    let mut k: u64 = 0;
    assert(rdb_types::group_views(groups@) =~= Seq::empty());
    while k < count
        invariant
            k <= count,
            pos < start <= cursor <= data@.len() <= usize::MAX,
            parser == group_parser(version as int),
            bytes::try_repeat(parser, data@, start as int, k as nat) == Ok::<
                (Seq<GroupView>, int),
                UpstreamStreamError,
            >((rdb_types::group_views(groups@), cursor as int)),
            number_at(data@, pos as int) == Ok::<(u64, int), UpstreamStreamError>(
                (count, start as int),
            ),
        decreases count - k,
    {
        match take_group(data, cursor, version) {
            Err(e) => {
                proof {
                    bytes::lemma_try_repeat_err(
                        parser,
                        data@,
                        start as int,
                        (k + 1) as nat,
                        count as nat,
                    );
                }
                return Err(e);
            },
            Ok((group, next)) => {
                assert(rdb_types::group_views(groups@.push(group)) =~= rdb_types::group_views(
                    groups@,
                ).push(group@));
                groups.push(group);
                cursor = next;
            },
        }
        k = k + 1;
    }
    Ok((groups, cursor))
}

/// The greatest of ids.
pub open spec fn greatest_id(ids: Seq<(u64, u64)>) -> Option<(u64, u64)>
    decreases ids.len(),
{
    if ids.len() == 0 {
        None
    } else {
        match greatest_id(ids.drop_last()) {
            None => Some(ids.last()),
            Some(g) => if g.0 < ids.last().0 || (g.0 == ids.last().0 && g.1 < ids.last().1) {
                Some(ids.last())
            } else {
                Some(g)
            },
        }
    }
}

/// The entries of a stream, to be indexed: as many as the stream declares.
pub open spec fn flattened(s: SkeletonView) -> Result<Unpacked, UpstreamStreamError> {
    match stream_unpack::unpack_all(s.nodes, true) {
        Err(e) => Err(e),
        Ok(u) => if u.entries.len() == s.length {
            Ok(u)
        } else {
            Err(UpstreamStreamError::InconsistentEntryCount)
        },
    }
}

/// What checking the entries of a stream gives.
pub open spec fn validated(s: SkeletonView) -> Result<Option<(u64, u64)>, UpstreamStreamError> {
    match flattened(s) {
        Err(e) => Err(e),
        Ok(u) => if stream_unpack::entry_ids(u.entries).no_duplicates() {
            Ok(greatest_id(stream_unpack::entry_ids(u.entries)))
        } else {
            Err(UpstreamStreamError::InconsistentEntryCount)
        },
    }
}

/// A stored stream with its entries.
pub open spec fn stream_value(s: SkeletonView, entries: Seq<EntryView>) -> ValueView {
    ValueView::Stream(
        StreamView {
            entries,
            watermark: Some(s.watermark),
            groups: s.groups,
            metadata: Some((s.type_byte, s.payload)),
            entries_added: Some(s.entries_added),
            max_deleted: s.max_deleted,
        },
    )
}

/// The stream at the start of `data`, and how many bytes it takes.
pub open spec fn stream_of(type_byte: u8, data: Seq<u8>) -> Result<
    (ValueView, int),
    UpstreamStreamError,
> {
    match skeleton_of(type_byte, data) {
        Err(e) => Err(e),
        Ok((s, end)) => match stream_unpack::unpack_all(s.nodes, false) {
            Err(e) => Err(e),
            Ok(u) => Ok((stream_value(s, u.entries), end)),
        },
    }
}

// ---------------------------------------------------------------------------
// The skeleton
// ---------------------------------------------------------------------------

/// A stored stream whose nodes are not yet unpacked.
#[derive(Debug, PartialEq)]
pub struct UpstreamStreamSkeleton {
    stream_length: u64,
    nodes: Vec<(u64, u64, Vec<u8>)>,
    watermark: (u64, u64),
    groups: Vec<RdbStreamConsumerGroup>,
    metadata: RdbStreamMetadata,
    entries_added: u64,
    max_deleted: Option<(u64, u64)>,
}

impl View for UpstreamStreamSkeleton {
    type V = SkeletonView;

    closed spec fn view(&self) -> SkeletonView {
        SkeletonView {
            length: self.stream_length as nat,
            nodes: node_views(self.nodes@),
            watermark: self.watermark,
            groups: rdb_types::group_views(self.groups@),
            type_byte: self.metadata.upstream_type_byte,
            payload: self.metadata.upstream_payload@,
            entries_added: self.entries_added,
            max_deleted: self.max_deleted,
        }
    }
}

impl Clone for UpstreamStreamSkeleton {
    fn clone(&self) -> (copy: Self)
        ensures
            copy@ == self@,
    {
        let mut nodes: Vec<(u64, u64, Vec<u8>)> = Vec::new();
        let mut i: usize = 0;
        while i < self.nodes.len()
            invariant
                i <= self.nodes@.len(),
                nodes@.len() == i,
                forall|k: int|
                    0 <= k < i ==> (#[trigger] nodes@[k]).0 == self.nodes@[k].0 && nodes@[k].1
                        == self.nodes@[k].1 && nodes@[k].2@ == self.nodes@[k].2@,
            decreases self.nodes@.len() - i,
        {
            let node = &self.nodes[i];
            nodes.push((node.0, node.1, copy_bytes(node.2.as_slice())));
            i = i + 1;
        }
        let mut groups: Vec<RdbStreamConsumerGroup> = Vec::new();
        let mut j: usize = 0;
        while j < self.groups.len()
            invariant
                j <= self.groups@.len(),
                groups@.len() == j,
                forall|k: int| 0 <= k < j ==> (#[trigger] groups@[k])@ == self.groups@[k]@,
            decreases self.groups@.len() - j,
        {
            groups.push(self.groups[j].clone());
            j = j + 1;
        }
        proof {
            assert(node_views(nodes@) =~= node_views(self.nodes@));
            assert(rdb_types::group_views(groups@) =~= rdb_types::group_views(self.groups@));
        }
        UpstreamStreamSkeleton {
            stream_length: self.stream_length,
            nodes,
            watermark: self.watermark,
            groups,
            metadata: self.metadata.clone(),
            entries_added: self.entries_added,
            max_deleted: self.max_deleted,
        }
    }
}

impl UpstreamStreamSkeleton {
    /// Reads a stored stream at the start of `data`, and how many bytes it takes.
    pub fn decode(type_byte: u8, data: &[u8]) -> (r: Result<(Self, usize), UpstreamStreamError>)
        ensures
            match skeleton_of(type_byte, data@) {
                Ok((s, end)) => r matches Ok((skeleton, consumed)) && skeleton@ == s && consumed
                    == end && 0 < end <= data@.len(),
                Err(e) => r == Err::<(Self, usize), UpstreamStreamError>(e),
            },
    {
        let version: u8 = match type_byte {
            UPSTREAM_RDB_TYPE_STREAM_LISTPACKS => 1,
            UPSTREAM_RDB_TYPE_STREAM_LISTPACKS_2 => 2,
            UPSTREAM_RDB_TYPE_STREAM_LISTPACKS_3 => 3,
            _ => {
                return Err(UpstreamStreamError::UnsupportedTypeByte(type_byte));
            },
        };
        let (nodes, p1) = match take_nodes(data, 0) {
            Err(e) => {
                return Err(e);
            },
            Ok(found) => found,
        };
        let (stream_length, p2) = match take_number(data, p1) {
            Err(e) => {
                return Err(e);
            },
            Ok(found) => found,
        };
        let (watermark, p3) = match take_number_pair(data, p2) {
            Err(e) => {
                return Err(e);
            },
            Ok(found) => found,
        };
        let mut entries_added: u64 = stream_length;
        let mut deleted: (u64, u64) = (0, 0);
        let mut p4: usize = p3;
        if version >= 2 {
            let (_, q1) = match take_number_pair(data, p3) {
                Err(e) => {
                    return Err(e);
                },
                Ok(found) => found,
            };
            let (id, q2) = match take_number_pair(data, q1) {
                Err(e) => {
                    return Err(e);
                },
                Ok(found) => found,
            };
            let (added, q3) = match take_number(data, q2) {
                Err(e) => {
                    return Err(e);
                },
                Ok(found) => found,
            };
            deleted = id;
            entries_added = added;
            p4 = q3;
        }
        let (groups, end) = match take_groups(data, p4, version) {
            Err(e) => {
                return Err(e);
            },
            Ok(found) => found,
        };
        let max_deleted: Option<(u64, u64)> = if deleted.0 == 0 && deleted.1 == 0 {
            None
        } else {
            Some(deleted)
        };
        let metadata = RdbStreamMetadata {
            upstream_type_byte: type_byte,
            upstream_payload: copy_window(data, 0, end),
        };
        Ok(
            (
                UpstreamStreamSkeleton {
                    stream_length,
                    nodes,
                    watermark,
                    groups,
                    metadata,
                    entries_added,
                    max_deleted,
                },
                end,
            ),
        )
    }

    /// All entries, node by node.
    pub fn entries(&self) -> (r: Result<Vec<StreamEntry>, UpstreamStreamError>)
        ensures
            match stream_unpack::unpack_all(self@.nodes, false) {
                Ok(u) => r matches Ok(out) && rdb_types::entry_views(out@) == u.entries,
                Err(e) => r == Err::<Vec<StreamEntry>, UpstreamStreamError>(e),
            },
    {
        match unpack_nodes::<true>(&self.nodes, false) {
            Err(e) => Err(e),
            Ok(out) => Ok(out.entries),
        }
    }

    /// All entries, node by node.
    pub fn owned_entries(&self) -> (r: Result<Vec<StreamEntry>, UpstreamStreamError>)
        ensures
            match stream_unpack::unpack_all(self@.nodes, false) {
                Ok(u) => r matches Ok(out) && rdb_types::entry_views(out@) == u.entries,
                Err(e) => r == Err::<Vec<StreamEntry>, UpstreamStreamError>(e),
            },
    {
        self.entries()
    }

    /// All entries, node by node, with their fields end to end. They must be as many as the
    /// stream declares.
    pub fn flat_entries(&self) -> (r: Result<StreamOut, UpstreamStreamError>)
        ensures
            match flattened(self@) {
                Ok(u) => r matches Ok(out) && out@ == u.entries && out.value_bytes()
                    == stream_unpack::capped(u.value_bytes, usize::MAX as int),
                Err(e) => r == Err::<StreamOut, UpstreamStreamError>(e),
            },
    {
        proof {
            stream_unpack::lemma_unpack_tallied(self@.nodes, self@.nodes.len(), true);
        }
        match unpack_nodes::<true>(&self.nodes, true) {
            Err(e) => Err(e),
            Ok(out) => {
                let ghost u = stream_unpack::unpack_all(self@.nodes, true)->Ok_0;
                assert(out.entries@.len() == u.entries.len());
                if out.entries.len() as u64 != self.stream_length {
                    return Err(UpstreamStreamError::InconsistentEntryCount);
                }
                Ok(StreamOut::from_unpacking(out, Ghost(u)))
            },
        }
    }

    /// The number of live entries that the record declares. Where
    /// [`Self::validate_entries`] finds nothing wrong, it has as many.
    pub fn declared_len(&self) -> (n: u64)
        ensures
            n == self@.length,
    {
        self.stream_length
    }

    /// Checks the entries as [`Self::flat_entries`] does, their number too, and that no id
    /// repeats, without keeping them. The greatest id comes back, if there is any.
    pub fn validate_entries(&self) -> (r: Result<Option<(u64, u64)>, UpstreamStreamError>)
        ensures
            match validated(self@) {
                Ok(greatest) => r == Ok::<Option<(u64, u64)>, UpstreamStreamError>(greatest),
                Err(e) => r == Err::<Option<(u64, u64)>, UpstreamStreamError>(e),
            },
    {
        let unpacked = match unpack_nodes::<false>(&self.nodes, true) {
            Err(e) => {
                return Err(e);
            },
            Ok(out) => out,
        };
        let ghost ids = stream_unpack::entry_ids(
            stream_unpack::unpack_all(self@.nodes, true)->Ok_0.entries,
        );
        assert(unpacked.entries@.len() == ids.len()) by {
            assert(ids == stream_unpack::entry_ids(rdb_types::entry_views(unpacked.entries@)));
        }
        if unpacked.entries.len() as u64 != self.stream_length {
            return Err(UpstreamStreamError::InconsistentEntryCount);
        }
        let none: Vec<u8> = Vec::new();
        let mut keys: Vec<SortKey> = Vec::new();
        let mut greatest: Option<(u64, u64)> = None;
        let mut k: usize = 0;
        assert(ids.take(0) =~= Seq::empty());
        while k < unpacked.entries.len()
            invariant
                k <= unpacked.entries@.len(),
                ids == stream_unpack::entry_ids(rdb_types::entry_views(unpacked.entries@)),
                keys@.len() == k,
                none@.len() == 0,
                forall|i: int| 0 <= i < k ==> (#[trigger] keys@[i])@ == pel_key(ids[i]),
                greatest == greatest_id(ids.take(k as int)),
            decreases unpacked.entries@.len() - k,
        {
            let ms: u64 = unpacked.entries[k].0;
            let seq: u64 = unpacked.entries[k].1;
            assert(ids[k as int] == (ms, seq));
            keys.push(SortKey { major: ms, minor: seq, bytes: none.as_slice() });
            assert(keys@[k as int]@ =~= pel_key((ms, seq)));
            assert(ids.take(k as int + 1).drop_last() =~= ids.take(k as int));
            greatest = match greatest {
                None => Some((ms, seq)),
                Some(g) => if g.0 < ms || (g.0 == ms && g.1 < seq) {
                    Some((ms, seq))
                } else {
                    Some(g)
                },
            };
            k = k + 1;
        }
        assert(ids.take(k as int) =~= ids);
        let repeats: bool = has_equal_keys(keys.as_slice());
        proof {
            if repeats {
                let (a, b) = choose|a: int, b: int|
                    0 <= a < b < keys@.len() && #[trigger] keys@[a]@ == #[trigger] keys@[b]@;
                assert(pel_key(ids[a]) == pel_key(ids[b]));
                assert(ids[a] == ids[b]);
            } else {
                assert forall|a: int, b: int| 0 <= a < b < ids.len() implies ids[a] != ids[b] by {
                    assert(keys@[a]@ == pel_key(ids[a]));
                    assert(keys@[b]@ == pel_key(ids[b]));
                }
            }
        }
        if repeats {
            return Err(UpstreamStreamError::InconsistentEntryCount);
        }
        Ok(greatest)
    }

    /// The id that the stream gave last.
    pub fn watermark(&self) -> (id: Option<(u64, u64)>)
        ensures
            id == Some(self@.watermark),
    {
        Some(self.watermark)
    }

    /// How many entries were ever added.
    pub fn entries_added(&self) -> (n: u64)
        ensures
            n == self@.entries_added,
    {
        self.entries_added
    }

    /// The greatest id that was deleted.
    pub fn max_deleted(&self) -> (id: Option<(u64, u64)>)
        ensures
            id == self@.max_deleted,
    {
        self.max_deleted
    }

    /// The bytes that the stream was read from.
    pub fn upstream_payload(&self) -> (bytes: &[u8])
        ensures
            bytes@ == self@.payload,
    {
        self.metadata.upstream_payload.as_slice()
    }

    /// The type byte that the stream was read under.
    pub fn upstream_type_byte(&self) -> (b: u8)
        ensures
            b == self@.type_byte,
    {
        self.metadata.upstream_type_byte
    }

    /// The bytes and the type byte that the stream was read from.
    pub fn metadata(&self) -> (m: &RdbStreamMetadata)
        ensures
            m.upstream_type_byte == self@.type_byte,
            m.upstream_payload@ == self@.payload,
    {
        &self.metadata
    }

    /// The consumer groups.
    pub fn groups(&self) -> (groups: &[RdbStreamConsumerGroup])
        ensures
            rdb_types::group_views(groups@) == self@.groups,
    {
        self.groups.as_slice()
    }

    /// The consumer groups.
    pub fn into_groups(self) -> (groups: Vec<RdbStreamConsumerGroup>)
        ensures
            rdb_types::group_views(groups@) == self@.groups,
    {
        self.groups
    }

    /// The stream as a value, with its entries.
    pub fn into_rdb_value(self, entries: Vec<StreamEntry>) -> (value: RdbValue)
        ensures
            value@ == stream_value(self@, rdb_types::entry_views(entries@)),
    {
        RdbValue::Stream(
            entries,
            Some(self.watermark),
            self.groups,
            Some(self.metadata),
            Some(self.entries_added),
            self.max_deleted,
        )
    }
}

/// Reads a stored stream with its entries at the start of `data`, and how many bytes
/// it takes.
pub fn decode_upstream_stream_skeleton(type_byte: u8, data: &[u8]) -> (r: Result<
    (RdbValue, usize),
    UpstreamStreamError,
>)
    ensures
        match stream_of(type_byte, data@) {
            Ok((v, end)) => r matches Ok((value, consumed)) && value@ == v && consumed == end && 0
                < end <= data@.len(),
            Err(e) => r == Err::<(RdbValue, usize), UpstreamStreamError>(e),
        },
{
    let (skeleton, consumed) = match UpstreamStreamSkeleton::decode(type_byte, data) {
        Err(e) => {
            return Err(e);
        },
        Ok(found) => found,
    };
    match skeleton.owned_entries() {
        Err(e) => Err(e),
        Ok(entries) => Ok((skeleton.into_rdb_value(entries), consumed)),
    }
}

/// Reads a stored stream with its entries at the start of `data`, and how many bytes
/// it takes; nothing where it cannot be read.
pub fn decode_upstream_stream_payload(type_byte: u8, data: &[u8]) -> (r: Option<(RdbValue, usize)>)
    ensures
        match stream_of(type_byte, data@) {
            Ok((v, end)) => r matches Some((value, consumed)) && value@ == v && consumed == end,
            Err(_) => r is None,
        },
{
    match decode_upstream_stream_skeleton(type_byte, data) {
        Ok(found) => Some(found),
        Err(_) => None,
    }
}

} // verus!
