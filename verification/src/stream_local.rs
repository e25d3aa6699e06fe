//! What stands behind a stored stream does not change how it is read.

use vstd::prelude::*;

use crate::bytes;
use crate::rdb_stream;
use crate::rdb_stream::{PelView, SkeletonView, UpstreamStreamError};
use crate::rdb_types::ValueView;
use crate::rdb_wire;

verus! {

/// What is read at an offset, with an offset of at most `n` behind it, is also read where the
/// first `n` bytes are the same.
pub open spec fn keeps<X>(
    parse: bytes::TryParser<X, UpstreamStreamError>,
    data: Seq<u8>,
    other: Seq<u8>,
    n: int,
    pos: int,
) -> bool {
    parse(data, pos) matches Ok((_, end)) ==> pos <= end <= data.len() && (end <= n ==> parse(
        other,
        pos,
    ) == parse(data, pos))
}

/// What is read at any offset is also read where the first `n` bytes are the same.
pub open spec fn all_keep<X>(
    parse: bytes::TryParser<X, UpstreamStreamError>,
    data: Seq<u8>,
    other: Seq<u8>,
    n: int,
) -> bool {
    forall|pos: int| 0 <= pos <= data.len() ==> #[trigger] keeps(parse, data, other, n, pos)
}

proof fn lemma_number_keeps(data: Seq<u8>, other: Seq<u8>, n: int, pos: int)
    requires
        bytes::same_upto(data, other, n),
    ensures
        rdb_stream::number_at(data, pos) matches Ok((_, end)) ==> pos < end <= data.len() && (end <= n
            ==> rdb_stream::number_at(other, pos) == rdb_stream::number_at(data, pos)),
{
    rdb_wire::lemma_length_local(data, other, n, pos);
}

proof fn lemma_pair_keeps(data: Seq<u8>, other: Seq<u8>, n: int, pos: int)
    requires
        bytes::same_upto(data, other, n),
    ensures
        rdb_stream::number_pair_at(data, pos) matches Ok((_, end)) ==> pos < end <= data.len() && (end <= n
            ==> rdb_stream::number_pair_at(other, pos) == rdb_stream::number_pair_at(data, pos)),
{
    lemma_number_keeps(data, other, n, pos);
    if let Ok((_, mid)) = rdb_stream::number_at(data, pos) {
        lemma_number_keeps(data, other, n, mid);
    }
}

proof fn lemma_text_keeps(data: Seq<u8>, other: Seq<u8>, n: int, pos: int)
    requires
        bytes::same_upto(data, other, n),
    ensures
        rdb_stream::text_at(data, pos) matches Ok((_, end)) ==> pos < end <= data.len() && (end <= n
            ==> rdb_stream::text_at(other, pos) == rdb_stream::text_at(data, pos)),
{
    rdb_wire::lemma_string_local(data, other, n, pos);
}

proof fn lemma_id_keeps(data: Seq<u8>, other: Seq<u8>, n: int, pos: int)
    requires
        bytes::same_upto(data, other, n),
        0 <= pos,
    ensures
        rdb_stream::id_at(data, pos) matches Ok((_, end)) ==> pos <= end <= data.len() && (end <= n
            ==> rdb_stream::id_at(other, pos) == rdb_stream::id_at(data, pos)),
{
    if pos + 16 <= n {
        bytes::lemma_window(data, other, n, pos, pos + 8);
        bytes::lemma_window(data, other, n, pos + 8, pos + 16);
    }
}

proof fn lemma_time_keeps(data: Seq<u8>, other: Seq<u8>, n: int, pos: int)
    requires
        bytes::same_upto(data, other, n),
        0 <= pos,
    ensures
        rdb_stream::time_at(data, pos) matches Ok((_, end)) ==> pos <= end <= data.len() && (end <= n
            ==> rdb_stream::time_at(other, pos) == rdb_stream::time_at(data, pos)),
{
    if pos + 8 <= n {
        bytes::lemma_window(data, other, n, pos, pos + 8);
    }
}

proof fn lemma_repeat_keeps<X>(
    parse: bytes::TryParser<X, UpstreamStreamError>,
    data: Seq<u8>,
    other: Seq<u8>,
    n: int,
    pos: int,
    count: nat,
)
    requires
        0 <= pos <= data.len(),
        all_keep(parse, data, other, n),
    ensures
        bytes::try_repeat(parse, data, pos, count) matches Ok((_, end)) ==> pos <= end
            <= data.len() && (end <= n ==> bytes::try_repeat(parse, other, pos, count)
            == bytes::try_repeat(parse, data, pos, count)),
    decreases count,
{
    if count > 0 {
        lemma_repeat_keeps(parse, data, other, n, pos, (count - 1) as nat);
        if let Ok((_, mid)) = bytes::try_repeat(parse, data, pos, (count - 1) as nat) {
            assert(keeps(parse, data, other, n, mid));
        }
    }
}

proof fn lemma_node_keeps(data: Seq<u8>, other: Seq<u8>, n: int)
    requires
        bytes::same_upto(data, other, n),
    ensures
        all_keep(rdb_stream::node_parser(), data, other, n),
{
    let parse = rdb_stream::node_parser();
    assert forall|pos: int| 0 <= pos <= data.len() implies #[trigger] keeps(
        parse,
        data,
        other,
        n,
        pos,
    ) by {
        lemma_text_keeps(data, other, n, pos);
        if let Ok((_, mid)) = rdb_stream::text_at(data, pos) {
            lemma_text_keeps(data, other, n, mid);
        }
    }
}

proof fn lemma_pel_keeps(data: Seq<u8>, other: Seq<u8>, n: int)
    requires
        bytes::same_upto(data, other, n),
    ensures
        all_keep(rdb_stream::pel_parser(), data, other, n),
{
    let parse = rdb_stream::pel_parser();
    assert forall|pos: int| 0 <= pos <= data.len() implies #[trigger] keeps(
        parse,
        data,
        other,
        n,
        pos,
    ) by {
        lemma_id_keeps(data, other, n, pos);
        if let Ok((_, mid)) = rdb_stream::id_at(data, pos) {
            lemma_time_keeps(data, other, n, mid);
            if let Ok((_, next)) = rdb_stream::time_at(data, mid) {
                lemma_number_keeps(data, other, n, next);
            }
        }
    }
}

proof fn lemma_own_keeps(pel: Seq<PelView>, name: Seq<u8>, data: Seq<u8>, other: Seq<u8>, n: int)
    requires
        bytes::same_upto(data, other, n),
    ensures
        all_keep(rdb_stream::own_parser(pel, name), data, other, n),
{
    let parse = rdb_stream::own_parser(pel, name);
    assert forall|pos: int| 0 <= pos <= data.len() implies #[trigger] keeps(
        parse,
        data,
        other,
        n,
        pos,
    ) by {
        lemma_id_keeps(data, other, n, pos);
    }
}

proof fn lemma_times_keep(version: int, data: Seq<u8>, other: Seq<u8>, n: int, pos: int)
    requires
        bytes::same_upto(data, other, n),
        0 <= pos <= data.len(),
    ensures
        rdb_stream::times_at(version, data, pos) matches Ok((_, end)) ==> pos <= end <= data.len() && (end <= n
            ==> rdb_stream::times_at(version, other, pos) == rdb_stream::times_at(version, data, pos)),
{
    lemma_time_keeps(data, other, n, pos);
    if let Ok((_, mid)) = rdb_stream::time_at(data, pos) {
        lemma_time_keeps(data, other, n, mid);
    }
}

proof fn lemma_consumer_keeps(version: int, pel: Seq<PelView>, data: Seq<u8>, other: Seq<u8>, n: int)
    requires
        bytes::same_upto(data, other, n),
    ensures
        all_keep(rdb_stream::consumer_parser(version, pel), data, other, n),
{
    let parse = rdb_stream::consumer_parser(version, pel);
    assert forall|pos: int| 0 <= pos <= data.len() implies #[trigger] keeps(
        parse,
        data,
        other,
        n,
        pos,
    ) by {
        reveal(rdb_stream::consumer_at);
        lemma_text_keeps(data, other, n, pos);
        if let Ok((name, p1)) = rdb_stream::text_at(data, pos) {
            lemma_times_keep(version, data, other, n, p1);
            if let Ok((_, p2)) = rdb_stream::times_at(version, data, p1) {
                lemma_number_keeps(data, other, n, p2);
                if let Ok((count, p3)) = rdb_stream::number_at(data, p2) {
                    let own = rdb_stream::own_parser(pel, name);
                    lemma_own_keeps(pel, name, data, other, n);
                    lemma_repeat_keeps(own, data, other, n, p3, count as nat);
                }
            }
        }
    }
}

proof fn lemma_head_keeps(version: int, data: Seq<u8>, other: Seq<u8>, n: int, pos: int)
    requires
        bytes::same_upto(data, other, n),
    ensures
        rdb_stream::group_head_at(version, data, pos) matches Ok((_, end)) ==> pos <= end <= data.len() && (end <= n
            ==> rdb_stream::group_head_at(version, other, pos) == rdb_stream::group_head_at(version, data, pos)),
{
    lemma_text_keeps(data, other, n, pos);
    if let Ok((_, p1)) = rdb_stream::text_at(data, pos) {
        lemma_pair_keeps(data, other, n, p1);
        if let Ok((_, p2)) = rdb_stream::number_pair_at(data, p1) {
            lemma_number_keeps(data, other, n, p2);
        }
    }
}

proof fn lemma_group_pel_keeps(data: Seq<u8>, other: Seq<u8>, n: int, pos: int)
    requires
        bytes::same_upto(data, other, n),
        0 <= pos,
    ensures
        rdb_stream::group_pel_at(data, pos) matches Ok((_, end)) ==> pos <= end <= data.len() && (end <= n
            ==> rdb_stream::group_pel_at(other, pos) == rdb_stream::group_pel_at(data, pos)),
{
    lemma_number_keeps(data, other, n, pos);
    if let Ok((count, start)) = rdb_stream::number_at(data, pos) {
        lemma_pel_keeps(data, other, n);
        lemma_repeat_keeps(rdb_stream::pel_parser(), data, other, n, start, count as nat);
    }
}

proof fn lemma_group_consumers_keep(version: int, pel: Seq<PelView>, data: Seq<u8>, other: Seq<u8>, n: int, pos: int)
    requires
        bytes::same_upto(data, other, n),
        0 <= pos,
    ensures
        rdb_stream::group_consumers_at(version, pel, data, pos) matches Ok((_, end)) ==> pos <= end <= data.len() && (end <= n
            ==> rdb_stream::group_consumers_at(version, pel, other, pos) == rdb_stream::group_consumers_at(version, pel, data, pos)),
{
    lemma_number_keeps(data, other, n, pos);
    if let Ok((count, start)) = rdb_stream::number_at(data, pos) {
        let parse = rdb_stream::consumer_parser(version, pel);
        lemma_consumer_keeps(version, pel, data, other, n);
        lemma_repeat_keeps(parse, data, other, n, start, count as nat);
    }
}

proof fn lemma_group_keeps(version: int, data: Seq<u8>, other: Seq<u8>, n: int)
    requires
        bytes::same_upto(data, other, n),
    ensures
        all_keep(rdb_stream::group_parser(version), data, other, n),
{
    let parse = rdb_stream::group_parser(version);
    assert forall|pos: int| 0 <= pos <= data.len() implies #[trigger] keeps(
        parse,
        data,
        other,
        n,
        pos,
    ) by {
        reveal(rdb_stream::group_at);
        lemma_head_keeps(version, data, other, n, pos);
        if let Ok((_, p1)) = rdb_stream::group_head_at(version, data, pos) {
            lemma_group_pel_keeps(data, other, n, p1);
            if let Ok((pel, p2)) = rdb_stream::group_pel_at(data, p1) {
                lemma_group_consumers_keep(version, pel, data, other, n, p2);
            }
        }
    }
}

proof fn lemma_nodes_keep(data: Seq<u8>, other: Seq<u8>, n: int, pos: int)
    requires
        bytes::same_upto(data, other, n),
        0 <= pos,
    ensures
        rdb_stream::nodes_at(data, pos) matches Ok((_, end)) ==> pos < end <= data.len() && (end <= n
            ==> rdb_stream::nodes_at(other, pos) == rdb_stream::nodes_at(data, pos)),
{
    lemma_number_keeps(data, other, n, pos);
    if let Ok((count, start)) = rdb_stream::number_at(data, pos) {
        lemma_node_keeps(data, other, n);
        lemma_repeat_keeps(rdb_stream::node_parser(), data, other, n, start, count as nat);
    }
}

proof fn lemma_base_counters_keep(data: Seq<u8>, other: Seq<u8>, n: int, pos: int)
    requires
        bytes::same_upto(data, other, n),
    ensures
        rdb_stream::base_counters_at(data, pos) matches Ok((_, end)) ==> pos < end <= data.len() && (end <= n
            ==> rdb_stream::base_counters_at(other, pos) == rdb_stream::base_counters_at(data, pos)),
{
    lemma_number_keeps(data, other, n, pos);
    if let Ok((_, mid)) = rdb_stream::number_at(data, pos) {
        lemma_pair_keeps(data, other, n, mid);
    }
}

proof fn lemma_late_counters_keep(version: int, length: u64, data: Seq<u8>, other: Seq<u8>, n: int, pos: int)
    requires
        bytes::same_upto(data, other, n),
        0 <= pos <= data.len(),
    ensures
        rdb_stream::late_counters_at(version, length, data, pos) matches Ok((_, end)) ==> pos <= end <= data.len() && (end <= n
            ==> rdb_stream::late_counters_at(version, length, other, pos) == rdb_stream::late_counters_at(version, length, data, pos)),
{
    lemma_pair_keeps(data, other, n, pos);
    if let Ok((_, q1)) = rdb_stream::number_pair_at(data, pos) {
        lemma_pair_keeps(data, other, n, q1);
        if let Ok((_, q2)) = rdb_stream::number_pair_at(data, q1) {
            lemma_number_keeps(data, other, n, q2);
        }
    }
}

proof fn lemma_groups_keep(version: int, data: Seq<u8>, other: Seq<u8>, n: int, pos: int)
    requires
        bytes::same_upto(data, other, n),
        0 <= pos,
    ensures
        rdb_stream::groups_at(version, data, pos) matches Ok((_, end)) ==> pos < end <= data.len() && (end <= n
            ==> rdb_stream::groups_at(version, other, pos) == rdb_stream::groups_at(version, data, pos)),
{
    lemma_number_keeps(data, other, n, pos);
    if let Ok((count, start)) = rdb_stream::number_at(data, pos) {
        lemma_group_keeps(version, data, other, n);
        lemma_repeat_keeps(rdb_stream::group_parser(version), data, other, n, start, count as nat);
    }
}

/// A stored stream within the first `n` bytes is read the same, with the bytes that it is
/// kept as.
pub proof fn lemma_skeleton_local(type_byte: u8, data: Seq<u8>, other: Seq<u8>, n: int)
    requires
        bytes::same_upto(data, other, n),
    ensures
        rdb_stream::skeleton_of(type_byte, data) matches Ok((_, end)) ==> 0 < end <= data.len() && (
        end <= n ==> rdb_stream::skeleton_of(type_byte, other) == rdb_stream::skeleton_of(
            type_byte,
            data,
        )),
{
    let version = rdb_stream::layout_of(type_byte);
    if version != 0 {
        lemma_nodes_keep(data, other, n, 0);
        if let Ok((_, p1)) = rdb_stream::nodes_at(data, 0) {
            lemma_base_counters_keep(data, other, n, p1);
            if let Ok(((length, _), p2)) = rdb_stream::base_counters_at(data, p1) {
                lemma_late_counters_keep(version, length, data, other, n, p2);
                if let Ok((_, p3)) = rdb_stream::late_counters_at(version, length, data, p2) {
                    lemma_groups_keep(version, data, other, n, p3);
                    if let Ok((_, end)) = rdb_stream::groups_at(version, data, p3) {
                        if end <= n {
                            bytes::lemma_window(data, other, n, 0, end);
                            assert(other.take(end) =~= other.subrange(0, end));
                            assert(data.take(end) =~= data.subrange(0, end));
                        }
                    }
                }
            }
        }
    }
}

/// How a stored stream is read depends on the bytes that it takes alone: whatever stands
/// behind them, it is the same skeleton, kept as these bytes under its type byte.
pub proof fn law_skeleton_is_local(type_byte: u8, data: Seq<u8>, tail: Seq<u8>)
    ensures
        match rdb_stream::skeleton_of(type_byte, data) {
            Ok((s, end)) => {
                &&& rdb_stream::layout_of(type_byte) != 0
                &&& 0 < end <= data.len()
                &&& s.type_byte == type_byte
                &&& s.payload == data.take(end)
                &&& rdb_stream::skeleton_of(type_byte, data.take(end) + tail) == Ok::<
                    (SkeletonView, int),
                    UpstreamStreamError,
                >((s, end))
            },
            Err(e) => rdb_stream::layout_of(type_byte) == 0 ==> e
                == UpstreamStreamError::UnsupportedTypeByte(type_byte),
        },
{
    lemma_skeleton_local(type_byte, data, data, 0);
    if let Ok((_, end)) = rdb_stream::skeleton_of(type_byte, data) {
        bytes::lemma_cut_and_joined(data, end, tail);
        lemma_skeleton_local(type_byte, data, data.take(end) + tail, end);
    }
}

/// A stored stream is read in the same way whatever stands behind the bytes that it takes.
pub proof fn law_stream_is_local(type_byte: u8, data: Seq<u8>, tail: Seq<u8>)
    ensures
        rdb_stream::stream_of(type_byte, data) matches Ok((_, end)) ==> 0 < end <= data.len()
            && rdb_stream::stream_of(type_byte, data.take(end) + tail) == rdb_stream::stream_of(
            type_byte,
            data,
        ),
{
    law_skeleton_is_local(type_byte, data, tail);
}

/// The bytes that a stream keeps are those that it was read from.
pub proof fn law_stream_keeps_its_bytes(type_byte: u8, data: Seq<u8>)
    ensures
        rdb_stream::stream_of(type_byte, data) matches Ok((v, end)) ==> v matches ValueView::Stream(
            s,
        ) && s.metadata == Some((type_byte, data.take(end))),
{
}

} // verus!
