//! What stands behind a snapshot does not change how it is read.

use vstd::prelude::*;

use crate::bytes;
use crate::rdb_load;
use crate::rdb_load::{LoadStep, Loading, RDB_CHECKSUM_LEN};
use crate::rdb_save::{
    RDB_OPCODE_AUX, RDB_OPCODE_EOF, RDB_OPCODE_EXPIRETIME, RDB_OPCODE_EXPIRETIME_MS,
    RDB_OPCODE_FREQ, RDB_OPCODE_FUNCTION2, RDB_OPCODE_IDLE, RDB_OPCODE_RESIZEDB,
    RDB_OPCODE_SELECTDB, RDB_TYPE_HASH, RDB_TYPE_HASH_WITH_TTLS, RDB_TYPE_LIST,
    RDB_TYPE_LIST_QUICKLIST, RDB_TYPE_LIST_QUICKLIST_2, RDB_TYPE_SET, RDB_TYPE_STREAM,
    RDB_TYPE_ZSET, RDB_TYPE_ZSET_2,
};
use crate::rdb_values;
use crate::rdb_wire;
use crate::records;
use crate::records::Record;
use crate::score::RdbScore;
use crate::stream_local;
use crate::stream_private;

verus! {

// ---------------------------------------------------------------------------
// Values
// ---------------------------------------------------------------------------

proof fn lemma_legacy_zset_keeps(data: Seq<u8>, other: Seq<u8>, n: int, pos: int)
    requires
        0 <= pos,
        bytes::same_upto(data, other, n),
    ensures
        rdb_values::legacy_zset_at(data, pos) matches Some((_, end)) ==> pos <= end <= data.len()
            && (end <= n ==> rdb_values::legacy_zset_at(other, pos) == rdb_values::legacy_zset_at(
            data,
            pos,
        )),
{
    rdb_wire::lemma_length_local(data, other, n, pos);
    if let Some((count, start)) = rdb_wire::length_at(data, pos) {
        let parse = rdb_values::legacy_member_parser();
        assert forall|p: int| 0 <= p <= data.len() implies #[trigger] bytes::parse_keeps(
            parse,
            data,
            other,
            n,
            p,
        ) by {
            rdb_wire::lemma_string_local(data, other, n, p);
            if let Some((_, mid)) = rdb_wire::string_at(data, p) {
                lemma_legacy_score_keeps(data, other, n, mid);
            }
        }
        bytes::lemma_repeat_keeps(parse, data, other, n, start, count);
    }
}

proof fn lemma_legacy_score_keeps(data: Seq<u8>, other: Seq<u8>, n: int, pos: int)
    requires
        0 <= pos,
        bytes::same_upto(data, other, n),
    ensures
        rdb_values::legacy_score_at(data, pos) matches Some((_, end)) ==> pos < end <= data.len()
            && (end <= n ==> rdb_values::legacy_score_at(other, pos)
            == rdb_values::legacy_score_at(data, pos)),
{
    if let Some((_, end)) = rdb_values::legacy_score_at(data, pos) {
        if end <= n {
            bytes::lemma_byte(data, other, n, pos);
            bytes::lemma_window(data, other, n, pos + 1, end);
        }
    }
}

proof fn lemma_node_list_keeps(
    data: Seq<u8>,
    other: Seq<u8>,
    n: int,
    pos: int,
    old_form: bool,
)
    requires
        0 <= pos,
        bytes::same_upto(data, other, n),
    ensures
        rdb_values::node_list_at(data, pos, old_form) matches Some((_, end)) ==> pos <= end
            <= data.len() && (end <= n ==> rdb_values::node_list_at(other, pos, old_form)
            == rdb_values::node_list_at(data, pos, old_form)),
{
    rdb_wire::lemma_length_local(data, other, n, pos);
    if let Some((count, start)) = rdb_wire::length_at(data, pos) {
        let parse = rdb_values::list_node_parser(old_form);
        assert forall|p: int| 0 <= p <= data.len() implies #[trigger] bytes::parse_keeps(
            parse,
            data,
            other,
            n,
            p,
        ) by {
            rdb_wire::lemma_string_local(data, other, n, p);
            rdb_wire::lemma_length_local(data, other, n, p);
            if let Some((_, mid)) = rdb_wire::length_at(data, p) {
                rdb_wire::lemma_string_local(data, other, n, mid);
            }
        }
        bytes::lemma_repeat_keeps(parse, data, other, n, start, count);
    }
}

proof fn lemma_packed_stream_keeps(tag: u8, data: Seq<u8>, other: Seq<u8>, n: int, pos: int)
    requires
        0 <= pos <= data.len(),
        bytes::same_upto(data, other, n),
    ensures
        rdb_values::packed_stream_at(tag, data, pos) matches Some((_, end)) ==> pos <= end
            <= data.len() && (end <= n ==> rdb_values::packed_stream_at(tag, other, pos)
            == rdb_values::packed_stream_at(tag, data, pos)),
{
    let a = data.skip(pos);
    let b = other.skip(pos);
    if pos <= n {
        assert(a.take(n - pos) =~= b.take(n - pos)) by {
            assert(a.take(n - pos) =~= data.take(n).skip(pos));
            assert(b.take(n - pos) =~= other.take(n).skip(pos));
        }
        stream_local::lemma_skeleton_local(tag, a, b, n - pos);
    } else {
        stream_local::lemma_skeleton_local(tag, a, a, 0);
    }
}

/// A value within the first `n` bytes is read the same where these are the same.
pub proof fn lemma_value_keeps(tag: u8, data: Seq<u8>, other: Seq<u8>, n: int, pos: int)
    requires
        0 <= pos <= data.len(),
        bytes::same_upto(data, other, n),
    ensures
        rdb_values::value_at(tag, data, pos) matches Some((_, end)) ==> pos <= end <= data.len()
            && (end <= n ==> rdb_values::value_at(tag, other, pos) == rdb_values::value_at(
            tag,
            data,
            pos,
        )),
{
    if rdb_values::is_wrapped(tag) {
        rdb_wire::lemma_string_local(data, other, n, pos);
    } else if tag == RDB_TYPE_LIST || tag == RDB_TYPE_SET {
        records::lemma_counted_keeps::<Vec<u8>>(data, other, n, pos);
    } else if tag == RDB_TYPE_HASH {
        records::lemma_counted_keeps::<(Vec<u8>, Vec<u8>)>(data, other, n, pos);
    } else if tag == RDB_TYPE_HASH_WITH_TTLS {
        records::lemma_counted_keeps::<(Vec<u8>, Vec<u8>, Option<u64>)>(data, other, n, pos);
    } else if tag == RDB_TYPE_ZSET_2 {
        records::lemma_counted_keeps::<(Vec<u8>, RdbScore)>(data, other, n, pos);
    } else if tag == RDB_TYPE_ZSET {
        lemma_legacy_zset_keeps(data, other, n, pos);
    } else if tag == RDB_TYPE_STREAM {
        stream_private::lemma_private_stream_keeps(data, other, n, pos);
    } else if tag == RDB_TYPE_LIST_QUICKLIST_2 || tag == RDB_TYPE_LIST_QUICKLIST {
        lemma_node_list_keeps(data, other, n, pos, tag == RDB_TYPE_LIST_QUICKLIST);
    } else {
        lemma_packed_stream_keeps(tag, data, other, n, pos);
    }
}

// ---------------------------------------------------------------------------
// Snapshots
// ---------------------------------------------------------------------------

/// A step within the first `n` bytes is the same.
spec fn step_keeps(step: LoadStep, other: LoadStep, pos: int, len: int, n: int) -> bool {
    match step {
        LoadStep::Fail => true,
        LoadStep::Done(end) => pos <= end <= len && (end <= n ==> other == step),
        LoadStep::More(_, end) => pos <= end <= len && (end <= n ==> other == step),
    }
}

proof fn lemma_opcode_keeps(
    version: nat,
    opcode: u8,
    data: Seq<u8>,
    other: Seq<u8>,
    n: int,
    pos: int,
    st: Loading,
)
    requires
        0 <= pos <= data.len(),
        bytes::same_upto(data, other, n),
    ensures
        step_keeps(
            rdb_load::opcode_step(version, opcode, data, pos, st),
            rdb_load::opcode_step(version, opcode, other, pos, st),
            pos,
            data.len() as int,
            n,
        ),
{
    if opcode == RDB_OPCODE_EOF {
        records::lemma_number_keeps(data, other, n, pos);
        if pos <= n {
            bytes::lemma_window(data, other, n, 0, pos);
            assert(data.take(pos) =~= data.subrange(0, pos));
            assert(other.take(pos) =~= other.subrange(0, pos));
        }
    } else if opcode == RDB_OPCODE_AUX {
        <(Vec<u8>, Vec<u8>) as Record>::keeps(data, other, n, pos);
    } else if opcode == RDB_OPCODE_SELECTDB || opcode == RDB_OPCODE_RESIZEDB || opcode
        == RDB_OPCODE_IDLE {
        rdb_wire::lemma_length_local(data, other, n, pos);
        if let Some((_, mid)) = rdb_wire::length_at(data, pos) {
            rdb_wire::lemma_length_local(data, other, n, mid);
        }
    } else if opcode == RDB_OPCODE_EXPIRETIME_MS {
        records::lemma_number_keeps(data, other, n, pos);
    } else if opcode == RDB_OPCODE_EXPIRETIME {
        if pos + 4 <= n {
            bytes::lemma_window(data, other, n, pos, pos + 4);
        }
    } else if opcode == RDB_OPCODE_FREQ {
    } else if opcode == RDB_OPCODE_FUNCTION2 {
        rdb_wire::lemma_string_local(data, other, n, pos);
    } else {
        rdb_wire::lemma_string_local(data, other, n, pos);
        if let Some((_, mid)) = rdb_wire::string_at(data, pos) {
            lemma_value_keeps(opcode, data, other, n, mid);
        }
    }
}

proof fn lemma_load_keeps(
    version: nat,
    data: Seq<u8>,
    other: Seq<u8>,
    n: int,
    pos: int,
    st: Loading,
)
    requires
        0 <= pos,
        bytes::same_upto(data, other, n),
    ensures
        rdb_load::load_from(version, data, pos, st) matches Some((_, end)) ==> pos < end
            <= data.len() && (end <= n ==> rdb_load::load_from(version, other, pos, st)
            == rdb_load::load_from(version, data, pos, st)),
    decreases data.len() - pos,
{
    reveal(rdb_load::load_step);
    if pos < data.len() {
        lemma_opcode_keeps(version, data[pos], data, other, n, pos + 1, st);
        if pos < n {
            bytes::lemma_byte(data, other, n, pos);
        }
        if let LoadStep::More(next, end) = rdb_load::load_step(version, data, pos, st) {
            if pos < end <= data.len() {
                lemma_load_keeps(version, data, other, n, end, next);
            }
        }
    }
}

/// How a snapshot is read depends on the bytes that it takes alone, whatever stands behind
/// them, as long as there are as many bytes as the shortest snapshot with a checksum has.
pub proof fn law_snapshot_is_local(data: Seq<u8>, tail: Seq<u8>)
    ensures
        rdb_load::snapshot_prefix(data) matches Some((st, end)) ==> 9 < end <= data.len() && (end
            + tail.len() >= 9 + RDB_CHECKSUM_LEN ==> rdb_load::snapshot_prefix(
            data.take(end) + tail,
        ) == Some((st, end))),
{
    if let Some(version) = rdb_load::known_version(data) {
        lemma_load_keeps(version, data, data, 0, 9, rdb_load::nothing_loaded());
        if let Some((st, end)) = rdb_load::snapshot_prefix(data) {
            let other = data.take(end) + tail;
            bytes::lemma_cut_and_joined(data, end, tail);
            if end + tail.len() >= 9 + RDB_CHECKSUM_LEN {
                assert(other.take(5) =~= data.take(5));
                assert forall|i: int| 5 <= i < 9 implies other[i] == data[i] by {
                    bytes::lemma_byte(data, other, end, i);
                }
                assert(rdb_load::known_version(other) == Some(version));
                lemma_load_keeps(version, data, other, end, 9, rdb_load::nothing_loaded());
            }
        }
    }
}

/// Bytes behind a whole snapshot change nothing.
pub proof fn law_tail_changes_nothing(snapshot: Seq<u8>, tail: Seq<u8>)
    ensures
        rdb_load::snapshot_prefix(snapshot) matches Some((st, end)) ==> end == snapshot.len()
            ==> rdb_load::snapshot_prefix(snapshot + tail) == Some((st, end)),
{
    law_snapshot_is_local(snapshot, tail);
    assert(snapshot.take(snapshot.len() as int) =~= snapshot);
}

} // verus!
