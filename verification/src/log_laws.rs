//! What command logs are replayed as.

use vstd::prelude::*;

use crate::aof;
use crate::aof::{AofReplayTailFailure, AOF_MAX_RECURSION_DEPTH};
use crate::bytes;
use crate::decimal;
use crate::order;
use crate::rdb_compact::CompactRdbThresholds;
use crate::rdb_load;
use crate::rdb_save;
use crate::rdb_types::{FieldView, RdbEntryView};
use crate::resp;
use crate::resp::{FrameView, RespParseError};
use crate::snapshot_laws;
use crate::snapshot_local;
use crate::snapshot_whole;

verus! {

/// All records can be replayed.
pub open spec fn all_replayable(records: Seq<Seq<Seq<u8>>>) -> bool {
    forall|i: int| 0 <= i < records.len() ==> aof::replayable(#[trigger] records[i])
}

/// A log is replayed as the records that it was made of.
pub proof fn law_log_round_trip(records: Seq<Seq<Seq<u8>>>)
    requires
        all_replayable(records),
    ensures
        aof::replay_of(aof::stream_bytes(records), 0) == (
            aof::laid_out(records, 0),
            None::<(int, AofReplayTailFailure)>,
        ),
        aof::replay_arguments(aof::laid_out(records, 0)) == records,
{
    let data = aof::stream_bytes(records);
    bytes::lemma_has_at_whole(data);
    aof::law_stream_round_trip(records, data, 0, Seq::empty());
    assert(Seq::empty() + aof::laid_out(records, 0) =~= aof::laid_out(records, 0));
    assert(aof::replay_arguments(aof::laid_out(records, 0)) =~= records);
}

/// A log behind a snapshot is replayed behind what the snapshot is read back as.
pub proof fn law_log_with_snapshot(
    entries: Seq<RdbEntryView>,
    aux: Seq<FieldView>,
    functions: Seq<Seq<u8>>,
    compact: Option<CompactRdbThresholds>,
    records: Seq<Seq<Seq<u8>>>,
)
    requires
        snapshot_laws::snapshot_lasting(entries, aux, functions, compact),
        all_replayable(records),
    ensures
        ({
            let snapshot = rdb_save::snapshot_bytes(entries, aux, functions, compact);
            let data = snapshot + aof::stream_bytes(records);
            &&& aof::has_preamble(data)
            &&& rdb_load::snapshot_prefix(data) matches Some((st, end)) && end == snapshot.len()
                && st.entries == snapshot_laws::loaded_entries(
                order::sorted_by(entries, rdb_save::entry_key()),
                compact,
            ) && aof::replay_of(data, end) == (
                aof::laid_out(records, end),
                None::<(int, AofReplayTailFailure)>,
            )
        }),
{
    let snapshot = rdb_save::snapshot_bytes(entries, aux, functions, compact);
    let log = aof::stream_bytes(records);
    let data = snapshot + log;
    let n = snapshot.len() as int;
    bytes::lemma_has_at_whole(data);
    bytes::lemma_has_at_concat(data, 0, snapshot, log);
    snapshot_laws::law_snapshot_round_trip(data, entries, aux, functions, compact);
    assert(rdb_load::known_version(data) is Some);
    aof::law_stream_round_trip(records, data, n, Seq::empty());
    assert(Seq::empty() + aof::laid_out(records, n) =~= aof::laid_out(records, n));
}

/// A log behind any snapshot that is read to its end is replayed behind what the snapshot
/// alone is read as, and its records lie one behind the other up to the end.
pub proof fn law_log_behind_snapshot(snapshot: Seq<u8>, records: Seq<Seq<Seq<u8>>>)
    requires
        rdb_load::snapshot_prefix(snapshot) matches Some((_, end)) && end == snapshot.len(),
        all_replayable(records),
    ensures
        ({
            let data = snapshot + aof::stream_bytes(records);
            let n = snapshot.len() as int;
            &&& aof::has_preamble(data)
            &&& rdb_load::snapshot_prefix(data) == rdb_load::snapshot_prefix(snapshot)
            &&& aof::replay_of(data, n) == (
                aof::laid_out(records, n),
                None::<(int, AofReplayTailFailure)>,
            )
            &&& aof::replay_arguments(aof::laid_out(records, n)) == records
        }),
{
    let log = aof::stream_bytes(records);
    let data = snapshot + log;
    let n = snapshot.len() as int;
    snapshot_local::law_tail_changes_nothing(snapshot, log);
    assert(rdb_load::known_version(data) is Some);
    bytes::lemma_has_at_whole(data);
    bytes::lemma_has_at_concat(data, 0, snapshot, log);
    aof::law_stream_round_trip(records, data, n, Seq::empty());
    assert(Seq::empty() + aof::laid_out(records, n) =~= aof::laid_out(records, n));
    assert(aof::replay_arguments(aof::laid_out(records, n)) =~= records);
}

/// A log behind any written snapshot that is accepted is replayed behind what the snapshot
/// alone is read as, from the end of the snapshot on.
pub proof fn law_log_behind_written_snapshot(
    entries: Seq<RdbEntryView>,
    aux: Seq<FieldView>,
    functions: Seq<Seq<u8>>,
    compact: Option<CompactRdbThresholds>,
    records: Seq<Seq<Seq<u8>>>,
)
    requires
        snapshot_whole::snapshot_framed(entries, aux, functions),
        rdb_load::snapshot_prefix(rdb_save::snapshot_bytes(entries, aux, functions, compact))
            is Some,
        all_replayable(records),
    ensures
        ({
            let snapshot = rdb_save::snapshot_bytes(entries, aux, functions, compact);
            let data = snapshot + aof::stream_bytes(records);
            let n = snapshot.len() as int;
            &&& rdb_load::snapshot_prefix(data) == rdb_load::snapshot_prefix(snapshot)
            &&& rdb_load::snapshot_prefix(data) matches Some((_, end)) && end == n
            &&& aof::replay_of(data, n) == (
                aof::laid_out(records, n),
                None::<(int, AofReplayTailFailure)>,
            )
        }),
{
    let snapshot = rdb_save::snapshot_bytes(entries, aux, functions, compact);
    snapshot_whole::law_accepted_snapshot_is_whole(
        entries,
        aux,
        functions,
        compact,
        aof::stream_bytes(records),
    );
    law_log_behind_snapshot(snapshot, records);
}

// ---------------------------------------------------------------------------
// A log that ends within a record
// ---------------------------------------------------------------------------

proof fn lemma_no_line(data: Seq<u8>, pos: int)
    requires
        0 <= pos,
        forall|i: int|
            pos <= i < data.len() - 1 ==> !(#[trigger] data[i] == 13 && data[i + 1] == 10),
    ensures
        resp::line_end(data, pos) is None,
    decreases data.len() - pos,
{
    if pos + 1 < data.len() {
        lemma_no_line(data, pos + 1);
    }
}

/// A line with a number that is cut off is incomplete.
proof fn lemma_torn_number(data: Seq<u8>, pos: int, prefix: u8, v: int)
    requires
        i64::MIN <= v <= i64::MAX,
        pos < data.len() < pos + resp::number_line(prefix, v).len(),
        bytes::has_at(data, pos, resp::number_line(prefix, v).take(data.len() - pos)),
    ensures
        data[pos] == prefix,
        resp::number_at(data, pos + 1) == Err::<(int, int), RespParseError>(
            RespParseError::Incomplete,
        ),
{
    let line = resp::number_line(prefix, v);
    let digits = decimal::dec_int(v);
    let part = line.take(data.len() - pos);
    resp::lemma_integer_reads(v);
    assert(data[pos + 0] == part[0]);
    assert forall|i: int| pos + 1 <= i < data.len() - 1 implies !(#[trigger] data[i] == 13 && data[i
        + 1] == 10) by {
        let p = i - pos;
        assert(data[pos + p] == part[p]);
        assert(part[p] == line[p]);
        if p - 1 < digits.len() {
            assert(line[p] == digits[p - 1]);
        }
    }
    lemma_no_line(data, pos + 1);
}

/// A string that is cut off is incomplete.
proof fn lemma_torn_bulk(data: Seq<u8>, pos: int, b: Seq<u8>, depth: nat)
    requires
        b.len() <= aof::aof_config().max_bulk_len,
        0 <= pos <= data.len() < pos + resp::bulk_bytes(b).len(),
        bytes::has_at(data, pos, resp::bulk_bytes(b).take(data.len() - pos)),
    ensures
        resp::frame_at(aof::aof_config(), data, pos, depth) == Err::<
            (FrameView, int),
            RespParseError,
        >(RespParseError::Incomplete),
{
    let head = resp::number_line(36, b.len() as int);
    let whole = resp::bulk_bytes(b);
    let m = data.len() - pos;
    let part = whole.take(m);
    if m == 0 {
    } else if m < head.len() {
        assert(part =~= head.take(m));
        lemma_torn_number(data, pos, 36, b.len() as int);
    } else {
        let rest = part.skip(head.len() as int);
        assert(part =~= head + rest);
        bytes::lemma_has_at_concat(data, pos, head, rest);
        resp::lemma_number_reads(data, pos, 36, b.len() as int);
    }
}

/// The argument that the byte at `m` belongs to.
proof fn lemma_argument_at(argv: Seq<Seq<u8>>, m: int) -> (j: int)
    requires
        0 <= m < bytes::concat_all(aof::bulk_encoder(), argv).len(),
    ensures
        0 <= j < argv.len(),
        bytes::concat_all(aof::bulk_encoder(), argv.take(j)).len() <= m,
        m < bytes::concat_all(aof::bulk_encoder(), argv.take(j + 1)).len(),
    decreases argv.len(),
{
    let e = aof::bulk_encoder();
    let front = argv.drop_last();
    if m < bytes::concat_all(e, front).len() {
        let j = lemma_argument_at(front, m);
        assert(front.take(j) =~= argv.take(j));
        assert(front.take(j + 1) =~= argv.take(j + 1));
        j
    } else {
        let j = argv.len() - 1;
        assert(argv.take(j) =~= front);
        assert(argv.take(j + 1) =~= argv);
        j
    }
}

proof fn lemma_concat_starts(argv: Seq<Seq<u8>>, j: int)
    requires
        0 <= j <= argv.len(),
    ensures
        bytes::concat_all(aof::bulk_encoder(), argv) == bytes::concat_all(
            aof::bulk_encoder(),
            argv.take(j),
        ) + bytes::concat_all(aof::bulk_encoder(), argv.skip(j)),
{
    assert(argv =~= argv.take(j) + argv.skip(j));
    bytes::lemma_concat_append(aof::bulk_encoder(), argv.take(j), argv.skip(j));
}

/// Arguments that are cut off are incomplete.
proof fn lemma_torn_arguments(argv: Seq<Seq<u8>>, data: Seq<u8>, pos: int, depth: nat)
    requires
        aof::replayable(argv),
        0 <= pos <= data.len() < pos + bytes::concat_all(aof::bulk_encoder(), argv).len(),
        bytes::has_at(
            data,
            pos,
            bytes::concat_all(aof::bulk_encoder(), argv).take(data.len() - pos),
        ),
    ensures
        resp::frames_at(aof::aof_config(), data, pos, argv.len(), depth) == Err::<
            (Seq<FrameView>, int),
            RespParseError,
        >(RespParseError::Incomplete),
{
    let e = aof::bulk_encoder();
    let m = data.len() - pos;
    let all = bytes::concat_all(e, argv);
    let j = lemma_argument_at(argv, m);
    let before = bytes::concat_all(e, argv.take(j));
    let upto = bytes::concat_all(e, argv.take(j + 1));
    lemma_concat_starts(argv, j);
    lemma_concat_starts(argv, j + 1);
    bytes::lemma_concat_take(e, argv, j);
    let own = resp::bulk_bytes(argv[j]);
    assert(upto == before + own);
    let cut = own.take(m - before.len());
    assert(all.take(m) =~= before + cut) by {
        assert(all.take(upto.len() as int) =~= upto);
        assert(all.take(m) =~= upto.take(m));
    }
    bytes::lemma_has_at_concat(data, pos, before, cut);
    aof::lemma_arguments_read(argv, j as nat, data, pos, depth);
    lemma_torn_bulk(data, pos + before.len(), argv[j], depth);
    assert(resp::frames_at(aof::aof_config(), data, pos, (j + 1) as nat, depth) == Err::<
        (Seq<FrameView>, int),
        RespParseError,
    >(RespParseError::Incomplete));
    resp::lemma_frames_err(aof::aof_config(), data, pos, (j + 1) as nat, argv.len(), depth);
}

/// A log that ends within a record is replayed up to that record, and is incomplete there.
pub proof fn law_torn_record(records: Seq<Seq<Seq<u8>>>, last: Seq<Seq<u8>>, k: int)
    requires
        all_replayable(records),
        aof::replayable(last),
        0 < k < aof::record_bytes(last).len(),
    ensures
        aof::replay_of(aof::stream_bytes(records) + aof::record_bytes(last).take(k), 0) == (
            aof::laid_out(records, 0),
            Some(
                (
                    aof::stream_bytes(records).len() as int,
                    AofReplayTailFailure::Parse(RespParseError::Incomplete),
                ),
            ),
        ),
{
    let front = aof::stream_bytes(records);
    let whole = aof::record_bytes(last);
    let part = whole.take(k);
    let data = front + part;
    let pos = front.len() as int;
    bytes::lemma_has_at_whole(data);
    bytes::lemma_has_at_concat(data, 0, front, part);
    aof::law_stream_round_trip(records, data, 0, Seq::empty());
    assert(Seq::empty() + aof::laid_out(records, 0) =~= aof::laid_out(records, 0));
    let head = resp::number_line(42, last.len() as int);
    let body = bytes::concat_all(aof::bulk_encoder(), last);
    if k < head.len() {
        assert(part =~= head.take(k));
        lemma_torn_number(data, pos, 42, last.len() as int);
    } else {
        let rest = body.take(k - head.len());
        assert(part =~= head + rest);
        bytes::lemma_has_at_concat(data, pos, head, rest);
        resp::lemma_number_reads(data, pos, 42, last.len() as int);
        lemma_torn_arguments(
            last,
            data,
            pos + head.len(),
            (AOF_MAX_RECURSION_DEPTH - 1) as nat,
        );
    }
    assert(aof::record_at(data, pos) is Err);
}

} // verus!
