//! What several files of a log are loaded as.

use vstd::prelude::*;

use crate::aof;
use crate::log_laws;
use crate::manifest;
use crate::manifest::{AofManifestFileType, ManifestView, RowView};
use crate::multipart;
use crate::multipart::LoadView;
use crate::persist_error::ErrorView;
use crate::rdb_load;
use crate::resp::RespParseError;

verus! {

/// The files that a manifest has replayed are its base, if it has one, and behind it its
/// increments as they stand; no file of its history is.
pub proof fn law_base_is_replayed_first(m: ManifestView)
    ensures
        ({
            let rows = manifest::replayed_rows(m);
            let k = rows.len() - m.incremental.len();
            &&& k == (if m.base is Some {
                1int
            } else {
                0
            })
            &&& m.base matches Some(b) ==> rows[0] == b
            &&& forall|i: int|
                0 <= i < m.incremental.len() ==> rows[k + i] == #[trigger] m.incremental[i]
        }),
{
}

/// The row is that of a snapshot: a base whose name ends with `.rdb`.
pub open spec fn names_snapshot(row: RowView) -> bool {
    let name = vstd::utf8::encode_utf8(row.name);
    let n = name.len();
    &&& row.kind == AofManifestFileType::Base
    &&& n >= 4
    &&& name[n - 4] == 46
    &&& name[n - 3] == 114
    &&& name[n - 2] == 100
    &&& name[n - 1] == 98
}

proof fn lemma_names_snapshot(row: RowView)
    ensures
        multipart::is_rdb_base(row) <==> names_snapshot(row),
{
    let name = vstd::utf8::encode_utf8(row.name);
    let n = name.len();
    if n >= 4 {
        let tail = name.skip(n - 4);
        if multipart::is_rdb_base(row) {
            assert(tail[0] == 46 && tail[1] == 114 && tail[2] == 100 && tail[3] == 98);
        }
        if names_snapshot(row) {
            assert(tail =~= multipart::rdb_suffix());
        }
    }
}

/// A file of records adds them behind those already loaded, and nothing else.
pub proof fn law_log_file_adds_its_records(load: LoadView, row: RowView, records: Seq<Seq<Seq<u8>>>)
    requires
        !names_snapshot(row),
        log_laws::all_replayable(records),
    ensures
        multipart::load_more(load, row, aof::stream_bytes(records)) matches Ok(next)
            && next.records == load.records + records && next.entries == load.entries
            && next.functions == load.functions,
{
    lemma_names_snapshot(row);
    log_laws::law_log_round_trip(records);
    if aof::stream_bytes(records).len() == 0 {
        if records.len() > 0 {
            aof::lemma_stream_nonempty(records);
        }
        assert(load.records + records =~= load.records);
    }
}

/// A snapshot gives the entries and the functions, and leaves the records as they are.
pub proof fn law_snapshot_file_gives_the_base(load: LoadView, row: RowView, data: Seq<u8>)
    requires
        names_snapshot(row),
        rdb_load::snapshot_prefix(data) is Some,
    ensures
        multipart::load_more(load, row, data) matches Ok(next) && next.records == load.records
            && next.entries == rdb_load::snapshot_prefix(data)->Some_0.0.entries && next.functions
            == rdb_load::snapshot_prefix(data)->Some_0.0.functions,
{
    lemma_names_snapshot(row);
}

/// An empty file adds nothing, under any row.
pub proof fn law_empty_file_adds_nothing(load: LoadView, row: RowView)
    ensures
        multipart::load_more(load, row, Seq::empty()) == Ok::<LoadView, ErrorView>(load),
{
}

/// The records that are loaded are those in front of the records after one more file, whatever
/// it holds.
pub proof fn law_records_stay_in_front(load: LoadView, row: RowView, data: Seq<u8>)
    ensures
        multipart::load_more(load, row, data) matches Ok(next) ==> load.records.len()
            <= next.records.len() && next.records.take(load.records.len() as int) == load.records,
{
    if let Ok(next) = multipart::load_more(load, row, data) {
        assert(next.records.take(load.records.len() as int) =~= load.records);
    }
}

/// A file of records that ends within a record is rejected, and so is a file that should be a
/// snapshot and is none.
pub proof fn law_damaged_files_are_rejected(
    load: LoadView,
    row: RowView,
    records: Seq<Seq<Seq<u8>>>,
    last: Seq<Seq<u8>>,
    k: int,
    data: Seq<u8>,
)
    requires
        log_laws::all_replayable(records),
        aof::replayable(last),
        0 < k < aof::record_bytes(last).len(),
        data.len() > 0,
        rdb_load::snapshot_prefix(data) is None,
    ensures
        !names_snapshot(row) ==> multipart::load_more(
            load,
            row,
            aof::stream_bytes(records) + aof::record_bytes(last).take(k),
        ) == Err::<LoadView, ErrorView>(ErrorView::Parse(RespParseError::Incomplete)),
        names_snapshot(row) ==> multipart::load_more(load, row, data) == Err::<
            LoadView,
            ErrorView,
        >(ErrorView::InvalidFrame),
{
    lemma_names_snapshot(row);
    log_laws::law_torn_record(records, last, k);
}

// ---------------------------------------------------------------------------
// Files one behind the other
// ---------------------------------------------------------------------------

/// A file of a log: its row and its bytes.
pub type FileView = (RowView, Seq<u8>);

/// What files are loaded as, one behind the other.
pub open spec fn loaded(load: LoadView, files: Seq<FileView>) -> Result<LoadView, ErrorView>
    decreases files.len(),
{
    if files.len() == 0 {
        Ok(load)
    } else {
        match loaded(load, files.drop_last()) {
            Err(e) => Err(e),
            Ok(before) => multipart::load_more(before, files.last().0, files.last().1),
        }
    }
}

/// The records of several files, one file behind the other.
pub open spec fn joined(parts: Seq<Seq<Seq<Seq<u8>>>>) -> Seq<Seq<Seq<u8>>>
    decreases parts.len(),
{
    if parts.len() == 0 {
        Seq::empty()
    } else {
        joined(parts.drop_last()) + parts.last()
    }
}

/// Files of records under rows.
pub open spec fn log_files(rows: Seq<RowView>, parts: Seq<Seq<Seq<Seq<u8>>>>) -> Seq<FileView> {
    Seq::new(rows.len(), |i: int| (rows[i], aof::stream_bytes(parts[i])))
}

/// Files of records are loaded as their records, those of the first file first.
pub proof fn law_log_files_are_joined(
    load: LoadView,
    rows: Seq<RowView>,
    parts: Seq<Seq<Seq<Seq<u8>>>>,
)
    requires
        rows.len() == parts.len(),
        forall|i: int| 0 <= i < rows.len() ==> !names_snapshot(#[trigger] rows[i]),
        forall|i: int| 0 <= i < parts.len() ==> log_laws::all_replayable(#[trigger] parts[i]),
    ensures
        loaded(load, log_files(rows, parts)) == Ok::<LoadView, ErrorView>(
            LoadView { records: load.records + joined(parts), ..load },
        ),
    decreases rows.len(),
{
    let files = log_files(rows, parts);
    if rows.len() == 0 {
        assert(load.records + joined(parts) =~= load.records);
    } else {
        let front = rows.drop_last();
        let before = parts.drop_last();
        assert(files.drop_last() =~= log_files(front, before));
        assert forall|i: int| 0 <= i < front.len() implies !names_snapshot(#[trigger] front[i]) by {
            assert(front[i] == rows[i]);
        }
        assert forall|i: int| 0 <= i < before.len() implies log_laws::all_replayable(
            #[trigger] before[i],
        ) by {
            assert(before[i] == parts[i]);
        }
        law_log_files_are_joined(load, front, before);
        let n = rows.len() - 1;
        assert(!names_snapshot(rows[n]) && log_laws::all_replayable(parts[n]));
        let mid = LoadView { records: load.records + joined(before), ..load };
        law_log_file_adds_its_records(mid, rows[n], parts[n]);
        assert((load.records + joined(before)) + parts[n] =~= load.records + joined(parts));
    }
}

/// A log with a snapshot as its base is loaded as the entries and functions of the snapshot,
/// and the records of the increments, those of the first increment first.
pub proof fn law_log_with_base_is_loaded(
    base: RowView,
    snapshot: Seq<u8>,
    rows: Seq<RowView>,
    parts: Seq<Seq<Seq<Seq<u8>>>>,
)
    requires
        names_snapshot(base),
        rdb_load::snapshot_prefix(snapshot) is Some,
        rows.len() == parts.len(),
        forall|i: int| 0 <= i < rows.len() ==> (#[trigger] rows[i]).kind
            == AofManifestFileType::Incremental,
        forall|i: int| 0 <= i < parts.len() ==> log_laws::all_replayable(#[trigger] parts[i]),
    ensures
        loaded(
            multipart::nothing_loaded(),
            seq![(base, snapshot)] + log_files(rows, parts),
        ) == Ok::<LoadView, ErrorView>(
            LoadView {
                entries: rdb_load::snapshot_prefix(snapshot)->Some_0.0.entries,
                functions: rdb_load::snapshot_prefix(snapshot)->Some_0.0.functions,
                records: joined(parts),
            },
        ),
{
    let first = seq![(base, snapshot)];
    let start = multipart::nothing_loaded();
    law_snapshot_file_gives_the_base(start, base, snapshot);
    assert(first.drop_last() =~= Seq::empty());
    assert(loaded(start, first.drop_last()) == Ok::<LoadView, ErrorView>(start));
    let mid = multipart::load_more(start, base, snapshot)->Ok_0;
    assert(loaded(start, first) == Ok::<LoadView, ErrorView>(mid));
    law_loading_goes_on(start, first, log_files(rows, parts));
    law_log_files_are_joined(mid, rows, parts);
    assert(mid.records + joined(parts) =~= joined(parts));
}

/// Loading files and then others is loading all of them.
pub proof fn law_loading_goes_on(load: LoadView, left: Seq<FileView>, right: Seq<FileView>)
    ensures
        loaded(load, left + right) == (match loaded(load, left) {
            Err(e) => Err::<LoadView, ErrorView>(e),
            Ok(mid) => loaded(mid, right),
        }),
    decreases right.len(),
{
    if right.len() == 0 {
        assert(left + right =~= left);
    } else {
        assert((left + right).drop_last() =~= left + right.drop_last());
        law_loading_goes_on(load, left, right.drop_last());
    }
}

} // verus!
