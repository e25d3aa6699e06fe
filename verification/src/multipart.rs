//! Command logs that are kept in several files: a base, increments, and a manifest that
//! names them.

use vstd::prelude::*;

use crate::aof;
use crate::aof::{decode_aof_stream, AofRecord};
use crate::bytes;
use crate::decimal;
use crate::decimal::push_decimal_u64;
use crate::manifest;
use crate::manifest::{
    AofManifest, AofManifestEntry, AofManifestFileType, ManifestView, RowView,
    AOF_MANIFEST_MAX_LINE,
};
use crate::manifest_format;
use crate::manifest_laws;
use crate::persist_error::{ErrorView, PersistError};
use crate::rdb_load;
use crate::rdb_load::decode_rdb_prefix;
use crate::rdb_types;
use crate::rdb_types::{RdbEntry, RdbEntryView};
use crate::text;
use crate::text::string_from_utf8;

verus! {

/// What the files of a log hold: the snapshot of the base, and the records behind it.
#[derive(Debug, Clone, PartialEq)]
pub struct MultipartAofLoad {
    pub base_rdb_entries: Vec<RdbEntry>,
    pub base_rdb_functions: Vec<Vec<u8>>,
    pub records: Vec<AofRecord>,
}

/// What the files of a log say.
#[verifier::ext_equal]
pub struct LoadView {
    pub entries: Seq<RdbEntryView>,
    pub functions: Seq<Seq<u8>>,
    pub records: Seq<Seq<Seq<u8>>>,
}

impl View for MultipartAofLoad {
    type V = LoadView;

    open spec fn view(&self) -> LoadView {
        LoadView {
            entries: rdb_types::rdb_views(self.base_rdb_entries@),
            functions: bytes::views(self.base_rdb_functions@),
            records: aof::record_views(self.records@),
        }
    }
}

/// Nothing loaded.
pub open spec fn nothing_loaded() -> LoadView {
    LoadView { entries: Seq::empty(), functions: Seq::empty(), records: Seq::empty() }
}

impl Default for MultipartAofLoad {
    fn default() -> (load: Self)
        ensures
            load@ == nothing_loaded(),
    {
        let load = MultipartAofLoad {
            base_rdb_entries: Vec::new(),
            base_rdb_functions: Vec::new(),
            records: Vec::new(),
        };
        assert(load@ =~= nothing_loaded());
        load
    }
}

/// The ending of a base that is a snapshot.
pub open spec fn rdb_suffix() -> Seq<u8> {
    seq![46u8, 114u8, 100u8, 98u8]
}

/// The bytes end with the suffix.
pub open spec fn ends_with(s: Seq<u8>, suffix: Seq<u8>) -> bool {
    s.len() >= suffix.len() && s.skip(s.len() - suffix.len()) == suffix
}

/// The file is a snapshot: a base whose name says so.
pub open spec fn is_rdb_base(row: RowView) -> bool {
    row.kind is Base && ends_with(vstd::utf8::encode_utf8(row.name), rdb_suffix())
}

/// What is loaded with one more file: an empty one adds nothing, a snapshot gives the
/// base, and another gives records.
pub open spec fn load_more(load: LoadView, row: RowView, data: Seq<u8>) -> Result<
    LoadView,
    ErrorView,
> {
    if data.len() == 0 {
        Ok(load)
    } else if is_rdb_base(row) {
        match rdb_load::snapshot_prefix(data) {
            None => Err(ErrorView::InvalidFrame),
            Some((loaded, _)) => Ok(
                LoadView { entries: loaded.entries, functions: loaded.functions, ..load },
            ),
        }
    } else {
        match aof::replay_of(data, 0).1 {
            Some((_, f)) => Err(aof::failure_error(f)@),
            None => Ok(
                LoadView {
                    records: load.records + aof::replay_arguments(aof::replay_of(data, 0).0),
                    ..load
                },
            ),
        }
    }
}

fn name_is_rdb(name: &[u8]) -> (r: bool)
    ensures
        r == ends_with(name@, rdb_suffix()),
{
    let n: usize = name.len();
    if n < 4 {
        return false;
    }
    let r: bool = name[n - 4] == 46 && name[n - 3] == 114 && name[n - 2] == 100 && name[n - 1] == 98;
    proof {
        let tail = name@.skip(n - 4);
        if r {
            assert(tail =~= rdb_suffix());
        } else if tail == rdb_suffix() {
            assert(tail[0] == name@[n - 4]);
            assert(tail[1] == name@[n - 3]);
            assert(tail[2] == name@[n - 2]);
            assert(tail[3] == name@[n - 1]);
        }
    }
    r
}

impl MultipartAofLoad {
    /// Takes one more file, under the row that names it.
    pub fn take_file(&mut self, entry: &AofManifestEntry, data: &[u8]) -> (r: Result<
        (),
        PersistError,
    >)
        ensures
            match load_more(old(self)@, entry@, data@) {
                Ok(load) => r is Ok && final(self)@ == load,
                Err(e) => r matches Err(error) && error@ == e && final(self)@ == old(self)@,
            },
    {
        if data.len() == 0 {
            return Ok(());
        }
        let base: bool = match entry.file_type {
            AofManifestFileType::Base => true,
            _ => false,
        };
        if base && name_is_rdb(entry.file_name.as_str().as_bytes()) {
            match decode_rdb_prefix(data) {
                Err(e) => Err(e),
                Ok(result) => {
                    self.base_rdb_entries = result.entries;
                    self.base_rdb_functions = result.functions;
                    Ok(())
                },
            }
        } else {
            match decode_aof_stream(data) {
                Err(e) => Err(e),
                Ok(records) => {
                    let mut records = records;
                    let ghost before = self.records@;
                    let ghost more = records@;
                    self.records.append(&mut records);
                    assert(aof::record_views(self.records@) =~= aof::record_views(before)
                        + aof::record_views(more));
                    Ok(())
                },
            }
        }
    }
}

// ---------------------------------------------------------------------------
// The files of a new log
// ---------------------------------------------------------------------------

/// The ending of the base of a new log.
pub open spec fn base_suffix() -> Seq<u8> {
    seq![46u8, 98u8, 97u8, 115u8, 101u8, 46u8, 114u8, 100u8, 98u8]
}

/// The ending of the increment of a new log.
pub open spec fn incr_suffix() -> Seq<u8> {
    seq![46u8, 105u8, 110u8, 99u8, 114u8, 46u8, 97u8, 111u8, 102u8]
}

/// A basename, a number, and an ending.
pub open spec fn file_name_bytes(basename: Seq<char>, seq: u64, suffix: Seq<u8>) -> Seq<u8> {
    vstd::utf8::encode_utf8(basename) + seq![46u8] + decimal::dec_nat(seq as nat) + suffix
}

/// A basename, a number, and an ending, as text.
pub open spec fn file_name_text(basename: Seq<char>, seq: u64, suffix: Seq<u8>) -> Seq<char> {
    vstd::utf8::decode_utf8(file_name_bytes(basename, seq, suffix))
}

pub proof fn lemma_file_name(basename: Seq<char>, seq: u64, suffix: Seq<u8>)
    requires
        forall|i: int| 0 <= i < suffix.len() ==> #[trigger] suffix[i] < 0x80,
    ensures
        vstd::utf8::valid_utf8(file_name_bytes(basename, seq, suffix)),
        vstd::utf8::encode_utf8(file_name_text(basename, seq, suffix)) == file_name_bytes(
            basename,
            seq,
            suffix,
        ),
{
    let tail = seq![46u8] + decimal::dec_nat(seq as nat) + suffix;
    decimal::lemma_dec_nat(seq as nat);
    assert forall|i: int| 0 <= i < tail.len() implies #[trigger] tail[i] < 0x80 by {
        let n = decimal::dec_nat(seq as nat).len() as int;
        if i == 0 {
        } else if i < 1 + n {
            assert(tail[i] == decimal::dec_nat(seq as nat)[i - 1]);
        } else {
            assert(tail[i] == suffix[i - 1 - n]);
        }
    }
    text::lemma_ascii_valid(tail);
    vstd::utf8::encode_utf8_valid_utf8(basename);
    vstd::utf8::valid_utf8_concat(vstd::utf8::encode_utf8(basename), tail);
    assert(file_name_bytes(basename, seq, suffix) =~= vstd::utf8::encode_utf8(basename) + tail);
    vstd::utf8::decode_utf8_encode_utf8(file_name_bytes(basename, seq, suffix));
}

fn file_name(basename: &str, seq: u64, suffix: &[u8]) -> (name: String)
    requires
        forall|i: int| 0 <= i < suffix@.len() ==> #[trigger] suffix@[i] < 0x80,
    ensures
        name@ == file_name_text(basename@, seq, suffix@),
{
    let mut out: Vec<u8> = Vec::new();
    out.extend_from_slice(basename.as_bytes());
    out.push(46);
    push_decimal_u64(&mut out, seq);
    out.extend_from_slice(suffix);
    proof {
        assert(out@ =~= file_name_bytes(basename@, seq, suffix@));
        lemma_file_name(basename@, seq, suffix@);
    }
    match string_from_utf8(out) {
        Some(name) => name,
        None => String::new(),
    }
}

/// The manifest of a new log: a snapshot as its base, and one increment.
pub open spec fn new_manifest(basename: Seq<char>, seq: u64) -> ManifestView {
    ManifestView {
        base: Some(
            RowView {
                name: file_name_text(basename, seq, base_suffix()),
                seq,
                kind: AofManifestFileType::Base,
            },
        ),
        history: Seq::empty(),
        incremental: seq![
            RowView {
                name: file_name_text(basename, seq, incr_suffix()),
                seq,
                kind: AofManifestFileType::Incremental,
            },
        ],
        base_seq: seq,
        incr_seq: seq,
    }
}

/// The manifest of a new log: a snapshot as its base, and one increment.
pub fn new_aof_manifest(basename: &str, seq: u64) -> (m: AofManifest)
    ensures
        m@ == new_manifest(basename@, seq),
{
    let base: [u8; 9] = [46, 98, 97, 115, 101, 46, 114, 100, 98];
    let incr: [u8; 9] = [46, 105, 110, 99, 114, 46, 97, 111, 102];
    proof {
        assert(base@ =~= base_suffix());
        assert(incr@ =~= incr_suffix());
    }
    let mut incremental: Vec<AofManifestEntry> = Vec::new();
    incremental.push(
        AofManifestEntry {
            file_name: file_name(basename, seq, incr.as_slice()),
            file_seq: seq,
            file_type: AofManifestFileType::Incremental,
        },
    );
    let m = AofManifest {
        base: Some(
            AofManifestEntry {
                file_name: file_name(basename, seq, base.as_slice()),
                file_seq: seq,
                file_type: AofManifestFileType::Base,
            },
        ),
        history: Vec::new(),
        incremental,
        curr_base_file_seq: seq,
        curr_incr_file_seq: seq,
    };
    assert(m@ =~= new_manifest(basename@, seq));
    m
}

/// The base of a new log is loaded as a snapshot, its increment as records.
pub proof fn law_new_log_is_loaded(
    basename: Seq<char>,
    seq: u64,
    base: Seq<u8>,
    incr: Seq<Seq<Seq<u8>>>,
)
    requires
        base.len() > 0,
        rdb_load::snapshot_prefix(base) is Some,
        forall|i: int| 0 <= i < incr.len() ==> aof::replayable(#[trigger] incr[i]),
    ensures
        ({
            let rows = manifest::replayed_rows(new_manifest(basename, seq));
            let loaded = rdb_load::snapshot_prefix(base)->Some_0.0;
            &&& rows.len() == 2
            &&& load_more(nothing_loaded(), rows[0], base) matches Ok(first) && load_more(
                first,
                rows[1],
                aof::stream_bytes(incr),
            ) == Ok::<LoadView, ErrorView>(
                LoadView {
                    entries: loaded.entries,
                    functions: loaded.functions,
                    records: incr,
                },
            )
        }),
{
    let m = new_manifest(basename, seq);
    let rows = manifest::replayed_rows(m);
    lemma_file_name(basename, seq, base_suffix());
    lemma_file_name(basename, seq, incr_suffix());
    let name = file_name_bytes(basename, seq, base_suffix());
    assert(name.skip(name.len() - 4) =~= rdb_suffix());
    let data = aof::stream_bytes(incr);
    bytes::lemma_has_at_whole(data);
    aof::law_stream_round_trip(incr, data, 0, Seq::empty());
    let found = aof::replay_of(data, 0).0;
    assert(Seq::empty() + aof::laid_out(incr, 0) =~= aof::laid_out(incr, 0));
    assert(found =~= aof::laid_out(incr, 0));
    assert(aof::replay_arguments(found) =~= incr);
    let first = load_more(nothing_loaded(), rows[0], base)->Ok_0;
    assert(first.records + incr =~= incr);
    if data.len() == 0 {
        assert(incr =~= Seq::empty()) by {
            if incr.len() > 0 {
                aof::lemma_stream_nonempty(incr);
            }
        }
    }
}

/// The manifest of a new log is one that can be read, where its name is that of a file and
/// its number is not zero.
pub proof fn law_new_manifest_is_wf(basename: Seq<char>, seq: u64)
    requires
        manifest::is_basename(basename),
        seq > 0,
    ensures
        manifest_laws::manifest_wf(new_manifest(basename, seq)),
        !manifest::has_no_rows(new_manifest(basename, seq)),
{
    lemma_new_name(basename, seq, base_suffix());
    lemma_new_name(basename, seq, incr_suffix());
}

proof fn lemma_ascii_bytes(s: Seq<u8>)
    requires
        forall|i: int| 0 <= i < s.len() ==> #[trigger] s[i] < 0x80,
    ensures
        vstd::utf8::is_ascii_chars(vstd::utf8::decode_utf8(s)),
{
    let chars = text::char_per_byte(s);
    assert(vstd::utf8::is_ascii_chars(chars));
    vstd::utf8::is_ascii_chars_encode_utf8(chars);
    assert(vstd::utf8::encode_utf8(chars) =~= s) by {
        assert forall|i: int| 0 <= i < s.len() implies #[trigger] vstd::utf8::encode_utf8(chars)[i]
            == s[i] by {
            assert(chars[i] == s[i] as char);
        }
    }
    vstd::utf8::encode_utf8_decode_utf8(chars);
}

proof fn lemma_ascii_file_name(basename: Seq<char>, seq: u64, suffix: Seq<u8>)
    requires
        vstd::utf8::is_ascii_chars(basename),
        forall|i: int| 0 <= i < suffix.len() ==> #[trigger] suffix[i] < 0x80,
    ensures
        vstd::utf8::is_ascii_chars(file_name_text(basename, seq, suffix)),
{
    let b = vstd::utf8::encode_utf8(basename);
    let d = decimal::dec_nat(seq as nat);
    let all = file_name_bytes(basename, seq, suffix);
    text::lemma_ascii_per_byte(basename);
    decimal::lemma_dec_nat(seq as nat);
    assert forall|i: int| 0 <= i < all.len() implies #[trigger] all[i] < 0x80 by {
        let n = b.len() as int;
        let k = n + 1 + d.len();
        if i < n {
            assert(all[i] == b[i]);
        } else if i == n {
        } else if i < k {
            assert(all[i] == d[i - n - 1]);
        } else {
            assert(all[i] == suffix[i - k]);
        }
    }
    lemma_ascii_bytes(all);
}

/// The manifest of a new log reads back as it was written, where its name is that of a file
/// and ASCII, its number is not zero, and its rows do not take too long a line.
pub proof fn law_new_manifest_round_trip(basename: Seq<char>, seq: u64)
    requires
        manifest::is_basename(basename),
        vstd::utf8::is_ascii_chars(basename),
        seq > 0,
        ({
            let rows = manifest_format::rows_of(new_manifest(basename, seq));
            forall|i: int|
                0 <= i < rows.len() ==> manifest_format::row_line(#[trigger] rows[i]).len()
                    <= AOF_MANIFEST_MAX_LINE
        }),
    ensures
        manifest::manifest_of(manifest_format::manifest_bytes(new_manifest(basename, seq))) == Ok::<
            ManifestView,
            ErrorView,
        >(new_manifest(basename, seq)),
{
    let m = new_manifest(basename, seq);
    let rows = manifest_format::rows_of(m);
    law_new_manifest_is_wf(basename, seq);
    lemma_ascii_file_name(basename, seq, base_suffix());
    lemma_ascii_file_name(basename, seq, incr_suffix());
    assert(rows =~= seq![m.base->Some_0, m.incremental[0]]);
    manifest_laws::law_manifest_round_trip(m);
}

/// A new log is read back from the files that it was written to: its manifest is, and the
/// files that the manifest lists are loaded as the snapshot and the records.
pub proof fn law_new_log_round_trip(
    basename: Seq<char>,
    seq: u64,
    base: Seq<u8>,
    incr: Seq<Seq<Seq<u8>>>,
)
    requires
        manifest::is_basename(basename),
        vstd::utf8::is_ascii_chars(basename),
        seq > 0,
        ({
            let rows = manifest_format::rows_of(new_manifest(basename, seq));
            forall|i: int|
                0 <= i < rows.len() ==> manifest_format::row_line(#[trigger] rows[i]).len()
                    <= AOF_MANIFEST_MAX_LINE
        }),
        rdb_load::snapshot_prefix(base) is Some,
        forall|i: int| 0 <= i < incr.len() ==> aof::replayable(#[trigger] incr[i]),
    ensures
        manifest::manifest_of(manifest_format::manifest_bytes(new_manifest(basename, seq)))
            matches Ok(m) && ({
            let rows = manifest::replayed_rows(m);
            let loaded = rdb_load::snapshot_prefix(base)->Some_0.0;
            &&& rows.len() == 2
            &&& rows[0].name == file_name_text(basename, seq, base_suffix())
            &&& rows[1].name == file_name_text(basename, seq, incr_suffix())
            &&& load_more(nothing_loaded(), rows[0], base) matches Ok(first) && load_more(
                first,
                rows[1],
                aof::stream_bytes(incr),
            ) == Ok::<LoadView, ErrorView>(
                LoadView {
                    entries: loaded.entries,
                    functions: loaded.functions,
                    records: incr,
                },
            )
        }),
{
    law_new_manifest_round_trip(basename, seq);
    law_new_log_is_loaded(basename, seq, base, incr);
}

proof fn lemma_escaped_len(s: Seq<u8>)
    ensures
        manifest_format::escaped(s).len() <= 2 * s.len(),
    decreases s.len(),
{
    if s.len() > 0 {
        lemma_escaped_len(s.drop_last());
    }
}

proof fn lemma_short_row(basename: Seq<char>, row: RowView, suffix: Seq<u8>)
    requires
        vstd::utf8::is_ascii_chars(basename),
        basename.len() <= 400,
        suffix.len() == 9,
        forall|i: int| 0 <= i < suffix.len() ==> #[trigger] suffix[i] < 0x80,
        row.name == file_name_text(basename, row.seq, suffix),
    ensures
        manifest_format::row_line(row).len() <= AOF_MANIFEST_MAX_LINE,
{
    lemma_file_name(basename, row.seq, suffix);
    vstd::utf8::is_ascii_chars_encode_utf8(basename);
    decimal::lemma_dec_nat_len(row.seq as nat);
    lemma_escaped_len(file_name_bytes(basename, row.seq, suffix));
}

/// The rows of a new log do not take too long a line where its name has at most 400
/// characters.
pub proof fn law_short_names_fit(basename: Seq<char>, seq: u64)
    requires
        vstd::utf8::is_ascii_chars(basename),
        basename.len() <= 400,
    ensures
        ({
            let rows = manifest_format::rows_of(new_manifest(basename, seq));
            forall|i: int|
                0 <= i < rows.len() ==> manifest_format::row_line(#[trigger] rows[i]).len()
                    <= AOF_MANIFEST_MAX_LINE
        }),
{
    let m = new_manifest(basename, seq);
    let rows = manifest_format::rows_of(m);
    assert(rows =~= seq![m.base->Some_0, m.incremental[0]]);
    lemma_short_row(basename, m.base->Some_0, base_suffix());
    lemma_short_row(basename, m.incremental[0], incr_suffix());
}

proof fn lemma_new_name(basename: Seq<char>, seq: u64, suffix: Seq<u8>)
    requires
        manifest::is_basename(basename),
        forall|i: int| 0 <= i < suffix.len() ==> 48 <= #[trigger] suffix[i] < 0x80 && suffix[i] != 92
            || suffix[i] == 46,
    ensures
        manifest::is_basename(file_name_text(basename, seq, suffix)),
{
    lemma_file_name(basename, seq, suffix);
    decimal::lemma_dec_nat(seq as nat);
    let b = vstd::utf8::encode_utf8(basename);
    let d = decimal::dec_nat(seq as nat);
    let all = file_name_bytes(basename, seq, suffix);
    assert forall|i: int| 0 <= i < all.len() implies #[trigger] all[i] != 47 && all[i] != 92 by {
        let n = b.len() as int;
        let k = n + 1 + d.len();
        if i < n {
            assert(all[i] == b[i]);
        } else if i == n {
        } else if i < k {
            assert(all[i] == d[i - n - 1]);
        } else {
            assert(all[i] == suffix[i - k]);
        }
    }
}

} // verus!
