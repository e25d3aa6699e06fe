//! What is written of a manifest reads back as the manifest.

use vstd::prelude::*;

use crate::aof_tail;
use crate::bytes;
use crate::decimal;
use crate::manifest;
use crate::manifest::{
    AofManifestFileType, ManifestView, RowFields, RowView, AOF_MANIFEST_MAX_LINE,
};
use crate::manifest_format;
use crate::persist_error::ErrorView;
use crate::text;

verus! {

// ---------------------------------------------------------------------------
// Arguments
// ---------------------------------------------------------------------------

proof fn lemma_plain_run(line: Seq<u8>, i: int, args: Seq<Seq<u8>>, a: Seq<u8>, w: Seq<u8>)
    requires
        bytes::has_at(line, i, w),
        !manifest_format::needs_quotes(w),
    ensures
        manifest::args_from(line, i, args, Some(a), None) == manifest::args_from(
            line,
            i + w.len(),
            args,
            Some(a + w),
            None,
        ),
    decreases w.len(),
{
    if w.len() == 0 {
        assert(a + w =~= a);
    } else {
        let rest = w.drop_first();
        assert(line[i + 0] == w[0]);
        assert(!manifest_format::is_special(w[0]));
        assert forall|k: int| 0 <= k < rest.len() implies #[trigger] line[(i + 1) + k] == rest[k] by {
            assert(line[i + (k + 1)] == w[k + 1]);
        }
        assert forall|k: int| 0 <= k < rest.len() implies !manifest_format::is_special(
            #[trigger] rest[k],
        ) by {
            assert(!manifest_format::is_special(w[k + 1]));
        }
        lemma_plain_run(line, i + 1, args, a.push(w[0]), rest);
        assert(a.push(w[0]) + rest =~= a + w);
    }
}

/// The bytes are ASCII.
spec fn is_ascii(s: Seq<u8>) -> bool {
    forall|i: int| 0 <= i < s.len() ==> #[trigger] s[i] < 0x80
}

proof fn lemma_quoted_run(line: Seq<u8>, i: int, args: Seq<Seq<u8>>, a: Seq<u8>, s: Seq<u8>)
    requires
        is_ascii(s),
        bytes::has_at(line, i, manifest_format::escaped(s)),
    ensures
        manifest::args_from(line, i, args, Some(a), Some(34)) == manifest::args_from(
            line,
            i + manifest_format::escaped(s).len(),
            args,
            Some(a + s),
            Some(34),
        ),
    decreases s.len(),
{
    if s.len() == 0 {
        assert(a + s =~= a);
    } else {
        let front = s.drop_last();
        let b = s.last();
        let e = manifest_format::escaped(front);
        let t = manifest_format::escaped_byte(b);
        assert(s[s.len() - 1] < 0x80);
        assert forall|k: int| 0 <= k < front.len() implies #[trigger] front[k] < 0x80 by {
            assert(front[k] == s[k]);
        }
        bytes::lemma_has_at_concat(line, i, e, t);
        lemma_quoted_run(line, i, args, a, front);
        let j = i + e.len();
        assert(line[j + 0] == t[0]);
        if t.len() == 2 {
            assert(line[j + 1] == t[1]);
        }
        assert((a + front).push(b) =~= a + s);
    }
}

/// A name is read back from the form that it is written in.
proof fn lemma_name(line: Seq<u8>, i: int, args: Seq<Seq<u8>>, s: Seq<u8>)
    requires
        s.len() > 0,
        is_ascii(s),
        bytes::has_at(line, i, manifest_format::name_bytes(s)),
    ensures
        manifest::args_from(line, i, args, None, None) == manifest::args_from(
            line,
            i + manifest_format::name_bytes(s).len(),
            args,
            Some(s),
            None,
        ),
{
    let none = Seq::<u8>::empty();
    if manifest_format::needs_quotes(s) {
        let q = seq![34u8];
        let e = manifest_format::escaped(s);
        bytes::lemma_has_at_concat(line, i, q + e, q);
        bytes::lemma_has_at_concat(line, i, q, e);
        assert(line[i + 0] == q[0]);
        assert(line[(i + 1 + e.len()) + 0] == q[0]);
        lemma_quoted_run(line, i + 1, args, none, s);
        assert(none + s =~= s);
    } else {
        assert(line[i + 0] == s[0]);
        assert(!manifest_format::is_special(s[0]));
        lemma_plain_run(line, i, args, none, s);
        assert(none + s =~= s);
        assert(manifest::args_from(line, i, args, None, None) == manifest::args_from(
            line,
            i + 1,
            args,
            Some(none.push(s[0])),
            None,
        ));
    }
}

/// A name and the space behind it.
spec fn spaced(s: Seq<u8>) -> Seq<u8> {
    manifest_format::name_bytes(s) + seq![32u8]
}

proof fn lemma_spaced(line: Seq<u8>, i: int, args: Seq<Seq<u8>>, s: Seq<u8>)
    requires
        s.len() > 0,
        is_ascii(s),
        bytes::has_at(line, i, spaced(s)),
    ensures
        manifest::args_from(line, i, args, None, None) == manifest::args_from(
            line,
            i + spaced(s).len(),
            args.push(s),
            None,
            None,
        ),
{
    let n = manifest_format::name_bytes(s);
    bytes::lemma_has_at_concat(line, i, n, seq![32u8]);
    assert(line[(i + n.len()) + 0] == seq![32u8][0]);
    lemma_name(line, i, args, s);
}

/// The arguments that a row is written as.
pub open spec fn row_args(row: RowView) -> Seq<Seq<u8>> {
    seq![
        manifest::file_word(),
        vstd::utf8::encode_utf8(row.name),
        manifest::seq_word(),
        decimal::dec_nat(row.seq as nat),
        manifest::type_word(),
        seq![manifest_format::type_letter(row.kind)],
    ]
}

proof fn lemma_plain(s: Seq<u8>)
    requires
        forall|i: int| 0 <= i < s.len() ==> !manifest_format::is_special(#[trigger] s[i]),
    ensures
        manifest_format::name_bytes(s) == s,
{
}

/// A row is read back as its arguments.
proof fn lemma_row_args(row: RowView)
    requires
        manifest::is_basename(row.name),
        vstd::utf8::is_ascii_chars(row.name),
    ensures
        manifest::args_of(manifest_format::row_line(row)) == Some(row_args(row)),
{
    let line = manifest_format::row_line(row);
    let v = row_args(row);
    text::lemma_ascii_per_byte(row.name);
    decimal::lemma_dec_nat(row.seq as nat);
    lemma_plain(v[0]);
    lemma_plain(v[2]);
    lemma_plain(v[3]);
    lemma_plain(v[4]);
    lemma_plain(v[5]);
    let t4 = spaced(v[4]) + v[5];
    let t3 = spaced(v[3]) + t4;
    let t2 = spaced(v[2]) + t3;
    let t1 = spaced(v[1]) + t2;
    assert(line =~= spaced(v[0]) + t1);
    let p1 = spaced(v[0]).len() as int;
    let p2 = p1 + spaced(v[1]).len();
    let p3 = p2 + spaced(v[2]).len();
    let p4 = p3 + spaced(v[3]).len();
    let p5 = p4 + spaced(v[4]).len();
    bytes::lemma_has_at_whole(line);
    bytes::lemma_has_at_concat(line, 0, spaced(v[0]), t1);
    bytes::lemma_has_at_concat(line, p1, spaced(v[1]), t2);
    bytes::lemma_has_at_concat(line, p2, spaced(v[2]), t3);
    bytes::lemma_has_at_concat(line, p3, spaced(v[3]), t4);
    bytes::lemma_has_at_concat(line, p4, spaced(v[4]), v[5]);
    let a0 = Seq::<Seq<u8>>::empty();
    let a1 = a0.push(v[0]);
    let a2 = a1.push(v[1]);
    let a3 = a2.push(v[2]);
    let a4 = a3.push(v[3]);
    let a5 = a4.push(v[4]);
    lemma_spaced(line, 0, a0, v[0]);
    lemma_spaced(line, p1, a1, v[1]);
    lemma_spaced(line, p2, a2, v[2]);
    lemma_spaced(line, p3, a3, v[3]);
    lemma_spaced(line, p4, a4, v[4]);
    lemma_name(line, p5, a5, v[5]);
    assert(a5.push(v[5]) =~= v);
}

// ---------------------------------------------------------------------------
// Rows
// ---------------------------------------------------------------------------

/// A row that can be in a manifest.
pub open spec fn row_valid(row: RowView) -> bool {
    manifest::is_basename(row.name) && row.seq > 0
}

/// A row that is read back: its name is ASCII, and its line is not too long.
pub open spec fn row_lasting(row: RowView) -> bool {
    vstd::utf8::is_ascii_chars(row.name) && manifest_format::row_line(row).len()
        <= AOF_MANIFEST_MAX_LINE
}

proof fn lemma_row_fields(row: RowView, line: int)
    requires
        row_valid(row),
        vstd::utf8::is_ascii_chars(row.name),
    ensures
        manifest::row_at(row_args(row), line) == Ok::<RowView, ErrorView>(row),
{
    let v = row_args(row);
    text::lemma_ascii_per_byte(row.name);
    decimal::lemma_dec_nat(row.seq as nat);
    let f0 = RowFields { name: None, seq: None, kind: None };
    let f1 = RowFields { name: Some(row.name), seq: None, kind: None };
    let f2 = RowFields { name: Some(row.name), seq: Some(row.seq), kind: None };
    let f3 = RowFields { name: Some(row.name), seq: Some(row.seq), kind: Some(row.kind) };
    assert(manifest::is_word(v[0], manifest::file_word()));
    assert(!manifest::is_word(v[2], manifest::file_word()));
    assert(manifest::is_word(v[2], manifest::seq_word()));
    assert(!manifest::is_word(v[4], manifest::seq_word()));
    assert(manifest::is_word(v[4], manifest::type_word()));
    assert(aof_tail::lower(v[4][0]) != manifest::file_word()[0]);
    assert(!manifest::is_word(v[4], manifest::file_word()));
    assert(manifest::fields_upto(v, 0, line) == Ok::<RowFields, ErrorView>(f0));
    assert(manifest::fields_upto(v, 1, line) == Ok::<RowFields, ErrorView>(f1));
    assert(manifest::fields_upto(v, 2, line) == Ok::<RowFields, ErrorView>(f2));
    assert(manifest::fields_upto(v, 3, line) == Ok::<RowFields, ErrorView>(f3));
}

proof fn lemma_no_newline_escaped(s: Seq<u8>)
    ensures
        forall|i: int|
            0 <= i < manifest_format::escaped(s).len() ==> (
            #[trigger] manifest_format::escaped(s)[i]) != 10 && manifest_format::escaped(s)[i] != 13,
    decreases s.len(),
{
    if s.len() > 0 {
        lemma_no_newline_escaped(s.drop_last());
        let e = manifest_format::escaped(s);
        let f = manifest_format::escaped(s.drop_last());
        let t = manifest_format::escaped_byte(s.last());
        assert forall|i: int| 0 <= i < e.len() implies (#[trigger] e[i]) != 10 && e[i] != 13 by {
            if i < f.len() {
                assert(e[i] == f[i]);
            } else {
                assert(e[i] == t[i - f.len()]);
            }
        }
    }
}

proof fn lemma_no_newline(row: RowView)
    ensures
        forall|i: int|
            0 <= i < manifest_format::row_line(row).len() ==> (
            #[trigger] manifest_format::row_line(row)[i]) != 10,
        manifest_format::row_line(row).len() > 0,
        manifest_format::row_line(row)[0] == 102,
        manifest_format::row_line(row).last() == manifest_format::type_letter(row.kind),
{
    let b = vstd::utf8::encode_utf8(row.name);
    let n = manifest_format::name_bytes(b);
    lemma_no_newline_escaped(b);
    assert forall|i: int| 0 <= i < n.len() implies (#[trigger] n[i]) != 10 by {
        if manifest_format::needs_quotes(b) {
            let e = manifest_format::escaped(b);
            if 0 < i < n.len() - 1 {
                assert(n[i] == e[i - 1]);
            }
        } else if n[i] == 10 {
            assert(manifest_format::is_special(b[i]));
        }
    }
    let digits = decimal::dec_nat(row.seq as nat);
    decimal::lemma_dec_nat(row.seq as nat);
    let head = manifest::file_word() + seq![32u8];
    let mid = seq![32u8] + manifest::seq_word() + seq![32u8];
    let tail = seq![32u8] + manifest::type_word() + seq![32u8] + seq![
        manifest_format::type_letter(row.kind),
    ];
    let line = manifest_format::row_line(row);
    assert(line =~= head + n + mid + digits + tail);
    assert forall|i: int| 0 <= i < line.len() implies (#[trigger] line[i]) != 10 by {
        let a = head.len() as int;
        let c = a + n.len();
        let d = c + mid.len();
        let e = d + digits.len();
        if i < a {
            assert(line[i] == head[i]);
        } else if i < c {
            assert(line[i] == n[i - a]);
        } else if i < d {
            assert(line[i] == mid[i - c]);
        } else if i < e {
            assert(line[i] == digits[i - d]);
        } else {
            assert(line[i] == tail[i - e]);
        }
    }
}

/// A written row is read as the row.
proof fn lemma_line_step(m: ManifestView, row: RowView, line: int)
    requires
        row_valid(row),
        row_lasting(row),
    ensures
        manifest::line_step(m, manifest_format::row_line(row), line) == manifest::manifest_more(
            m,
            row,
            line,
        ),
{
    lemma_no_newline(row);
    lemma_row_args(row);
    lemma_row_fields(row, line);
    let s = manifest_format::row_line(row);
    assert(manifest::without_head(s) == s);
    assert(manifest::without_tail(s) == s);
}

proof fn lemma_newline_at(data: Seq<u8>, pos: int, end: int)
    requires
        0 <= pos <= end < data.len(),
        forall|i: int| pos <= i < end ==> #[trigger] data[i] != 10,
        data[end] == 10,
    ensures
        manifest::newline_from(data, pos) == end,
    decreases end - pos,
{
    if pos < end {
        lemma_newline_at(data, pos + 1, end);
    }
}

/// The manifest with more rows.
pub open spec fn with_rows(m: ManifestView, rows: Seq<RowView>, line: int) -> Result<
    ManifestView,
    ErrorView,
>
    decreases rows.len(),
{
    if rows.len() == 0 {
        Ok(m)
    } else {
        match with_rows(m, rows.drop_last(), line) {
            Err(e) => Err(e),
            Ok(n) => manifest::manifest_more(n, rows.last(), line + rows.len() - 1),
        }
    }
}

/// Every row can be in a manifest, and is read back.
pub open spec fn rows_fit(rows: Seq<RowView>) -> bool {
    forall|i: int| 0 <= i < rows.len() ==> row_valid(#[trigger] rows[i]) && row_lasting(rows[i])
}

proof fn lemma_rows_read(
    rows: Seq<RowView>,
    data: Seq<u8>,
    pos: int,
    line: int,
    m: ManifestView,
)
    requires
        rows_fit(rows),
        with_rows(m, rows, line) is Ok,
        bytes::has_at(data, pos, bytes::concat_all(manifest_format::row_encoder(), rows)),
    ensures
        manifest::lines_from(data, pos, line, m) == manifest::lines_from(
            data,
            pos + bytes::concat_all(manifest_format::row_encoder(), rows).len(),
            line + rows.len(),
            with_rows(m, rows, line)->Ok_0,
        ),
    decreases rows.len(),
{
    let e = manifest_format::row_encoder();
    if rows.len() > 0 {
        let front = rows.drop_last();
        let row = rows.last();
        bytes::lemma_has_at_concat(data, pos, bytes::concat_all(e, front), e(row));
        assert forall|i: int| 0 <= i < front.len() implies row_valid(#[trigger] front[i])
            && row_lasting(front[i]) by {
            assert(front[i] == rows[i]);
        }
        assert(row == rows[rows.len() - 1]);
        lemma_rows_read(front, data, pos, line, m);
        let n = with_rows(m, front, line)->Ok_0;
        let at = pos + bytes::concat_all(e, front).len();
        let s = manifest_format::row_line(row);
        let end = at + s.len();
        bytes::lemma_has_at_concat(data, at, s, seq![10u8]);
        assert(data[end + 0] == seq![10u8][0]);
        lemma_no_newline(row);
        assert forall|i: int| at <= i < end implies #[trigger] data[i] != 10 by {
            assert(data[at + (i - at)] == s[i - at]);
        }
        lemma_newline_at(data, at, end);
        bytes::lemma_has_at_subrange(data, at, s);
        assert(data[at + (s.len() - 1)] == s[s.len() - 1]);
        assert(manifest::raw_line(data, at, end) == s);
        lemma_line_step(n, row, line + front.len());
    }
}

// ---------------------------------------------------------------------------
// Manifests
// ---------------------------------------------------------------------------

/// The numbers ascend.
pub open spec fn seqs_ascend(rows: Seq<RowView>) -> bool {
    forall|i: int, j: int|
        0 <= i < j < rows.len() ==> (#[trigger] rows[i]).seq < (#[trigger] rows[j]).seq
}

/// Every row is of the kind, and can be in a manifest.
pub open spec fn rows_are(rows: Seq<RowView>, kind: AofManifestFileType) -> bool {
    forall|i: int| 0 <= i < rows.len() ==> (#[trigger] rows[i]).kind == kind && row_valid(rows[i])
}

/// The number of the last row, or zero.
pub open spec fn last_seq(rows: Seq<RowView>) -> u64 {
    if rows.len() == 0 {
        0
    } else {
        rows.last().seq
    }
}

/// A manifest that can be read: its rows are of their kinds, their numbers and names
/// are right, the numbers of increments ascend, and the current numbers are those of
/// the base and of the last increment.
pub open spec fn manifest_wf(m: ManifestView) -> bool {
    &&& match m.base {
        None => m.base_seq == 0,
        Some(b) => b.kind is Base && row_valid(b) && m.base_seq == b.seq,
    }
    &&& rows_are(m.history, AofManifestFileType::History)
    &&& rows_are(m.incremental, AofManifestFileType::Incremental)
    &&& seqs_ascend(m.incremental)
    &&& m.incr_seq == last_seq(m.incremental)
}

proof fn lemma_more_wf(m: ManifestView, row: RowView, line: int)
    requires
        manifest_wf(m),
        row_valid(row),
    ensures
        manifest::manifest_more(m, row, line) matches Ok(n) ==> manifest_wf(n),
{
    if row.kind is Incremental && row.seq > m.incr_seq {
        let now = m.incremental.push(row);
        assert forall|i: int, j: int| 0 <= i < j < now.len() implies (#[trigger] now[i]).seq < (
        #[trigger] now[j]).seq by {
            if j == m.incremental.len() {
                if i < j - 1 {
                    assert(m.incremental[i].seq < m.incremental[j - 1].seq);
                }
            } else {
                assert(m.incremental[i].seq < m.incremental[j].seq);
            }
        }
    }
}

proof fn lemma_sequence_positive(argv: Seq<Seq<u8>>, k: nat, line: int)
    ensures
        manifest::fields_upto(argv, k, line) matches Ok(f) ==> (f.seq matches Some(n) ==> n > 0),
    decreases k,
{
    if k > 0 {
        lemma_sequence_positive(argv, (k - 1) as nat, line);
    }
}

proof fn lemma_lines_wf(data: Seq<u8>, pos: int, line: int, m: ManifestView)
    requires
        manifest_wf(m),
        0 <= pos,
    ensures
        manifest::lines_from(data, pos, line, m) matches Ok(n) ==> manifest_wf(n),
    decreases data.len() + 1 - pos,
{
    if pos < data.len() {
        let end = manifest::newline_from(data, pos);
        manifest::lemma_newline(data, pos);
        let raw = manifest::raw_line(data, pos, end);
        let s = manifest::stripped(raw);
        if let Ok(next) = manifest::line_step(m, raw, line) {
            if !(s.len() == 0 || s[0] == 35) {
                let argv = manifest::args_of(s)->Some_0;
                lemma_sequence_positive(argv, (argv.len() / 2) as nat, line);
                let row = manifest::row_at(argv, line)->Ok_0;
                lemma_more_wf(m, row, line);
            }
            lemma_lines_wf(data, end + 1, line + 1, next);
        }
    }
}

/// What is read is a manifest with rows, all of them right.
pub proof fn law_read_manifest_is_wf(data: Seq<u8>)
    ensures
        manifest::manifest_of(data) matches Ok(m) ==> manifest_wf(m) && !manifest::has_no_rows(m),
{
    lemma_lines_wf(data, 0, 1, manifest::no_files());
}

proof fn lemma_with_history(m: ManifestView, rows: Seq<RowView>, line: int)
    requires
        rows_are(rows, AofManifestFileType::History),
    ensures
        with_rows(m, rows, line) == Ok::<ManifestView, ErrorView>(
            ManifestView { history: m.history + rows, ..m },
        ),
    decreases rows.len(),
{
    if rows.len() == 0 {
        assert(m.history + rows =~= m.history);
    } else {
        let front = rows.drop_last();
        assert forall|i: int| 0 <= i < front.len() implies (#[trigger] front[i]).kind
            == AofManifestFileType::History && row_valid(front[i]) by {
            assert(front[i] == rows[i]);
        }
        assert(rows[rows.len() - 1].kind == AofManifestFileType::History);
        lemma_with_history(m, front, line);
        assert((m.history + front).push(rows.last()) =~= m.history + rows);
    }
}

proof fn lemma_with_increments(m: ManifestView, rows: Seq<RowView>, line: int)
    requires
        rows_are(rows, AofManifestFileType::Incremental),
        seqs_ascend(rows),
        m.incr_seq == 0,
    ensures
        with_rows(m, rows, line) == Ok::<ManifestView, ErrorView>(
            ManifestView {
                incremental: m.incremental + rows,
                incr_seq: last_seq(rows),
                ..m
            },
        ),
    decreases rows.len(),
{
    if rows.len() == 0 {
        assert(m.incremental + rows =~= m.incremental);
    } else {
        let front = rows.drop_last();
        assert forall|i: int| 0 <= i < front.len() implies (#[trigger] front[i]).kind
            == AofManifestFileType::Incremental && row_valid(front[i]) by {
            assert(front[i] == rows[i]);
        }
        assert forall|i: int, j: int| 0 <= i < j < front.len() implies (#[trigger] front[i]).seq < (
        #[trigger] front[j]).seq by {
            assert(rows[i].seq < rows[j].seq);
        }
        assert(rows[rows.len() - 1].kind == AofManifestFileType::Incremental);
        lemma_with_increments(m, front, line);
        if front.len() > 0 {
            assert(rows[rows.len() - 2].seq < rows[rows.len() - 1].seq);
        }
        assert((m.incremental + front).push(rows.last()) =~= m.incremental + rows);
    }
}

proof fn lemma_with_rows_append(
    m: ManifestView,
    left: Seq<RowView>,
    right: Seq<RowView>,
    line: int,
)
    requires
        with_rows(m, left, line) is Ok,
    ensures
        with_rows(m, left + right, line) == with_rows(
            with_rows(m, left, line)->Ok_0,
            right,
            line + left.len(),
        ),
    decreases right.len(),
{
    if right.len() == 0 {
        assert(left + right =~= left);
    } else {
        assert((left + right).drop_last() =~= left + right.drop_last());
        lemma_with_rows_append(m, left, right.drop_last(), line);
    }
}

/// A manifest reads back as it was written, if the names are ASCII and no row takes too long
/// a line.
pub proof fn law_manifest_round_trip(m: ManifestView)
    requires
        manifest_wf(m),
        !manifest::has_no_rows(m),
        forall|i: int|
            0 <= i < manifest_format::rows_of(m).len() ==> row_lasting(
                #[trigger] manifest_format::rows_of(m)[i],
            ),
    ensures
        manifest::manifest_of(manifest_format::manifest_bytes(m)) == Ok::<ManifestView, ErrorView>(
            m,
        ),
{
    let rows = manifest_format::rows_of(m);
    let data = manifest_format::manifest_bytes(m);
    let head = match m.base {
        None => Seq::empty(),
        Some(b) => seq![b],
    };
    let n0 = manifest::no_files();
    let n1 = ManifestView { base: m.base, base_seq: m.base_seq, ..n0 };
    assert(with_rows(n0, head, 1) == Ok::<ManifestView, ErrorView>(n1)) by {
        if m.base is Some {
            assert(head.drop_last() =~= Seq::empty());
            assert(with_rows(n0, head.drop_last(), 1) == Ok::<ManifestView, ErrorView>(n0));
        }
    }
    let n2 = ManifestView { history: n1.history + m.history, ..n1 };
    lemma_with_history(n1, m.history, 1 + head.len() as int);
    lemma_with_increments(n2, m.incremental, 1 + (head + m.history).len() as int);
    lemma_with_rows_append(n0, head, m.history, 1);
    lemma_with_rows_append(n0, head + m.history, m.incremental, 1);
    assert(n0.history + m.history =~= m.history);
    assert(n0.incremental + m.incremental =~= m.incremental);
    assert(with_rows(n0, rows, 1) == Ok::<ManifestView, ErrorView>(m));
    assert forall|i: int| 0 <= i < rows.len() implies row_valid(#[trigger] rows[i]) && row_lasting(
        rows[i],
    ) by {
        let a = head.len() as int;
        let b = a + m.history.len();
        if i < a {
            assert(rows[i] == head[i]);
        } else if i < b {
            assert(rows[i] == m.history[i - a]);
        } else {
            assert(rows[i] == m.incremental[i - b]);
        }
    }
    bytes::lemma_has_at_whole(data);
    lemma_rows_read(rows, data, 0, 1, n0);
}

} // verus!
