//! Writing manifests.

use vstd::prelude::*;

use crate::bytes;
use crate::decimal;
use crate::decimal::push_decimal_u64;
use crate::manifest;
use crate::manifest::{AofManifest, AofManifestEntry, AofManifestFileType, ManifestView, RowView};
use crate::text;
use crate::text::{push_wide, string_from_utf8};

verus! {

// ---------------------------------------------------------------------------
// What is written
// ---------------------------------------------------------------------------

/// The byte has a meaning of its own in a line.
pub open spec fn is_special(b: u8) -> bool {
    manifest::is_space(b) || b == 34 || b == 39 || b == 92
}

/// A byte of a quoted name. A byte that is not ASCII is written as a character.
pub open spec fn escaped_byte(b: u8) -> Seq<u8> {
    if b == 10 {
        seq![92u8, 110u8]
    } else if b == 13 {
        seq![92u8, 114u8]
    } else if b == 9 {
        seq![92u8, 116u8]
    } else if b == 34 || b == 92 {
        seq![92u8, b]
    } else {
        text::wide(b)
    }
}

/// The bytes of a quoted name.
pub open spec fn escaped(s: Seq<u8>) -> Seq<u8>
    decreases s.len(),
{
    if s.len() == 0 {
        Seq::empty()
    } else {
        escaped(s.drop_last()) + escaped_byte(s.last())
    }
}

/// Some byte of the name has a meaning of its own.
pub open spec fn needs_quotes(s: Seq<u8>) -> bool {
    exists|i: int| 0 <= i < s.len() && is_special(#[trigger] s[i])
}

/// A name, in quotes where it needs them.
pub open spec fn name_bytes(s: Seq<u8>) -> Seq<u8> {
    if needs_quotes(s) {
        seq![34u8] + escaped(s) + seq![34u8]
    } else {
        s
    }
}

/// The letter of a type.
pub open spec fn type_letter(kind: AofManifestFileType) -> u8 {
    match kind {
        AofManifestFileType::Base => 98,
        AofManifestFileType::History => 104,
        AofManifestFileType::Incremental => 105,
    }
}

/// A row without the end of its line.
pub open spec fn row_line(row: RowView) -> Seq<u8> {
    manifest::file_word() + seq![32u8] + name_bytes(vstd::utf8::encode_utf8(row.name)) + seq![32u8]
        + manifest::seq_word() + seq![32u8] + decimal::dec_nat(row.seq as nat) + seq![32u8]
        + manifest::type_word() + seq![32u8] + seq![type_letter(row.kind)]
}

/// A row.
pub open spec fn row_encoder() -> spec_fn(RowView) -> Seq<u8> {
    |row: RowView| row_line(row) + seq![10u8]
}

/// The rows of a manifest: the base, history, increments.
pub open spec fn rows_of(m: ManifestView) -> Seq<RowView> {
    (match m.base {
        None => Seq::empty(),
        Some(b) => seq![b],
    }) + m.history + m.incremental
}

/// The bytes of a manifest.
pub open spec fn manifest_bytes(m: ManifestView) -> Seq<u8> {
    bytes::concat_all(row_encoder(), rows_of(m))
}

// ---------------------------------------------------------------------------
// What is written is text
// ---------------------------------------------------------------------------

proof fn lemma_escaped_valid(s: Seq<u8>)
    ensures
        vstd::utf8::valid_utf8(escaped(s)),
    decreases s.len(),
{
    if s.len() > 0 {
        let b = s.last();
        lemma_escaped_valid(s.drop_last());
        if b == 10 || b == 13 || b == 9 || b == 34 || b == 92 {
            text::lemma_ascii_valid(escaped_byte(b));
        } else {
            text::lemma_wide_valid(b);
        }
        vstd::utf8::valid_utf8_concat(escaped(s.drop_last()), escaped_byte(b));
    }
}

proof fn lemma_row_valid(row: RowView)
    ensures
        vstd::utf8::valid_utf8(row_encoder()(row)),
{
    let b = vstd::utf8::encode_utf8(row.name);
    vstd::utf8::encode_utf8_valid_utf8(row.name);
    let name = name_bytes(b);
    let head = manifest::file_word() + seq![32u8];
    let digits = decimal::dec_nat(row.seq as nat);
    decimal::lemma_dec_nat(row.seq as nat);
    let tail = seq![32u8] + manifest::seq_word() + seq![32u8] + digits + seq![32u8]
        + manifest::type_word() + seq![32u8] + seq![type_letter(row.kind)] + seq![10u8];
    text::lemma_ascii_valid(head);
    text::lemma_ascii_valid(tail);
    if needs_quotes(b) {
        lemma_escaped_valid(b);
        text::lemma_ascii_valid(seq![34u8]);
        vstd::utf8::valid_utf8_concat(seq![34u8], escaped(b));
        vstd::utf8::valid_utf8_concat(seq![34u8] + escaped(b), seq![34u8]);
    }
    vstd::utf8::valid_utf8_concat(head, name);
    vstd::utf8::valid_utf8_concat(head + name, tail);
    assert(row_encoder()(row) =~= head + name + tail);
}

proof fn lemma_rows_valid(rows: Seq<RowView>)
    ensures
        vstd::utf8::valid_utf8(bytes::concat_all(row_encoder(), rows)),
    decreases rows.len(),
{
    if rows.len() > 0 {
        lemma_rows_valid(rows.drop_last());
        lemma_row_valid(rows.last());
        vstd::utf8::valid_utf8_concat(
            bytes::concat_all(row_encoder(), rows.drop_last()),
            row_encoder()(rows.last()),
        );
    }
}

// ---------------------------------------------------------------------------
// Writing
// ---------------------------------------------------------------------------

fn push_escaped(out: &mut Vec<u8>, name: &[u8])
    ensures
        final(out)@ == old(out)@ + escaped(name@),
{
    let ghost start = out@;
    let mut i: usize = 0;
    assert(name@.take(0) =~= Seq::empty());
    assert(start + escaped(name@.take(0)) =~= start);
    while i < name.len()
        invariant
            i <= name@.len(),
            out@ == start + escaped(name@.take(i as int)),
        decreases name@.len() - i,
    {
        let b: u8 = name[i];
        let ghost before = out@;
        if b == 10 {
            out.push(92);
            out.push(110);
        } else if b == 13 {
            out.push(92);
            out.push(114);
        } else if b == 9 {
            out.push(92);
            out.push(116);
        } else if b == 34 || b == 92 {
            out.push(92);
            out.push(b);
        } else {
            push_wide(out, b);
        }
        proof {
            assert(out@ =~= before + escaped_byte(b));
            assert(name@.take(i as int + 1).drop_last() =~= name@.take(i as int));
            bytes::lemma_add_assoc(start, escaped(name@.take(i as int)), escaped_byte(b));
        }
        i = i + 1;
    }
    assert(name@.take(i as int) =~= name@);
}

fn name_needs_quotes(name: &[u8]) -> (r: bool)
    ensures
        r == needs_quotes(name@),
{
    let mut i: usize = 0;
    while i < name.len()
        invariant
            i <= name@.len(),
            forall|k: int| 0 <= k < i ==> !is_special(#[trigger] name@[k]),
        decreases name@.len() - i,
    {
        let b: u8 = name[i];
        if b == 32 || b == 9 || b == 10 || b == 12 || b == 13 || b == 34 || b == 39 || b == 92 {
            assert(is_special(name@[i as int]));
            return true;
        }
        i = i + 1;
    }
    false
}

/// Appends a name, in quotes where it needs them.
fn format_manifest_file_name(out: &mut Vec<u8>, name: &[u8])
    ensures
        final(out)@ == old(out)@ + name_bytes(name@),
{
    if name_needs_quotes(name) {
        out.push(34);
        push_escaped(out, name);
        out.push(34);
        assert(out@ =~= old(out)@ + name_bytes(name@));
    } else {
        out.extend_from_slice(name);
    }
}

impl AofManifestFileType {
    /// The letter of the type.
    fn as_manifest_char(self) -> (b: u8)
        ensures
            b == type_letter(self),
    {
        match self {
            AofManifestFileType::Base => 98,
            AofManifestFileType::History => 104,
            AofManifestFileType::Incremental => 105,
        }
    }
}

/// Appends a row.
fn push_manifest_entry(out: &mut Vec<u8>, entry: &AofManifestEntry)
    ensures
        final(out)@ == old(out)@ + row_encoder()(entry@),
{
    let file: [u8; 5] = [102, 105, 108, 101, 32];
    let seq: [u8; 5] = [32, 115, 101, 113, 32];
    let kind: [u8; 6] = [32, 116, 121, 112, 101, 32];
    out.extend_from_slice(file.as_slice());
    format_manifest_file_name(out, entry.file_name.as_str().as_bytes());
    out.extend_from_slice(seq.as_slice());
    push_decimal_u64(out, entry.file_seq);
    out.extend_from_slice(kind.as_slice());
    out.push(entry.file_type.as_manifest_char());
    out.push(10);
    proof {
        assert(file@ =~= manifest::file_word() + seq![32u8]);
        assert(seq@ =~= seq![32u8] + manifest::seq_word() + seq![32u8]);
        assert(kind@ =~= seq![32u8] + manifest::type_word() + seq![32u8]);
        assert(out@ =~= old(out)@ + row_encoder()(entry@));
    }
}

fn push_rows(out: &mut Vec<u8>, rows: &Vec<AofManifestEntry>)
    ensures
        final(out)@ == old(out)@ + bytes::concat_all(row_encoder(), manifest::row_views(rows@)),
{
    let ghost start = out@;
    let ghost all = manifest::row_views(rows@);
    let ghost e = row_encoder();
    let mut i: usize = 0;
    assert(all.take(0) =~= Seq::empty());
    assert(start + bytes::concat_all(e, all.take(0)) =~= start);
    while i < rows.len()
        invariant
            i <= rows@.len(),
            all == manifest::row_views(rows@),
            e == row_encoder(),
            out@ == start + bytes::concat_all(e, all.take(i as int)),
        decreases rows@.len() - i,
    {
        assert(all[i as int] == rows@[i as int]@);
        push_manifest_entry(out, &rows[i]);
        proof {
            bytes::lemma_concat_take(e, all, i as int);
            bytes::lemma_add_assoc(
                start,
                bytes::concat_all(e, all.take(i as int)),
                e(all[i as int]),
            );
        }
        i = i + 1;
    }
    assert(all.take(i as int) =~= all);
}

/// Writes a manifest: the base, history, increments, a row each.
pub fn format_aof_manifest(manifest: &AofManifest) -> (out: String)
    ensures
        vstd::utf8::encode_utf8(out@) == manifest_bytes(manifest@),
{
    let ghost m = manifest@;
    let ghost e = row_encoder();
    let mut out: Vec<u8> = Vec::new();
    if let Some(base) = &manifest.base {
        push_manifest_entry(&mut out, base);
    }
    let ghost head = match m.base {
        None => Seq::empty(),
        Some(b) => seq![b],
    };
    proof {
        if m.base is Some {
            assert(head.drop_last() =~= Seq::empty());
            assert(bytes::concat_all(e, head.drop_last()) =~= Seq::empty());
            assert(bytes::concat_all(e, head) =~= e(head[0]));
        }
        assert(out@ =~= bytes::concat_all(e, head));
    }
    push_rows(&mut out, &manifest.history);
    push_rows(&mut out, &manifest.incremental);
    proof {
        bytes::lemma_concat_append(e, head, m.history);
        bytes::lemma_concat_append(e, head + m.history, m.incremental);
        assert(out@ == manifest_bytes(m));
        lemma_rows_valid(rows_of(m));
        vstd::utf8::decode_utf8_encode_utf8(out@);
    }
    match string_from_utf8(out) {
        Some(s) => s,
        None => String::new(),
    }
}

} // verus!
