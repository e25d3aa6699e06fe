//! Manifests of command logs that are kept in several files.
//!
//! A manifest has a row for each file: the file's name, its number, and whether it is
//! the base, an increment, or history. A row is made of names and values, parted by
//! white space; quotes and backslashes keep white space in a value. A value is read byte by
//! byte, and each byte is a character of it: a name comes back only where it is ASCII.

use vstd::prelude::*;

use crate::aof_tail;
use crate::bytes;
use crate::decimal;
use crate::decimal::parse_digits;
use crate::persist_error::{ErrorView, PersistError};
use crate::text;
use crate::text::text_per_byte;

verus! {

/// What a file of a log is.
#[derive(Debug, Clone, Copy, PartialEq, Eq, Structural)]
pub enum AofManifestFileType {
    Base,
    History,
    Incremental,
}

/// A file of a log.
#[derive(Debug, Clone, PartialEq, Eq)]
pub struct AofManifestEntry {
    pub file_name: String,
    pub file_seq: u64,
    pub file_type: AofManifestFileType,
}

/// The files of a log.
#[derive(Debug, Clone, PartialEq, Eq)]
pub struct AofManifest {
    pub base: Option<AofManifestEntry>,
    pub history: Vec<AofManifestEntry>,
    pub incremental: Vec<AofManifestEntry>,
    pub curr_base_file_seq: u64,
    pub curr_incr_file_seq: u64,
}

/// What a row says.
#[verifier::ext_equal]
pub struct RowView {
    pub name: Seq<char>,
    pub seq: u64,
    pub kind: AofManifestFileType,
}

/// What a manifest says.
#[verifier::ext_equal]
pub struct ManifestView {
    pub base: Option<RowView>,
    pub history: Seq<RowView>,
    pub incremental: Seq<RowView>,
    pub base_seq: u64,
    pub incr_seq: u64,
}

impl View for AofManifestEntry {
    type V = RowView;

    open spec fn view(&self) -> RowView {
        RowView { name: self.file_name@, seq: self.file_seq, kind: self.file_type }
    }
}

/// What rows say.
pub open spec fn row_views(rows: Seq<AofManifestEntry>) -> Seq<RowView> {
    rows.map_values(|r: AofManifestEntry| r@)
}

impl View for AofManifest {
    type V = ManifestView;

    open spec fn view(&self) -> ManifestView {
        ManifestView {
            base: match self.base {
                None => None,
                Some(b) => Some(b@),
            },
            history: row_views(self.history@),
            incremental: row_views(self.incremental@),
            base_seq: self.curr_base_file_seq,
            incr_seq: self.curr_incr_file_seq,
        }
    }
}

/// No files.
pub open spec fn no_files() -> ManifestView {
    ManifestView {
        base: None,
        history: Seq::empty(),
        incremental: Seq::empty(),
        base_seq: 0,
        incr_seq: 0,
    }
}

impl Default for AofManifest {
    fn default() -> (m: Self)
        ensures
            m@ == no_files(),
    {
        let m = AofManifest {
            base: None,
            history: Vec::new(),
            incremental: Vec::new(),
            curr_base_file_seq: 0,
            curr_incr_file_seq: 0,
        };
        assert(m@ =~= no_files());
        m
    }
}

/// The manifest has no rows.
pub open spec fn has_no_rows(m: ManifestView) -> bool {
    m.base is None && m.history.len() == 0 && m.incremental.len() == 0
}

/// The rows to replay: the base, then the increments.
pub open spec fn replayed_rows(m: ManifestView) -> Seq<RowView> {
    match m.base {
        None => m.incremental,
        Some(b) => seq![b] + m.incremental,
    }
}

impl AofManifest {
    /// Whether the manifest has no rows.
    pub fn is_empty(&self) -> (r: bool)
        ensures
            r == has_no_rows(self@),
    {
        self.base.is_none() && self.history.len() == 0 && self.incremental.len() == 0
    }

    /// The files to replay, in order: the base, then the increments.
    pub fn replay_entries(&self) -> (rows: Vec<&AofManifestEntry>)
        ensures
            rows@.map_values(|r: &AofManifestEntry| r@) == replayed_rows(self@),
    {
        let mut rows: Vec<&AofManifestEntry> = Vec::new();
        if let Some(base) = &self.base {
            rows.push(base);
        }
        let ghost head = rows@.map_values(|r: &AofManifestEntry| r@);
        let ghost all = row_views(self.incremental@);
        let mut i: usize = 0;
        assert(head + all.take(0) =~= head);
        while i < self.incremental.len()
            invariant
                i <= self.incremental@.len(),
                all == row_views(self.incremental@),
                rows@.map_values(|r: &AofManifestEntry| r@) == head + all.take(i as int),
            decreases self.incremental@.len() - i,
        {
            let ghost before = rows@.map_values(|r: &AofManifestEntry| r@);
            rows.push(&self.incremental[i]);
            proof {
                assert(rows@.map_values(|r: &AofManifestEntry| r@) =~= before.push(all[i as int]));
                assert(head + all.take(i as int + 1) =~= (head + all.take(i as int)).push(
                    all[i as int],
                ));
            }
            i = i + 1;
        }
        proof {
            assert(all.take(i as int) =~= all);
            assert(head + all =~= replayed_rows(self@));
        }
        rows
    }
}

// ---------------------------------------------------------------------------
// What a row says
// ---------------------------------------------------------------------------

/// A wrong line.
pub open spec fn wrong<X>(line: int, reason: Seq<char>) -> Result<X, ErrorView> {
    Err(ErrorView::ManifestParse { line, reason })
}

/// ASCII white space.
pub open spec fn is_space(b: u8) -> bool {
    b == 32 || b == 9 || b == 10 || b == 12 || b == 13
}

/// A byte behind a backslash.
pub open spec fn unescaped(b: u8) -> u8 {
    if b == 110 {
        10
    } else if b == 114 {
        13
    } else if b == 116 {
        9
    } else {
        b
    }
}

/// The arguments of a line from `i` on, behind those already found. `arg` is the one
/// that is being read, and `quote` the quote that it is in.
pub open spec fn args_from(
    line: Seq<u8>,
    i: int,
    args: Seq<Seq<u8>>,
    arg: Option<Seq<u8>>,
    quote: Option<u8>,
) -> Option<Seq<Seq<u8>>>
    decreases line.len() - i,
{
    let so_far = match arg {
        Some(a) => a,
        None => Seq::empty(),
    };
    if i >= line.len() {
        if quote is Some {
            None
        } else {
            match arg {
                None => Some(args),
                Some(a) => Some(args.push(a)),
            }
        }
    } else {
        let b = line[i];
        if quote == Some(b) {
            args_from(line, i + 1, args, Some(so_far), None)
        } else if quote is None && is_space(b) {
            match arg {
                None => args_from(line, i + 1, args, None, None),
                Some(a) => args_from(line, i + 1, args.push(a), None, None),
            }
        } else if quote is None && (b == 34 || b == 39) {
            args_from(line, i + 1, args, Some(so_far), Some(b))
        } else if b == 92 {
            if i + 1 >= line.len() {
                None
            } else {
                args_from(line, i + 2, args, Some(so_far.push(unescaped(line[i + 1]))), quote)
            }
        } else {
            args_from(line, i + 1, args, Some(so_far.push(b)), quote)
        }
    }
}

/// The arguments of a line.
pub open spec fn args_of(line: Seq<u8>) -> Option<Seq<Seq<u8>>> {
    args_from(line, 0, Seq::empty(), None, None)
}

/// The string is the word, in any mix of cases.
pub open spec fn is_word(s: Seq<u8>, word: Seq<u8>) -> bool {
    &&& s.len() == word.len()
    &&& forall|i: int| 0 <= i < s.len() ==> aof_tail::lower(#[trigger] s[i]) == word[i]
}

/// The word `file`.
pub open spec fn file_word() -> Seq<u8> {
    seq![102u8, 105u8, 108u8, 101u8]
}

/// The word `seq`.
pub open spec fn seq_word() -> Seq<u8> {
    seq![115u8, 101u8, 113u8]
}

/// The word `type`.
pub open spec fn type_word() -> Seq<u8> {
    seq![116u8, 121u8, 112u8, 101u8]
}

/// The number that a value is: digits without a leading zero, not zero.
pub open spec fn sequence_of(value: Seq<u8>) -> Option<u64> {
    if decimal::canonical_digits(value) && 0 < decimal::digits_value(value) <= u64::MAX {
        Some(decimal::digits_value(value) as u64)
    } else {
        None
    }
}

/// The type that a value is.
pub open spec fn type_of(value: Seq<u8>, line: int) -> Result<AofManifestFileType, ErrorView> {
    if value.len() != 1 || value[0] >= 0x80 {
        wrong(line, "invalid file type"@)
    } else if value[0] == 98 {
        Ok(AofManifestFileType::Base)
    } else if value[0] == 104 {
        Ok(AofManifestFileType::History)
    } else if value[0] == 105 {
        Ok(AofManifestFileType::Incremental)
    } else {
        wrong(line, "unknown file type"@)
    }
}

/// The fields of a row.
#[verifier::ext_equal]
pub struct RowFields {
    pub name: Option<Seq<char>>,
    pub seq: Option<u64>,
    pub kind: Option<AofManifestFileType>,
}

/// The fields with one more: a field may be given once; one that is not known is
/// passed over.
pub open spec fn fields_more(f: RowFields, key: Seq<u8>, value: Seq<u8>, line: int) -> Result<
    RowFields,
    ErrorView,
> {
    if is_word(key, file_word()) {
        if f.name is Some {
            wrong(line, "duplicate file field"@)
        } else {
            Ok(RowFields { name: Some(text::char_per_byte(value)), ..f })
        }
    } else if is_word(key, seq_word()) {
        match sequence_of(value) {
            None => wrong(line, "invalid seq field"@),
            Some(n) => if f.seq is Some {
                wrong(line, "duplicate seq field"@)
            } else {
                Ok(RowFields { seq: Some(n), ..f })
            },
        }
    } else if is_word(key, type_word()) {
        match type_of(value, line) {
            Err(e) => Err(e),
            Ok(kind) => if f.kind is Some {
                wrong(line, "duplicate type field"@)
            } else {
                Ok(RowFields { kind: Some(kind), ..f })
            },
        }
    } else {
        Ok(f)
    }
}

/// The fields of the first `k` names and values.
pub open spec fn fields_upto(argv: Seq<Seq<u8>>, k: nat, line: int) -> Result<
    RowFields,
    ErrorView,
>
    decreases k,
{
    if k == 0 {
        Ok(RowFields { name: None, seq: None, kind: None })
    } else {
        match fields_upto(argv, (k - 1) as nat, line) {
            Err(e) => Err(e),
            Ok(f) => fields_more(f, argv[2 * (k - 1)], argv[2 * (k - 1) + 1], line),
        }
    }
}

/// The name is that of a file, not a path.
pub open spec fn is_basename(name: Seq<char>) -> bool {
    let b = vstd::utf8::encode_utf8(name);
    &&& b.len() > 0
    &&& forall|i: int| 0 <= i < b.len() ==> #[trigger] b[i] != 47 && b[i] != 92
}

/// The row of fields.
pub open spec fn row_of(f: RowFields, line: int) -> Result<RowView, ErrorView> {
    match f.name {
        None => wrong(line, "missing file field"@),
        Some(name) => if !is_basename(name) {
            Err(ErrorView::ManifestPath { line, file_name: name })
        } else {
            match f.seq {
                None => wrong(line, "missing seq field"@),
                Some(seq) => match f.kind {
                    None => wrong(line, "missing type field"@),
                    Some(kind) => Ok(RowView { name, seq, kind }),
                },
            }
        },
    }
}

/// The row that arguments are.
pub open spec fn row_at(argv: Seq<Seq<u8>>, line: int) -> Result<RowView, ErrorView> {
    match fields_upto(argv, (argv.len() / 2) as nat, line) {
        Err(e) => Err(e),
        Ok(f) => row_of(f, line),
    }
}

// ---------------------------------------------------------------------------
// What a manifest says
// ---------------------------------------------------------------------------

/// The greatest length of a line.
pub const AOF_MANIFEST_MAX_LINE: usize = 1024;

/// Where the line at `pos` ends: at a newline, or with the data.
pub open spec fn newline_from(data: Seq<u8>, pos: int) -> int
    decreases data.len() - pos,
{
    if 0 <= pos < data.len() && data[pos] != 10 {
        newline_from(data, pos + 1)
    } else {
        pos
    }
}

/// The line from `pos` to `end`, without a carriage return before a newline.
pub open spec fn raw_line(data: Seq<u8>, pos: int, end: int) -> Seq<u8> {
    if pos < end < data.len() && data[end - 1] == 13 {
        data.subrange(pos, end - 1)
    } else {
        data.subrange(pos, end)
    }
}

/// A byte that is cut off at the ends of a line.
pub open spec fn is_margin(b: u8) -> bool {
    b == 32 || b == 9 || b == 13 || b == 10
}

/// The line without white space at its start.
pub open spec fn without_head(s: Seq<u8>) -> Seq<u8>
    decreases s.len(),
{
    if s.len() > 0 && is_margin(s[0]) {
        without_head(s.drop_first())
    } else {
        s
    }
}

/// The line without white space at its end.
pub open spec fn without_tail(s: Seq<u8>) -> Seq<u8>
    decreases s.len(),
{
    if s.len() > 0 && is_margin(s.last()) {
        without_tail(s.drop_last())
    } else {
        s
    }
}

/// The line without white space at its ends.
pub open spec fn stripped(s: Seq<u8>) -> Seq<u8> {
    without_tail(without_head(s))
}

/// The manifest with one more row: one base at most, and the numbers of increments
/// ascend.
pub open spec fn manifest_more(m: ManifestView, row: RowView, line: int) -> Result<
    ManifestView,
    ErrorView,
> {
    match row.kind {
        AofManifestFileType::Base => if m.base is Some {
            wrong(line, "duplicate base file"@)
        } else {
            Ok(ManifestView { base: Some(row), base_seq: row.seq, ..m })
        },
        AofManifestFileType::History => Ok(ManifestView { history: m.history.push(row), ..m }),
        AofManifestFileType::Incremental => if row.seq <= m.incr_seq {
            wrong(line, "non-monotonic incremental sequence"@)
        } else {
            Ok(
                ManifestView {
                    incremental: m.incremental.push(row),
                    incr_seq: row.seq,
                    ..m
                },
            )
        },
    }
}

/// The manifest with one more line: blank lines and comments are passed over.
pub open spec fn line_step(m: ManifestView, raw: Seq<u8>, line: int) -> Result<
    ManifestView,
    ErrorView,
> {
    let s = stripped(raw);
    if raw.len() > AOF_MANIFEST_MAX_LINE {
        wrong(line, "line too long"@)
    } else if s.len() == 0 || s[0] == 35 {
        Ok(m)
    } else {
        match args_of(s) {
            None => wrong(line, "invalid manifest quoting"@),
            Some(argv) => if argv.len() < 6 || argv.len() % 2 != 0 {
                wrong(line, "invalid field count"@)
            } else {
                match row_at(argv, line) {
                    Err(e) => Err(e),
                    Ok(row) => manifest_more(m, row, line),
                }
            },
        }
    }
}

pub proof fn lemma_newline(data: Seq<u8>, pos: int)
    requires
        0 <= pos <= data.len(),
    ensures
        pos <= newline_from(data, pos) <= data.len(),
    decreases data.len() - pos,
{
    if pos < data.len() && data[pos] != 10 {
        lemma_newline(data, pos + 1);
    }
}

/// The lines from `pos` on, behind what is already read.
pub open spec fn lines_from(data: Seq<u8>, pos: int, line: int, m: ManifestView) -> Result<
    ManifestView,
    ErrorView,
>
    decreases data.len() + 1 - pos,
{
    if 0 <= pos < data.len() {
        let end = newline_from(data, pos);
        proof {
            lemma_newline(data, pos);
        }
        match line_step(m, raw_line(data, pos, end), line) {
            Err(e) => Err(e),
            Ok(next) => lines_from(data, end + 1, line + 1, next),
        }
    } else {
        Ok(m)
    }
}

/// The manifest that bytes are. One without rows is rejected.
pub open spec fn manifest_of(data: Seq<u8>) -> Result<ManifestView, ErrorView> {
    match lines_from(data, 0, 1, no_files()) {
        Err(e) => Err(e),
        Ok(m) => if has_no_rows(m) {
            wrong(0, "empty manifest"@)
        } else {
            Ok(m)
        },
    }
}

// ---------------------------------------------------------------------------
// Reading
// ---------------------------------------------------------------------------

fn wrong_line(line: usize, reason: &'static str) -> (e: PersistError)
    ensures
        e@ == (ErrorView::ManifestParse { line: line as int, reason: reason@ }),
{
    PersistError::ManifestParseViolation { line, reason }
}

fn space(b: u8) -> (r: bool)
    ensures
        r == is_space(b),
{
    b == 32 || b == 9 || b == 10 || b == 12 || b == 13
}

fn unescape_manifest_byte(b: u8) -> (r: u8)
    ensures
        r == unescaped(b),
{
    if b == 110 {
        10
    } else if b == 114 {
        13
    } else if b == 116 {
        9
    } else {
        b
    }
}

spec fn arg_view(arg: Option<Vec<u8>>) -> Option<Seq<u8>> {
    match arg {
        None => None,
        Some(a) => Some(a@),
    }
}

fn arg_or_new(arg: Option<Vec<u8>>) -> (a: Vec<u8>)
    ensures
        a@ == match arg {
            Some(a) => a@,
            None => Seq::empty(),
        },
{
    match arg {
        Some(a) => a,
        None => Vec::new(),
    }
}

/// The arguments of a line.
fn split_manifest_args(line: &[u8]) -> (r: Option<Vec<Vec<u8>>>)
    ensures
        match r {
            Some(args) => args_of(line@) == Some(bytes::views(args@)),
            None => args_of(line@) is None,
        },
{
    let len: usize = line.len();
    let mut args: Vec<Vec<u8>> = Vec::new();
    let mut arg: Option<Vec<u8>> = None;
    let mut quote: Option<u8> = None;
    let mut i: usize = 0;
    assert(bytes::views(args@) =~= Seq::empty());
    while i < len
        invariant
            i <= len == line@.len(),
            args_from(line@, i as int, bytes::views(args@), arg_view(arg), quote) == args_of(line@),
        decreases len - i,
    {
        let b: u8 = line[i];
        let ghost before = args@;
        let in_quote: bool = quote.is_some();
        let closes: bool = match quote {
            Some(q) => q == b,
            None => false,
        };
        if closes {
            arg = Some(arg_or_new(arg));
            quote = None;
            i = i + 1;
        } else if !in_quote && space(b) {
            if let Some(a) = arg {
                args.push(a);
                assert(bytes::views(args@) =~= bytes::views(before).push(a@));
            }
            arg = None;
            i = i + 1;
        } else if !in_quote && (b == 34 || b == 39) {
            arg = Some(arg_or_new(arg));
            quote = Some(b);
            i = i + 1;
        } else if b == 92 {
            if len - i < 2 {
                return None;
            }
            let mut a: Vec<u8> = arg_or_new(arg);
            a.push(unescape_manifest_byte(line[i + 1]));
            arg = Some(a);
            i = i + 2;
        } else {
            let mut a: Vec<u8> = arg_or_new(arg);
            a.push(b);
            arg = Some(a);
            i = i + 1;
        }
    }
    if quote.is_some() {
        return None;
    }
    let ghost before = args@;
    if let Some(a) = arg {
        args.push(a);
        assert(bytes::views(args@) =~= bytes::views(before).push(a@));
    }
    Some(args)
}

fn same_word(s: &[u8], word: &[u8]) -> (r: bool)
    ensures
        r == is_word(s@, word@),
{
    if s.len() != word.len() {
        return false;
    }
    let mut i: usize = 0;
    while i < s.len()
        invariant
            i <= s@.len() == word@.len(),
            forall|k: int| 0 <= k < i ==> aof_tail::lower(#[trigger] s@[k]) == word@[k],
        decreases s@.len() - i,
    {
        let b: u8 = s[i];
        let low: u8 = if 65 <= b && b <= 90 {
            b + 32
        } else {
            b
        };
        if low != word[i] {
            assert(aof_tail::lower(s@[i as int]) != word@[i as int]);
            return false;
        }
        i = i + 1;
    }
    true
}

/// The number that a value is.
fn parse_manifest_sequence(value: &[u8]) -> (r: Option<u64>)
    ensures
        r == sequence_of(value@),
{
    let len: usize = value.len();
    assert(value@.subrange(0, len as int) =~= value@);
    match parse_digits(value, 0, len) {
        None => None,
        Some(n) => if (len > 1 && value[0] == 48) || n == 0 {
            None
        } else {
            Some(n)
        },
    }
}

impl AofManifestFileType {
    /// The type that a value is.
    fn from_manifest_token(token: &[u8], line: usize) -> (r: Result<Self, PersistError>)
        ensures
            match type_of(token@, line as int) {
                Ok(kind) => r == Ok::<Self, PersistError>(kind),
                Err(e) => r matches Err(error) && error@ == e,
            },
    {
        if token.len() != 1 || token[0] >= 0x80 {
            return Err(wrong_line(line, "invalid file type"));
        }
        if token[0] == 98 {
            Ok(AofManifestFileType::Base)
        } else if token[0] == 104 {
            Ok(AofManifestFileType::History)
        } else if token[0] == 105 {
            Ok(AofManifestFileType::Incremental)
        } else {
            Err(wrong_line(line, "unknown file type"))
        }
    }
}

/// Whether a name is that of a file, not a path.
pub fn is_aof_manifest_basename(file_name: &str) -> (r: bool)
    ensures
        r == is_basename(file_name@),
{
    let b: &[u8] = file_name.as_bytes();
    if b.len() == 0 {
        return false;
    }
    let mut i: usize = 0;
    while i < b.len()
        invariant
            i <= b@.len(),
            b@.len() > 0,
            b@ == vstd::utf8::encode_utf8(file_name@),
            forall|k: int| 0 <= k < i ==> #[trigger] b@[k] != 47 && b@[k] != 92,
        decreases b@.len() - i,
    {
        if b[i] == 47 || b[i] == 92 {
            assert(b@[i as int] == 47 || b@[i as int] == 92);
            return false;
        }
        i = i + 1;
    }
    true
}

/// The fields of a row.
struct Fields {
    name: Option<String>,
    seq: Option<u64>,
    kind: Option<AofManifestFileType>,
}

impl Fields {
    spec fn says(&self) -> RowFields {
        RowFields {
            name: match self.name {
                None => None,
                Some(s) => Some(s@),
            },
            seq: self.seq,
            kind: self.kind,
        }
    }

    /// Takes one more field.
    fn take(&mut self, key: &[u8], value: &[u8], line: usize) -> (r: Result<(), PersistError>)
        ensures
            match fields_more(old(self).says(), key@, value@, line as int) {
                Ok(f) => r is Ok && final(self).says() == f,
                Err(e) => r matches Err(error) && error@ == e,
            },
    {
        let file: [u8; 4] = [102, 105, 108, 101];
        let seq: [u8; 3] = [115, 101, 113];
        let kind: [u8; 4] = [116, 121, 112, 101];
        proof {
            assert(file@ =~= file_word());
            assert(seq@ =~= seq_word());
            assert(kind@ =~= type_word());
        }
        if same_word(key, file.as_slice()) {
            if self.name.is_some() {
                return Err(wrong_line(line, "duplicate file field"));
            }
            self.name = Some(text_per_byte(value));
        } else if same_word(key, seq.as_slice()) {
            match parse_manifest_sequence(value) {
                None => {
                    return Err(wrong_line(line, "invalid seq field"));
                },
                Some(n) => {
                    if self.seq.is_some() {
                        return Err(wrong_line(line, "duplicate seq field"));
                    }
                    self.seq = Some(n);
                },
            }
        } else if same_word(key, kind.as_slice()) {
            match AofManifestFileType::from_manifest_token(value, line) {
                Err(e) => {
                    return Err(e);
                },
                Ok(k) => {
                    if self.kind.is_some() {
                        return Err(wrong_line(line, "duplicate type field"));
                    }
                    self.kind = Some(k);
                },
            }
        }
        Ok(())
    }
}

proof fn lemma_fields_err(argv: Seq<Seq<u8>>, k: nat, n: nat, line: int)
    requires
        k <= n,
        fields_upto(argv, k, line) is Err,
    ensures
        fields_upto(argv, n, line) == fields_upto(argv, k, line),
    decreases n,
{
    if k < n {
        lemma_fields_err(argv, k, (n - 1) as nat, line);
    }
}

/// The row that arguments are.
fn parse_aof_manifest_entry(argv: &Vec<Vec<u8>>, line: usize) -> (r: Result<
    AofManifestEntry,
    PersistError,
>)
    ensures
        match row_at(bytes::views(argv@), line as int) {
            Ok(row) => r matches Ok(entry) && entry@ == row,
            Err(e) => r matches Err(error) && error@ == e,
        },
{
    let ghost all = bytes::views(argv@);
    let count: usize = argv.len();
    let half: usize = count / 2;
    let mut fields = Fields { name: None, seq: None, kind: None };
    let mut k: usize = 0;
    assert(fields.says() =~= RowFields { name: None, seq: None, kind: None });
    while k < half
        invariant
            k <= half,
            count == argv@.len() == all.len(),
            half == count / 2,
            all == bytes::views(argv@),
            fields_upto(all, k as nat, line as int) == Ok::<RowFields, ErrorView>(fields.says()),
        decreases half - k,
    {
        assert(all[2 * k as int] == argv@[2 * k as int]@);
        assert(all[2 * k as int + 1] == argv@[2 * k as int + 1]@);
        match fields.take(argv[2 * k].as_slice(), argv[2 * k + 1].as_slice(), line) {
            Err(e) => {
                proof {
                    lemma_fields_err(all, (k + 1) as nat, half as nat, line as int);
                }
                return Err(e);
            },
            Ok(()) => {},
        }
        k = k + 1;
    }
    let file_name: String = match fields.name {
        None => {
            return Err(wrong_line(line, "missing file field"));
        },
        Some(name) => name,
    };
    if !is_aof_manifest_basename(file_name.as_str()) {
        return Err(PersistError::ManifestPathViolation { line, file_name });
    }
    match fields.seq {
        None => Err(wrong_line(line, "missing seq field")),
        Some(file_seq) => match fields.kind {
            None => Err(wrong_line(line, "missing type field")),
            Some(file_type) => Ok(AofManifestEntry { file_name, file_seq, file_type }),
        },
    }
}

fn strip(line: &[u8], from: usize, to: usize) -> (r: (usize, usize))
    requires
        from <= to <= line@.len(),
    ensures
        from <= r.0 <= r.1 <= to,
        line@.subrange(r.0 as int, r.1 as int) == stripped(
            line@.subrange(from as int, to as int),
        ),
{
    let mut a: usize = from;
    while a < to && (line[a] == 32 || line[a] == 9 || line[a] == 13 || line[a] == 10)
        invariant
            from <= a <= to <= line@.len(),
            without_head(line@.subrange(a as int, to as int)) == without_head(
                line@.subrange(from as int, to as int),
            ),
        ensures
            from <= a <= to,
            without_head(line@.subrange(from as int, to as int)) == line@.subrange(
                a as int,
                to as int,
            ),
        decreases to - a,
    {
        assert(line@.subrange(a as int, to as int).drop_first() =~= line@.subrange(
            a + 1,
            to as int,
        ));
        a = a + 1;
    }
    let mut b: usize = to;
    while a < b && (line[b - 1] == 32 || line[b - 1] == 9 || line[b - 1] == 13 || line[b - 1] == 10)
        invariant
            from <= a <= b <= to <= line@.len(),
            without_tail(line@.subrange(a as int, b as int)) == without_tail(
                line@.subrange(a as int, to as int),
            ),
        ensures
            a <= b <= to,
            without_tail(line@.subrange(a as int, to as int)) == line@.subrange(
                a as int,
                b as int,
            ),
        decreases b - a,
    {
        assert(line@.subrange(a as int, b as int).drop_last() =~= line@.subrange(a as int, b - 1));
        b = b - 1;
    }
    (a, b)
}

impl AofManifest {
    /// Takes one more row.
    fn take_row(&mut self, entry: AofManifestEntry, line: usize) -> (r: Result<(), PersistError>)
        ensures
            match manifest_more(old(self)@, entry@, line as int) {
                Ok(m) => r is Ok && final(self)@ == m,
                Err(e) => r matches Err(error) && error@ == e,
            },
    {
        let ghost row = entry@;
        match entry.file_type {
            AofManifestFileType::Base => {
                if self.base.is_some() {
                    return Err(wrong_line(line, "duplicate base file"));
                }
                self.curr_base_file_seq = entry.file_seq;
                self.base = Some(entry);
            },
            AofManifestFileType::History => {
                let ghost before = self.history@;
                self.history.push(entry);
                assert(row_views(self.history@) =~= row_views(before).push(row));
            },
            AofManifestFileType::Incremental => {
                if entry.file_seq <= self.curr_incr_file_seq {
                    return Err(wrong_line(line, "non-monotonic incremental sequence"));
                }
                self.curr_incr_file_seq = entry.file_seq;
                let ghost before = self.incremental@;
                self.incremental.push(entry);
                assert(row_views(self.incremental@) =~= row_views(before).push(row));
            },
        }
        Ok(())
    }

    /// Takes one more line.
    fn take_line(&mut self, data: &[u8], from: usize, to: usize, line: usize) -> (r: Result<
        (),
        PersistError,
    >)
        requires
            from <= to <= data@.len(),
        ensures
            match line_step(old(self)@, data@.subrange(from as int, to as int), line as int) {
                Ok(m) => r is Ok && final(self)@ == m,
                Err(e) => r matches Err(error) && error@ == e,
            },
    {
        if to - from > AOF_MANIFEST_MAX_LINE {
            return Err(wrong_line(line, "line too long"));
        }
        let (a, b) = strip(data, from, to);
        if a == b || data[a] == 35 {
            return Ok(());
        }
        let row: Vec<u8> = bytes::copy_window(data, a, b);
        let argv: Vec<Vec<u8>> = match split_manifest_args(row.as_slice()) {
            None => {
                return Err(wrong_line(line, "invalid manifest quoting"));
            },
            Some(argv) => argv,
        };
        assert(bytes::views(argv@).len() == argv@.len());
        if argv.len() < 6 || argv.len() % 2 != 0 {
            return Err(wrong_line(line, "invalid field count"));
        }
        match parse_aof_manifest_entry(&argv, line) {
            Err(e) => Err(e),
            Ok(entry) => self.take_row(entry, line),
        }
    }
}

/// Reads a manifest.
pub fn parse_aof_manifest(input: &str) -> (r: Result<AofManifest, PersistError>)
    ensures
        match manifest_of(vstd::utf8::encode_utf8(input@)) {
            Ok(m) => r matches Ok(manifest) && manifest@ == m,
            Err(e) => r matches Err(error) && error@ == e,
        },
{
    let data: &[u8] = input.as_bytes();
    let len: usize = data.len();
    let ghost whole = lines_from(data@, 0, 1, no_files());
    let mut manifest: AofManifest = AofManifest::default();
    let mut pos: usize = 0;
    let mut line: usize = 0;
    while pos < len
        invariant
            pos <= len == data@.len(),
            line <= pos,
            data@ == vstd::utf8::encode_utf8(input@),
            whole == lines_from(data@, 0, 1, no_files()),
            whole == lines_from(data@, pos as int, line + 1, manifest@),
        decreases len - pos,
    {
        let mut end: usize = pos;
        while end < len && data[end] != 10
            invariant
                pos <= end <= len == data@.len(),
                newline_from(data@, end as int) == newline_from(data@, pos as int),
            ensures
                end == newline_from(data@, pos as int),
                pos <= end <= len,
            decreases len - end,
        {
            end = end + 1;
        }
        let to: usize = if pos < end && end < len && data[end - 1] == 13 {
            end - 1
        } else {
            end
        };
        line = line + 1;
        assert(data@.subrange(pos as int, to as int) == raw_line(data@, pos as int, end as int));
        match manifest.take_line(data, pos, to, line) {
            Err(e) => {
                return Err(e);
            },
            Ok(()) => {},
        }
        if end < len {
            pos = end + 1;
        } else {
            proof {
                assert(lines_from(data@, end + 1, line + 1, manifest@) == lines_from(
                    data@,
                    len as int,
                    line + 1,
                    manifest@,
                ));
            }
            pos = len;
        }
    }
    if manifest.is_empty() {
        return Err(wrong_line(0, "empty manifest"));
    }
    Ok(manifest)
}

} // verus!
