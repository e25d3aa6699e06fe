//! What the lines of a manifest are read as, whoever wrote them.

use vstd::prelude::*;

use crate::bytes;
use crate::decimal;
use crate::form_laws;
use crate::manifest;
use crate::manifest::{AofManifestFileType, ManifestView, RowFields, RowView};
use crate::manifest_format;
use crate::multipart;
use crate::persist_error::ErrorView;
use crate::rdb_types::FieldView;
use crate::text;

verus! {

// ---------------------------------------------------------------------------
// Words
// ---------------------------------------------------------------------------

/// A byte of a word, by itself or behind a backslash.
pub enum Letter {
    Plain(u8),
    Escaped(u8),
}

/// A word of a line, with or without quotes around it.
pub struct Word {
    pub quote: Option<u8>,
    pub letters: Seq<Letter>,
}

/// The bytes of a letter, as a function value.
pub open spec fn letter_encoder() -> spec_fn(Letter) -> Seq<u8> {
    |l: Letter|
        match l {
            Letter::Plain(b) => seq![b],
            Letter::Escaped(b) => seq![92u8, b],
        }
}

/// The byte that a letter stands for: behind a backslash `n`, `r` and `t` are a newline, a
/// carriage return and a tabulator.
pub open spec fn letter_value(l: Letter) -> u8 {
    match l {
        Letter::Plain(b) => b,
        Letter::Escaped(b) => if b == 110 {
            10
        } else if b == 114 {
            13
        } else if b == 116 {
            9
        } else {
            b
        },
    }
}

/// White space between words.
pub open spec fn is_blank(b: u8) -> bool {
    b == 32 || b == 9 || b == 10 || b == 12 || b == 13
}

/// All bytes are white space.
pub open spec fn all_blank(s: Seq<u8>) -> bool {
    forall|i: int| 0 <= i < s.len() ==> is_blank(#[trigger] s[i])
}

/// The letter does not end the word.
pub open spec fn letter_right(quote: Option<u8>, l: Letter) -> bool {
    l matches Letter::Plain(b) ==> b != 92 && match quote {
        Some(q) => b != q,
        None => !is_blank(b) && b != 34 && b != 39,
    }
}

/// The word is in one kind of quotes, or is not empty.
pub open spec fn word_right(w: Word) -> bool {
    &&& match w.quote {
        Some(q) => q == 34 || q == 39,
        None => w.letters.len() > 0,
    }
    &&& forall|i: int| 0 <= i < w.letters.len() ==> letter_right(w.quote, #[trigger] w.letters[i])
}

/// The bytes of a word.
pub open spec fn word_bytes(w: Word) -> Seq<u8> {
    let inner = bytes::concat_all(letter_encoder(), w.letters);
    match w.quote {
        Some(q) => seq![q] + (inner + seq![q]),
        None => inner,
    }
}

/// The bytes that letters stand for.
pub open spec fn letters_text(letters: Seq<Letter>) -> Seq<u8> {
    Seq::new(letters.len(), |i: int| letter_value(letters[i]))
}

proof fn lemma_letters(
    line: Seq<u8>,
    i: int,
    args: Seq<Seq<u8>>,
    before: Seq<u8>,
    quote: Option<u8>,
    letters: Seq<Letter>,
)
    requires
        bytes::has_at(line, i, bytes::concat_all(letter_encoder(), letters)),
        quote != Some(92u8),
        forall|k: int| 0 <= k < letters.len() ==> letter_right(quote, #[trigger] letters[k]),
    ensures
        manifest::args_from(line, i, args, Some(before), quote) == manifest::args_from(
            line,
            i + bytes::concat_all(letter_encoder(), letters).len(),
            args,
            Some(before + letters_text(letters)),
            quote,
        ),
    decreases letters.len(),
{
    if letters.len() == 0 {
        assert(before + letters_text(letters) =~= before);
    } else {
        let front = letters.drop_last();
        let l = letters.last();
        let a = bytes::concat_all(letter_encoder(), front);
        let b = letter_encoder()(l);
        bytes::lemma_has_at_concat(line, i, a, b);
        assert forall|k: int| 0 <= k < front.len() implies letter_right(
            quote,
            #[trigger] front[k],
        ) by {
            assert(front[k] == letters[k]);
        }
        lemma_letters(line, i, args, before, quote, front);
        let at = i + a.len();
        assert(letter_right(quote, letters[letters.len() - 1]));
        assert(line[at + 0] == b[0]);
        if l is Escaped {
            assert(line[at + 1] == b[1]);
        }
        assert(before + letters_text(letters) =~= (before + letters_text(front)).push(
            letter_value(l),
        ));
    }
}

proof fn lemma_first_letter(
    line: Seq<u8>,
    i: int,
    args: Seq<Seq<u8>>,
    letters: Seq<Letter>,
)
    requires
        bytes::has_at(line, i, bytes::concat_all(letter_encoder(), letters)),
        letters.len() > 0,
        forall|k: int| 0 <= k < letters.len() ==> letter_right(None, #[trigger] letters[k]),
    ensures
        manifest::args_from(line, i, args, None, None) == manifest::args_from(
            line,
            i,
            args,
            Some(Seq::empty()),
            None,
        ),
{
    let l = letters[0];
    let e = letter_encoder();
    bytes::lemma_concat_first(e, letters, 0);
    let b = e(l);
    assert(letters.skip(0) =~= letters);
    bytes::lemma_has_at_concat(line, i, b, bytes::concat_all(e, letters.skip(1)));
    assert(letter_right(None, letters[0]));
    assert(line[i + 0] == b[0]);
    if l is Escaped {
        assert(line[i + 1] == b[1]);
    }
}

/// The text of a word.
pub open spec fn word_text(w: Word) -> Seq<u8> {
    letters_text(w.letters)
}

proof fn lemma_word(line: Seq<u8>, i: int, args: Seq<Seq<u8>>, w: Word)
    requires
        bytes::has_at(line, i, word_bytes(w)),
        word_right(w),
    ensures
        manifest::args_from(line, i, args, None, None) == manifest::args_from(
            line,
            i + word_bytes(w).len(),
            args,
            Some(word_text(w)),
            None,
        ),
{
    let inner = bytes::concat_all(letter_encoder(), w.letters);
    let none = Seq::<u8>::empty();
    assert(none + word_text(w) =~= word_text(w));
    match w.quote {
        Some(q) => {
            bytes::lemma_has_at_concat(line, i, seq![q], inner + seq![q]);
            bytes::lemma_has_at_concat(line, i + 1, inner, seq![q]);
            assert(line[i + 0] == seq![q][0]);
            assert(line[(i + 1 + inner.len()) + 0] == seq![q][0]);
            lemma_letters(line, i + 1, args, none, Some(q), w.letters);
        },
        None => {
            lemma_first_letter(line, i, args, w.letters);
            lemma_letters(line, i, args, none, None, w.letters);
        },
    }
}

proof fn lemma_blanks(line: Seq<u8>, i: int, args: Seq<Seq<u8>>, s: Seq<u8>)
    requires
        bytes::has_at(line, i, s),
        all_blank(s),
    ensures
        manifest::args_from(line, i, args, None, None) == manifest::args_from(
            line,
            i + s.len(),
            args,
            None,
            None,
        ),
    decreases s.len(),
{
    if s.len() > 0 {
        assert(line[i + 0] == s[0]);
        assert(is_blank(s[0]));
        assert(s =~= seq![s[0]] + s.skip(1));
        bytes::lemma_has_at_concat(line, i, seq![s[0]], s.skip(1));
        assert forall|k: int| 0 <= k < s.skip(1).len() implies is_blank(#[trigger] s.skip(1)[k]) by {
            assert(s.skip(1)[k] == s[k + 1]);
        }
        lemma_blanks(line, i + 1, args, s.skip(1));
    }
}

proof fn lemma_blanks_behind(line: Seq<u8>, i: int, args: Seq<Seq<u8>>, arg: Seq<u8>, s: Seq<u8>)
    requires
        bytes::has_at(line, i, s),
        all_blank(s),
        s.len() > 0,
    ensures
        manifest::args_from(line, i, args, Some(arg), None) == manifest::args_from(
            line,
            i + s.len(),
            args.push(arg),
            None,
            None,
        ),
{
    assert(line[i + 0] == s[0]);
    assert(is_blank(s[0]));
    assert(s =~= seq![s[0]] + s.skip(1));
    bytes::lemma_has_at_concat(line, i, seq![s[0]], s.skip(1));
    assert forall|k: int| 0 <= k < s.skip(1).len() implies is_blank(#[trigger] s.skip(1)[k]) by {
        assert(s.skip(1)[k] == s[k + 1]);
    }
    lemma_blanks(line, i + 1, args.push(arg), s.skip(1));
}

/// A word with the white space behind it.
pub struct Spaced {
    pub word: Word,
    pub blanks: Seq<u8>,
}

/// The bytes of a word with the white space behind it, as a function value.
pub open spec fn spaced_encoder() -> spec_fn(Spaced) -> Seq<u8> {
    |s: Spaced| word_bytes(s.word) + s.blanks
}

/// The word is right, and there is white space behind it.
pub open spec fn spaced_right(s: Spaced) -> bool {
    word_right(s.word) && all_blank(s.blanks) && s.blanks.len() > 0
}

/// The texts of words.
pub open spec fn words_of(words: Seq<Spaced>) -> Seq<Seq<u8>> {
    Seq::new(words.len(), |i: int| word_text(words[i].word))
}

proof fn lemma_words(line: Seq<u8>, i: int, args: Seq<Seq<u8>>, words: Seq<Spaced>)
    requires
        bytes::has_at(line, i, bytes::concat_all(spaced_encoder(), words)),
        forall|k: int| 0 <= k < words.len() ==> spaced_right(#[trigger] words[k]),
    ensures
        manifest::args_from(line, i, args, None, None) == manifest::args_from(
            line,
            i + bytes::concat_all(spaced_encoder(), words).len(),
            args + words_of(words),
            None,
            None,
        ),
    decreases words.len(),
{
    if words.len() == 0 {
        assert(args + words_of(words) =~= args);
    } else {
        let front = words.drop_last();
        let s = words.last();
        let a = bytes::concat_all(spaced_encoder(), front);
        bytes::lemma_has_at_concat(line, i, a, word_bytes(s.word) + s.blanks);
        bytes::lemma_has_at_concat(line, i + a.len(), word_bytes(s.word), s.blanks);
        assert forall|k: int| 0 <= k < front.len() implies spaced_right(#[trigger] front[k]) by {
            assert(front[k] == words[k]);
        }
        assert(spaced_right(words[words.len() - 1]));
        lemma_words(line, i, args, front);
        let at = i + a.len();
        let found = args + words_of(front);
        lemma_word(line, at, found, s.word);
        lemma_blanks_behind(
            line,
            at + word_bytes(s.word).len(),
            found,
            word_text(s.word),
            s.blanks,
        );
        assert(found.push(word_text(s.word)) =~= args + words_of(words));
    }
}

/// Words with white space between them, and around all of them or not, are the arguments of a
/// line.
pub proof fn law_words_are_arguments(
    head: Seq<u8>,
    words: Seq<Spaced>,
    last: Word,
    tail: Seq<u8>,
)
    requires
        all_blank(head),
        all_blank(tail),
        forall|k: int| 0 <= k < words.len() ==> spaced_right(#[trigger] words[k]),
        word_right(last),
    ensures
        manifest::args_of(
            head + (bytes::concat_all(spaced_encoder(), words) + (word_bytes(last) + tail)),
        ) == Some(words_of(words).push(word_text(last))),
{
    let body = bytes::concat_all(spaced_encoder(), words);
    let line = head + (body + (word_bytes(last) + tail));
    let none = Seq::<Seq<u8>>::empty();
    bytes::lemma_has_at_whole(line);
    bytes::lemma_has_at_concat(line, 0, head, body + (word_bytes(last) + tail));
    let p = head.len() as int;
    bytes::lemma_has_at_concat(line, p, body, word_bytes(last) + tail);
    bytes::lemma_has_at_concat(line, p + body.len(), word_bytes(last), tail);
    lemma_blanks(line, 0, none, head);
    lemma_words(line, p, none, words);
    assert(none + words_of(words) =~= words_of(words));
    lemma_word(line, p + body.len(), words_of(words), last);
    if tail.len() > 0 {
        lemma_blanks_behind(
            line,
            p + body.len() + word_bytes(last).len(),
            words_of(words),
            word_text(last),
            tail,
        );
    }
}

/// A quote that is not closed, and a backslash with nothing behind it, are refused.
pub proof fn law_unfinished_words_are_refused(
    words: Seq<Spaced>,
    quote: u8,
    letters: Seq<Letter>,
)
    requires
        forall|k: int| 0 <= k < words.len() ==> spaced_right(#[trigger] words[k]),
        quote == 34 || quote == 39,
        forall|k: int| 0 <= k < letters.len() ==> letter_right(Some(quote), #[trigger] letters[k]),
    ensures
        manifest::args_of(
            bytes::concat_all(spaced_encoder(), words) + (seq![quote] + bytes::concat_all(
                letter_encoder(),
                letters,
            )),
        ) is None,
        manifest::args_of(bytes::concat_all(spaced_encoder(), words) + seq![92u8]) is None,
{
    let body = bytes::concat_all(spaced_encoder(), words);
    let none = Seq::<Seq<u8>>::empty();
    let inner = bytes::concat_all(letter_encoder(), letters);
    let line = body + (seq![quote] + inner);
    let n = body.len() as int;
    bytes::lemma_has_at_whole(line);
    bytes::lemma_has_at_concat(line, 0, body, seq![quote] + inner);
    bytes::lemma_has_at_concat(line, n, seq![quote], inner);
    lemma_words(line, 0, none, words);
    assert(line[n + 0] == seq![quote][0]);
    lemma_letters(
        line,
        n + 1,
        none + words_of(words),
        Seq::empty(),
        Some(quote),
        letters,
    );
    let other = body + seq![92u8];
    bytes::lemma_has_at_whole(other);
    bytes::lemma_has_at_concat(other, 0, body, seq![92u8]);
    lemma_words(other, 0, none, words);
    assert(other[n + 0] == seq![92u8][0]);
}

// ---------------------------------------------------------------------------
// Rows
// ---------------------------------------------------------------------------

/// The string is the word, with letters of either case.
pub open spec fn is_key(s: Seq<u8>, word: Seq<u8>) -> bool {
    &&& s.len() == word.len()
    &&& forall|i: int| 0 <= i < s.len() ==> #[trigger] s[i] == word[i] || s[i] + 32 == word[i]
}

/// The word `file`.
pub open spec fn file_key() -> Seq<u8> {
    seq![102u8, 105u8, 108u8, 101u8]
}

/// The word `seq`.
pub open spec fn seq_key() -> Seq<u8> {
    seq![115u8, 101u8, 113u8]
}

/// The word `type`.
pub open spec fn type_key() -> Seq<u8> {
    seq![116u8, 121u8, 112u8, 101u8]
}

/// The letter of a kind of file.
pub open spec fn kind_letter(kind: AofManifestFileType) -> u8 {
    match kind {
        AofManifestFileType::Base => 98,
        AofManifestFileType::History => 104,
        AofManifestFileType::Incremental => 105,
    }
}

/// The fields of a row: a name at `a`, a number at `b`, a kind at `c`, and no other of these.
pub open spec fn are_fields_of(
    fields: Seq<FieldView>,
    a: int,
    b: int,
    c: int,
    row: RowView,
) -> bool {
    &&& 0 <= a < fields.len()
    &&& 0 <= b < fields.len()
    &&& 0 <= c < fields.len()
    &&& forall|i: int|
        0 <= i < fields.len() ==> (is_key((#[trigger] fields[i]).0, file_key()) <==> i == a)
    &&& forall|i: int|
        0 <= i < fields.len() ==> (is_key((#[trigger] fields[i]).0, seq_key()) <==> i == b)
    &&& forall|i: int|
        0 <= i < fields.len() ==> (is_key((#[trigger] fields[i]).0, type_key()) <==> i == c)
    &&& row.name == text::char_per_byte(fields[a].1)
    &&& row.seq > 0 && fields[b].1 == decimal::dec_nat(row.seq as nat)
    &&& fields[c].1 == seq![kind_letter(row.kind)]
}

/// The name of a file by itself: not empty, and without slashes of either kind.
pub open spec fn is_plain_name(name: Seq<char>) -> bool {
    let b = vstd::utf8::encode_utf8(name);
    &&& b.len() > 0
    &&& forall|i: int| 0 <= i < b.len() ==> #[trigger] b[i] != 47 && b[i] != 92
}

proof fn lemma_key(s: Seq<u8>, word: Seq<u8>)
    requires
        forall|i: int| 0 <= i < word.len() ==> 97 <= #[trigger] word[i] <= 122,
    ensures
        manifest::is_word(s, word) <==> is_key(s, word),
{
    if s.len() == word.len() {
        assert forall|i: int| 0 <= i < s.len() implies (crate::aof_tail::lower(#[trigger] s[i])
            == word[i] <==> s[i] == word[i] || s[i] + 32 == word[i]) by {
            assert(97 <= word[i] <= 122);
        }
        if manifest::is_word(s, word) {
            assert(is_key(s, word));
        }
        if is_key(s, word) {
            assert(manifest::is_word(s, word));
        }
    }
}

proof fn lemma_keys(s: Seq<u8>)
    ensures
        manifest::is_word(s, manifest::file_word()) <==> is_key(s, file_key()),
        manifest::is_word(s, manifest::seq_word()) <==> is_key(s, seq_key()),
        manifest::is_word(s, manifest::type_word()) <==> is_key(s, type_key()),
        is_key(s, file_key()) ==> !is_key(s, type_key()) && !is_key(s, seq_key()),
        is_key(s, seq_key()) ==> !is_key(s, type_key()),
{
    lemma_key(s, file_key());
    lemma_key(s, seq_key());
    lemma_key(s, type_key());
    if is_key(s, file_key()) && is_key(s, type_key()) {
        assert(s[0] == file_key()[0] || s[0] + 32 == file_key()[0]);
        assert(s[0] == type_key()[0] || s[0] + 32 == type_key()[0]);
    }
}

proof fn lemma_kind(value: Seq<u8>, line: int)
    ensures
        forall|kind: AofManifestFileType|
            (value == seq![#[trigger] kind_letter(kind)]) <==> manifest::type_of(value, line)
                == Ok::<AofManifestFileType, ErrorView>(kind),
{
    assert forall|kind: AofManifestFileType|
        (value == seq![#[trigger] kind_letter(kind)]) <==> manifest::type_of(value, line) == Ok::<
            AofManifestFileType,
            ErrorView,
        >(kind) by {
        if manifest::type_of(value, line) == Ok::<AofManifestFileType, ErrorView>(kind) {
            assert(value =~= seq![kind_letter(kind)]);
        }
    }
}

proof fn lemma_sequence(value: Seq<u8>, n: u64)
    ensures
        manifest::sequence_of(value) == Some(n) <==> n > 0 && value == decimal::dec_nat(n as nat),
{
    decimal::lemma_dec_nat(n as nat);
    if decimal::canonical_digits(value) {
        decimal::lemma_canonical_digits(value);
    }
}

/// What of a row is read from its first `k` fields.
pub open spec fn read_so_far(a: int, b: int, c: int, row: RowView, k: int) -> RowFields {
    RowFields {
        name: if a < k {
            Some(row.name)
        } else {
            None
        },
        seq: if b < k {
            Some(row.seq)
        } else {
            None
        },
        kind: if c < k {
            Some(row.kind)
        } else {
            None
        },
    }
}

proof fn lemma_fields(
    argv: Seq<Seq<u8>>,
    fields: Seq<FieldView>,
    a: int,
    b: int,
    c: int,
    row: RowView,
    k: nat,
    line: int,
)
    requires
        form_laws::alternate(argv, fields),
        are_fields_of(fields, a, b, c, row),
        k <= fields.len(),
    ensures
        manifest::fields_upto(argv, k, line) == Ok::<RowFields, ErrorView>(
            read_so_far(a, b, c, row, k as int),
        ),
    decreases k,
{
    if k > 0 {
        let i = k - 1;
        lemma_fields(argv, fields, a, b, c, row, i as nat, line);
        let f = fields[i];
        assert(argv[2 * i] == f.0 && argv[2 * i + 1] == f.1);
        lemma_keys(f.0);
        assert(is_key(f.0, file_key()) <==> i == a);
        assert(is_key(f.0, seq_key()) <==> i == b);
        assert(is_key(f.0, type_key()) <==> i == c);
        lemma_sequence(f.1, row.seq);
        lemma_kind(f.1, line);
        assert(i == c ==> f.1 == seq![kind_letter(row.kind)]);
        assert(manifest::fields_more(read_so_far(a, b, c, row, i), f.0, f.1, line) == Ok::<
            RowFields,
            ErrorView,
        >(read_so_far(a, b, c, row, k as int)));
    }
}

/// A row is read from a name, a number and a kind, in any order, with keys in letters of either
/// case and among other fields. A name that is a path is refused and told.
pub proof fn law_row_is_read(
    argv: Seq<Seq<u8>>,
    fields: Seq<FieldView>,
    a: int,
    b: int,
    c: int,
    row: RowView,
    line: int,
)
    requires
        form_laws::alternate(argv, fields),
        are_fields_of(fields, a, b, c, row),
    ensures
        is_plain_name(row.name) ==> manifest::row_at(argv, line) == Ok::<RowView, ErrorView>(row),
        !is_plain_name(row.name) ==> manifest::row_at(argv, line) == Err::<RowView, ErrorView>(
            ErrorView::ManifestPath { line, file_name: row.name },
        ),
{
    lemma_fields(argv, fields, a, b, c, row, fields.len(), line);
    assert(argv.len() / 2 == fields.len());
    assert(manifest::is_basename(row.name) <==> is_plain_name(row.name));
}

/// Where each part of a row was found, if it was.
proof fn lemma_found(argv: Seq<Seq<u8>>, fields: Seq<FieldView>, k: nat, line: int) -> (at: (
    int,
    int,
    int,
))
    requires
        form_laws::alternate(argv, fields),
        k <= fields.len(),
        manifest::fields_upto(argv, k, line) is Ok,
    ensures
        ({
            let f = manifest::fields_upto(argv, k, line)->Ok_0;
            &&& f.name matches Some(name) ==> 0 <= at.0 < k && name == text::char_per_byte(
                fields[at.0].1,
            )
            &&& f.seq matches Some(n) ==> 0 <= at.1 < k && n > 0 && fields[at.1].1
                == decimal::dec_nat(n as nat)
            &&& f.kind matches Some(kind) ==> 0 <= at.2 < k && fields[at.2].1 == seq![
                kind_letter(kind),
            ]
            &&& forall|i: int|
                0 <= i < k ==> (is_key((#[trigger] fields[i]).0, file_key()) <==> f.name is Some
                    && i == at.0)
            &&& forall|i: int|
                0 <= i < k ==> (is_key((#[trigger] fields[i]).0, seq_key()) <==> f.seq is Some && i
                    == at.1)
            &&& forall|i: int|
                0 <= i < k ==> (is_key((#[trigger] fields[i]).0, type_key()) <==> f.kind is Some
                    && i == at.2)
        }),
    decreases k,
{
    if k == 0 {
        (0, 0, 0)
    } else {
        let i = k - 1;
        let before = lemma_found(argv, fields, i as nat, line);
        let f = fields[i];
        assert(argv[2 * i] == f.0 && argv[2 * i + 1] == f.1);
        lemma_keys(f.0);
        if is_key(f.0, file_key()) {
            (i, before.1, before.2)
        } else if is_key(f.0, seq_key()) {
            let n = manifest::sequence_of(f.1)->Some_0;
            lemma_sequence(f.1, n);
            (before.0, i, before.2)
        } else if is_key(f.0, type_key()) {
            lemma_kind(f.1, line);
            let kind = manifest::type_of(f.1, line)->Ok_0;
            assert(f.1 == seq![kind_letter(kind)]);
            (before.0, before.1, i)
        } else {
            before
        }
    }
}

/// Nothing else is a row: what is accepted has exactly one name, one number and one kind.
pub proof fn law_nothing_else_is_a_row(
    argv: Seq<Seq<u8>>,
    fields: Seq<FieldView>,
    line: int,
) -> (at: (int, int, int))
    requires
        form_laws::alternate(argv, fields),
        manifest::row_at(argv, line) is Ok,
    ensures
        are_fields_of(fields, at.0, at.1, at.2, manifest::row_at(argv, line)->Ok_0),
        is_plain_name(manifest::row_at(argv, line)->Ok_0.name),
{
    assert(argv.len() / 2 == fields.len());
    let at = lemma_found(argv, fields, fields.len(), line);
    at
}

// ---------------------------------------------------------------------------
// Lines
// ---------------------------------------------------------------------------

/// A blank at the end of a line.
pub open spec fn is_edge(b: u8) -> bool {
    b == 32 || b == 9 || b == 13 || b == 10
}

/// All bytes are blanks at the end of a line.
pub open spec fn all_edge(s: Seq<u8>) -> bool {
    forall|i: int| 0 <= i < s.len() ==> is_edge(#[trigger] s[i])
}

/// The text has no blanks at its ends.
pub open spec fn is_bare(s: Seq<u8>) -> bool {
    s.len() > 0 && !is_edge(s[0]) && !is_edge(s.last())
}

proof fn lemma_head_off(head: Seq<u8>, s: Seq<u8>)
    requires
        all_edge(head),
        s.len() > 0 ==> !is_edge(s[0]),
    ensures
        manifest::without_head(head + s) == s,
    decreases head.len(),
{
    let all = head + s;
    if head.len() > 0 {
        assert(all[0] == head[0]);
        assert(all.drop_first() =~= head.drop_first() + s);
        assert forall|i: int| 0 <= i < head.drop_first().len() implies is_edge(
            #[trigger] head.drop_first()[i],
        ) by {
            assert(head.drop_first()[i] == head[i + 1]);
        }
        lemma_head_off(head.drop_first(), s);
    } else {
        assert(all =~= s);
    }
}

proof fn lemma_tail_off(s: Seq<u8>, tail: Seq<u8>)
    requires
        all_edge(tail),
        s.len() > 0 ==> !is_edge(s.last()),
    ensures
        manifest::without_tail(s + tail) == s,
    decreases tail.len(),
{
    let all = s + tail;
    if tail.len() > 0 {
        assert(all.last() == tail.last());
        assert(all.drop_last() =~= s + tail.drop_last());
        lemma_tail_off(s, tail.drop_last());
    } else {
        assert(all =~= s);
    }
}

proof fn lemma_stripped(head: Seq<u8>, s: Seq<u8>, tail: Seq<u8>)
    requires
        all_edge(head),
        all_edge(tail),
        is_bare(s),
    ensures
        manifest::stripped(head + (s + tail)) == s,
{
    assert((s + tail)[0] == s[0]);
    lemma_head_off(head, s + tail);
    lemma_tail_off(s, tail);
}

/// A line of blanks or a comment adds nothing. A line of more than 1024 bytes is refused.
pub proof fn law_lines_without_rows(
    m: ManifestView,
    head: Seq<u8>,
    comment: Seq<u8>,
    tail: Seq<u8>,
    line: int,
)
    requires
        all_edge(head),
        all_edge(tail),
        comment.len() > 0 ==> is_bare(comment) && comment[0] == 35,
    ensures
        (head + (comment + tail)).len() <= 1024 ==> manifest::line_step(
            m,
            head + (comment + tail),
            line,
        ) == Ok::<ManifestView, ErrorView>(m),
        (head + (comment + tail)).len() > 1024 ==> manifest::line_step(
            m,
            head + (comment + tail),
            line,
        ) is Err,
{
    let raw = head + (comment + tail);
    if comment.len() > 0 {
        lemma_stripped(head, comment, tail);
    } else {
        let all = head + tail;
        assert(raw =~= all + Seq::empty());
        assert forall|i: int| 0 <= i < all.len() implies is_edge(#[trigger] all[i]) by {
            if i < head.len() {
                assert(all[i] == head[i]);
            } else {
                assert(all[i] == tail[i - head.len()]);
            }
        }
        lemma_head_off(all, Seq::empty());
        assert(manifest::without_tail(Seq::<u8>::empty()) == Seq::<u8>::empty());
    }
}

/// A line whose words are the fields of a row adds that row.
pub proof fn law_line_with_a_row(
    m: ManifestView,
    head: Seq<u8>,
    s: Seq<u8>,
    tail: Seq<u8>,
    argv: Seq<Seq<u8>>,
    fields: Seq<FieldView>,
    a: int,
    b: int,
    c: int,
    row: RowView,
    line: int,
)
    requires
        all_edge(head),
        all_edge(tail),
        is_bare(s),
        s[0] != 35,
        (head + (s + tail)).len() <= 1024,
        manifest::args_of(s) == Some(argv),
        form_laws::alternate(argv, fields),
        are_fields_of(fields, a, b, c, row),
        is_plain_name(row.name),
    ensures
        adds_row(m, row, manifest::line_step(m, head + (s + tail), line)),
{
    lemma_stripped(head, s, tail);
    law_row_is_read(argv, fields, a, b, c, row, line);
    lemma_three_fields(fields, a, b, c, row);
}

proof fn lemma_three_fields(fields: Seq<FieldView>, a: int, b: int, c: int, row: RowView)
    requires
        are_fields_of(fields, a, b, c, row),
    ensures
        fields.len() >= 3,
{
    lemma_keys(fields[a].0);
    lemma_keys(fields[b].0);
    assert(is_key(fields[a].0, file_key()));
    assert(is_key(fields[b].0, seq_key()));
    assert(is_key(fields[c].0, type_key()));
    assert(a != b && a != c && b != c);
}

/// The outcome of a row: a base is taken if there is none yet, a row of history is put behind the
/// others, and an increment is if its number is greater than the last one. Nothing else changes.
pub open spec fn adds_row(
    m: ManifestView,
    row: RowView,
    outcome: Result<ManifestView, ErrorView>,
) -> bool {
    match row.kind {
        AofManifestFileType::Base => match outcome {
            Ok(n) => m.base is None && n.base == Some(row) && n.base_seq == row.seq && n.history
                == m.history && n.incremental == m.incremental && n.incr_seq == m.incr_seq,
            Err(_) => m.base is Some,
        },
        AofManifestFileType::History => outcome matches Ok(n) && n.base == m.base && n.base_seq
            == m.base_seq && n.history == m.history.push(row) && n.incremental == m.incremental
            && n.incr_seq == m.incr_seq,
        AofManifestFileType::Incremental => match outcome {
            Ok(n) => row.seq > m.incr_seq && n.base == m.base && n.base_seq == m.base_seq
                && n.history == m.history && n.incremental == m.incremental.push(row) && n.incr_seq
                == row.seq,
            Err(_) => row.seq <= m.incr_seq,
        },
    }
}

/// A line with an odd number of words, or with fewer than six, is refused, as is one whose words
/// do not end.
pub proof fn law_wrong_lines_are_refused(
    m: ManifestView,
    head: Seq<u8>,
    s: Seq<u8>,
    tail: Seq<u8>,
    line: int,
)
    requires
        all_edge(head),
        all_edge(tail),
        is_bare(s),
        s[0] != 35,
        match manifest::args_of(s) {
            None => true,
            Some(argv) => argv.len() < 6 || argv.len() % 2 == 1,
        },
    ensures
        manifest::line_step(m, head + (s + tail), line) is Err,
{
    lemma_stripped(head, s, tail);
}

/// The line is refused for the reason, and its number is told.
pub open spec fn is_refused<X>(outcome: Result<X, ErrorView>, line: int, reason: Seq<char>) -> bool {
    outcome == Err::<X, ErrorView>(ErrorView::ManifestParse { line, reason })
}

/// The reasons for which a line is refused before its fields are looked at.
pub proof fn law_reasons_of_lines(
    m: ManifestView,
    head: Seq<u8>,
    s: Seq<u8>,
    tail: Seq<u8>,
    line: int,
)
    requires
        all_edge(head),
        all_edge(tail),
        is_bare(s),
    ensures
        ({
            let raw = head + (s + tail);
            let outcome = manifest::line_step(m, raw, line);
            &&& raw.len() > 1024 ==> is_refused(outcome, line, "line too long"@)
            &&& raw.len() <= 1024 && s[0] != 35 && manifest::args_of(s) is None ==> is_refused(
                outcome,
                line,
                "invalid manifest quoting"@,
            )
            &&& raw.len() <= 1024 && s[0] != 35 && (manifest::args_of(s) matches Some(argv) && (
            argv.len() < 6 || argv.len() % 2 == 1)) ==> is_refused(
                outcome,
                line,
                "invalid field count"@,
            )
        }),
{
    lemma_stripped(head, s, tail);
}

/// The reasons for which a row is refused: a field that is missing, and a second base or an
/// increment that is not behind the last one.
pub proof fn law_reasons_of_rows(f: RowFields, m: ManifestView, row: RowView, line: int)
    ensures
        f.name is None ==> is_refused(manifest::row_of(f, line), line, "missing file field"@),
        (f.name matches Some(name) && is_plain_name(name)) && f.seq is None ==> is_refused(
            manifest::row_of(f, line),
            line,
            "missing seq field"@,
        ),
        (f.name matches Some(name) && is_plain_name(name)) && f.seq is Some && f.kind is None
            ==> is_refused(manifest::row_of(f, line), line, "missing type field"@),
        row.kind is Base && m.base is Some ==> is_refused(
            manifest::manifest_more(m, row, line),
            line,
            "duplicate base file"@,
        ),
        row.kind is Incremental && row.seq <= m.incr_seq ==> is_refused(
            manifest::manifest_more(m, row, line),
            line,
            "non-monotonic incremental sequence"@,
        ),
{
    if let Some(name) = f.name {
        assert(manifest::is_basename(name) <==> is_plain_name(name));
    }
}

/// The reasons for which a field is refused: one that is given twice, a number that is not plain
/// or zero, and a kind that is not one letter or none that is known.
pub proof fn law_reasons_of_fields(f: RowFields, key: Seq<u8>, value: Seq<u8>, line: int)
    ensures
        is_key(key, file_key()) && f.name is Some ==> is_refused(
            manifest::fields_more(f, key, value, line),
            line,
            "duplicate file field"@,
        ),
        is_key(key, seq_key()) && (forall|n: u64|
            n > 0 ==> value != #[trigger] decimal::dec_nat(n as nat)) ==> is_refused(
            manifest::fields_more(f, key, value, line),
            line,
            "invalid seq field"@,
        ),
        is_key(key, seq_key()) && f.seq is Some && manifest::sequence_of(value) is Some
            ==> is_refused(
            manifest::fields_more(f, key, value, line),
            line,
            "duplicate seq field"@,
        ),
        is_key(key, type_key()) && (value.len() != 1 || value[0] > 127) ==> is_refused(
            manifest::fields_more(f, key, value, line),
            line,
            "invalid file type"@,
        ),
        is_key(key, type_key()) && value.len() == 1 && value[0] <= 127 && value[0] != 98 && value[0]
            != 104 && value[0] != 105 ==> is_refused(
            manifest::fields_more(f, key, value, line),
            line,
            "unknown file type"@,
        ),
        is_key(key, type_key()) && f.kind is Some && value.len() == 1 && (value[0] == 98 || value[0]
            == 104 || value[0] == 105) ==> is_refused(
            manifest::fields_more(f, key, value, line),
            line,
            "duplicate type field"@,
        ),
{
    lemma_keys(key);
    if manifest::sequence_of(value) is Some {
        let n = manifest::sequence_of(value)->Some_0;
        lemma_sequence(value, n);
        assert(value == decimal::dec_nat(n as nat));
    }
}

proof fn lemma_line_end(data: Seq<u8>, pos: int, end: int)
    requires
        0 <= pos <= end <= data.len(),
        forall|i: int| pos <= i < end ==> #[trigger] data[i] != 10,
        end == data.len() || data[end] == 10,
    ensures
        manifest::newline_from(data, pos) == end,
    decreases end - pos,
{
    if pos < end {
        lemma_line_end(data, pos + 1, end);
    }
}

/// Lines are taken one by one and counted. A carriage return in front of a newline is not part
/// of the line.
pub proof fn law_lines_one_by_one(
    front: Seq<u8>,
    raw: Seq<u8>,
    returned: bool,
    rest: Seq<u8>,
    line: int,
    m: ManifestView,
)
    requires
        forall|i: int| 0 <= i < raw.len() ==> #[trigger] raw[i] != 10,
        raw.len() > 0 && !returned ==> raw.last() != 13,
    ensures
        ({
            let end = if returned {
                seq![13u8, 10u8]
            } else {
                seq![10u8]
            };
            let data = front + (raw + (end + rest));
            manifest::lines_from(data, front.len() as int, line, m) == match manifest::line_step(
                m,
                raw,
                line,
            ) {
                Err(e) => Err(e),
                Ok(next) => manifest::lines_from(
                    data,
                    (front + (raw + end)).len() as int,
                    line + 1,
                    next,
                ),
            }
        }),
{
    let end = if returned {
        seq![13u8, 10u8]
    } else {
        seq![10u8]
    };
    let data = front + (raw + (end + rest));
    let p = front.len() as int;
    bytes::lemma_has_at_whole(data);
    bytes::lemma_has_at_concat(data, 0, front, raw + (end + rest));
    bytes::lemma_has_at_concat(data, p, raw, end + rest);
    bytes::lemma_has_at_concat(data, p + raw.len(), end, rest);
    let q = p + raw.len() + end.len() - 1;
    assert(data[(p + raw.len()) + (end.len() - 1)] == end[end.len() - 1]);
    assert(data[(p + raw.len()) + 0] == end[0]);
    assert forall|i: int| p <= i < q implies #[trigger] data[i] != 10 by {
        if i < p + raw.len() {
            assert(data[p + (i - p)] == raw[i - p]);
        }
    }
    lemma_line_end(data, p, q);
    if returned {
        assert(data.subrange(p, q - 1) =~= data.subrange(p, p + raw.len()));
    } else if raw.len() > 0 {
        assert(data[p + (raw.len() - 1)] == raw[raw.len() - 1]);
    }
    bytes::lemma_has_at_subrange(data, p, raw);
}

/// A manifest without any row is refused, and one with a row is what its lines say.
pub proof fn law_manifest_has_a_row(data: Seq<u8>)
    ensures
        manifest::lines_from(data, 0, 1, manifest::no_files()) matches Ok(m) ==> m.base is None
            && m.history.len() == 0 && m.incremental.len() == 0 ==> is_refused(
            manifest::manifest_of(data),
            0,
            "empty manifest"@,
        ),
        manifest::manifest_of(data) matches Ok(m) ==> m.base is Some || m.history.len() > 0
            || m.incremental.len() > 0,
        manifest::lines_from(data, 0, 1, manifest::no_files()) matches Ok(m) ==> m.base is Some
            || m.history.len() > 0 || m.incremental.len() > 0 ==> manifest::manifest_of(data)
            == Ok::<ManifestView, ErrorView>(m),
{
}

// ---------------------------------------------------------------------------
// What is written
// ---------------------------------------------------------------------------

/// A row is written as one line: its name, number and kind behind their keys, with one space
/// between them. A name stands in quotes exactly if a byte of it would not stand for itself.
pub proof fn law_row_is_one_line(row: RowView)
    ensures
        ({
            let name = vstd::utf8::encode_utf8(row.name);
            let plain = forall|i: int|
                0 <= i < name.len() ==> letter_right(None, Letter::Plain(#[trigger] name[i]));
            let written = manifest_format::name_bytes(name);
            &&& manifest_format::row_encoder()(row) == file_key() + seq![32u8] + written + seq![
                32u8,
            ] + seq_key() + seq![32u8] + decimal::dec_nat(row.seq as nat) + seq![32u8] + type_key()
                + seq![32u8, kind_letter(row.kind), 10u8]
            &&& plain ==> written == name
            &&& !plain ==> written.len() >= 2 && written[0] == 34 && written.last() == 34
        }),
{
    let name = vstd::utf8::encode_utf8(row.name);
    let written = manifest_format::name_bytes(name);
    assert(manifest_format::row_encoder()(row) =~= file_key() + seq![32u8] + written + seq![32u8]
        + seq_key() + seq![32u8] + decimal::dec_nat(row.seq as nat) + seq![32u8] + type_key()
        + seq![32u8, kind_letter(row.kind), 10u8]);
    if manifest_format::needs_quotes(name) {
        let i = choose|i: int|
            0 <= i < name.len() && manifest_format::is_special(#[trigger] name[i]);
        assert(!letter_right(None, Letter::Plain(name[i])));
    } else {
        assert forall|i: int| 0 <= i < name.len() implies letter_right(
            None,
            Letter::Plain(#[trigger] name[i]),
        ) by {
            assert(!manifest_format::is_special(name[i]));
        }
    }
}

/// A manifest is written as its base, the rows of its history and its increments.
pub proof fn law_rows_are_written_in_order(m: ManifestView)
    ensures
        manifest_format::manifest_bytes(m) == (match m.base {
            None => Seq::empty(),
            Some(b) => manifest_format::row_encoder()(b),
        }) + bytes::concat_all(manifest_format::row_encoder(), m.history) + bytes::concat_all(
            manifest_format::row_encoder(),
            m.incremental,
        ),
{
    let e = manifest_format::row_encoder();
    let first = match m.base {
        None => Seq::empty(),
        Some(b) => seq![b],
    };
    bytes::lemma_concat_append(e, first + m.history, m.incremental);
    bytes::lemma_concat_append(e, first, m.history);
    assert(bytes::concat_all(e, Seq::<RowView>::empty()) =~= Seq::empty());
    if let Some(b) = m.base {
        assert(seq![b].drop_last() =~= Seq::empty());
        assert(bytes::concat_all(e, seq![b]) =~= e(b));
    }
}

/// A new log has a snapshot as its base and one increment, both with its number in their names.
pub proof fn law_names_of_a_new_log(basename: Seq<char>, n: u64)
    ensures
        ({
            let m = multipart::new_manifest(basename, n);
            let stem = vstd::utf8::encode_utf8(basename) + seq![46u8] + decimal::dec_nat(n as nat);
            &&& m.base matches Some(b) && vstd::utf8::encode_utf8(b.name) == stem + seq![
                46u8,
                98u8,
                97u8,
                115u8,
                101u8,
                46u8,
                114u8,
                100u8,
                98u8,
            ] && b.seq == n && b.kind is Base
            &&& m.incremental.len() == 1
            &&& vstd::utf8::encode_utf8(m.incremental[0].name) == stem + seq![
                46u8,
                105u8,
                110u8,
                99u8,
                114u8,
                46u8,
                97u8,
                111u8,
                102u8,
            ]
            &&& m.incremental[0].seq == n && m.incremental[0].kind is Incremental
            &&& m.history.len() == 0
            &&& m.base_seq == n && m.incr_seq == n
        }),
{
    multipart::lemma_file_name(basename, n, multipart::base_suffix());
    multipart::lemma_file_name(basename, n, multipart::incr_suffix());
}

} // verus!
