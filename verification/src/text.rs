//! Text and bytes.

use vstd::prelude::*;

verus! {

/// Calls `String::from_utf8`: bytes that are UTF-8 are decoded, others are rejected.
#[verifier::external_body]
pub(crate) fn string_from_utf8(bytes: Vec<u8>) -> (r: Option<String>)
    ensures
        match r {
            Some(s) => vstd::utf8::valid_utf8(bytes@) && s@ == vstd::utf8::decode_utf8(bytes@),
            None => !vstd::utf8::valid_utf8(bytes@),
        },
{
    String::from_utf8(bytes).ok()
}

/// What `String::from_utf8_lossy` makes of bytes that are not UTF-8.
pub uninterp spec fn lossy_text(bytes: Seq<u8>) -> Seq<char>;

/// Calls `String::from_utf8_lossy`. Bytes that are UTF-8 are decoded. What stands for
/// other bytes is a function of the bytes; which one is not said.
#[verifier::external_body]
pub(crate) fn text_from_lossy(bytes: &[u8]) -> (text: String)
    ensures
        vstd::utf8::valid_utf8(bytes@) ==> text@ == vstd::utf8::decode_utf8(bytes@),
        !vstd::utf8::valid_utf8(bytes@) ==> text@ == lossy_text(bytes@),
{
    String::from_utf8_lossy(bytes).into_owned()
}

/// The text that bytes stand for.
pub open spec fn text_of(bytes: Seq<u8>) -> Seq<char> {
    if vstd::utf8::valid_utf8(bytes) {
        vstd::utf8::decode_utf8(bytes)
    } else {
        lossy_text(bytes)
    }
}

/// Text is what its bytes stand for.
pub proof fn law_text_round_trip(text: Seq<char>)
    ensures
        text_of(vstd::utf8::encode_utf8(text)) == text,
{
    vstd::utf8::encode_utf8_valid_utf8(text);
    vstd::utf8::encode_utf8_decode_utf8(text);
}

/// ASCII bytes are UTF-8.
pub proof fn lemma_ascii_valid(s: Seq<u8>)
    requires
        forall|i: int| 0 <= i < s.len() ==> #[trigger] s[i] < 0x80,
    ensures
        vstd::utf8::valid_utf8(s),
    decreases s.len(),
{
    if s.len() > 0 {
        let rest = vstd::utf8::pop_first_scalar(s);
        assert(s[0] < 0x80);
        assert(rest =~= s.skip(1));
        let b = s[0];
        assert(b < 0x80 ==> (b & 0x7f) == b) by (bit_vector);
        lemma_ascii_valid(rest);
    }
}

// ---------------------------------------------------------------------------
// A character for each byte
// ---------------------------------------------------------------------------

/// Bytes as text, a character for each byte: the one whose number the byte is.
pub open spec fn char_per_byte(s: Seq<u8>) -> Seq<char> {
    s.map_values(|b: u8| b as char)
}

/// The UTF-8 form of the character whose number is a byte.
pub open spec fn wide(b: u8) -> Seq<u8> {
    if b < 0x80 {
        seq![b]
    } else if b < 0xC0 {
        seq![0xC2u8, b]
    } else {
        seq![0xC3u8, (b - 0x40) as u8]
    }
}

/// The UTF-8 form of bytes as text, a character for each byte.
pub open spec fn widened(s: Seq<u8>) -> Seq<u8>
    decreases s.len(),
{
    if s.len() == 0 {
        Seq::empty()
    } else {
        widened(s.drop_last()) + wide(s.last())
    }
}

proof fn lemma_wide(b: u8)
    ensures
        vstd::utf8::encode_utf8(seq![b as char]) == wide(b),
{
    let c = b as u32;
    let chars = seq![b as char];
    assert(chars[0] as u32 == c);
    assert(chars.drop_first() =~= Seq::empty());
    assert(vstd::utf8::encode_utf8(chars.drop_first()) =~= Seq::empty());
    if c < 0x80 {
        assert((c & 0x7F) as u8 == c) by (bit_vector)
            requires
                c < 0x80,
        ;
    } else if c < 0xC0 {
        assert((0xC0 | ((c >> 6) & 0x1F) as u8) == 0xC2 && (0x80 | (c & 0x3F) as u8) == c)
            by (bit_vector)
            requires
                0x80 <= c < 0xC0,
        ;
    } else {
        assert((0xC0 | ((c >> 6) & 0x1F) as u8) == 0xC3 && (0x80 | (c & 0x3F) as u8) + 0x40 == c)
            by (bit_vector)
            requires
                0xC0 <= c < 0x100,
        ;
    }
    assert(vstd::utf8::encode_utf8(chars) =~= wide(b));
}

/// The UTF-8 form of such a character is UTF-8.
pub proof fn lemma_wide_valid(b: u8)
    ensures
        vstd::utf8::valid_utf8(wide(b)),
{
    lemma_wide(b);
    vstd::utf8::encode_utf8_valid_utf8(seq![b as char]);
}

proof fn lemma_encode_push(chars: Seq<char>, c: char)
    ensures
        vstd::utf8::encode_utf8(chars.push(c)) == vstd::utf8::encode_utf8(chars)
            + vstd::utf8::encode_utf8(seq![c]),
    decreases chars.len(),
{
    let all = chars.push(c);
    if chars.len() == 0 {
        assert(all =~= seq![c]);
        assert(vstd::utf8::encode_utf8(chars) =~= Seq::empty());
        assert(vstd::utf8::encode_utf8(all) =~= vstd::utf8::encode_utf8(chars)
            + vstd::utf8::encode_utf8(seq![c]));
    } else {
        assert(all.drop_first() =~= chars.drop_first().push(c));
        lemma_encode_push(chars.drop_first(), c);
        assert(vstd::utf8::encode_utf8(all) =~= vstd::utf8::encode_utf8(chars)
            + vstd::utf8::encode_utf8(seq![c]));
    }
}

/// The UTF-8 form of bytes as text.
pub proof fn lemma_widened(s: Seq<u8>)
    ensures
        vstd::utf8::encode_utf8(char_per_byte(s)) == widened(s),
    decreases s.len(),
{
    if s.len() == 0 {
        assert(char_per_byte(s) =~= Seq::empty());
        assert(vstd::utf8::encode_utf8(char_per_byte(s)) =~= Seq::empty());
    } else {
        let front = s.drop_last();
        lemma_widened(front);
        lemma_wide(s.last());
        assert(char_per_byte(s) =~= char_per_byte(front).push(s.last() as char));
        lemma_encode_push(char_per_byte(front), s.last() as char);
    }
}

/// ASCII text is what its bytes are, a character for each.
pub proof fn lemma_ascii_per_byte(text: Seq<char>)
    requires
        vstd::utf8::is_ascii_chars(text),
    ensures
        char_per_byte(vstd::utf8::encode_utf8(text)) == text,
        forall|i: int|
            0 <= i < vstd::utf8::encode_utf8(text).len()
                ==> #[trigger] vstd::utf8::encode_utf8(text)[i] < 0x80,
{
    vstd::utf8::is_ascii_chars_encode_utf8(text);
    let b = vstd::utf8::encode_utf8(text);
    assert forall|i: int| 0 <= i < b.len() implies #[trigger] b[i] < 0x80 && b[i] as char
        == text[i] by {
        let c = text[i];
        assert('\0' <= c <= '\u{7f}');
        assert(b[i] == c as u8);
    }
    assert(char_per_byte(b) =~= text);
}

/// Appends the UTF-8 form of the character whose number is a byte.
pub fn push_wide(out: &mut Vec<u8>, b: u8)
    ensures
        final(out)@ == old(out)@ + wide(b),
{
    if b < 0x80 {
        out.push(b);
    } else if b < 0xC0 {
        out.push(0xC2);
        out.push(b);
    } else {
        out.push(0xC3);
        out.push(b - 0x40);
    }
    assert(out@ =~= old(out)@ + wide(b));
}

/// Bytes as text, a character for each byte.
pub fn text_per_byte(s: &[u8]) -> (text: String)
    ensures
        text@ == char_per_byte(s@),
{
    let mut out: Vec<u8> = Vec::new();
    let mut i: usize = 0;
    assert(s@.take(0) =~= Seq::empty());
    assert(out@ =~= widened(s@.take(0)));
    while i < s.len()
        invariant
            i <= s@.len(),
            out@ == widened(s@.take(i as int)),
        decreases s@.len() - i,
    {
        assert(s@.take(i as int + 1).drop_last() =~= s@.take(i as int));
        push_wide(&mut out, s[i]);
        i = i + 1;
    }
    proof {
        assert(s@.take(i as int) =~= s@);
        lemma_widened(s@);
        vstd::utf8::encode_utf8_valid_utf8(char_per_byte(s@));
        vstd::utf8::encode_utf8_decode_utf8(char_per_byte(s@));
    }
    match string_from_utf8(out) {
        Some(text) => text,
        None => String::new(),
    }
}

} // verus!
