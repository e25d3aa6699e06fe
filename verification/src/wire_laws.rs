//! The forms of numbers, lengths and strings that are read, whoever wrote them.

use vstd::prelude::*;

use crate::bytes;
use crate::decimal;
use crate::lzf;
use crate::lzf::LZF_MAX_EXPANDED;
use crate::rdb_wire;
use crate::snapshot_items;

verus! {

// ---------------------------------------------------------------------------
// Numbers
// ---------------------------------------------------------------------------

/// Each byte of a number with the least significant one first: the one at `i` is the digit for
/// 256 to the power `i`.
pub proof fn law_le_bytes(n: nat, width: nat, i: int)
    requires
        0 <= i < width,
    ensures
        bytes::le_bytes(n, width).len() == width,
        bytes::le_bytes(n, width)[i] as int == (n as int / vstd::arithmetic::power::pow(
            256,
            i as nat,
        )) % 256,
    decreases width,
{
    bytes::lemma_le_bytes_len(n, width);
    if i == 0 {
        vstd::arithmetic::power::lemma_pow0(256);
    } else {
        law_le_bytes(n / 256, (width - 1) as nat, i - 1);
        let p = vstd::arithmetic::power::pow(256, (i - 1) as nat);
        vstd::arithmetic::power::lemma_pow_positive(256, (i - 1) as nat);
        vstd::arithmetic::power::lemma_pow_adds(256, 1, (i - 1) as nat);
        vstd::arithmetic::power::lemma_pow1(256);
        vstd::arithmetic::div_mod::lemma_div_denominator(n as int, 256, p);
    }
}

/// Each byte of a number with the most significant one first: the last is the digit for one.
pub proof fn law_be_bytes(n: nat, width: nat, i: int)
    requires
        0 <= i < width,
    ensures
        bytes::be_bytes(n, width).len() == width,
        bytes::be_bytes(n, width)[i] as int == (n as int / vstd::arithmetic::power::pow(
            256,
            (width - 1 - i) as nat,
        )) % 256,
    decreases width,
{
    bytes::lemma_be_bytes_len(n, width);
    bytes::lemma_be_bytes_len(n / 256, (width - 1) as nat);
    if i == width - 1 {
        vstd::arithmetic::power::lemma_pow0(256);
    } else {
        law_be_bytes(n / 256, (width - 1) as nat, i);
        let e = (width - 2 - i) as nat;
        let p = vstd::arithmetic::power::pow(256, e);
        vstd::arithmetic::power::lemma_pow_positive(256, e);
        vstd::arithmetic::power::lemma_pow_adds(256, 1, e);
        vstd::arithmetic::power::lemma_pow1(256);
        vstd::arithmetic::div_mod::lemma_div_denominator(n as int, 256, p);
    }
}

/// Two's complement: a negative number is stored as what it is more than the next power of 256
/// below zero.
pub proof fn law_twos_complement(v: int, width: nat)
    requires
        v + vstd::arithmetic::power::pow(256, width) >= 0,
    ensures
        v < 0 ==> bytes::unsigned(v, width) == v + vstd::arithmetic::power::pow(256, width),
        v >= 0 ==> bytes::unsigned(v, width) == v,
{
    lemma_pow256(width);
}

proof fn lemma_pow256(width: nat)
    ensures
        bytes::pow256(width) as int == vstd::arithmetic::power::pow(256, width),
    decreases width,
{
    if width == 0 {
        vstd::arithmetic::power::lemma_pow0(256);
    } else {
        lemma_pow256((width - 1) as nat);
        vstd::arithmetic::power::lemma_pow_adds(256, 1, (width - 1) as nat);
        vstd::arithmetic::power::lemma_pow1(256);
    }
}

/// The text of an integer: a minus sign where it is negative, and digits of which the one that
/// is `i` from the end is for ten to the power `i`, without a zero in front of others.
pub proof fn law_decimal_text(v: int, i: nat)
    ensures
        v < 0 ==> decimal::dec_int(v) == seq![45u8] + decimal::dec_int(-v),
        v >= 0 ==> decimal::dec_int(v).len() > 0,
        v > 0 ==> decimal::dec_int(v)[0] != 48,
        v >= 0 && i < decimal::dec_int(v).len() ==> decimal::dec_int(v)[decimal::dec_int(v).len()
            - 1 - i] as int == 48 + (v / vstd::arithmetic::power::pow(10, i)) % 10,
        v == 0 ==> decimal::dec_int(v) == seq![48u8],
{
    if v >= 0 {
        lemma_digit(v as nat, i);
        decimal::lemma_dec_nat(v as nat);
    }
}

proof fn lemma_digit(n: nat, i: nat)
    ensures
        i < decimal::dec_nat(n).len() ==> decimal::dec_nat(n)[decimal::dec_nat(n).len() - 1
            - i] as int == 48 + (n as int / vstd::arithmetic::power::pow(10, i)) % 10,
    decreases n,
{
    vstd::arithmetic::power::lemma_pow0(10);
    if i > 0 && n >= 10 {
        let e = (i - 1) as nat;
        lemma_digit(n / 10, e);
        let p = vstd::arithmetic::power::pow(10, e);
        vstd::arithmetic::power::lemma_pow_positive(10, e);
        vstd::arithmetic::power::lemma_pow_adds(10, 1, e);
        vstd::arithmetic::power::lemma_pow1(10);
        vstd::arithmetic::div_mod::lemma_div_denominator(n as int, 10, p);
    }
}

// ---------------------------------------------------------------------------
// Lengths
// ---------------------------------------------------------------------------

/// A length is read from each form that has room for it, not only from the shortest.
pub proof fn law_length_forms(n: nat)
    ensures
        n < 64 ==> snapshot_items::is_length(seq![n as u8], n),
        n < 16_384 ==> snapshot_items::is_length(
            seq![(64 + n / 256) as u8, (n % 256) as u8],
            n,
        ),
        n <= u32::MAX ==> snapshot_items::is_length(seq![0x80u8] + bytes::be_bytes(n, 4), n),
        n <= u64::MAX ==> snapshot_items::is_length(seq![0x81u8] + bytes::be_bytes(n, 8), n),
{
    bytes::lemma_pow256_values();
    bytes::lemma_be_bytes_len(n, 4);
    bytes::lemma_be_bytes_len(n, 8);
    if n < 64 {
        let e = seq![n as u8];
        assert forall|data: Seq<u8>, pos: int| #[trigger]
            bytes::has_at(data, pos, e) implies rdb_wire::length_at(data, pos) == Some(
            (n, pos + e.len()),
        ) by {
            assert(data[pos + 0] == e[0]);
        }
    }
    if n < 16_384 {
        let e = seq![(64 + n / 256) as u8, (n % 256) as u8];
        assert forall|data: Seq<u8>, pos: int| #[trigger]
            bytes::has_at(data, pos, e) implies rdb_wire::length_at(data, pos) == Some(
            (n, pos + e.len()),
        ) by {
            assert(data[pos + 0] == e[0]);
            assert(data[pos + 1] == e[1]);
        }
    }
    if n <= u32::MAX {
        let e = seq![0x80u8] + bytes::be_bytes(n, 4);
        assert forall|data: Seq<u8>, pos: int| #[trigger]
            bytes::has_at(data, pos, e) implies rdb_wire::length_at(data, pos) == Some(
            (n, pos + e.len()),
        ) by {
            bytes::lemma_has_at_concat(data, pos, seq![0x80u8], bytes::be_bytes(n, 4));
            assert(data[pos + 0] == seq![0x80u8][0]);
            bytes::lemma_be_at(data, pos + 1, n, 4);
        }
    }
    if n <= u64::MAX {
        let e = seq![0x81u8] + bytes::be_bytes(n, 8);
        assert forall|data: Seq<u8>, pos: int| #[trigger]
            bytes::has_at(data, pos, e) implies rdb_wire::length_at(data, pos) == Some(
            (n, pos + e.len()),
        ) by {
            bytes::lemma_has_at_concat(data, pos, seq![0x81u8], bytes::be_bytes(n, 8));
            assert(data[pos + 0] == seq![0x81u8][0]);
            bytes::lemma_be_at(data, pos + 1, n, 8);
        }
    }
}

/// A length is written in the shortest of its forms.
pub proof fn law_length_is_short(n: nat)
    requires
        n <= u64::MAX,
    ensures
        rdb_wire::length_bytes(n).len() == (if n < 64 {
            1int
        } else if n < 16_384 {
            2
        } else if n <= u32::MAX {
            5
        } else {
            9
        }),
        snapshot_items::is_length(rdb_wire::length_bytes(n), n),
{
    rdb_wire::lemma_length_len(n);
    assert forall|data: Seq<u8>, pos: int| #[trigger]
        bytes::has_at(data, pos, rdb_wire::length_bytes(n)) implies rdb_wire::length_at(data, pos)
        == Some((n, pos + rdb_wire::length_bytes(n).len())) by {
        rdb_wire::law_length_round_trip(data, pos, n);
    }
}

/// No length starts with any other byte, and none is read of which bytes are missing.
pub proof fn law_other_lengths_are_rejected(data: Seq<u8>, pos: int)
    requires
        pos < 0 || pos >= data.len() || data[pos] >= 0x82 || (64 <= data[pos] < 128 && pos + 2
            > data.len()) || (data[pos] == 0x80 && pos + 5 > data.len()) || (data[pos] == 0x81
            && pos + 9 > data.len()),
    ensures
        rdb_wire::length_at(data, pos) is None,
{
}

// ---------------------------------------------------------------------------
// Strings
// ---------------------------------------------------------------------------

/// A string is its length, in any form, and its bytes.
pub proof fn law_raw_string(length: Seq<u8>, s: Seq<u8>)
    requires
        length.len() > 0,
        length[0] < 0xC0,
        snapshot_items::is_length(length, s.len()),
    ensures
        snapshot_items::is_string(length + s, s),
{
    assert forall|data: Seq<u8>, pos: int| #[trigger]
        bytes::has_at(data, pos, length + s) implies rdb_wire::string_at(data, pos) == Some(
        (s, pos + (length + s).len()),
    ) by {
        bytes::lemma_has_at_concat(data, pos, length, s);
        assert(data[pos + 0] == length[0]);
        bytes::lemma_has_at_subrange(data, pos + length.len(), s);
    }
}

/// An integer of one, two or four bytes behind its mark is the string of its decimal text.
pub proof fn law_integer_string(v: int)
    ensures
        -0x80 <= v < 0x80 ==> snapshot_items::is_string(
            seq![0xC0u8] + bytes::le_bytes(bytes::unsigned(v, 1), 1),
            decimal::dec_int(v),
        ),
        -0x8000 <= v < 0x8000 ==> snapshot_items::is_string(
            seq![0xC1u8] + bytes::le_bytes(bytes::unsigned(v, 2), 2),
            decimal::dec_int(v),
        ),
        -0x8000_0000 <= v < 0x8000_0000 ==> snapshot_items::is_string(
            seq![0xC2u8] + bytes::le_bytes(bytes::unsigned(v, 4), 4),
            decimal::dec_int(v),
        ),
{
    bytes::lemma_pow256_values();
    if -0x80 <= v < 0x80 {
        lemma_integer_string(v, 1, 0xC0);
    }
    if -0x8000 <= v < 0x8000 {
        lemma_integer_string(v, 2, 0xC1);
    }
    if -0x8000_0000 <= v < 0x8000_0000 {
        lemma_integer_string(v, 4, 0xC2);
    }
}

proof fn lemma_integer_string(v: int, width: nat, mark: u8)
    requires
        width == 1 && mark == 0xC0 || width == 2 && mark == 0xC1 || width == 4 && mark == 0xC2,
        -(bytes::pow256(width) as int) <= 2 * v < bytes::pow256(width),
    ensures
        snapshot_items::is_string(
            seq![mark] + bytes::le_bytes(bytes::unsigned(v, width), width),
            decimal::dec_int(v),
        ),
{
    let body = bytes::le_bytes(bytes::unsigned(v, width), width);
    let e = seq![mark] + body;
    bytes::lemma_signed_unsigned(v, width);
    bytes::lemma_le_bytes_len(bytes::unsigned(v, width), width);
    assert forall|data: Seq<u8>, pos: int| #[trigger]
        bytes::has_at(data, pos, e) implies rdb_wire::string_at(data, pos) == Some(
        (decimal::dec_int(v), pos + e.len()),
    ) by {
        bytes::lemma_has_at_concat(data, pos, seq![mark], body);
        assert(data[pos + 0] == seq![mark][0]);
        bytes::lemma_le_at(data, pos + 1, bytes::unsigned(v, width), width);
    }
}

/// A compressed string is a mark, the length of the stream, the length of the string, and the
/// stream.
pub proof fn law_compressed_string(
    packed: Seq<u8>,
    expanded: Seq<u8>,
    stream: Seq<u8>,
    s: Seq<u8>,
)
    requires
        snapshot_items::is_length(packed, stream.len()),
        snapshot_items::is_length(expanded, s.len()),
        lzf::lzf_expanded(stream, s.len()) == Some(s),
    ensures
        snapshot_items::is_string(seq![0xC3u8] + packed + expanded + stream, s),
{
    let a = seq![0xC3u8];
    let e = a + packed + expanded + stream;
    assert forall|data: Seq<u8>, pos: int| #[trigger]
        bytes::has_at(data, pos, e) implies rdb_wire::string_at(data, pos) == Some(
        (s, pos + e.len()),
    ) by {
        bytes::lemma_has_at_concat(data, pos, a + packed + expanded, stream);
        bytes::lemma_has_at_concat(data, pos, a + packed, expanded);
        bytes::lemma_has_at_concat(data, pos, a, packed);
        assert(data[pos + 0] == a[0]);
        bytes::lemma_has_at_subrange(data, pos + (a + packed + expanded).len(), stream);
    }
}

/// No string starts with any other byte, and none is read of which bytes are missing.
pub proof fn law_other_strings_are_rejected(data: Seq<u8>, pos: int)
    requires
        pos < 0 || pos >= data.len() || 0x82 <= data[pos] < 0xC0 || data[pos] >= 0xC4 || (data[pos]
            == 0xC0 && pos + 2 > data.len()) || (data[pos] == 0xC1 && pos + 3 > data.len()) || (
        data[pos] == 0xC2 && pos + 5 > data.len()),
    ensures
        rdb_wire::string_at(data, pos) is None,
{
}

/// A string whose bytes end before its length says is rejected.
pub proof fn law_cut_string_is_rejected(length: Seq<u8>, n: nat, s: Seq<u8>)
    requires
        length.len() > 0,
        length[0] < 0xC0,
        snapshot_items::is_length(length, n),
        s.len() < n,
    ensures
        rdb_wire::string_at(length + s, 0) is None,
{
    bytes::lemma_has_at_whole(length + s);
    bytes::lemma_has_at_concat(length + s, 0, length, s);
}

/// What is written of a string is read as the string. It takes no more bytes than the string
/// by itself with its length does, and is the string by itself where that is no longer than
/// 20 bytes.
pub proof fn law_written_string(s: Seq<u8>)
    requires
        rdb_wire::storable(s),
    ensures
        snapshot_items::is_string(rdb_wire::string_bytes(s), s),
        rdb_wire::string_bytes(s).len() <= rdb_wire::length_bytes(s.len()).len() + s.len(),
        s.len() <= 20 ==> rdb_wire::string_bytes(s) == rdb_wire::length_bytes(s.len()) + s,
{
    assert forall|data: Seq<u8>, pos: int| #[trigger]
        bytes::has_at(data, pos, rdb_wire::string_bytes(s)) implies rdb_wire::string_at(data, pos)
        == Some((s, pos + rdb_wire::string_bytes(s).len())) by {
        rdb_wire::law_string_round_trip(data, pos, s);
    }
}

// ---------------------------------------------------------------------------
// Compressed streams
// ---------------------------------------------------------------------------

/// A token of a compressed stream: some bytes, or a copy of bytes that stand before.
pub enum Token {
    Literal(Seq<u8>),
    Copy { distance: int, length: int },
}

/// A token within the limits of the format.
pub open spec fn token_right(t: Token) -> bool {
    match t {
        Token::Literal(run) => 1 <= run.len() <= 32,
        Token::Copy { distance, length } => 1 <= distance <= 8192 && 3 <= length <= 264,
    }
}

/// The bytes of a token: a count and the bytes; or three bits of the length and five of the
/// distance, a byte for a greater length, and eight more bits of the distance.
pub open spec fn token_bytes(t: Token) -> Seq<u8> {
    match t {
        Token::Literal(run) => seq![(run.len() - 1) as u8] + run,
        Token::Copy { distance, length } => if length <= 8 {
            seq![((length - 2) * 32 + (distance - 1) / 256) as u8, ((distance - 1) % 256) as u8]
        } else {
            seq![
                (224 + (distance - 1) / 256) as u8,
                (length - 9) as u8,
                ((distance - 1) % 256) as u8,
            ]
        },
    }
}

/// The bytes of a token, as a function value.
pub open spec fn token_encoder() -> spec_fn(Token) -> Seq<u8> {
    |t: Token| token_bytes(t)
}

/// The bytes behind a token: the run follows, or each of so many more bytes is the one that
/// stands so far before it.
pub open spec fn token_gives(before: Seq<u8>, t: Token, after: Seq<u8>) -> bool {
    match t {
        Token::Literal(run) => after == before + run,
        Token::Copy { distance, length } => {
            &&& distance <= before.len()
            &&& after.len() == before.len() + length
            &&& after.take(before.len() as int) == before
            &&& forall|i: int|
                before.len() <= i < after.len() ==> #[trigger] after[i] == after[i - distance]
        },
    }
}

/// The bytes that stand behind each of the tokens, from none on.
pub open spec fn tokens_give(tokens: Seq<Token>, states: Seq<Seq<u8>>) -> bool {
    &&& states.len() == tokens.len() + 1
    &&& states[0].len() == 0
    &&& forall|i: int|
        0 <= i < tokens.len() ==> token_gives(states[i], #[trigger] tokens[i], states[i + 1])
}

proof fn lemma_copy(before: Seq<u8>, distance: int, n: nat, after: Seq<u8>)
    requires
        1 <= distance <= before.len(),
        before.len() + n <= after.len(),
        after.take(before.len() as int) == before,
        forall|i: int|
            before.len() <= i < after.len() ==> #[trigger] after[i] == after[i - distance],
    ensures
        lzf::copy_back(before, before.len() - distance, n) == after.take(
            (before.len() + n) as int,
        ),
    decreases n,
{
    if n > 0 {
        lemma_copy(before, distance, (n - 1) as nat, after);
        let k = before.len() + n - 1;
        let shorter = after.take(k);
        assert(after[k] == after[k - distance]);
        assert(after.take(k + 1) =~= shorter.push(after[k]));
        assert(shorter[k - distance] == after[k - distance]);
    }
}

proof fn lemma_token(input: Seq<u8>, cursor: int, before: Seq<u8>, t: Token, after: Seq<u8>)
    requires
        token_right(t),
        token_gives(before, t, after),
        bytes::has_at(input, cursor, token_bytes(t)),
    ensures
        lzf::lzf_token(input, cursor, before) == Some((cursor + token_bytes(t).len(), after)),
        0 <= cursor < input.len(),
        before.len() < after.len(),
{
    match t {
        Token::Literal(run) => {
            let head = seq![(run.len() - 1) as u8];
            bytes::lemma_has_at_concat(input, cursor, head, run);
            assert(input[cursor + 0] == head[0]);
            bytes::lemma_has_at_subrange(input, cursor + 1, run);
        },
        Token::Copy { distance, length } => {
            let e = token_bytes(t);
            assert(input[cursor + 0] == e[0]);
            assert(input[cursor + 1] == e[1]);
            let high = (distance - 1) / 256;
            assert(0 <= high < 32);
            lemma_copy(before, distance, length as nat, after);
            assert(after.take((before.len() + length) as int) =~= after);
            if length <= 8 {
                let x = (length - 2) * 32 + high;
                assert(x / 32 == length - 2 && x % 32 == high);
            } else {
                assert(input[cursor + 2] == e[2]);
                let x = 224 + high;
                assert(x / 32 == 7 && x % 32 == high);
            }
        },
    }
}

proof fn lemma_tokens(tokens: Seq<Token>, states: Seq<Seq<u8>>, input: Seq<u8>, k: nat, total: nat)
    requires
        k <= tokens.len(),
        tokens_give(tokens, states),
        forall|i: int| 0 <= i < tokens.len() ==> token_right(#[trigger] tokens[i]),
        input == bytes::concat_all(token_encoder(), tokens),
        total == states.last().len(),
    ensures
        lzf::lzf_expand(input, 0, Seq::empty(), total) == lzf::lzf_expand(
            input,
            bytes::concat_all(token_encoder(), tokens.take(k as int)).len() as int,
            states[k as int],
            total,
        ),
    decreases k,
{
    let e = token_encoder();
    if k == 0 {
        assert(states[0] =~= Seq::<u8>::empty());
        assert(tokens.take(0) =~= Seq::empty());
    } else {
        let j = (k - 1) as int;
        lemma_tokens(tokens, states, input, (k - 1) as nat, total);
        let front = bytes::concat_all(e, tokens.take(j));
        assert(tokens =~= tokens.take(j) + tokens.skip(j));
        bytes::lemma_concat_append(e, tokens.take(j), tokens.skip(j));
        bytes::lemma_concat_first(e, tokens, j);
        bytes::lemma_has_at_whole(input);
        let rest = bytes::concat_all(e, tokens.skip(j));
        bytes::lemma_has_at_concat(input, 0, front, rest);
        bytes::lemma_has_at_concat(
            input,
            front.len() as int,
            e(tokens[j]),
            bytes::concat_all(e, tokens.skip(j + 1)),
        );
        assert(token_right(tokens[j]));
        assert(token_gives(states[j], tokens[j], states[j + 1]));
        lemma_token(input, front.len() as int, states[j], tokens[j], states[j + 1]);
        bytes::lemma_concat_take(e, tokens, j);
        lemma_states_grow(tokens, states, k, tokens.len());
    }
}

proof fn lemma_states_grow(tokens: Seq<Token>, states: Seq<Seq<u8>>, k: nat, n: nat)
    requires
        k <= n <= tokens.len(),
        tokens_give(tokens, states),
        forall|i: int| 0 <= i < tokens.len() ==> token_right(#[trigger] tokens[i]),
    ensures
        states[k as int].len() <= states[n as int].len(),
    decreases n - k,
{
    if k < n {
        assert(token_right(tokens[k as int]));
        assert(token_gives(states[k as int], tokens[k as int], states[k as int + 1]));
        lemma_states_grow(tokens, states, k + 1, n);
    }
}

/// A compressed stream of tokens is the bytes that these give one behind the other, where it
/// is asked for as many bytes.
pub proof fn law_tokens_are_expanded(tokens: Seq<Token>, states: Seq<Seq<u8>>)
    requires
        tokens_give(tokens, states),
        forall|i: int| 0 <= i < tokens.len() ==> token_right(#[trigger] tokens[i]),
        states.last().len() <= LZF_MAX_EXPANDED,
    ensures
        lzf::lzf_expanded(bytes::concat_all(token_encoder(), tokens), states.last().len()) == Some(
            states.last(),
        ),
{
    let input = bytes::concat_all(token_encoder(), tokens);
    let total = states.last().len();
    lemma_tokens(tokens, states, input, tokens.len(), total);
    assert(tokens.take(tokens.len() as int) =~= tokens);
}

/// A stream is expanded to as many bytes as it is asked for, or not at all.
pub proof fn law_expanded_length(stream: Seq<u8>, expected: nat)
    ensures
        lzf::lzf_expanded(stream, expected) matches Some(s) ==> s.len() == expected
            && expected <= 536_870_912,
{
    lemma_expanded_length(stream, 0, Seq::empty(), expected);
}

proof fn lemma_expanded_length(input: Seq<u8>, cursor: int, output: Seq<u8>, expected: nat)
    ensures
        lzf::lzf_expand(input, cursor, output, expected) matches Some(s) ==> s.len() == expected,
    decreases input.len() - cursor,
{
    if 0 <= cursor < input.len() && output.len() < expected {
        if let Some((next, longer)) = lzf::lzf_token(input, cursor, output) {
            lemma_expanded_length(input, next, longer, expected);
        }
    }
}

/// A copy of bytes from before the start, and a run of which bytes are missing, are rejected.
pub proof fn law_bad_tokens_are_rejected(input: Seq<u8>, cursor: int, output: Seq<u8>, expected: nat)
    requires
        0 <= cursor < input.len(),
        output.len() < expected,
        ({
            let ctrl = input[cursor] as int;
            ||| ctrl < 32 && cursor + 2 + ctrl > input.len()
            ||| 32 <= ctrl < 224 && (cursor + 1 >= input.len() || (ctrl % 32) * 256 + input[cursor
                + 1] + 1 > output.len())
            ||| ctrl >= 224 && (cursor + 2 >= input.len() || (ctrl % 32) * 256 + input[cursor + 2]
                + 1 > output.len())
        }),
    ensures
        lzf::lzf_expand(input, cursor, output, expected) is None,
{
}

} // verus!
