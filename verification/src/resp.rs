//! The wire protocol of commands: frames of lines, lengths and bytes.

use vstd::prelude::*;

use crate::bytes;
use crate::bytes::copy_window;
use crate::decimal;
use crate::decimal::{decimal_i64_into, parse_digits, push_decimal_u64};
use crate::text::string_from_utf8;

verus! {

/// Why bytes are no frame.
#[derive(Debug, Clone, Copy, PartialEq, Eq)]
pub enum RespParseError {
    /// The bytes end within the frame.
    Incomplete,
    /// No frame starts with this byte.
    InvalidPrefix(u8),
    /// A line is no integer.
    InvalidInteger,
    /// A line is not UTF-8.
    InvalidUtf8,
    /// The length of a string is negative.
    InvalidBulkLength,
    /// The number of items is negative.
    InvalidMultibulkLength,
    /// A string is too long.
    BulkLengthTooLarge,
    /// An array has too many items.
    MultibulkLengthTooLarge,
    /// A string is not followed by the end of a line.
    InvalidTerminator,
    /// Arrays are nested too deeply.
    RecursionLimitExceeded,
}

/// A frame.
#[derive(Debug)]
pub enum RespFrame {
    SimpleString(String),
    Error(String),
    Integer(i64),
    BulkString(Option<Vec<u8>>),
    Array(Option<Vec<RespFrame>>),
}

/// What a frame says.
#[verifier::ext_equal]
pub enum FrameView {
    SimpleString(Seq<char>),
    Error(Seq<char>),
    Integer(int),
    BulkString(Option<Seq<u8>>),
    Array(Option<Seq<FrameView>>),
}

/// What a frame says.
pub open spec fn frame_view(f: RespFrame) -> FrameView
    decreases f,
{
    match f {
        RespFrame::SimpleString(s) => FrameView::SimpleString(s@),
        RespFrame::Error(s) => FrameView::Error(s@),
        RespFrame::Integer(n) => FrameView::Integer(n as int),
        RespFrame::BulkString(Some(b)) => FrameView::BulkString(Some(b@)),
        RespFrame::BulkString(None) => FrameView::BulkString(None),
        RespFrame::Array(Some(items)) => FrameView::Array(Some(frame_views(items@))),
        RespFrame::Array(None) => FrameView::Array(None),
    }
}

/// What frames say.
pub open spec fn frame_views(items: Seq<RespFrame>) -> Seq<FrameView>
    decreases items,
{
    if items.len() == 0 {
        Seq::empty()
    } else {
        frame_views(items.drop_last()).push(frame_view(items.last()))
    }
}

impl View for RespFrame {
    type V = FrameView;

    open spec fn view(&self) -> FrameView {
        frame_view(*self)
    }
}

/// What frames say, one by one.
pub proof fn lemma_frame_views(items: Seq<RespFrame>)
    ensures
        frame_views(items).len() == items.len(),
        forall|i: int| 0 <= i < items.len() ==> frame_views(items)[i] == frame_view(#[trigger] items[i]),
    decreases items.len(),
{
    if items.len() > 0 {
        let front = items.drop_last();
        lemma_frame_views(front);
        assert forall|i: int| 0 <= i < items.len() implies frame_views(items)[i] == frame_view(
            #[trigger] items[i],
        ) by {
            if i < front.len() {
                assert(front[i] == items[i]);
            }
        }
    }
}

// ---------------------------------------------------------------------------
// What a frame is written as
// ---------------------------------------------------------------------------

/// The end of a line.
pub open spec fn crlf() -> Seq<u8> {
    seq![13u8, 10u8]
}

/// A prefix, a number, and the end of the line.
pub open spec fn number_line(prefix: u8, v: int) -> Seq<u8> {
    seq![prefix] + decimal::dec_int(v) + crlf()
}

/// A string: its length, its bytes.
pub open spec fn bulk_bytes(b: Seq<u8>) -> Seq<u8> {
    number_line(36, b.len() as int) + b + crlf()
}

/// A prefix, text, and the end of the line.
pub open spec fn text_line(prefix: u8, s: Seq<char>) -> Seq<u8> {
    seq![prefix] + vstd::utf8::encode_utf8(s) + crlf()
}

/// The bytes of a frame.
pub open spec fn frame_bytes(f: FrameView) -> Seq<u8>
    decreases f,
{
    match f {
        FrameView::SimpleString(s) => text_line(43, s),
        FrameView::Error(s) => text_line(45, s),
        FrameView::Integer(n) => number_line(58, n),
        FrameView::BulkString(Some(b)) => bulk_bytes(b),
        FrameView::BulkString(None) => number_line(36, -1),
        FrameView::Array(Some(items)) => number_line(42, items.len() as int) + frames_bytes(items),
        FrameView::Array(None) => number_line(42, -1),
    }
}

/// The bytes of frames, one behind the other.
pub open spec fn frames_bytes(items: Seq<FrameView>) -> Seq<u8>
    decreases items,
{
    if items.len() == 0 {
        Seq::empty()
    } else {
        frames_bytes(items.drop_last()) + frame_bytes(items.last())
    }
}

fn push_crlf(out: &mut Vec<u8>)
    ensures
        final(out)@ == old(out)@ + crlf(),
{
    out.push(13);
    out.push(10);
    assert(out@ =~= old(out)@ + crlf());
}

fn push_number_line(out: &mut Vec<u8>, prefix: u8, v: i64)
    ensures
        final(out)@ == old(out)@ + number_line(prefix, v as int),
{
    out.push(prefix);
    decimal_i64_into(out, v);
    push_crlf(out);
    assert(out@ =~= old(out)@ + number_line(prefix, v as int));
}

/// Appends the head of an array of `n` items.
pub fn encode_aggregate_header(n: usize, out: &mut Vec<u8>)
    ensures
        final(out)@ == old(out)@ + number_line(42, n as int),
{
    out.push(42);
    push_decimal_u64(out, n as u64);
    push_crlf(out);
    assert(out@ =~= old(out)@ + number_line(42, n as int));
}

/// Appends a string.
pub fn encode_bulk_string_slice(b: &[u8], out: &mut Vec<u8>)
    ensures
        final(out)@ == old(out)@ + bulk_bytes(b@),
{
    out.push(36);
    push_decimal_u64(out, b.len() as u64);
    push_crlf(out);
    assert(out@ =~= old(out)@ + number_line(36, b@.len() as int));
    out.extend_from_slice(b);
    push_crlf(out);
    assert(out@ =~= old(out)@ + bulk_bytes(b@));
}

fn push_text_line(out: &mut Vec<u8>, prefix: u8, s: &String)
    ensures
        final(out)@ == old(out)@ + text_line(prefix, s@),
{
    out.push(prefix);
    out.extend_from_slice(s.as_str().as_bytes());
    push_crlf(out);
    assert(out@ =~= old(out)@ + text_line(prefix, s@));
}

fn push_frame(out: &mut Vec<u8>, f: &RespFrame)
    ensures
        final(out)@ == old(out)@ + frame_bytes(f@),
    decreases *f,
{
    match f {
        RespFrame::SimpleString(s) => push_text_line(out, 43, s),
        RespFrame::Error(s) => push_text_line(out, 45, s),
        RespFrame::Integer(n) => push_number_line(out, 58, *n),
        RespFrame::BulkString(Some(b)) => encode_bulk_string_slice(b.as_slice(), out),
        RespFrame::BulkString(None) => push_number_line(out, 36, -1),
        RespFrame::Array(None) => push_number_line(out, 42, -1),
        RespFrame::Array(Some(items)) => {
            proof {
                lemma_frame_views(items@);
            }
            encode_aggregate_header(items.len(), out);
            push_frames(out, items);
            proof {
                bytes::lemma_add_assoc(
                    old(out)@,
                    number_line(42, items@.len() as int),
                    frames_bytes(frame_views(items@)),
                );
            }
        },
    }
}

fn push_frames(out: &mut Vec<u8>, items: &Vec<RespFrame>)
    ensures
        final(out)@ == old(out)@ + frames_bytes(frame_views(items@)),
    decreases items@,
{
    let ghost head = out@;
    let mut i: usize = 0;
    proof {
        assert(items@.take(0) =~= Seq::empty());
        assert(head + frames_bytes(frame_views(items@.take(0))) =~= head);
    }
    while i < items.len()
        invariant
            i <= items@.len(),
            out@ == head + frames_bytes(frame_views(items@.take(i as int))),
        decreases items@.len() - i,
    {
        proof {
            let now = items@.take(i as int + 1);
            assert(now.drop_last() =~= items@.take(i as int));
            let a = frame_views(items@.take(i as int));
            let b = frame_view(items@[i as int]);
            assert(a.push(b).drop_last() =~= a);
            bytes::lemma_add_assoc(head, frames_bytes(a), frame_bytes(b));
        }
        push_frame(out, &items[i]);
        i = i + 1;
    }
    assert(items@.take(i as int) =~= items@);
}

impl RespFrame {
    /// The bytes of the frame.
    pub fn to_bytes(&self) -> (out: Vec<u8>)
        ensures
            out@ == frame_bytes(self@),
    {
        let mut out: Vec<u8> = Vec::new();
        push_frame(&mut out, self);
        assert(out@ =~= frame_bytes(self@));
        out
    }
}

// ---------------------------------------------------------------------------
// What bytes say
// ---------------------------------------------------------------------------

/// How large frames may be.
#[derive(Debug, Clone, Copy)]
pub struct ParserConfig {
    pub max_bulk_len: u64,
    pub max_array_len: u64,
    pub max_recursion_depth: u64,
}

/// Where the line at `pos` ends.
pub open spec fn line_end(data: Seq<u8>, pos: int) -> Option<int>
    decreases data.len() - pos,
{
    if !(0 <= pos && pos + 1 < data.len()) {
        None
    } else if data[pos] == 13 && data[pos + 1] == 10 {
        Some(pos)
    } else {
        line_end(data, pos + 1)
    }
}

/// Digits behind an optional sign, as a number of 64 bits.
pub open spec fn integer_of(s: Seq<u8>) -> Option<int> {
    let signed = s.len() > 0 && (s[0] == 43 || s[0] == 45);
    let digits = if signed {
        s.skip(1)
    } else {
        s
    };
    if digits.len() == 0 || !decimal::all_digits(digits) {
        None
    } else {
        let v = if signed && s[0] == 45 {
            -decimal::digits_value(digits)
        } else {
            decimal::digits_value(digits) as int
        };
        if i64::MIN <= v <= i64::MAX {
            Some(v)
        } else {
            None
        }
    }
}

/// The bytes of the line at `pos`, and the offset behind its end.
pub open spec fn line_at(data: Seq<u8>, pos: int) -> Result<(Seq<u8>, int), RespParseError> {
    match line_end(data, pos) {
        None => Err(RespParseError::Incomplete),
        Some(end) => Ok((data.subrange(pos, end), end + 2)),
    }
}

/// The number on the line at `pos`.
pub open spec fn number_at(data: Seq<u8>, pos: int) -> Result<(int, int), RespParseError> {
    match line_at(data, pos) {
        Err(e) => Err(e),
        Ok((s, next)) => match integer_of(s) {
            None => Err(RespParseError::InvalidInteger),
            Some(v) => Ok((v, next)),
        },
    }
}

/// The text on the line at `pos`.
pub open spec fn text_at(data: Seq<u8>, pos: int) -> Result<(Seq<char>, int), RespParseError> {
    match line_at(data, pos) {
        Err(e) => Err(e),
        Ok((s, next)) => if vstd::utf8::valid_utf8(s) {
            Ok((vstd::utf8::decode_utf8(s), next))
        } else {
            Err(RespParseError::InvalidUtf8)
        },
    }
}

/// The string whose length stands at `pos`.
pub open spec fn bulk_at(config: ParserConfig, data: Seq<u8>, pos: int) -> Result<
    (Option<Seq<u8>>, int),
    RespParseError,
> {
    match number_at(data, pos) {
        Err(e) => Err(e),
        Ok((n, start)) => if n == -1 {
            Ok((None, start))
        } else if n < 0 {
            Err(RespParseError::InvalidBulkLength)
        } else if n > config.max_bulk_len {
            Err(RespParseError::BulkLengthTooLarge)
        } else if start + n + 2 > data.len() {
            Err(RespParseError::Incomplete)
        } else if data[start + n] != 13 || data[start + n + 1] != 10 {
            Err(RespParseError::InvalidTerminator)
        } else {
            Ok((Some(data.subrange(start, start + n)), start + n + 2))
        },
    }
}

/// The frame at `pos`, where arrays may nest `depth` deep.
pub open spec fn frame_at(config: ParserConfig, data: Seq<u8>, pos: int, depth: nat) -> Result<
    (FrameView, int),
    RespParseError,
>
    decreases depth, 0nat,
{
    if !(0 <= pos < data.len()) {
        Err(RespParseError::Incomplete)
    } else {
        let prefix = data[pos];
        if prefix == 43 {
            match text_at(data, pos + 1) {
                Err(e) => Err(e),
                Ok((s, next)) => Ok((FrameView::SimpleString(s), next)),
            }
        } else if prefix == 45 {
            match text_at(data, pos + 1) {
                Err(e) => Err(e),
                Ok((s, next)) => Ok((FrameView::Error(s), next)),
            }
        } else if prefix == 58 {
            match number_at(data, pos + 1) {
                Err(e) => Err(e),
                Ok((v, next)) => Ok((FrameView::Integer(v), next)),
            }
        } else if prefix == 36 {
            match bulk_at(config, data, pos + 1) {
                Err(e) => Err(e),
                Ok((b, next)) => Ok((FrameView::BulkString(b), next)),
            }
        } else if prefix == 42 {
            match number_at(data, pos + 1) {
                Err(e) => Err(e),
                Ok((n, start)) => if n == -1 {
                    Ok((FrameView::Array(None), start))
                } else if n < 0 {
                    Err(RespParseError::InvalidMultibulkLength)
                } else if n > config.max_array_len {
                    Err(RespParseError::MultibulkLengthTooLarge)
                } else if depth == 0 {
                    Err(RespParseError::RecursionLimitExceeded)
                } else {
                    match frames_at(config, data, start, n as nat, (depth - 1) as nat) {
                        Err(e) => Err(e),
                        Ok((items, next)) => Ok((FrameView::Array(Some(items)), next)),
                    }
                },
            }
        } else {
            Err(RespParseError::InvalidPrefix(prefix))
        }
    }
}

/// `n` frames one behind the other.
pub open spec fn frames_at(
    config: ParserConfig,
    data: Seq<u8>,
    pos: int,
    n: nat,
    depth: nat,
) -> Result<(Seq<FrameView>, int), RespParseError>
    decreases depth, n + 1,
{
    if n == 0 {
        Ok((Seq::empty(), pos))
    } else {
        match frames_at(config, data, pos, (n - 1) as nat, depth) {
            Err(e) => Err(e),
            Ok((items, mid)) => match frame_at(config, data, mid, depth) {
                Err(e) => Err(e),
                Ok((f, next)) => Ok((items.push(f), next)),
            },
        }
    }
}

pub proof fn lemma_line_end(data: Seq<u8>, pos: int)
    requires
        0 <= pos,
    ensures
        line_end(data, pos) matches Some(end) ==> pos <= end && end + 2 <= data.len(),
    decreases data.len() - pos,
{
    if pos + 1 < data.len() && !(data[pos] == 13 && data[pos + 1] == 10) {
        lemma_line_end(data, pos + 1);
    }
}

/// A line without a carriage return in it ends where its end stands.
pub proof fn lemma_line_found(data: Seq<u8>, pos: int, line: Seq<u8>)
    requires
        forall|i: int| 0 <= i < line.len() ==> #[trigger] line[i] != 13,
        bytes::has_at(data, pos, line + crlf()),
    ensures
        line_at(data, pos) == Ok::<(Seq<u8>, int), RespParseError>((line, pos + line.len() + 2)),
{
    bytes::lemma_has_at_concat(data, pos, line, crlf());
    let end = pos + line.len();
    assert(data[end + 0] == crlf()[0]);
    assert(data[end + 1] == crlf()[1]);
    assert forall|i: int| pos <= i < end implies #[trigger] data[i] != 13 by {
        assert(data[pos + (i - pos)] == line[i - pos]);
    }
    lemma_line_scan(data, pos, end);
    bytes::lemma_has_at_subrange(data, pos, line);
}

proof fn lemma_line_scan(data: Seq<u8>, pos: int, end: int)
    requires
        0 <= pos <= end,
        end + 1 < data.len(),
        forall|i: int| pos <= i < end ==> #[trigger] data[i] != 13,
        data[end] == 13,
        data[end + 1] == 10,
    ensures
        line_end(data, pos) == Some(end),
    decreases end - pos,
{
    if pos < end {
        lemma_line_scan(data, pos + 1, end);
    }
}

/// The decimal text of a number reads back.
pub proof fn lemma_integer_reads(v: int)
    requires
        i64::MIN <= v <= i64::MAX,
    ensures
        integer_of(decimal::dec_int(v)) == Some(v),
        forall|i: int|
            0 <= i < decimal::dec_int(v).len() ==> #[trigger] decimal::dec_int(v)[i] != 13,
{
    let n: nat = if v < 0 {
        (-v) as nat
    } else {
        v as nat
    };
    decimal::lemma_dec_nat(n);
    let s = decimal::dec_int(v);
    if v < 0 {
        assert(s.skip(1) =~= decimal::dec_nat(n));
        assert forall|i: int| 0 <= i < s.len() implies #[trigger] s[i] != 13 by {
            if i > 0 {
                assert(s[i] == decimal::dec_nat(n)[i - 1]);
            }
        }
    }
}

/// A line with a number reads back.
pub proof fn lemma_number_reads(data: Seq<u8>, pos: int, prefix: u8, v: int)
    requires
        i64::MIN <= v <= i64::MAX,
        bytes::has_at(data, pos, number_line(prefix, v)),
    ensures
        data[pos] == prefix,
        pos < data.len(),
        number_at(data, pos + 1) == Ok::<(int, int), RespParseError>(
            (v, pos + number_line(prefix, v).len()),
        ),
{
    let a = seq![prefix];
    let b = decimal::dec_int(v);
    assert(number_line(prefix, v) =~= a + (b + crlf()));
    bytes::lemma_has_at_concat(data, pos, a, b + crlf());
    assert(data[pos + 0] == a[0]);
    lemma_integer_reads(v);
    lemma_line_found(data, pos + 1, b);
}

/// A string reads back.
pub proof fn lemma_bulk_reads(config: ParserConfig, data: Seq<u8>, pos: int, b: Seq<u8>, depth: nat)
    requires
        b.len() <= config.max_bulk_len,
        b.len() <= i64::MAX,
        bytes::has_at(data, pos, bulk_bytes(b)),
    ensures
        frame_at(config, data, pos, depth) == Ok::<(FrameView, int), RespParseError>(
            (FrameView::BulkString(Some(b)), pos + bulk_bytes(b).len()),
        ),
{
    let head = number_line(36, b.len() as int);
    bytes::lemma_has_at_concat(data, pos, head + b, crlf());
    bytes::lemma_has_at_concat(data, pos, head, b);
    lemma_number_reads(data, pos, 36, b.len() as int);
    let start = pos + head.len();
    bytes::lemma_has_at_subrange(data, start, b);
    let end = start + b.len();
    assert(data[end + 0] == crlf()[0]);
    assert(data[end + 1] == crlf()[1]);
}

/// A frame with its length.
pub struct ParsedFrame {
    pub frame: RespFrame,
    pub consumed: usize,
}

fn find_line(data: &[u8], pos: usize) -> (r: Option<usize>)
    requires
        pos <= data@.len(),
    ensures
        match r {
            Some(end) => line_end(data@, pos as int) == Some(end as int) && pos <= end && end + 2
                <= data@.len(),
            None => line_end(data@, pos as int) is None,
        },
{
    let len: usize = data.len();
    let mut i: usize = pos;
    while i < len && len - i > 1
        invariant
            pos <= i <= len == data@.len(),
            line_end(data@, i as int) == line_end(data@, pos as int),
        decreases len - i,
    {
        if data[i] == 13 && data[i + 1] == 10 {
            return Some(i);
        }
        i = i + 1;
    }
    None
}

fn parse_integer(data: &[u8], start: usize, end: usize) -> (r: Option<i64>)
    requires
        start <= end <= data@.len(),
    ensures
        match r {
            Some(v) => integer_of(data@.subrange(start as int, end as int)) == Some(v as int),
            None => integer_of(data@.subrange(start as int, end as int)) is None,
        },
{
    let ghost s = data@.subrange(start as int, end as int);
    let signed: bool = start < end && (data[start] == 43 || data[start] == 45);
    let negative: bool = signed && data[start] == 45;
    let from: usize = if signed {
        start + 1
    } else {
        start
    };
    proof {
        let digits = data@.subrange(from as int, end as int);
        if signed {
            assert(s.skip(1) =~= digits);
        } else {
            assert(s =~= digits);
        }
    }
    match parse_digits(data, from, end) {
        None => None,
        Some(n) => if negative {
            if n <= 0x7fff_ffff_ffff_ffff {
                Some(-(n as i64))
            } else if n == 0x8000_0000_0000_0000 {
                Some(i64::MIN)
            } else {
                None
            }
        } else if n <= 0x7fff_ffff_ffff_ffff {
            Some(n as i64)
        } else {
            None
        },
    }
}

fn parse_number(data: &[u8], pos: usize) -> (r: Result<(i64, usize), RespParseError>)
    requires
        pos <= data@.len(),
    ensures
        match number_at(data@, pos as int) {
            Ok((v, next)) => r matches Ok((n, end)) && n == v && end == next && pos < end
                <= data@.len(),
            Err(e) => r == Err::<(i64, usize), RespParseError>(e),
        },
{
    let len: usize = data.len();
    match find_line(data, pos) {
        None => Err(RespParseError::Incomplete),
        Some(end) => match parse_integer(data, pos, end) {
            None => Err(RespParseError::InvalidInteger),
            Some(v) => Ok((v, end + 2)),
        },
    }
}

fn parse_text(data: &[u8], pos: usize) -> (r: Result<(String, usize), RespParseError>)
    requires
        pos <= data@.len(),
    ensures
        match text_at(data@, pos as int) {
            Ok((s, next)) => r matches Ok((t, end)) && t@ == s && end == next && pos < end
                <= data@.len(),
            Err(e) => r == Err::<(String, usize), RespParseError>(e),
        },
{
    let len: usize = data.len();
    match find_line(data, pos) {
        None => Err(RespParseError::Incomplete),
        Some(end) => match string_from_utf8(copy_window(data, pos, end)) {
            None => Err(RespParseError::InvalidUtf8),
            Some(s) => Ok((s, end + 2)),
        },
    }
}

fn parse_bulk(config: &ParserConfig, data: &[u8], pos: usize) -> (r: Result<
    (Option<Vec<u8>>, usize),
    RespParseError,
>)
    requires
        pos <= data@.len(),
    ensures
        match bulk_at(*config, data@, pos as int) {
            Ok((b, next)) => r matches Ok((out, end)) && end == next && pos < end <= data@.len()
                && (match out {
                Some(v) => b == Some(v@),
                None => b is None,
            }),
            Err(e) => r == Err::<(Option<Vec<u8>>, usize), RespParseError>(e),
        },
{
    let len: usize = data.len();
    let (n, start) = match parse_number(data, pos) {
        Err(e) => {
            return Err(e);
        },
        Ok(found) => found,
    };
    if n == -1 {
        return Ok((None, start));
    }
    if n < 0 {
        return Err(RespParseError::InvalidBulkLength);
    }
    if n as u64 > config.max_bulk_len {
        return Err(RespParseError::BulkLengthTooLarge);
    }
    if n as u64 > (len - start) as u64 || (len - start) as u64 - (n as u64) < 2 {
        return Err(RespParseError::Incomplete);
    }
    let end: usize = start + n as usize;
    if data[end] != 13 || data[end + 1] != 10 {
        return Err(RespParseError::InvalidTerminator);
    }
    Ok((Some(copy_window(data, start, end)), end + 2))
}

pub proof fn lemma_frames_err(
    config: ParserConfig,
    data: Seq<u8>,
    pos: int,
    k: nat,
    n: nat,
    depth: nat,
)
    requires
        k <= n,
        frames_at(config, data, pos, k, depth) is Err,
    ensures
        frames_at(config, data, pos, n, depth) == frames_at(config, data, pos, k, depth),
    decreases n,
{
    if k < n {
        lemma_frames_err(config, data, pos, k, (n - 1) as nat, depth);
    }
}

fn parse_frames(config: &ParserConfig, data: &[u8], pos: usize, n: u64, depth: u64) -> (r: Result<
    (Vec<RespFrame>, usize),
    RespParseError,
>)
    requires
        pos <= data@.len(),
    ensures
        match frames_at(*config, data@, pos as int, n as nat, depth as nat) {
            Ok((items, next)) => r matches Ok((out, end)) && frame_views(out@) == items && end
                == next && pos <= end <= data@.len(),
            Err(e) => r == Err::<(Vec<RespFrame>, usize), RespParseError>(e),
        },
    decreases depth, 2nat,
{
    let mut out: Vec<RespFrame> = Vec::new();
    let mut at: usize = pos;
    let mut k: u64 = 0;
    while k < n
        invariant
            k <= n,
            pos <= at <= data@.len(),
            frames_at(*config, data@, pos as int, k as nat, depth as nat) == Ok::<
                (Seq<FrameView>, int),
                RespParseError,
            >((frame_views(out@), at as int)),
        decreases n - k,
    {
        match parse_frame(config, data, at, depth) {
            Err(e) => {
                proof {
                    lemma_frames_err(
                        *config,
                        data@,
                        pos as int,
                        (k + 1) as nat,
                        n as nat,
                        depth as nat,
                    );
                }
                return Err(e);
            },
            Ok((f, end)) => {
                let ghost before = out@;
                out.push(f);
                assert(out@.drop_last() =~= before);
                at = end;
            },
        }
        k = k + 1;
    }
    Ok((out, at))
}

fn parse_array(config: &ParserConfig, data: &[u8], pos: usize, depth: u64) -> (r: Result<
    (RespFrame, usize),
    RespParseError,
>)
    requires
        0 < pos <= data@.len(),
        data@[pos - 1] == 42,
    ensures
        match frame_at(*config, data@, pos - 1, depth as nat) {
            Ok((f, next)) => r matches Ok((frame, end)) && frame@ == f && end == next && pos < end
                <= data@.len(),
            Err(e) => r == Err::<(RespFrame, usize), RespParseError>(e),
        },
    decreases depth, 0nat,
{
    let (n, start) = match parse_number(data, pos) {
        Err(e) => {
            return Err(e);
        },
        Ok(found) => found,
    };
    if n == -1 {
        return Ok((RespFrame::Array(None), start));
    }
    if n < 0 {
        return Err(RespParseError::InvalidMultibulkLength);
    }
    if n as u64 > config.max_array_len {
        return Err(RespParseError::MultibulkLengthTooLarge);
    }
    if depth == 0 {
        return Err(RespParseError::RecursionLimitExceeded);
    }
    match parse_frames(config, data, start, n as u64, depth - 1) {
        Err(e) => Err(e),
        Ok((items, end)) => Ok((RespFrame::Array(Some(items)), end)),
    }
}

/// Reads the frame at `pos`, and the offset behind it.
fn parse_frame(config: &ParserConfig, data: &[u8], pos: usize, depth: u64) -> (r: Result<
    (RespFrame, usize),
    RespParseError,
>)
    requires
        pos <= data@.len(),
    ensures
        match frame_at(*config, data@, pos as int, depth as nat) {
            Ok((f, next)) => r matches Ok((frame, end)) && frame@ == f && end == next && pos < end
                <= data@.len(),
            Err(e) => r == Err::<(RespFrame, usize), RespParseError>(e),
        },
    decreases depth, 1nat,
{
    if pos >= data.len() {
        return Err(RespParseError::Incomplete);
    }
    let prefix: u8 = data[pos];
    if prefix == 43 {
        match parse_text(data, pos + 1) {
            Err(e) => Err(e),
            Ok((s, end)) => Ok((RespFrame::SimpleString(s), end)),
        }
    } else if prefix == 45 {
        match parse_text(data, pos + 1) {
            Err(e) => Err(e),
            Ok((s, end)) => Ok((RespFrame::Error(s), end)),
        }
    } else if prefix == 58 {
        match parse_number(data, pos + 1) {
            Err(e) => Err(e),
            Ok((v, end)) => Ok((RespFrame::Integer(v), end)),
        }
    } else if prefix == 36 {
        match parse_bulk(config, data, pos + 1) {
            Err(e) => Err(e),
            Ok((b, end)) => Ok((RespFrame::BulkString(b), end)),
        }
    } else if prefix == 42 {
        parse_array(config, data, pos + 1, depth)
    } else {
        Err(RespParseError::InvalidPrefix(prefix))
    }
}

/// Reads the frame at `pos`.
pub fn parse_frame_with_config(data: &[u8], pos: usize, config: &ParserConfig) -> (r: Result<
    ParsedFrame,
    RespParseError,
>)
    requires
        pos <= data@.len(),
    ensures
        match frame_at(*config, data@, pos as int, config.max_recursion_depth as nat) {
            Ok((f, next)) => r matches Ok(parsed) && parsed.frame@ == f && pos + parsed.consumed
                == next && 0 < parsed.consumed && next <= data@.len(),
            Err(e) => r == Err::<ParsedFrame, RespParseError>(e),
        },
{
    match parse_frame(config, data, pos, config.max_recursion_depth) {
        Err(e) => Err(e),
        Ok((frame, end)) => Ok(ParsedFrame { frame, consumed: end - pos }),
    }
}

// ---------------------------------------------------------------------------
// Frames are read from their own bytes alone
// ---------------------------------------------------------------------------

proof fn lemma_line_local(data: Seq<u8>, pos: int, n: int)
    requires
        0 <= pos,
        n <= data.len(),
        line_at(data, pos) matches Ok((_, next)) && next <= n,
    ensures
        line_at(data.take(n), pos) == line_at(data, pos),
{
    let end = line_end(data, pos)->Some_0;
    lemma_line_end(data, pos);
    lemma_line_end_local(data, pos, n);
    assert(data.take(n).subrange(pos, end) =~= data.subrange(pos, end));
}

proof fn lemma_line_end_local(data: Seq<u8>, pos: int, n: int)
    requires
        0 <= pos,
        n <= data.len(),
        line_end(data, pos) matches Some(end) && end + 2 <= n,
    ensures
        line_end(data.take(n), pos) == line_end(data, pos),
    decreases data.len() - pos,
{
    lemma_line_end(data, pos);
    if !(data[pos] == 13 && data[pos + 1] == 10) {
        lemma_line_end_local(data, pos + 1, n);
    }
}

proof fn lemma_number_bounds(data: Seq<u8>, pos: int)
    requires
        0 <= pos,
    ensures
        number_at(data, pos) matches Ok((_, next)) ==> pos < next <= data.len(),
{
    lemma_line_end(data, pos);
}

pub proof fn lemma_frame_bounds(config: ParserConfig, data: Seq<u8>, pos: int, depth: nat)
    ensures
        frame_at(config, data, pos, depth) matches Ok((_, next)) ==> 0 <= pos < next <= data.len(),
    decreases depth, 0nat,
{
    if 0 <= pos < data.len() {
        lemma_line_end(data, pos + 1);
        lemma_number_bounds(data, pos + 1);
        if data[pos] == 42 {
            if let Ok((n, start)) = number_at(data, pos + 1) {
                if 0 <= n <= config.max_array_len && depth > 0 {
                    lemma_frames_bounds(config, data, start, n as nat, (depth - 1) as nat);
                }
            }
        }
    }
}

proof fn lemma_frames_bounds(config: ParserConfig, data: Seq<u8>, pos: int, n: nat, depth: nat)
    requires
        0 <= pos <= data.len(),
    ensures
        frames_at(config, data, pos, n, depth) matches Ok((_, next)) ==> pos <= next <= data.len(),
    decreases depth, n + 1,
{
    if n > 0 {
        lemma_frames_bounds(config, data, pos, (n - 1) as nat, depth);
        if let Ok((_, mid)) = frames_at(config, data, pos, (n - 1) as nat, depth) {
            lemma_frame_bounds(config, data, mid, depth);
        }
    }
}

/// What follows a frame does not matter to it.
pub proof fn law_frame_is_local(
    config: ParserConfig,
    data: Seq<u8>,
    pos: int,
    depth: nat,
    n: int,
)
    requires
        n <= data.len(),
        frame_at(config, data, pos, depth) matches Ok((_, next)) && next <= n,
    ensures
        frame_at(config, data.take(n), pos, depth) == frame_at(config, data, pos, depth),
    decreases depth, 0nat,
{
    lemma_frame_bounds(config, data, pos, depth);
    let prefix = data[pos];
    let cut = data.take(n);
    lemma_line_end(data, pos + 1);
    if prefix == 43 || prefix == 45 || prefix == 58 {
        lemma_line_local(data, pos + 1, n);
    } else if prefix == 36 {
        let (len, start) = number_at(data, pos + 1)->Ok_0;
        lemma_number_bounds(data, pos + 1);
        lemma_line_local(data, pos + 1, n);
        if len >= 0 {
            assert(cut.subrange(start, start + len) =~= data.subrange(start, start + len));
        }
    } else {
        let (len, start) = number_at(data, pos + 1)->Ok_0;
        lemma_number_bounds(data, pos + 1);
        if len >= 0 {
            lemma_frames_bounds(config, data, start, len as nat, (depth - 1) as nat);
            lemma_line_local(data, pos + 1, n);
            lemma_frames_local(config, data, start, len as nat, (depth - 1) as nat, n);
        } else {
            lemma_line_local(data, pos + 1, n);
        }
    }
}

proof fn lemma_frames_local(
    config: ParserConfig,
    data: Seq<u8>,
    pos: int,
    count: nat,
    depth: nat,
    n: int,
)
    requires
        0 <= pos,
        pos <= n <= data.len(),
        frames_at(config, data, pos, count, depth) matches Ok((_, next)) && next <= n,
    ensures
        frames_at(config, data.take(n), pos, count, depth) == frames_at(
            config,
            data,
            pos,
            count,
            depth,
        ),
    decreases depth, count + 1,
{
    if count > 0 {
        let (_, mid) = frames_at(config, data, pos, (count - 1) as nat, depth)->Ok_0;
        lemma_frame_bounds(config, data, mid, depth);
        lemma_frames_local(config, data, pos, (count - 1) as nat, depth, n);
        law_frame_is_local(config, data, mid, depth, n);
    }
}

proof fn lemma_line_cut(data: Seq<u8>, pos: int, n: int)
    requires
        0 <= pos,
        0 <= n <= data.len(),
        line_end(data, pos) matches Some(end) && n < end + 2,
    ensures
        line_end(data.take(n), pos) is None,
    decreases data.len() - pos,
{
    if pos + 1 < n && !(data[pos] == 13 && data[pos + 1] == 10) {
        lemma_line_cut(data, pos + 1, n);
    }
}

/// A frame that is cut off anywhere is incomplete, whatever it is.
pub proof fn law_cut_frame_is_incomplete(
    config: ParserConfig,
    data: Seq<u8>,
    pos: int,
    depth: nat,
    n: int,
)
    requires
        0 <= n <= data.len(),
        frame_at(config, data, pos, depth) matches Ok((_, next)) && n < next,
    ensures
        frame_at(config, data.take(n), pos, depth) == Err::<(FrameView, int), RespParseError>(
            RespParseError::Incomplete,
        ),
    decreases depth, 0nat,
{
    lemma_frame_bounds(config, data, pos, depth);
    let prefix = data[pos];
    let cut = data.take(n);
    if pos < n {
        assert(cut[pos] == prefix);
        let end = line_end(data, pos + 1)->Some_0;
        lemma_line_end(data, pos + 1);
        if n < end + 2 {
            lemma_line_cut(data, pos + 1, n);
        } else {
            lemma_line_local(data, pos + 1, n);
            if prefix == 42 {
                let (len, start) = number_at(data, pos + 1)->Ok_0;
                lemma_number_bounds(data, pos + 1);
                lemma_frames_cut(config, data, start, len as nat, (depth - 1) as nat, n);
            }
        }
    }
}

proof fn lemma_frames_cut(
    config: ParserConfig,
    data: Seq<u8>,
    pos: int,
    count: nat,
    depth: nat,
    n: int,
)
    requires
        0 <= pos <= n <= data.len(),
        frames_at(config, data, pos, count, depth) matches Ok((_, next)) && n < next,
    ensures
        frames_at(config, data.take(n), pos, count, depth) == Err::<
            (Seq<FrameView>, int),
            RespParseError,
        >(RespParseError::Incomplete),
    decreases depth, count + 1,
{
    if count > 0 {
        let (_, mid) = frames_at(config, data, pos, (count - 1) as nat, depth)->Ok_0;
        lemma_frames_bounds(config, data, pos, (count - 1) as nat, depth);
        if n < mid {
            lemma_frames_cut(config, data, pos, (count - 1) as nat, depth, n);
        } else {
            lemma_frames_local(config, data, pos, (count - 1) as nat, depth, n);
            law_cut_frame_is_incomplete(config, data, mid, depth, n);
        }
    }
}

} // verus!
