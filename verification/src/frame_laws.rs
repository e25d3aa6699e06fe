//! What the frames of a log are read as, whoever wrote them.

use vstd::prelude::*;

use crate::aof;
use crate::aof::AofReplayTailFailure;
use crate::bytes;
use crate::decimal;
use crate::persist_error::PersistError;
use crate::resp;
use crate::resp::{FrameView, ParserConfig, RespParseError};

verus! {

// ---------------------------------------------------------------------------
// Frames
// ---------------------------------------------------------------------------

/// The bytes are read as the frame wherever they stand, where arrays may nest `depth` deep.
pub open spec fn is_frame(config: ParserConfig, depth: nat, encoding: Seq<u8>, f: FrameView) -> bool {
    forall|data: Seq<u8>, pos: int| #[trigger]
        bytes::has_at(data, pos, encoding) ==> resp::frame_at(config, data, pos, depth) == Ok::<
            (FrameView, int),
            RespParseError,
        >((f, pos + encoding.len()))
}

/// The bytes are refused with the error wherever they stand.
pub open spec fn is_refused(
    config: ParserConfig,
    depth: nat,
    encoding: Seq<u8>,
    e: RespParseError,
) -> bool {
    forall|data: Seq<u8>, pos: int| #[trigger]
        bytes::has_at(data, pos, encoding) ==> resp::frame_at(config, data, pos, depth) == Err::<
            (FrameView, int),
            RespParseError,
        >(e)
}

/// A number as it may stand on a line: a sign or none, zeros, and its digits.
pub struct Numeral {
    pub sign: Seq<u8>,
    pub zeros: nat,
    pub value: int,
}

/// The text of a number.
pub open spec fn numeral_text(n: Numeral) -> Seq<u8> {
    n.sign + (Seq::new(n.zeros, |i: int| 48u8) + decimal::dec_nat(
        (if n.value < 0 {
            -n.value
        } else {
            n.value
        }) as nat,
    ))
}

/// The sign is that of the number, and the number fits in 64 bits.
pub open spec fn numeral_right(n: Numeral) -> bool {
    &&& i64::MIN <= n.value <= i64::MAX
    &&& {
        ||| n.sign.len() == 0 && n.value >= 0
        ||| n.sign == seq![43u8] && n.value >= 0
        ||| n.sign == seq![45u8] && n.value <= 0
    }
}

/// A mark, a number, and the end of the line.
pub open spec fn numeral_line(mark: u8, n: Numeral) -> Seq<u8> {
    seq![mark] + (numeral_text(n) + seq![13u8, 10u8])
}

proof fn lemma_zeros(zeros: nat, digits: Seq<u8>)
    requires
        decimal::all_digits(digits),
    ensures
        decimal::all_digits(Seq::new(zeros, |i: int| 48u8) + digits),
        decimal::digits_value(Seq::new(zeros, |i: int| 48u8) + digits) == decimal::digits_value(
            digits,
        ),
    decreases zeros + digits.len(),
{
    let z = Seq::new(zeros, |i: int| 48u8);
    let s = z + digits;
    if digits.len() > 0 {
        assert(s.drop_last() =~= z + digits.drop_last());
        lemma_zeros(zeros, digits.drop_last());
    } else if zeros > 0 {
        let less = (zeros - 1) as nat;
        assert(s.drop_last() =~= Seq::new(less, |i: int| 48u8) + digits);
        lemma_zeros(less, digits);
    } else {
        assert(s =~= digits);
    }
}

proof fn lemma_numeral(n: Numeral)
    requires
        numeral_right(n),
    ensures
        resp::integer_of(numeral_text(n)) == Some(n.value),
        forall|i: int| 0 <= i < numeral_text(n).len() ==> #[trigger] numeral_text(n)[i] != 13,
{
    let magnitude = (if n.value < 0 {
        -n.value
    } else {
        n.value
    }) as nat;
    let d = decimal::dec_nat(magnitude);
    let s = Seq::new(n.zeros, |i: int| 48u8) + d;
    let t = numeral_text(n);
    decimal::lemma_dec_nat(magnitude);
    lemma_zeros(n.zeros, d);
    assert(s.len() > 0);
    assert(48 <= s[0] <= 57);
    if n.sign.len() == 0 {
        assert(t =~= s);
    } else {
        assert(t.skip(1) =~= s);
        assert(t[0] == n.sign[0]);
    }
    assert forall|i: int| 0 <= i < t.len() implies #[trigger] t[i] != 13 by {
        if i >= n.sign.len() {
            assert(t[i] == s[i - n.sign.len()]);
        } else {
            assert(t[i] == n.sign[i]);
        }
    }
}

proof fn lemma_numeral_line(mark: u8, n: Numeral, data: Seq<u8>, pos: int)
    requires
        numeral_right(n),
        bytes::has_at(data, pos, numeral_line(mark, n)),
    ensures
        0 <= pos < data.len(),
        data[pos] == mark,
        resp::number_at(data, pos + 1) == Ok::<(int, int), RespParseError>(
            (n.value, pos + numeral_line(mark, n).len()),
        ),
{
    let t = numeral_text(n);
    lemma_numeral(n);
    bytes::lemma_has_at_concat(data, pos, seq![mark], t + seq![13u8, 10u8]);
    assert(data[pos + 0] == seq![mark][0]);
    resp::lemma_line_found(data, pos + 1, t);
}

/// A line of text behind a plus sign is a string, and behind a minus sign an error.
pub proof fn law_text_frames(config: ParserConfig, depth: nat, s: Seq<char>)
    requires
        forall|i: int|
            0 <= i < vstd::utf8::encode_utf8(s).len() ==> #[trigger] vstd::utf8::encode_utf8(s)[i]
                != 13,
    ensures
        is_frame(
            config,
            depth,
            seq![43u8] + (vstd::utf8::encode_utf8(s) + seq![13u8, 10u8]),
            FrameView::SimpleString(s),
        ),
        is_frame(
            config,
            depth,
            seq![45u8] + (vstd::utf8::encode_utf8(s) + seq![13u8, 10u8]),
            FrameView::Error(s),
        ),
{
    let b = vstd::utf8::encode_utf8(s);
    let end = seq![13u8, 10u8];
    vstd::utf8::encode_utf8_valid_utf8(s);
    vstd::utf8::encode_utf8_decode_utf8(s);
    assert forall|data: Seq<u8>, pos: int| #[trigger]
        bytes::has_at(data, pos, seq![43u8] + (b + end)) implies resp::frame_at(
        config,
        data,
        pos,
        depth,
    ) == Ok::<(FrameView, int), RespParseError>(
        (FrameView::SimpleString(s), pos + (seq![43u8] + (b + end)).len()),
    ) by {
        bytes::lemma_has_at_concat(data, pos, seq![43u8], b + end);
        assert(data[pos + 0] == seq![43u8][0]);
        resp::lemma_line_found(data, pos + 1, b);
    }
    assert forall|data: Seq<u8>, pos: int| #[trigger]
        bytes::has_at(data, pos, seq![45u8] + (b + end)) implies resp::frame_at(
        config,
        data,
        pos,
        depth,
    ) == Ok::<(FrameView, int), RespParseError>(
        (FrameView::Error(s), pos + (seq![45u8] + (b + end)).len()),
    ) by {
        bytes::lemma_has_at_concat(data, pos, seq![45u8], b + end);
        assert(data[pos + 0] == seq![45u8][0]);
        resp::lemma_line_found(data, pos + 1, b);
    }
}

/// A number behind a colon is an integer.
pub proof fn law_integer_frame(config: ParserConfig, depth: nat, n: Numeral)
    requires
        numeral_right(n),
    ensures
        is_frame(config, depth, numeral_line(58, n), FrameView::Integer(n.value)),
{
    assert forall|data: Seq<u8>, pos: int| #[trigger]
        bytes::has_at(data, pos, numeral_line(58, n)) implies resp::frame_at(
        config,
        data,
        pos,
        depth,
    ) == Ok::<(FrameView, int), RespParseError>(
        (FrameView::Integer(n.value), pos + numeral_line(58, n).len()),
    ) by {
        lemma_numeral_line(58, n, data, pos);
    }
}

/// A length behind a dollar sign, as many bytes and the end of a line are a string. The length
/// -1 is the string that is none.
pub proof fn law_string_frame(config: ParserConfig, depth: nat, n: Numeral, b: Seq<u8>)
    requires
        numeral_right(n),
    ensures
        n.value == b.len() && n.value <= config.max_bulk_len ==> is_frame(
            config,
            depth,
            numeral_line(36, n) + (b + seq![13u8, 10u8]),
            FrameView::BulkString(Some(b)),
        ),
        n.value == -1 ==> is_frame(config, depth, numeral_line(36, n), FrameView::BulkString(None)),
{
    let head = numeral_line(36, n);
    let end = seq![13u8, 10u8];
    if n.value == b.len() && n.value <= config.max_bulk_len {
        assert forall|data: Seq<u8>, pos: int| #[trigger]
            bytes::has_at(data, pos, head + (b + end)) implies resp::frame_at(
            config,
            data,
            pos,
            depth,
        ) == Ok::<(FrameView, int), RespParseError>(
            (FrameView::BulkString(Some(b)), pos + (head + (b + end)).len()),
        ) by {
            bytes::lemma_has_at_concat(data, pos, head, b + end);
            bytes::lemma_has_at_concat(data, pos + head.len(), b, end);
            lemma_numeral_line(36, n, data, pos);
            let at = pos + head.len() + b.len();
            assert(data[at + 0] == end[0]);
            assert(data[at + 1] == end[1]);
            bytes::lemma_has_at_subrange(data, pos + head.len(), b);
        }
    }
    if n.value == -1 {
        assert forall|data: Seq<u8>, pos: int| #[trigger]
            bytes::has_at(data, pos, head) implies resp::frame_at(config, data, pos, depth) == Ok::<
            (FrameView, int),
            RespParseError,
        >((FrameView::BulkString(None), pos + head.len())) by {
            lemma_numeral_line(36, n, data, pos);
        }
    }
}

/// A frame with its encoding.
pub struct Frame {
    pub encoding: Seq<u8>,
    pub frame: FrameView,
}

/// The bytes of a frame, as a function value.
pub open spec fn frame_encoder() -> spec_fn(Frame) -> Seq<u8> {
    |f: Frame| f.encoding
}

/// What frames say.
pub open spec fn frames_of(items: Seq<Frame>) -> Seq<FrameView> {
    Seq::new(items.len(), |i: int| items[i].frame)
}

proof fn lemma_frames(
    config: ParserConfig,
    depth: nat,
    items: Seq<Frame>,
    data: Seq<u8>,
    pos: int,
)
    requires
        forall|i: int|
            0 <= i < items.len() ==> is_frame(
                config,
                depth,
                (#[trigger] items[i]).encoding,
                items[i].frame,
            ),
        bytes::has_at(data, pos, bytes::concat_all(frame_encoder(), items)),
    ensures
        resp::frames_at(config, data, pos, items.len(), depth) == Ok::<
            (Seq<FrameView>, int),
            RespParseError,
        >((frames_of(items), pos + bytes::concat_all(frame_encoder(), items).len())),
    decreases items.len(),
{
    if items.len() > 0 {
        let front = items.drop_last();
        let a = bytes::concat_all(frame_encoder(), front);
        bytes::lemma_has_at_concat(data, pos, a, items.last().encoding);
        assert forall|i: int| 0 <= i < front.len() implies is_frame(
            config,
            depth,
            (#[trigger] front[i]).encoding,
            front[i].frame,
        ) by {
            assert(front[i] == items[i]);
        }
        lemma_frames(config, depth, front, data, pos);
        assert(is_frame(config, depth, items[items.len() - 1].encoding, items.last().frame));
        assert(frames_of(front).push(items.last().frame) =~= frames_of(items));
    } else {
        assert(frames_of(items) =~= Seq::empty());
    }
}

/// A number behind a star and as many frames, which may nest one less deep, are an array. The
/// number -1 is the array that is none.
pub proof fn law_array_frame(config: ParserConfig, depth: nat, n: Numeral, items: Seq<Frame>)
    requires
        numeral_right(n),
        n.value == items.len() ==> depth > 0 && n.value <= config.max_array_len && forall|i: int|
            0 <= i < items.len() ==> is_frame(
                config,
                (depth - 1) as nat,
                (#[trigger] items[i]).encoding,
                items[i].frame,
            ),
    ensures
        n.value == items.len() ==> is_frame(
            config,
            depth,
            numeral_line(42, n) + bytes::concat_all(frame_encoder(), items),
            FrameView::Array(Some(frames_of(items))),
        ),
        n.value == -1 ==> is_frame(config, depth, numeral_line(42, n), FrameView::Array(None)),
{
    let head = numeral_line(42, n);
    let body = bytes::concat_all(frame_encoder(), items);
    if n.value == items.len() {
        assert forall|data: Seq<u8>, pos: int| #[trigger]
            bytes::has_at(data, pos, head + body) implies resp::frame_at(config, data, pos, depth)
            == Ok::<(FrameView, int), RespParseError>(
            (FrameView::Array(Some(frames_of(items))), pos + (head + body).len()),
        ) by {
            bytes::lemma_has_at_concat(data, pos, head, body);
            lemma_numeral_line(42, n, data, pos);
            lemma_frames(config, (depth - 1) as nat, items, data, pos + head.len());
        }
    }
    if n.value == -1 {
        assert forall|data: Seq<u8>, pos: int| #[trigger]
            bytes::has_at(data, pos, head) implies resp::frame_at(config, data, pos, depth) == Ok::<
            (FrameView, int),
            RespParseError,
        >((FrameView::Array(None), pos + head.len())) by {
            lemma_numeral_line(42, n, data, pos);
        }
    }
}

/// Lengths that are negative or too great, arrays that nest too deep, and strings without the
/// end of a line behind them are refused, each with an error of its own.
pub proof fn law_wrong_frames_are_refused(
    config: ParserConfig,
    depth: nat,
    n: Numeral,
    b: Seq<u8>,
    end: Seq<u8>,
)
    requires
        numeral_right(n),
    ensures
        n.value < -1 ==> is_refused(
            config,
            depth,
            numeral_line(36, n),
            RespParseError::InvalidBulkLength,
        ),
        n.value > config.max_bulk_len ==> is_refused(
            config,
            depth,
            numeral_line(36, n),
            RespParseError::BulkLengthTooLarge,
        ),
        n.value < -1 ==> is_refused(
            config,
            depth,
            numeral_line(42, n),
            RespParseError::InvalidMultibulkLength,
        ),
        n.value > config.max_array_len ==> is_refused(
            config,
            depth,
            numeral_line(42, n),
            RespParseError::MultibulkLengthTooLarge,
        ),
        0 <= n.value <= config.max_array_len && depth == 0 ==> is_refused(
            config,
            depth,
            numeral_line(42, n),
            RespParseError::RecursionLimitExceeded,
        ),
        n.value == b.len() && n.value <= config.max_bulk_len && end.len() == 2 && end != seq![
            13u8,
            10u8,
        ] ==> is_refused(
            config,
            depth,
            numeral_line(36, n) + (b + end),
            RespParseError::InvalidTerminator,
        ),
{
    assert forall|data: Seq<u8>, pos: int| #[trigger]
        bytes::has_at(data, pos, numeral_line(36, n)) implies 0 <= pos < data.len() && data[pos]
        == 36 && resp::number_at(data, pos + 1) == Ok::<(int, int), RespParseError>(
        (n.value, pos + numeral_line(36, n).len()),
    ) by {
        lemma_numeral_line(36, n, data, pos);
    }
    assert forall|data: Seq<u8>, pos: int| #[trigger]
        bytes::has_at(data, pos, numeral_line(42, n)) implies 0 <= pos < data.len() && data[pos]
        == 42 && resp::number_at(data, pos + 1) == Ok::<(int, int), RespParseError>(
        (n.value, pos + numeral_line(42, n).len()),
    ) by {
        lemma_numeral_line(42, n, data, pos);
    }
    if n.value == b.len() && n.value <= config.max_bulk_len && end.len() == 2 && end != seq![
        13u8,
        10u8,
    ] {
        let head = numeral_line(36, n);
        assert forall|data: Seq<u8>, pos: int| #[trigger]
            bytes::has_at(data, pos, head + (b + end)) implies resp::frame_at(
            config,
            data,
            pos,
            depth,
        ) == Err::<(FrameView, int), RespParseError>(RespParseError::InvalidTerminator) by {
            bytes::lemma_has_at_concat(data, pos, head, b + end);
            bytes::lemma_has_at_concat(data, pos + head.len(), b, end);
            let at = pos + head.len() + b.len();
            assert(data[at + 0] == end[0]);
            assert(data[at + 1] == end[1]);
            if end[0] == 13 && end[1] == 10 {
                assert(end =~= seq![13u8, 10u8]);
            }
        }
    }
}

/// A byte that marks no frame is refused and told.
pub proof fn law_other_marks_are_refused(config: ParserConfig, depth: nat, mark: u8)
    requires
        mark != 36,
        mark != 42,
        mark != 43,
        mark != 45,
        mark != 58,
    ensures
        is_refused(config, depth, seq![mark], RespParseError::InvalidPrefix(mark)),
{
    assert forall|data: Seq<u8>, pos: int| #[trigger]
        bytes::has_at(data, pos, seq![mark]) implies resp::frame_at(config, data, pos, depth)
        == Err::<(FrameView, int), RespParseError>(RespParseError::InvalidPrefix(mark)) by {
        assert(data[pos + 0] == seq![mark][0]);
    }
}

/// Where a number is due, a line that holds anything but digits behind a sign is refused; where
/// text is due, a line that is not UTF-8 is.
pub proof fn law_wrong_lines_are_refused(
    config: ParserConfig,
    depth: nat,
    mark: u8,
    line: Seq<u8>,
    k: int,
)
    requires
        forall|i: int| 0 <= i < line.len() ==> #[trigger] line[i] != 13,
    ensures
        (mark == 36 || mark == 42 || mark == 58) && (line.len() == 0 || (0 <= k < line.len() && !(48
            <= line[k] <= 57) && (k > 0 || (line[0] != 43 && line[0] != 45)))) ==> is_refused(
            config,
            depth,
            seq![mark] + (line + seq![13u8, 10u8]),
            RespParseError::InvalidInteger,
        ),
        (mark == 43 || mark == 45) && !vstd::utf8::valid_utf8(line) ==> is_refused(
            config,
            depth,
            seq![mark] + (line + seq![13u8, 10u8]),
            RespParseError::InvalidUtf8,
        ),
{
    let encoding = seq![mark] + (line + seq![13u8, 10u8]);
    assert forall|data: Seq<u8>, pos: int| #[trigger]
        bytes::has_at(data, pos, encoding) implies 0 <= pos < data.len() && data[pos] == mark
        && resp::line_at(data, pos + 1) == Ok::<(Seq<u8>, int), RespParseError>(
        (line, pos + 3 + line.len()),
    ) by {
        bytes::lemma_has_at_concat(data, pos, seq![mark], line + seq![13u8, 10u8]);
        assert(data[pos + 0] == seq![mark][0]);
        resp::lemma_line_found(data, pos + 1, line);
    }
    if line.len() > 0 && 0 <= k < line.len() && !(48 <= line[k] <= 57) && (k > 0 || (line[0] != 43
        && line[0] != 45)) {
        if line[0] == 43 || line[0] == 45 {
            assert(line.skip(1)[k - 1] == line[k]);
            assert(!decimal::all_digits(line.skip(1)));
        } else {
            assert(!decimal::all_digits(line));
        }
    }
}

/// The frame is within what the reader takes: its text is one line, its numbers fit, its strings
/// and arrays are not too long, and arrays nest up to `depth` deep.
pub open spec fn frame_within(config: ParserConfig, depth: nat, f: FrameView) -> bool
    decreases f,
{
    match f {
        FrameView::SimpleString(s) => one_line(s),
        FrameView::Error(s) => one_line(s),
        FrameView::Integer(n) => i64::MIN <= n <= i64::MAX,
        FrameView::BulkString(Some(b)) => b.len() <= config.max_bulk_len && b.len() <= i64::MAX,
        FrameView::BulkString(None) => true,
        FrameView::Array(Some(items)) => depth > 0 && items.len() <= config.max_array_len
            && items.len() <= i64::MAX && forall|i: int|
            0 <= i < items.len() ==> frame_within(
                config,
                (depth - 1) as nat,
                #[trigger] items[i],
            ),
        FrameView::Array(None) => true,
    }
}

/// The text has no carriage return.
pub open spec fn one_line(s: Seq<char>) -> bool {
    forall|i: int|
        0 <= i < vstd::utf8::encode_utf8(s).len() ==> #[trigger] vstd::utf8::encode_utf8(s)[i] != 13
}

/// The number without a sign that is not needed and without zeros in front.
pub open spec fn plain_numeral(v: int) -> Numeral {
    Numeral {
        sign: if v < 0 {
            seq![45u8]
        } else {
            Seq::empty()
        },
        zeros: 0,
        value: v,
    }
}

proof fn lemma_plain_line(mark: u8, v: int)
    ensures
        resp::number_line(mark, v) == numeral_line(mark, plain_numeral(v)),
{
    let n = plain_numeral(v);
    let d = decimal::dec_nat(
        (if v < 0 {
            -v
        } else {
            v
        }) as nat,
    );
    assert(Seq::new(0nat, |i: int| 48u8) + d =~= d);
    assert(numeral_text(n) =~= decimal::dec_int(v));
    assert(resp::number_line(mark, v) =~= numeral_line(mark, n));
}

/// The frames with what is written of them.
pub open spec fn written_frames(items: Seq<FrameView>) -> Seq<Frame> {
    Seq::new(items.len(), |i: int| Frame { encoding: resp::frame_bytes(items[i]), frame: items[i] })
}

proof fn lemma_written_frames(items: Seq<FrameView>)
    ensures
        resp::frames_bytes(items) == bytes::concat_all(frame_encoder(), written_frames(items)),
    decreases items.len(),
{
    if items.len() > 0 {
        lemma_written_frames(items.drop_last());
        assert(written_frames(items).drop_last() =~= written_frames(items.drop_last()));
    }
}

/// What is written of a frame is read as the frame.
pub proof fn law_frame_round_trip(config: ParserConfig, depth: nat, f: FrameView)
    requires
        frame_within(config, depth, f),
    ensures
        is_frame(config, depth, resp::frame_bytes(f), f),
    decreases f,
{
    match f {
        FrameView::SimpleString(s) => {
            law_text_frames(config, depth, s);
            assert(resp::frame_bytes(f) =~= seq![43u8] + (vstd::utf8::encode_utf8(s) + seq![
                13u8,
                10u8,
            ]));
        },
        FrameView::Error(s) => {
            law_text_frames(config, depth, s);
            assert(resp::frame_bytes(f) =~= seq![45u8] + (vstd::utf8::encode_utf8(s) + seq![
                13u8,
                10u8,
            ]));
        },
        FrameView::Integer(n) => {
            lemma_plain_line(58, n);
            law_integer_frame(config, depth, plain_numeral(n));
        },
        FrameView::BulkString(Some(b)) => {
            let n = plain_numeral(b.len() as int);
            lemma_plain_line(36, b.len() as int);
            law_string_frame(config, depth, n, b);
            assert(resp::frame_bytes(f) =~= numeral_line(36, n) + (b + seq![13u8, 10u8]));
        },
        FrameView::BulkString(None) => {
            lemma_plain_line(36, -1);
            law_string_frame(config, depth, plain_numeral(-1), Seq::empty());
        },
        FrameView::Array(Some(items)) => {
            let n = plain_numeral(items.len() as int);
            let frames = written_frames(items);
            lemma_plain_line(42, items.len() as int);
            lemma_written_frames(items);
            assert forall|i: int| 0 <= i < frames.len() implies is_frame(
                config,
                (depth - 1) as nat,
                (#[trigger] frames[i]).encoding,
                frames[i].frame,
            ) by {
                law_frame_round_trip(config, (depth - 1) as nat, items[i]);
            }
            law_array_frame(config, depth, n, frames);
            assert(frames_of(frames) =~= items);
        },
        FrameView::Array(None) => {
            lemma_plain_line(42, -1);
            law_array_frame(config, depth, plain_numeral(-1), Seq::empty());
        },
    }
}

// ---------------------------------------------------------------------------
// Records
// ---------------------------------------------------------------------------

/// The argument is what the frame says: the bytes of a string or of text, or the decimal text of
/// an integer.
pub open spec fn is_argument(f: FrameView, a: Seq<u8>) -> bool {
    match f {
        FrameView::BulkString(Some(b)) => a == b,
        FrameView::SimpleString(s) => a == vstd::utf8::encode_utf8(s),
        FrameView::Integer(n) => a == decimal::dec_int(n),
        _ => false,
    }
}

/// The frames that a log may hold: strings up to 1 GiB, arrays of up to 10 Mi items, nested up to
/// 64 deep.
pub open spec fn log_limits() -> ParserConfig {
    ParserConfig {
        max_bulk_len: 1_073_741_824,
        max_array_len: 10_485_760,
        max_recursion_depth: 64,
    }
}

/// An array of at least one argument is a record of these arguments, which takes the bytes of the
/// array.
pub proof fn law_array_is_a_record(
    encoding: Seq<u8>,
    items: Seq<FrameView>,
    argv: Seq<Seq<u8>>,
    data: Seq<u8>,
    pos: int,
)
    requires
        is_frame(log_limits(), 64, encoding, FrameView::Array(Some(items))),
        items.len() > 0,
        argv.len() == items.len(),
        forall|i: int| 0 <= i < items.len() ==> is_argument(#[trigger] items[i], argv[i]),
        bytes::has_at(data, pos, encoding),
    ensures
        aof::record_at(data, pos) matches Ok(r) && r.argv == argv && r.start == pos && r.end == pos
            + encoding.len(),
{
    assert(aof::record_of(FrameView::Array(Some(items)))->Some_0 =~= argv) by {
        assert forall|i: int| 0 <= i < items.len() implies aof::argument_of(#[trigger] items[i])
            == Some(argv[i]) by {
            assert(is_argument(items[i], argv[i]));
        }
    }
}

/// A frame that is no array, an array that is none or holds nothing, and one with an item that
/// is no argument are no records, and bytes that are no frame are refused with their error.
pub proof fn law_other_frames_are_no_records(
    encoding: Seq<u8>,
    f: FrameView,
    e: RespParseError,
    k: int,
    data: Seq<u8>,
    pos: int,
)
    requires
        bytes::has_at(data, pos, encoding),
    ensures
        is_frame(log_limits(), 64, encoding, f) && (match f {
            FrameView::Array(Some(items)) => items.len() == 0 || (0 <= k < items.len() && match items[k] {
                FrameView::Error(_) => true,
                FrameView::Array(_) => true,
                FrameView::BulkString(None) => true,
                _ => false,
            }),
            _ => true,
        }) ==> (aof::record_at(data, pos) matches Err(failure) && failure
            == AofReplayTailFailure::InvalidFrame),
        is_refused(log_limits(), 64, encoding, e) ==> (aof::record_at(data, pos) matches Err(
            failure,
        ) && failure == AofReplayTailFailure::Parse(e)),
{
    if let FrameView::Array(Some(items)) = f {
        if 0 <= k < items.len() {
            assert(aof::argument_of(items[k]) is None || aof::argument_of(items[k]) is Some);
        }
    }
}

/// What is told of a log that cannot be read is the error of its frame, or that a frame is no
/// record.
pub proof fn law_log_errors(e: RespParseError)
    ensures
        aof::failure_error(AofReplayTailFailure::Parse(e)) == PersistError::Parse(e),
        aof::failure_error(AofReplayTailFailure::InvalidFrame) == PersistError::InvalidFrame,
{
}

proof fn lemma_replay(
    records: Seq<Frame>,
    argvs: Seq<Seq<Seq<u8>>>,
    k: int,
    data: Seq<u8>,
    pos: int,
    found: Seq<aof::ReplayView>,
)
    requires
        0 <= k <= records.len(),
        are_records(records, argvs),
        bytes::has_at(data, pos, bytes::concat_all(frame_encoder(), records.skip(k))),
        pos + bytes::concat_all(frame_encoder(), records.skip(k)).len() == data.len(),
    ensures
        ({
            let r = aof::replay_from(data, pos, found);
            &&& r.1 is None
            &&& r.0.len() == found.len() + records.len() - k
            &&& forall|i: int| 0 <= i < found.len() ==> #[trigger] r.0[i] == found[i]
            &&& forall|i: int|
                k <= i < records.len() ==> (#[trigger] r.0[found.len() + i - k]).argv == argvs[i]
        }),
    decreases records.len() - k,
{
    let e = frame_encoder();
    if k < records.len() {
        bytes::lemma_concat_first(e, records, k);
        let here = e(records[k]);
        let rest = bytes::concat_all(e, records.skip(k + 1));
        bytes::lemma_has_at_concat(data, pos, here, rest);
        assert(is_record(records[k], argvs[k]));
        let items = records[k].frame->Array_0->Some_0;
        law_array_is_a_record(records[k].encoding, items, argvs[k], data, pos);
        resp::lemma_frame_bounds(aof::aof_config(), data, pos, 64);
        let r = aof::record_at(data, pos)->Ok_0;
        let more = found.push(r);
        lemma_replay(records, argvs, k + 1, data, pos + here.len(), more);
        let all = aof::replay_from(data, pos, found);
        assert(all == aof::replay_from(data, pos + here.len(), more));
        assert forall|i: int| 0 <= i < found.len() implies #[trigger] all.0[i] == found[i] by {
            assert(all.0[i] == more[i]);
        }
        assert forall|i: int| k <= i < records.len() implies (
        #[trigger] all.0[found.len() + i - k]).argv == argvs[i] by {
            if i == k {
                assert(all.0[found.len() as int] == more[found.len() as int]);
            } else {
                assert(found.len() + i - k == more.len() + i - (k + 1));
                assert(all.0[more.len() + i - (k + 1)].argv == argvs[i]);
            }
        }
    } else {
        assert(records.skip(k) =~= Seq::empty());
    }
}

/// The frame is read as an array of at least one item whose items are the arguments.
pub open spec fn is_record(f: Frame, argv: Seq<Seq<u8>>) -> bool {
    &&& is_frame(log_limits(), 64, f.encoding, f.frame)
    &&& f.frame matches FrameView::Array(Some(items)) && items.len() > 0 && argv.len()
        == items.len() && forall|i: int|
        0 <= i < items.len() ==> is_argument(#[trigger] items[i], argv[i])
}

/// Every frame is a record of its arguments.
pub open spec fn are_records(records: Seq<Frame>, argvs: Seq<Seq<Seq<u8>>>) -> bool {
    &&& records.len() == argvs.len()
    &&& forall|i: int| 0 <= i < records.len() ==> is_record(#[trigger] records[i], argvs[i])
}

/// A log of records of any form is replayed as their arguments, in the order in which they
/// stand.
pub proof fn law_log_is_replayed(records: Seq<Frame>, argvs: Seq<Seq<Seq<u8>>>)
    requires
        are_records(records, argvs),
    ensures
        ({
            let r = aof::replay_of(bytes::concat_all(frame_encoder(), records), 0);
            r.1 is None && aof::replay_arguments(r.0) == argvs
        }),
{
    let data = bytes::concat_all(frame_encoder(), records);
    bytes::lemma_has_at_whole(data);
    assert(records.skip(0) =~= records);
    lemma_replay(records, argvs, 0, data, 0, Seq::empty());
    let r = aof::replay_of(data, 0);
    assert forall|i: int| 0 <= i < argvs.len() implies aof::replay_arguments(r.0)[i] == argvs[i] by {
        assert(r.0[0 + i - 0].argv == argvs[i]);
    }
    assert(aof::replay_arguments(r.0) =~= argvs);
}

} // verus!
