//! LZF compression of byte strings.
//!
//! A compressed stream is a run of tokens:
//!
//! ```text
//! 000LLLLL <L+1 octets>         a literal run of L+1 bytes (1..32)
//! LLLooooo oooooooo             copy L+2 bytes (3..8) from `o + 1` bytes back
//! 111ooooo LLLLLLLL oooooooo    copy L+9 bytes (9..264) from `o + 1` bytes back
//! ```

use vstd::prelude::*;

use crate::bytes::push_window;

verus! {

/// The longest string that is accepted for expansion (512 MiB).
pub const LZF_MAX_EXPANDED: u64 = 536_870_912;

/// Number of slots of the match table.
pub const LZF_SLOTS: usize = 65_536;

/// Length of the longest literal run.
pub const LZF_MAX_LITERAL: usize = 32;

/// Bound on the distance of a back-reference, less one.
pub const LZF_MAX_OFFSET: usize = 8_192;

/// Bound on the length of a back-reference.
pub const LZF_MAX_MATCH: usize = 264;

// ---------------------------------------------------------------------------
// Expansion
// ---------------------------------------------------------------------------

/// `output` with `n` bytes appended, each a copy of the byte that stands as far
/// behind `start` as it stands behind the end of `output`.
pub open spec fn copy_back(output: Seq<u8>, start: int, n: nat) -> Seq<u8>
    decreases n,
{
    if n == 0 {
        output
    } else {
        let shorter = copy_back(output, start, (n - 1) as nat);
        shorter.push(shorter[start + n - 1])
    }
}

/// What the token at `cursor` makes of `output`, with the offset behind the token.
pub open spec fn lzf_token(input: Seq<u8>, cursor: int, output: Seq<u8>) -> Option<
    (int, Seq<u8>),
> {
    let ctrl = input[cursor] as int;
    if ctrl < 32 {
        let end = cursor + 1 + ctrl + 1;
        if end <= input.len() {
            Some((end, output + input.subrange(cursor + 1, end)))
        } else {
            None
        }
    } else {
        let long = ctrl / 32 == 7;
        let low = if long {
            cursor + 2
        } else {
            cursor + 1
        };
        if low >= input.len() {
            None
        } else {
            let len = if long {
                9 + input[cursor + 1] as int
            } else {
                ctrl / 32 + 2
            };
            let back = (ctrl % 32) * 256 + input[low] as int + 1;
            if back > output.len() {
                None
            } else {
                Some((low + 1, copy_back(output, output.len() - back, len as nat)))
            }
        }
    }
}

/// What the tokens from `cursor` on make of `output`, if they end with the input
/// and give `expected` bytes in all.
pub open spec fn lzf_expand(
    input: Seq<u8>,
    cursor: int,
    output: Seq<u8>,
    expected: nat,
) -> Option<Seq<u8>>
    decreases input.len() - cursor,
{
    if 0 <= cursor < input.len() && output.len() < expected {
        match lzf_token(input, cursor, output) {
            None => None,
            Some((next, longer)) => lzf_expand(input, next, longer, expected),
        }
    } else if cursor == input.len() && output.len() == expected {
        Some(output)
    } else {
        None
    }
}

/// The byte string that a compressed stream stands for.
pub open spec fn lzf_expanded(input: Seq<u8>, expected: nat) -> Option<Seq<u8>> {
    if expected > LZF_MAX_EXPANDED {
        None
    } else {
        lzf_expand(input, 0, Seq::empty(), expected)
    }
}

pub proof fn lemma_copy_back_len(output: Seq<u8>, start: int, n: nat)
    ensures
        copy_back(output, start, n).len() == output.len() + n,
    decreases n,
{
    if n > 0 {
        lemma_copy_back_len(output, start, (n - 1) as nat);
    }
}

/// Expands a compressed stream to exactly `expected_len` bytes.
pub fn lzf_decompress(input: &[u8], expected_len: u64) -> (r: Option<Vec<u8>>)
    ensures
        match r {
            Some(out) => lzf_expanded(input@, expected_len as nat) == Some(out@),
            None => lzf_expanded(input@, expected_len as nat) is None,
        },
{
    if expected_len > LZF_MAX_EXPANDED {
        return None;
    }
    let len: usize = input.len();
    let mut output: Vec<u8> = Vec::new();
    let mut cursor: usize = 0;
    assert(output@ =~= Seq::<u8>::empty());
    while cursor < len && (output.len() as u64) < expected_len
        invariant
            expected_len <= LZF_MAX_EXPANDED,
            cursor <= len == input@.len(),
            lzf_expand(input@, cursor as int, output@, expected_len as nat) == lzf_expanded(
                input@,
                expected_len as nat,
            ),
        decreases len - cursor,
    {
        let ctrl: usize = input[cursor] as usize;
        if ctrl < 32 {
            if ctrl + 1 > len - cursor - 1 {
                return None;
            }
            let end: usize = cursor + 1 + ctrl + 1;
            push_window(&mut output, input, cursor + 1, end);
            cursor = end;
        } else {
            let long: bool = ctrl / 32 == 7;
            let low: usize = if long {
                if len - cursor <= 2 {
                    return None;
                }
                cursor + 2
            } else {
                if len - cursor <= 1 {
                    return None;
                }
                cursor + 1
            };
            let copy_len: usize = if long {
                9 + input[cursor + 1] as usize
            } else {
                ctrl / 32 + 2
            };
            let back: usize = (ctrl % 32) * 256 + input[low] as usize + 1;
            if back > output.len() {
                return None;
            }
            let start: usize = output.len() - back;
            let ghost before = output@;
            let mut k: usize = 0;
            while k < copy_len
                invariant
                    k <= copy_len <= 264,
                    start < before.len() <= LZF_MAX_EXPANDED,
                    output@ == copy_back(before, start as int, k as nat),
                decreases copy_len - k,
            {
                proof {
                    lemma_copy_back_len(before, start as int, k as nat);
                }
                let b: u8 = output[start + k];
                output.push(b);
                k = k + 1;
            }
            cursor = low + 1;
        }
    }
    if cursor == len && output.len() as u64 == expected_len {
        Some(output)
    } else {
        None
    }
}

// ---------------------------------------------------------------------------
// Compression: the stream that is produced
// ---------------------------------------------------------------------------

/// Where a compression stands: the input offset, the stream so far with the open
/// literal run at its end, the offset of that run's header and its length, the
/// rolling hash, and for each slot one more than the offset last filed there
/// (zero for none).
#[verifier::ext_equal]
pub struct LzfState {
    pub ip: int,
    pub out: Seq<u8>,
    pub hdr: int,
    pub lit: int,
    pub hval: int,
    pub table: Seq<int>,
}

/// The rolling hash with one more byte.
pub open spec fn lzf_next(hval: int, byte: u8) -> int {
    (hval * 256 + byte as int) % 0x1_0000_0000
}

/// The rolling hash of the two bytes at `ip`.
pub open spec fn lzf_first(input: Seq<u8>, ip: int) -> int {
    input[ip] as int * 256 + input[ip + 1] as int
}

/// The slot of a rolling hash.
pub open spec fn lzf_slot(hval: int) -> int {
    (hval / 256 - 5 * hval) % 65_536
}

/// The first offset in `from..end` at which the bytes behind `r` and `ip` differ,
/// or `end`.
pub open spec fn first_difference(input: Seq<u8>, r: int, ip: int, from: int, end: int) -> int
    decreases end - from,
{
    if from >= end || input[r + from] != input[ip + from] {
        from
    } else {
        first_difference(input, r, ip, from + 1, end)
    }
}

/// The length taken for a match of the bytes at `ip` with those at `r`. The first
/// sixteen bytes behind the third are compared without regard to the bound.
pub open spec fn match_length(input: Seq<u8>, r: int, ip: int) -> int {
    let rest = input.len() - ip - 2;
    let bound = if rest < LZF_MAX_MATCH {
        rest
    } else {
        LZF_MAX_MATCH as int
    };
    if bound > 16 {
        let near = first_difference(input, r, ip, 3, 19);
        if near < 19 {
            near
        } else {
            first_difference(input, r, ip, 19, bound)
        }
    } else {
        first_difference(input, r, ip, 3, bound)
    }
}

/// The offset filed as `stored` lies before `ip`, near enough, not at the start of
/// the input, and three bytes agree there.
pub open spec fn lzf_usable(input: Seq<u8>, ip: int, stored: int) -> bool {
    let r = stored - 1;
    &&& 1 <= r < ip
    &&& ip - r - 1 < LZF_MAX_OFFSET
    &&& input[r] == input[ip]
    &&& input[r + 1] == input[ip + 1]
    &&& input[r + 2] == input[ip + 2]
}

/// The token that copies `len` bytes from `off + 1` bytes back.
pub open spec fn lzf_backref(off: int, len: int) -> Seq<u8> {
    if len - 2 < 7 {
        seq![(off / 256 + 32 * (len - 2)) as u8, (off % 256) as u8]
    } else {
        seq![(off / 256 + 224) as u8, (len - 9) as u8, (off % 256) as u8]
    }
}

/// The stream with its open literal run closed.
pub open spec fn lzf_closed(s: LzfState) -> Seq<u8> {
    if s.lit > 0 {
        s.out.update(s.hdr, (s.lit - 1) as u8)
    } else {
        s.out.drop_last()
    }
}

/// One more literal byte.
pub open spec fn lzf_literal(input: Seq<u8>, s: LzfState) -> LzfState {
    let out = s.out.push(input[s.ip]);
    if s.lit + 1 == LZF_MAX_LITERAL {
        let full = out.update(s.hdr, 31);
        LzfState { ip: s.ip + 1, out: full.push(0), hdr: full.len() as int, lit: 0, ..s }
    } else {
        LzfState { ip: s.ip + 1, out: out, lit: s.lit + 1, ..s }
    }
}

/// One step of the compression: a match is taken if the slot offers a usable one,
/// else a literal byte. `None` if the budget does not allow it.
pub open spec fn lzf_step(input: Seq<u8>, budget: int, s: LzfState) -> Option<LzfState> {
    let hval = lzf_next(s.hval, input[s.ip + 2]);
    let stored = s.table[lzf_slot(hval)];
    let table = s.table.update(lzf_slot(hval), s.ip + 1);
    if lzf_usable(input, s.ip, stored) {
        let r = stored - 1;
        let len = match_length(input, r, s.ip);
        if s.out.len() - (if s.lit == 0 {
            1int
        } else {
            0int
        }) + 4 >= budget {
            None
        } else {
            let out = lzf_closed(s) + lzf_backref(s.ip - r - 1, len);
            let ip = s.ip + len;
            if ip >= input.len() - 2 {
                Some(
                    LzfState { ip, out: out.push(0), hdr: out.len() as int, lit: 0, hval, table },
                )
            } else {
                let one = lzf_next(lzf_first(input, ip - 2), input[ip]);
                let two = lzf_next(one, input[ip + 1]);
                Some(
                    LzfState {
                        ip,
                        out: out.push(0),
                        hdr: out.len() as int,
                        lit: 0,
                        hval: two,
                        table: table.update(lzf_slot(one), ip - 1).update(lzf_slot(two), ip),
                    },
                )
            }
        }
    } else if s.out.len() >= budget {
        None
    } else {
        Some(lzf_literal(input, LzfState { hval, table, ..s }))
    }
}

proof fn lemma_first_difference(input: Seq<u8>, r: int, ip: int, from: int, end: int)
    ensures
        from <= first_difference(input, r, ip, from, end),
        from <= end ==> first_difference(input, r, ip, from, end) <= end,
        from > end ==> first_difference(input, r, ip, from, end) == from,
        forall|o: int|
            from <= o < first_difference(input, r, ip, from, end) ==> input[r + o] == #[trigger] input[ip
                + o],
    decreases end - from,
{
    if from < end && input[r + from] == input[ip + from] {
        lemma_first_difference(input, r, ip, from + 1, end);
    }
}

pub proof fn lemma_match_length(input: Seq<u8>, r: int, ip: int)
    requires
        0 <= r < ip < input.len() - 2,
    ensures
        3 <= match_length(input, r, ip) <= LZF_MAX_MATCH,
        ip + match_length(input, r, ip) <= input.len(),
        forall|o: int|
            3 <= o < match_length(input, r, ip) ==> input[r + o] == #[trigger] input[ip + o],
{
    let rest = input.len() - ip - 2;
    let bound = if rest < LZF_MAX_MATCH {
        rest
    } else {
        LZF_MAX_MATCH as int
    };
    lemma_first_difference(input, r, ip, 3, 19);
    lemma_first_difference(input, r, ip, 19, bound);
    lemma_first_difference(input, r, ip, 3, bound);
}

/// The state in which no step is left.
pub open spec fn lzf_run(input: Seq<u8>, budget: int, s: LzfState) -> Option<LzfState>
    decreases input.len() - s.ip,
{
    if 0 <= s.ip < input.len() - 2 {
        proof {
            let r = s.table[lzf_slot(lzf_next(s.hval, input[s.ip + 2]))] - 1;
            if 0 <= r < s.ip {
                lemma_match_length(input, r, s.ip);
            }
        }
        match lzf_step(input, budget, s) {
            None => None,
            Some(next) => lzf_run(input, budget, next),
        }
    } else {
        Some(s)
    }
}

/// The rest of the input as literals.
pub open spec fn lzf_drain(input: Seq<u8>, s: LzfState) -> LzfState
    decreases input.len() - s.ip,
{
    if s.ip < input.len() {
        lzf_drain(input, lzf_literal(input, s))
    } else {
        s
    }
}

/// The state before the first byte.
pub open spec fn lzf_start(input: Seq<u8>) -> LzfState {
    LzfState {
        ip: 0,
        out: seq![0u8],
        hdr: 0,
        lit: 0,
        hval: if input.len() >= 2 {
            lzf_first(input, 0)
        } else {
            0
        },
        table: Seq::new(LZF_SLOTS as nat, |i: int| 0int),
    }
}

/// The compressed stream of `input`, if the compressor keeps within `budget` bytes.
pub open spec fn lzf_compressed(input: Seq<u8>, budget: int) -> Option<Seq<u8>> {
    if input.len() == 0 || budget == 0 {
        None
    } else {
        match lzf_run(input, budget, lzf_start(input)) {
            None => None,
            Some(s) => if s.out.len() + 3 > budget {
                None
            } else {
                let out = lzf_closed(lzf_drain(input, s));
                if out.len() == 0 || out.len() > budget {
                    None
                } else {
                    Some(out)
                }
            },
        }
    }
}

// ---------------------------------------------------------------------------
// Compression: round trip
// ---------------------------------------------------------------------------

/// Wherever the stream `tokens` stands at the start, expansion passes through the
/// point at which exactly `tokens` is consumed and `output` is produced.
spec fn lzf_covers(tokens: Seq<u8>, output: Seq<u8>) -> bool {
    forall|data: Seq<u8>, expected: nat|
        data.len() >= tokens.len() && data.take(tokens.len() as int) == tokens && output.len()
            <= expected ==> #[trigger] lzf_expand(data, 0, Seq::empty(), expected) == lzf_expand(
            data,
            tokens.len() as int,
            output,
            expected,
        )
}

proof fn lemma_covers_extend(tokens: Seq<u8>, output: Seq<u8>, token: Seq<u8>, longer: Seq<u8>)
    requires
        lzf_covers(tokens, output),
        token.len() > 0,
        output.len() < longer.len(),
        forall|data: Seq<u8>|
            data.len() >= tokens.len() + token.len() && #[trigger] data.take(
                (tokens.len() + token.len()) as int,
            ) == tokens + token ==> lzf_token(data, tokens.len() as int, output) == Some(
                ((tokens.len() + token.len()) as int, longer),
            ),
    ensures
        lzf_covers(tokens + token, longer),
{
    let both = tokens + token;
    assert forall|data: Seq<u8>, expected: nat|
        data.len() >= both.len() && data.take(both.len() as int) == both && longer.len()
            <= expected implies #[trigger] lzf_expand(data, 0, Seq::empty(), expected)
        == lzf_expand(data, both.len() as int, longer, expected) by {
        assert(data.take(tokens.len() as int) =~= tokens) by {
            assert(data.take(both.len() as int).take(tokens.len() as int) =~= data.take(
                tokens.len() as int,
            ));
            assert(both.take(tokens.len() as int) =~= tokens);
        }
        assert(data.take((tokens.len() + token.len()) as int) == tokens + token);
    }
}

proof fn lemma_covers_literal(tokens: Seq<u8>, output: Seq<u8>, run: Seq<u8>)
    requires
        lzf_covers(tokens, output),
        1 <= run.len() <= 32,
    ensures
        lzf_covers(tokens + (seq![(run.len() - 1) as u8] + run), output + run),
{
    let token = seq![(run.len() - 1) as u8] + run;
    let t = tokens.len() as int;
    assert forall|data: Seq<u8>|
        data.len() >= tokens.len() + token.len() && #[trigger] data.take(
            (tokens.len() + token.len()) as int,
        ) == tokens + token implies lzf_token(data, tokens.len() as int, output) == Some(
        ((tokens.len() + token.len()) as int, output + run),
    ) by {
        let both = data.take((tokens.len() + token.len()) as int);
        assert(both[t] == token[0]);
        assert forall|i: int| 0 <= i < run.len() implies data[t + 1 + i] == run[i] by {
            assert(both[t + 1 + i] == token[1 + i]);
        }
        assert(data.subrange(t + 1, t + 1 + run.len()) =~= run);
    }
    lemma_covers_extend(tokens, output, token, output + run);
}

proof fn lemma_copy_back_repeats(input: Seq<u8>, r: int, ip: int, n: nat)
    requires
        0 <= r < ip,
        ip + n <= input.len(),
        forall|o: int| 0 <= o < n ==> input[r + o] == #[trigger] input[ip + o],
    ensures
        copy_back(input.take(ip), r, n) == input.take(ip + n),
    decreases n,
{
    if n > 0 {
        lemma_copy_back_repeats(input, r, ip, (n - 1) as nat);
        let shorter = input.take(ip + n - 1);
        assert(input[r + (n - 1)] == input[ip + (n - 1)]);
        assert(shorter[r + n - 1] == input[ip + n - 1]);
        assert(shorter.push(input[ip + n - 1]) =~= input.take(ip + n));
    } else {
        assert(input.take(ip + n) =~= input.take(ip));
    }
}

proof fn lemma_covers_backref(tokens: Seq<u8>, input: Seq<u8>, r: int, ip: int, len: int)
    requires
        lzf_covers(tokens, input.take(ip)),
        0 <= r < ip,
        ip - r - 1 < LZF_MAX_OFFSET,
        3 <= len <= LZF_MAX_MATCH,
        ip + len <= input.len(),
        forall|o: int| 0 <= o < len ==> input[r + o] == #[trigger] input[ip + o],
    ensures
        lzf_covers(tokens + lzf_backref(ip - r - 1, len), input.take(ip + len)),
{
    let off = ip - r - 1;
    let token = lzf_backref(off, len);
    let output = input.take(ip);
    let t = tokens.len() as int;
    lemma_copy_back_repeats(input, r, ip, len as nat);
    assert forall|data: Seq<u8>|
        data.len() >= tokens.len() + token.len() && #[trigger] data.take(
            (tokens.len() + token.len()) as int,
        ) == tokens + token implies lzf_token(data, tokens.len() as int, output) == Some(
        ((tokens.len() + token.len()) as int, input.take(ip + len)),
    ) by {
        let both = data.take((tokens.len() + token.len()) as int);
        assert(both[t] == token[0]);
        assert(both[t + 1] == token[1]);
        if token.len() == 3 {
            assert(both[t + 2] == token[2]);
        }
        assert(0 <= off / 256 <= 31);
        assert(data[t] == token[0]);
        if len - 2 < 7 {
            assert(data[t] as int == off / 256 + 32 * (len - 2));
            assert(data[t] as int / 32 == len - 2);
            assert(data[t] as int % 32 == off / 256);
        } else {
            assert(data[t] as int == off / 256 + 224);
            assert(data[t] as int / 32 == 7);
            assert(data[t] as int % 32 == off / 256);
        }
        assert(output.len() - (off + 1) == r);
    }
    lemma_covers_extend(tokens, output, token, input.take(ip + len));
}

/// The stream up to the open run expands to the input up to that run, and the run
/// holds the bytes between there and the input offset.
spec fn lzf_sound(input: Seq<u8>, s: LzfState) -> bool {
    &&& 0 <= s.lit < 32
    &&& s.lit <= s.ip <= input.len()
    &&& 0 <= s.hdr
    &&& s.out.len() == s.hdr + 1 + s.lit
    &&& lzf_covers(s.out.take(s.hdr), input.take(s.ip - s.lit))
    &&& s.out.skip(s.hdr + 1) == input.subrange(s.ip - s.lit, s.ip)
}

proof fn lemma_closed_covers(input: Seq<u8>, s: LzfState)
    requires
        lzf_sound(input, s),
    ensures
        lzf_covers(lzf_closed(s), input.take(s.ip)),
{
    let before = input.take(s.ip - s.lit);
    if s.lit > 0 {
        let run = input.subrange(s.ip - s.lit, s.ip);
        lemma_covers_literal(s.out.take(s.hdr), before, run);
        let closed = lzf_closed(s);
        assert forall|i: int| 0 <= i < run.len() implies closed[s.hdr + 1 + i] == run[i] by {
            assert(s.out.skip(s.hdr + 1)[i] == s.out[s.hdr + 1 + i]);
        }
        assert(closed =~= s.out.take(s.hdr) + (seq![(run.len() - 1) as u8] + run));
        assert(before + run =~= input.take(s.ip));
    } else {
        assert(lzf_closed(s) =~= s.out.take(s.hdr));
    }
}

proof fn lemma_literal_sound(input: Seq<u8>, s: LzfState)
    requires
        lzf_sound(input, s),
        s.ip < input.len(),
    ensures
        lzf_sound(input, lzf_literal(input, s)),
{
    let next = lzf_literal(input, s);
    let out = s.out.push(input[s.ip]);
    let longer = LzfState { ip: s.ip + 1, out: out, lit: s.lit + 1, ..s };
    assert(out.take(s.hdr) =~= s.out.take(s.hdr));
    let run = input.subrange(s.ip - s.lit, s.ip + 1);
    assert forall|i: int| 0 <= i < run.len() implies out[s.hdr + 1 + i] == run[i] by {
        if i < s.lit {
            assert(s.out.skip(s.hdr + 1)[i] == s.out[s.hdr + 1 + i]);
        }
    }
    assert(out.skip(s.hdr + 1) =~= run);
    if s.lit + 1 == 32 {
        let before = input.take(s.ip - s.lit);
        lemma_covers_literal(s.out.take(s.hdr), before, run);
        let full = out.update(s.hdr, 31);
        assert(full =~= s.out.take(s.hdr) + (seq![31u8] + run));
        assert(before + run =~= input.take(s.ip + 1));
        assert(next.out.take(next.hdr) =~= full);
        assert(next.out.skip(next.hdr + 1) =~= input.subrange(s.ip + 1, s.ip + 1));
    }
}

proof fn lemma_step_sound(input: Seq<u8>, budget: int, s: LzfState)
    requires
        lzf_sound(input, s),
        s.ip < input.len() - 2,
    ensures
        lzf_step(input, budget, s) matches Some(next) ==> lzf_sound(input, next) && next.ip > s.ip,
{
    let hval = lzf_next(s.hval, input[s.ip + 2]);
    let stored = s.table[lzf_slot(hval)];
    let table = s.table.update(lzf_slot(hval), s.ip + 1);
    if lzf_usable(input, s.ip, stored) {
        let r = stored - 1;
        let len = match_length(input, r, s.ip);
        lemma_match_length(input, r, s.ip);
        lemma_closed_covers(input, s);
        assert forall|o: int| 0 <= o < len implies input[r + o] == #[trigger] input[s.ip + o] by {
            if o < 3 {
                assert(o == 0 || o == 1 || o == 2);
            }
        }
        lemma_covers_backref(lzf_closed(s), input, r, s.ip, len);
        let out = lzf_closed(s) + lzf_backref(s.ip - r - 1, len);
        assert(out.push(0).take(out.len() as int) =~= out);
        assert(out.push(0).skip(out.len() as int + 1) =~= input.subrange(s.ip + len, s.ip + len));
    } else {
        lemma_literal_sound(input, LzfState { hval, table, ..s });
    }
}

proof fn lemma_run_sound(input: Seq<u8>, budget: int, s: LzfState)
    requires
        lzf_sound(input, s),
    ensures
        lzf_run(input, budget, s) matches Some(end) ==> lzf_sound(input, end),
    decreases input.len() - s.ip,
{
    if s.ip < input.len() - 2 {
        lemma_step_sound(input, budget, s);
        if let Some(next) = lzf_step(input, budget, s) {
            lemma_run_sound(input, budget, next);
        }
    }
}

proof fn lemma_drain_sound(input: Seq<u8>, s: LzfState)
    requires
        lzf_sound(input, s),
    ensures
        lzf_sound(input, lzf_drain(input, s)),
        lzf_drain(input, s).ip == input.len(),
    decreases input.len() - s.ip,
{
    if s.ip < input.len() {
        lemma_literal_sound(input, s);
        lemma_drain_sound(input, lzf_literal(input, s));
    }
}

/// Expanding a compressed string gives the string back.
pub proof fn law_lzf_round_trip(input: Seq<u8>, budget: int)
    requires
        input.len() <= LZF_MAX_EXPANDED,
    ensures
        lzf_compressed(input, budget) matches Some(out) ==> lzf_expanded(out, input.len()) == Some(
            input,
        ),
{
    if let Some(out) = lzf_compressed(input, budget) {
        let start = lzf_start(input);
        assert(start.out.take(0) =~= Seq::<u8>::empty());
        assert(input.take(0) =~= Seq::<u8>::empty());
        assert(start.out.skip(1) =~= input.subrange(0, 0));
        assert(lzf_covers(Seq::empty(), Seq::empty()));
        lemma_run_sound(input, budget, start);
        let mid = lzf_run(input, budget, start)->Some_0;
        lemma_drain_sound(input, mid);
        let end = lzf_drain(input, mid);
        lemma_closed_covers(input, end);
        assert(input.take(input.len() as int) =~= input);
        assert(out.take(out.len() as int) =~= out);
        assert(lzf_expand(out, 0, Seq::empty(), input.len()) == lzf_expand(
            out,
            out.len() as int,
            input,
            input.len(),
        ));
    }
}

/// A compressed stream keeps within its budget.
pub proof fn law_lzf_within_budget(input: Seq<u8>, budget: int)
    ensures
        lzf_compressed(input, budget) matches Some(out) ==> 0 < out.len() <= budget,
{
}

// ---------------------------------------------------------------------------
// Compression: the compressor
// ---------------------------------------------------------------------------

#[derive(Clone, Copy, Debug)]
struct LzfHashSlot {
    generation: u32,
    pos_plus_one: usize,
}

/// The match table of the compressor, reusable from one call to the next.
///
/// A slot counts only if it carries the tag of the current call, so that starting a
/// call needs no clearing. Inputs below 16 MiB use one word per slot: the tag in
/// the high byte, the offset in the low three.
#[derive(Debug)]
pub struct LzfScratch {
    generation: u32,
    htab: Vec<LzfHashSlot>,
    packed: Vec<u32>,
    packed_generation: u8,
    use_packed: bool,
}

impl LzfScratch {
    /// No slot carries a tag later than that of the current call.
    pub closed spec fn wf(self) -> bool {
        &&& self.packed@.len() == 0 || self.packed@.len() == LZF_SLOTS
        &&& self.htab@.len() == 0 || self.htab@.len() == LZF_SLOTS
        &&& forall|i: int|
            0 <= i < self.packed@.len() ==> (#[trigger] self.packed@[i]) / 0x100_0000
                <= self.packed_generation
        &&& forall|i: int|
            0 <= i < self.htab@.len() ==> (#[trigger] self.htab@[i]).generation <= self.generation
    }

    /// The table in use has its slots.
    pub closed spec fn ready(self) -> bool {
        &&& self.use_packed ==> self.packed@.len() == LZF_SLOTS
        &&& !self.use_packed ==> self.htab@.len() == LZF_SLOTS
    }

    /// The table in use can hold `pos_plus_one`.
    pub closed spec fn holds(self, pos_plus_one: int) -> bool {
        self.use_packed ==> pos_plus_one < 0x100_0000
    }

    /// What each slot holds for the current call, zero for nothing.
    pub closed spec fn table(self) -> Seq<int> {
        Seq::new(
            LZF_SLOTS as nat,
            |i: int|
                if self.use_packed {
                    if self.packed@[i] / 0x100_0000 == self.packed_generation {
                        self.packed@[i] as int % 0x100_0000
                    } else {
                        0
                    }
                } else {
                    if self.htab@[i].generation == self.generation {
                        self.htab@[i].pos_plus_one as int
                    } else {
                        0
                    }
                },
        )
    }

    /// A table without slots; the first call makes them.
    pub fn new() -> (scratch: LzfScratch)
        ensures
            scratch.wf(),
    {
        LzfScratch {
            generation: 0,
            htab: Vec::new(),
            packed: Vec::new(),
            packed_generation: 0,
            use_packed: false,
        }
    }

    fn begin_call(&mut self, in_len: usize)
        requires
            old(self).wf(),
        ensures
            final(self).wf(),
            final(self).ready(),
            final(self).holds(in_len as int),
            final(self).table() == Seq::new(LZF_SLOTS as nat, |i: int| 0int),
    {
        self.use_packed = in_len < 0x100_0000;
        if self.use_packed {
            if self.packed.len() != LZF_SLOTS || self.packed_generation == 255 {
                self.packed = vec![0u32; LZF_SLOTS];
                self.packed_generation = 0;
            }
            self.packed_generation = self.packed_generation + 1;
        } else {
            if self.htab.len() != LZF_SLOTS || self.generation == u32::MAX {
                self.htab = vec![LzfHashSlot { generation: 0, pos_plus_one: 0 }; LZF_SLOTS];
                self.generation = 0;
            }
            self.generation = self.generation + 1;
        }
        assert(self.table() =~= Seq::new(LZF_SLOTS as nat, |i: int| 0int));
    }

    fn get(&self, index: usize) -> (stored: usize)
        requires
            self.ready(),
            index < LZF_SLOTS,
        ensures
            stored == self.table()[index as int],
    {
        if self.use_packed {
            let slot: u32 = self.packed[index];
            if slot / 0x100_0000 == self.packed_generation as u32 {
                (slot % 0x100_0000) as usize
            } else {
                0
            }
        } else {
            let slot: LzfHashSlot = self.htab[index];
            if slot.generation == self.generation {
                slot.pos_plus_one
            } else {
                0
            }
        }
    }

    fn set(&mut self, index: usize, pos_plus_one: usize)
        requires
            old(self).wf(),
            old(self).ready(),
            old(self).holds(pos_plus_one as int),
            index < LZF_SLOTS,
        ensures
            final(self).wf(),
            final(self).ready(),
            final(self).table() == old(self).table().update(index as int, pos_plus_one as int),
            forall|p: int| final(self).holds(p) == old(self).holds(p),
    {
        if self.use_packed {
            let word: u32 = (self.packed_generation as u32) * 0x100_0000 + pos_plus_one as u32;
            assert(word / 0x100_0000 == self.packed_generation);
            assert(word % 0x100_0000 == pos_plus_one);
            self.packed.set(index, word);
        } else {
            let slot = LzfHashSlot { generation: self.generation, pos_plus_one };
            self.htab.set(index, slot);
        }
        assert(self.table() =~= old(self).table().update(index as int, pos_plus_one as int));
    }
}

/// The rolling hash with one more byte.
fn next_hash(hval: u32, byte: u8) -> (next: u32)
    ensures
        next == lzf_next(hval as int, byte),
{
    (hval % 0x100_0000) * 256 + byte as u32
}

/// The rolling hash of the two bytes at `ip`.
fn first_hash(input: &[u8], ip: usize) -> (hval: u32)
    requires
        ip + 1 < input@.len(),
    ensures
        hval == lzf_first(input@, ip as int),
{
    let len: usize = input.len();
    (input[ip] as u32) * 256 + input[ip + 1] as u32
}

/// The slot of a rolling hash.
fn hash_slot(hval: u32) -> (slot: usize)
    ensures
        slot == lzf_slot(hval as int),
        slot < LZF_SLOTS,
{
    let wide: u64 = (hval / 256) as u64 + 5 * 0x1_0000_0000 - 5 * (hval as u64);
    proof {
        vstd::arithmetic::div_mod::lemma_mod_multiples_vanish(
            327_680,
            hval as int / 256 - 5 * hval,
            65_536,
        );
    }
    (wide % 65_536) as usize
}

/// The first offset in `from..end` at which the bytes behind `r` and `ip` differ,
/// or `end`.
fn common_prefix_end(input: &[u8], r: usize, ip: usize, from: usize, end: usize) -> (o: usize)
    requires
        r < ip,
        from <= end ==> ip + end <= input@.len(),
    ensures
        o == first_difference(input@, r as int, ip as int, from as int, end as int),
{
    let len: usize = input.len();
    let mut o: usize = from;
    while o < end && input[r + o] == input[ip + o]
        invariant
            r < ip,
            from <= o,
            from <= end ==> o <= end && ip + end <= input@.len() == len,
            first_difference(input@, r as int, ip as int, o as int, end as int)
                == first_difference(input@, r as int, ip as int, from as int, end as int),
        decreases end - o,
    {
        o = o + 1;
    }
    o
}

/// The length taken for a match of the bytes at `ip` with those at `r`.
fn find_match_length(input: &[u8], r: usize, ip: usize) -> (len: usize)
    requires
        r < ip < input@.len() - 2,
    ensures
        len == match_length(input@, r as int, ip as int),
{
    let rest: usize = input.len() - ip - 2;
    let bound: usize = if rest < LZF_MAX_MATCH {
        rest
    } else {
        LZF_MAX_MATCH
    };
    if bound > 16 {
        let near: usize = common_prefix_end(input, r, ip, 3, 19);
        if near < 19 {
            near
        } else {
            common_prefix_end(input, r, ip, 19, bound)
        }
    } else {
        common_prefix_end(input, r, ip, 3, bound)
    }
}

/// Appends one literal byte to the open run, and opens a new run behind a full one.
fn push_literal(out: &mut Vec<u8>, byte: u8, hdr: usize, lit: usize) -> (r: (usize, usize))
    requires
        lit < LZF_MAX_LITERAL,
        old(out)@.len() == hdr + 1 + lit,
    ensures
        ({
            let s = LzfState {
                ip: 0,
                out: old(out)@,
                hdr: hdr as int,
                lit: lit as int,
                hval: 0,
                table: Seq::empty(),
            };
            let next = lzf_literal(seq![byte], s);
            final(out)@ == next.out && r.0 == next.hdr && r.1 == next.lit
        }),
        final(out)@.len() == r.0 + 1 + r.1,
        r.1 < LZF_MAX_LITERAL,
{
    out.push(byte);
    if lit + 1 == LZF_MAX_LITERAL {
        out.set(hdr, 31);
        let next: usize = out.len();
        out.push(0);
        (next, 0)
    } else {
        (hdr, lit + 1)
    }
}

/// Closes the open literal run.
fn close_run(out: &mut Vec<u8>, hdr: usize, lit: usize)
    requires
        lit < LZF_MAX_LITERAL,
        old(out)@.len() == hdr + 1 + lit,
    ensures
        final(out)@ == (if lit > 0 {
            old(out)@.update(hdr as int, (lit - 1) as u8)
        } else {
            old(out)@.drop_last()
        }),
{
    if lit > 0 {
        out.set(hdr, (lit - 1) as u8);
    } else {
        let _ = out.pop();
    }
}

/// Appends the token that copies `len` bytes from `off + 1` bytes back.
fn push_backref(out: &mut Vec<u8>, off: usize, len: usize)
    requires
        off < LZF_MAX_OFFSET,
        3 <= len <= LZF_MAX_MATCH,
    ensures
        final(out)@ == old(out)@ + lzf_backref(off as int, len as int),
{
    let high: u8 = (off / 256) as u8;
    if len - 2 < 7 {
        out.push(high + 32 * (len - 2) as u8);
    } else {
        out.push(high + 224);
        out.push((len - 9) as u8);
    }
    out.push((off % 256) as u8);
    assert(out@ =~= old(out)@ + lzf_backref(off as int, len as int));
}

/// Compresses `input` with the given match table.
pub fn lzf_compress_with_scratch(
    input: &[u8],
    out_budget: usize,
    scratch: &mut LzfScratch,
) -> (r: Option<Vec<u8>>)
    requires
        old(scratch).wf(),
    ensures
        final(scratch).wf(),
        match r {
            Some(out) => lzf_compressed(input@, out_budget as int) == Some(out@),
            None => lzf_compressed(input@, out_budget as int) is None,
        },
{
    let in_len: usize = input.len();
    if in_len == 0 || out_budget == 0 {
        return None;
    }
    scratch.begin_call(in_len);
    let mut out: Vec<u8> = Vec::new();
    out.push(0);
    let mut ip: usize = 0;
    let mut hdr: usize = 0;
    let mut lit: usize = 0;
    let mut hval: u32 = if in_len >= 2 {
        first_hash(input, 0)
    } else {
        0
    };
    let ghost budget = out_budget as int;
    let ghost mut s = lzf_start(input@);
    assert(out@ =~= seq![0u8]);
    while in_len >= 3 && ip < in_len - 2
        invariant
            in_len == input@.len(),
            0 < in_len,
            0 < out_budget,
            budget == out_budget,
            ip <= in_len,
            lit < LZF_MAX_LITERAL,
            out@.len() == hdr + 1 + lit,
            scratch.wf(),
            scratch.ready(),
            scratch.holds(in_len as int),
            s == (LzfState {
                ip: ip as int,
                out: out@,
                hdr: hdr as int,
                lit: lit as int,
                hval: hval as int,
                table: scratch.table(),
            }),
            lzf_run(input@, budget, s) == lzf_run(input@, budget, lzf_start(input@)),
        decreases in_len - ip,
    {
        hval = next_hash(hval, input[ip + 2]);
        let slot: usize = hash_slot(hval);
        let stored: usize = scratch.get(slot);
        scratch.set(slot, ip + 1);
        if stored >= 2 && stored - 1 < ip && ip - (stored - 1) - 1 < LZF_MAX_OFFSET && input[stored
            - 1] == input[ip] && input[stored] == input[ip + 1] && input[stored + 1] == input[ip
            + 2] {
            let r: usize = stored - 1;
            proof {
                lemma_match_length(input@, r as int, ip as int);
            }
            let len: usize = find_match_length(input, r, ip);
            let used: usize = if lit == 0 {
                out.len() - 1
            } else {
                out.len()
            };
            if out_budget <= used || out_budget - used <= 4 {
                return None;
            }
            close_run(&mut out, hdr, lit);
            push_backref(&mut out, ip - r - 1, len);
            hdr = out.len();
            lit = 0;
            out.push(0);
            ip = ip + len;
            if ip < in_len - 2 {
                let one: u32 = next_hash(first_hash(input, ip - 2), input[ip]);
                scratch.set(hash_slot(one), ip - 1);
                hval = next_hash(one, input[ip + 1]);
                scratch.set(hash_slot(hval), ip);
            }
        } else {
            if out.len() >= out_budget {
                return None;
            }
            let (next_hdr, next_lit) = push_literal(&mut out, input[ip], hdr, lit);
            hdr = next_hdr;
            lit = next_lit;
            ip = ip + 1;
        }
        proof {
            s = lzf_step(input@, budget, s)->Some_0;
        }
    }
    if out_budget < 3 || out.len() > out_budget - 3 {
        return None;
    }
    let ghost mid = s;
    while ip < in_len
        invariant
            in_len == input@.len(),
            ip <= in_len,
            lit < LZF_MAX_LITERAL,
            out@.len() == hdr + 1 + lit,
            scratch.wf(),
            s == (LzfState {
                ip: ip as int,
                out: out@,
                hdr: hdr as int,
                lit: lit as int,
                hval: s.hval,
                table: s.table,
            }),
            lzf_drain(input@, s) == lzf_drain(input@, mid),
        decreases in_len - ip,
    {
        let (next_hdr, next_lit) = push_literal(&mut out, input[ip], hdr, lit);
        hdr = next_hdr;
        lit = next_lit;
        ip = ip + 1;
        proof {
            s = lzf_literal(input@, s);
        }
    }
    close_run(&mut out, hdr, lit);
    if out.len() == 0 || out.len() > out_budget {
        return None;
    }
    Some(out)
}

/// Compresses `input`, if the compressor keeps within `out_budget` bytes.
pub fn lzf_compress(input: &[u8], out_budget: usize) -> (r: Option<Vec<u8>>)
    ensures
        match r {
            Some(out) => lzf_compressed(input@, out_budget as int) == Some(out@),
            None => lzf_compressed(input@, out_budget as int) is None,
        },
{
    let mut scratch = LzfScratch::new();
    lzf_compress_with_scratch(input, out_budget, &mut scratch)
}

} // verus!
