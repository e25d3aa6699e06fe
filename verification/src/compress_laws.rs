//! How matches are found when strings are compressed.

use vstd::prelude::*;

use crate::lzf;
use crate::lzf::LzfState;
use crate::rdb_wire;

verus! {

/// A match is as long as the bytes agree, up to 264 bytes and up to two before the end. Only the
/// third byte, and those up to the nineteenth where at least seventeen may match, are taken
/// without regard to the end.
pub proof fn law_match_is_longest(input: Seq<u8>, r: int, ip: int, k: int)
    requires
        0 <= r < ip < input.len() - 2,
    ensures
        ({
            let m = lzf::match_length(input, r, ip);
            let bound = if input.len() - ip - 2 < 264 {
                input.len() - ip - 2
            } else {
                264
            };
            &&& 3 <= m <= 264
            &&& ip + m <= input.len()
            &&& 3 <= k < m ==> input[r + k] == input[ip + k]
            &&& m < bound ==> input[r + m] != input[ip + m]
            &&& m > bound ==> (bound < 3 && m == 3) || (16 < bound < 19 && m <= 19)
        }),
{
    let bound = if input.len() - ip - 2 < 264 {
        input.len() - ip - 2
    } else {
        264
    };
    lzf::lemma_match_length(input, r, ip);
    lemma_difference(input, r, ip, 3, 19);
    lemma_difference(input, r, ip, 19, bound);
    lemma_difference(input, r, ip, 3, bound);
}

proof fn lemma_difference(input: Seq<u8>, r: int, ip: int, from: int, end: int)
    ensures
        ({
            let d = lzf::first_difference(input, r, ip, from, end);
            &&& d >= from
            &&& from <= end ==> d <= end
            &&& from > end ==> d == from
            &&& d < end ==> input[r + d] != input[ip + d]
        }),
    decreases end - from,
{
    if from < end && input[r + from] == input[ip + from] {
        lemma_difference(input, r, ip, from + 1, end);
    }
}

/// The slot of three bytes.
pub open spec fn slot_of(a: u8, b: u8, c: u8) -> int {
    (a * 256 + b - 5 * (b * 256 + c)) % 65_536
}

/// The hash is that of the two bytes, whatever was before them.
pub open spec fn hash_is_of(hval: int, a: u8, b: u8) -> bool {
    hval >= 0 && hval % 65_536 == a * 256 + b
}

/// The hash of three bytes, with what is left of those before them.
spec fn hash_with(w: int, a: u8, b: u8, c: u8) -> int {
    0x100_0000 * w + 0x1_0000 * a + 0x100 * b + c
}

proof fn lemma_hash(hval: int, a: u8, b: u8, c: u8) -> (w: int)
    requires
        hash_is_of(hval, a, b),
    ensures
        lzf::lzf_next(hval, c) == hash_with(w, a, b, c),
{
    let q = hval / 65_536;
    let n = hval * 256 + c;
    let t = n / 0x1_0000_0000;
    vstd::arithmetic::div_mod::lemma_fundamental_div_mod(hval, 65_536);
    vstd::arithmetic::div_mod::lemma_fundamental_div_mod(n, 0x1_0000_0000);
    q - 0x100 * t
}

proof fn lemma_slot(w: int, a: u8, b: u8, c: u8)
    ensures
        lzf::lzf_slot(hash_with(w, a, b, c)) == slot_of(a, b, c),
        hash_with(w, a, b, c) % 65_536 == b * 256 + c,
{
    let h = hash_with(w, a, b, c);
    let front = 0x1_0000 * w + 0x100 * a + b;
    vstd::arithmetic::div_mod::lemma_fundamental_div_mod_converse(h, 256, front, c as int);
    let y = a * 256 + b - 5 * (b * 256 + c);
    let z = w - 5 * (0x100 * w + a);
    assert(front - 5 * h == 65_536 * z + y);
    vstd::arithmetic::div_mod::lemma_mod_multiples_vanish(z, y, 65_536);
    vstd::arithmetic::div_mod::lemma_fundamental_div_mod_converse(
        h,
        65_536,
        0x100 * w + a,
        b * 256 + c,
    );
}

/// Offsets are filed by the three bytes that stand there alone.
pub proof fn law_slot_of_three_bytes(hval: int, a: u8, b: u8, c: u8)
    requires
        hash_is_of(hval, a, b),
    ensures
        lzf::lzf_slot(lzf::lzf_next(hval, c)) == slot_of(a, b, c),
        hash_is_of(lzf::lzf_next(hval, c), b, c),
{
    let w = lemma_hash(hval, a, b, c);
    lemma_slot(w, a, b, c);
}

/// The offset can be copied from: it is not the first, lies at most 8192 bytes before, and three
/// bytes agree.
pub open spec fn can_copy(input: Seq<u8>, ip: int, r: int) -> bool {
    &&& 1 <= r < ip
    &&& ip - r <= 8192
    &&& input[r] == input[ip] && input[r + 1] == input[ip + 1] && input[r + 2] == input[ip + 2]
}

/// Each step looks up the three bytes that are next. A match is copied if what was filed there
/// last can be copied from, and one byte is taken as it is otherwise.
pub proof fn law_compression_step(input: Seq<u8>, budget: int, s: LzfState)
    requires
        0 <= s.ip < input.len() - 2,
        s.table.len() == 65_536,
        hash_is_of(s.hval, input[s.ip], input[s.ip + 1]),
    ensures
        ({
            let slot = slot_of(input[s.ip], input[s.ip + 1], input[s.ip + 2]);
            let r = s.table[slot] - 1;
            lzf::lzf_step(input, budget, s) matches Some(next) ==> {
                &&& can_copy(input, s.ip, r) ==> next.ip == s.ip + lzf::match_length(
                    input,
                    r,
                    s.ip,
                )
                &&& !can_copy(input, s.ip, r) ==> next.ip == s.ip + 1 && next.table
                    == s.table.update(slot, s.ip + 1)
                &&& next.table.len() == 65_536
                &&& next.ip < input.len() - 2 ==> hash_is_of(
                    next.hval,
                    input[next.ip],
                    input[next.ip + 1],
                )
            }
        }),
{
    let (a, b, c) = (input[s.ip], input[s.ip + 1], input[s.ip + 2]);
    law_slot_of_three_bytes(s.hval, a, b, c);
    let slot = slot_of(a, b, c);
    let r = s.table[slot] - 1;
    if can_copy(input, s.ip, r) {
        lzf::lemma_match_length(input, r, s.ip);
        let ip = s.ip + lzf::match_length(input, r, s.ip);
        if ip < input.len() - 2 {
            let first = lzf::lzf_first(input, ip - 2);
            assert(hash_is_of(first, input[ip - 2], input[ip - 1]));
            law_slot_of_three_bytes(first, input[ip - 2], input[ip - 1], input[ip]);
            let one = lzf::lzf_next(first, input[ip]);
            law_slot_of_three_bytes(one, input[ip - 1], input[ip], input[ip + 1]);
        }
    }
}

/// A string of more than 20 bytes is written compressed where that is shorter, with both lengths
/// in front of the stream, and as it is otherwise.
pub proof fn law_string_form(s: Seq<u8>)
    ensures
        ({
            let raw = rdb_wire::length_bytes(s.len()) + s;
            match lzf::lzf_compressed(s, s.len() - 4) {
                None => rdb_wire::string_bytes(s) == raw,
                Some(stream) => {
                    let packed = seq![0xC3u8] + rdb_wire::length_bytes(stream.len())
                        + rdb_wire::length_bytes(s.len()) + stream;
                    if s.len() > 20 && packed.len() < raw.len() {
                        rdb_wire::string_bytes(s) == packed
                    } else {
                        rdb_wire::string_bytes(s) == raw
                    }
                },
            }
        }),
{
}

} // verus!
