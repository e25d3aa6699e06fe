//! Lengths and strings of the snapshot format.

use vstd::prelude::*;

use crate::bytes::{copy_window, push_be, read_be, read_le_signed};
use crate::decimal::decimal_i64_bytes;
use crate::lzf::{lzf_compress, lzf_decompress, LZF_MAX_EXPANDED};

use crate::bytes;
use crate::decimal;
use crate::lzf;

verus! {

// ---------------------------------------------------------------------------
// Lengths
// ---------------------------------------------------------------------------

/// The encoding of a length: six bits, fourteen bits, or four or eight bytes.
pub open spec fn length_bytes(n: nat) -> Seq<u8> {
    if n < 64 {
        seq![n as u8]
    } else if n < 16_384 {
        seq![(64 + n / 256) as u8, (n % 256) as u8]
    } else if n <= u32::MAX {
        seq![0x80u8] + bytes::be_bytes(n, 4)
    } else {
        seq![0x81u8] + bytes::be_bytes(n, 8)
    }
}

/// The length at `pos`, with the offset behind it.
pub open spec fn length_at(data: Seq<u8>, pos: int) -> Option<(nat, int)> {
    if !(0 <= pos < data.len()) {
        None
    } else {
        let first = data[pos];
        if first < 64 {
            Some((first as nat, pos + 1))
        } else if first < 128 {
            if pos + 2 <= data.len() {
                Some((((first - 64) * 256 + data[pos + 1]) as nat, pos + 2))
            } else {
                None
            }
        } else if first == 0x80 {
            if pos + 5 <= data.len() {
                Some((bytes::be_at(data, pos + 1, 4), pos + 5))
            } else {
                None
            }
        } else if first == 0x81 {
            if pos + 9 <= data.len() {
                Some((bytes::be_at(data, pos + 1, 8), pos + 9))
            } else {
                None
            }
        } else {
            None
        }
    }
}

pub proof fn lemma_length_len(n: nat)
    ensures
        length_bytes(n).len() == (if n < 64 {
            1int
        } else if n < 16_384 {
            2
        } else if n <= u32::MAX {
            5
        } else {
            9
        }),
{
    bytes::lemma_be_bytes_len(n, 4);
    bytes::lemma_be_bytes_len(n, 8);
}

pub proof fn lemma_length_at_bounds(data: Seq<u8>, pos: int)
    ensures
        length_at(data, pos) matches Some((n, end)) ==> pos < end <= data.len() && n <= u64::MAX,
{
    bytes::lemma_pow256_values();
    if length_at(data, pos) is Some && data[pos] == 0x80 {
        bytes::lemma_be_value_bound(data.subrange(pos + 1, pos + 5));
    }
    if length_at(data, pos) is Some && data[pos] == 0x81 {
        bytes::lemma_be_value_bound(data.subrange(pos + 1, pos + 9));
    }
}

/// A length is read back from its encoding.
pub proof fn law_length_round_trip(data: Seq<u8>, pos: int, n: nat)
    requires
        n <= u64::MAX,
        bytes::has_at(data, pos, length_bytes(n)),
    ensures
        length_at(data, pos) == Some((n, pos + length_bytes(n).len())),
{
    let enc = length_bytes(n);
    lemma_length_len(n);
    bytes::lemma_pow256_values();
    assert(data[pos + 0] == enc[0]);
    if n < 64 {
    } else if n < 16_384 {
        assert(data[pos + 1] == enc[1]);
    } else if n <= u32::MAX {
        bytes::lemma_has_at_concat(data, pos, seq![0x80u8], bytes::be_bytes(n, 4));
        bytes::lemma_be_at(data, pos + 1, n, 4);
    } else {
        bytes::lemma_has_at_concat(data, pos, seq![0x81u8], bytes::be_bytes(n, 8));
        bytes::lemma_be_at(data, pos + 1, n, 8);
    }
}

/// Appends the encoding of a number in the form of a length.
pub fn encode_number(buf: &mut Vec<u8>, n: u64)
    ensures
        final(buf)@ == old(buf)@ + length_bytes(n as nat),
{
    if n < 64 {
        buf.push(n as u8);
    } else if n < 16_384 {
        buf.push(64 + (n / 256) as u8);
        buf.push((n % 256) as u8);
    } else if n <= u32::MAX as u64 {
        buf.push(0x80);
        push_be(buf, n, 4);
    } else {
        buf.push(0x81);
        push_be(buf, n, 8);
    }
    assert(buf@ =~= old(buf)@ + length_bytes(n as nat));
}

/// Appends the encoding of a length.
pub fn rdb_encode_length(buf: &mut Vec<u8>, len: usize)
    ensures
        final(buf)@ == old(buf)@ + length_bytes(len as nat),
{
    encode_number(buf, len as u64);
}

/// The number of bytes that the encoding of a length takes.
pub fn rdb_length_size(len: usize) -> (size: usize)
    ensures
        size == length_bytes(len as nat).len(),
{
    proof {
        lemma_length_len(len as nat);
    }
    if len < 64 {
        1
    } else if len < 16_384 {
        2
    } else if len as u64 <= u32::MAX as u64 {
        5
    } else {
        9
    }
}

/// Reads the length at `pos`.
pub fn rdb_decode_length(data: &[u8], pos: usize) -> (r: Option<(u64, usize)>)
    ensures
        match r {
            Some((n, end)) => length_at(data@, pos as int) == Some((n as nat, end as int)),
            None => length_at(data@, pos as int) is None,
        },
        r matches Some((_, end)) ==> pos < end <= data@.len(),
{
    let len: usize = data.len();
    if pos >= len {
        return None;
    }
    let first: u8 = data[pos];
    if first < 64 {
        Some((first as u64, pos + 1))
    } else if first < 128 {
        if len - pos >= 2 {
            Some(((first - 64) as u64 * 256 + data[pos + 1] as u64, pos + 2))
        } else {
            None
        }
    } else if first == 0x80 {
        if len - pos >= 5 {
            Some((read_be(data, pos + 1, 4), pos + 5))
        } else {
            None
        }
    } else if first == 0x81 {
        if len - pos >= 9 {
            Some((read_be(data, pos + 1, 8), pos + 9))
        } else {
            None
        }
    } else {
        None
    }
}

// ---------------------------------------------------------------------------
// Strings
// ---------------------------------------------------------------------------

/// The compressed form of a string: a marker, the two lengths, the stream.
pub open spec fn compressed_string_bytes(stream: Seq<u8>, s: Seq<u8>) -> Seq<u8> {
    seq![0xC3u8] + length_bytes(stream.len()) + length_bytes(s.len()) + stream
}

/// The raw form of a string: its length, its bytes.
pub open spec fn raw_string_bytes(s: Seq<u8>) -> Seq<u8> {
    length_bytes(s.len()) + s
}

/// The stream that stands for a string, where compression is tried and pays.
pub open spec fn string_stream(s: Seq<u8>) -> Option<Seq<u8>> {
    if s.len() <= 20 {
        None
    } else {
        match lzf::lzf_compressed(s, s.len() - 4) {
            None => None,
            Some(stream) => if compressed_string_bytes(stream, s).len() < raw_string_bytes(s).len() {
                Some(stream)
            } else {
                None
            },
        }
    }
}

/// The encoding of a string.
pub open spec fn string_bytes(s: Seq<u8>) -> Seq<u8> {
    match string_stream(s) {
        Some(stream) => compressed_string_bytes(stream, s),
        None => raw_string_bytes(s),
    }
}

/// A string that can be read back: one above the expansion limit must be raw.
pub open spec fn storable(s: Seq<u8>) -> bool {
    &&& s.len() <= u64::MAX
    &&& string_stream(s) is Some ==> s.len() <= LZF_MAX_EXPANDED
}

/// The string at `pos`, with the offset behind it: raw, an integer, or compressed.
pub open spec fn string_at(data: Seq<u8>, pos: int) -> Option<(Seq<u8>, int)> {
    if !(0 <= pos < data.len()) {
        None
    } else if data[pos] < 0xC0 {
        match length_at(data, pos) {
            None => None,
            Some((n, start)) => if start + n <= data.len() {
                Some((data.subrange(start, start + n), start + n))
            } else {
                None
            },
        }
    } else if data[pos] == 0xC0 {
        integer_string_at(data, pos, 1)
    } else if data[pos] == 0xC1 {
        integer_string_at(data, pos, 2)
    } else if data[pos] == 0xC2 {
        integer_string_at(data, pos, 4)
    } else if data[pos] == 0xC3 {
        match length_at(data, pos + 1) {
            None => None,
            Some((packed, mid)) => match length_at(data, mid) {
                None => None,
                Some((expanded, start)) => if start + packed <= data.len() {
                    match lzf::lzf_expanded(data.subrange(start, start + packed), expanded) {
                        None => None,
                        Some(s) => Some((s, start + packed)),
                    }
                } else {
                    None
                },
            },
        }
    } else {
        None
    }
}

/// The decimal text of the `width`-byte integer behind the marker at `pos`.
pub open spec fn integer_string_at(data: Seq<u8>, pos: int, width: nat) -> Option<(Seq<u8>, int)> {
    if pos + 1 + width <= data.len() {
        Some((decimal::dec_int(bytes::signed(bytes::le_at(data, pos + 1, width), width)), pos + 1 + width))
    } else {
        None
    }
}

pub proof fn lemma_string_at_bounds(data: Seq<u8>, pos: int)
    ensures
        string_at(data, pos) matches Some((s, end)) ==> pos < end <= data.len(),
{
    lemma_length_at_bounds(data, pos);
    lemma_length_at_bounds(data, pos + 1);
    if let Some((_, mid)) = length_at(data, pos + 1) {
        lemma_length_at_bounds(data, mid);
    }
}

/// A length within the first `n` bytes is read the same.
pub proof fn lemma_length_local(data: Seq<u8>, other: Seq<u8>, n: int, pos: int)
    requires
        bytes::same_upto(data, other, n),
    ensures
        length_at(data, pos) matches Some((_, end)) ==> pos < end <= data.len() && (end
            <= n ==> length_at(other, pos) == length_at(data, pos)),
{
    lemma_length_at_bounds(data, pos);
    if let Some((_, end)) = length_at(data, pos) {
        if end <= n {
            bytes::lemma_byte(data, other, n, pos);
            if end == pos + 2 {
                bytes::lemma_byte(data, other, n, pos + 1);
            }
            bytes::lemma_window(data, other, n, pos + 1, end);
        }
    }
}

/// A string within the first `n` bytes is read the same.
pub proof fn lemma_string_local(data: Seq<u8>, other: Seq<u8>, n: int, pos: int)
    requires
        bytes::same_upto(data, other, n),
    ensures
        string_at(data, pos) matches Some((_, end)) ==> pos < end <= data.len() && (end
            <= n ==> string_at(other, pos) == string_at(data, pos)),
{
    lemma_string_at_bounds(data, pos);
    if let Some((_, end)) = string_at(data, pos) {
        if end <= n {
            let first = data[pos];
            bytes::lemma_byte(data, other, n, pos);
            if first < 0xC0 {
                lemma_length_local(data, other, n, pos);
                let (len, start) = length_at(data, pos)->Some_0;
                bytes::lemma_window(data, other, n, start, start + len);
            } else if first == 0xC3 {
                lemma_length_local(data, other, n, pos + 1);
                let (packed, mid) = length_at(data, pos + 1)->Some_0;
                lemma_length_local(data, other, n, mid);
                let (_, start) = length_at(data, mid)->Some_0;
                bytes::lemma_window(data, other, n, start, start + packed);
            } else {
                bytes::lemma_window(data, other, n, pos + 1, end);
            }
        }
    }
}

/// A string is read back from its encoding.
pub proof fn law_string_round_trip(data: Seq<u8>, pos: int, s: Seq<u8>)
    requires
        storable(s),
        bytes::has_at(data, pos, string_bytes(s)),
    ensures
        string_at(data, pos) == Some((s, pos + string_bytes(s).len())),
{
    lemma_length_len(s.len());
    match string_stream(s) {
        Some(stream) => {
            lemma_length_len(stream.len());
            let a = seq![0xC3u8];
            let b = length_bytes(stream.len());
            let c = length_bytes(s.len());
            bytes::lemma_has_at_concat(data, pos, a + b + c, stream);
            bytes::lemma_has_at_concat(data, pos, a + b, c);
            bytes::lemma_has_at_concat(data, pos, a, b);
            assert(data[pos + 0] == a[0]);
            law_length_round_trip(data, pos + 1, stream.len());
            law_length_round_trip(data, pos + 1 + b.len(), s.len());
            bytes::lemma_has_at_subrange(data, pos + 1 + b.len() + c.len(), stream);
            lzf::law_lzf_round_trip(s, s.len() - 4);
        },
        None => {
            lemma_raw_string_reads(data, pos, s);
        },
    }
}

/// Where a string stands, reading it fails or ends behind it.
pub proof fn lemma_string_spans(data: Seq<u8>, pos: int, s: Seq<u8>)
    requires
        s.len() <= u64::MAX,
        bytes::has_at(data, pos, string_bytes(s)),
    ensures
        string_at(data, pos) matches Some((_, end)) ==> end == pos + string_bytes(s).len(),
{
    lemma_length_len(s.len());
    match string_stream(s) {
        Some(stream) => {
            lemma_length_len(stream.len());
            let a = seq![0xC3u8];
            let b = length_bytes(stream.len());
            let c = length_bytes(s.len());
            bytes::lemma_has_at_concat(data, pos, a + b + c, stream);
            bytes::lemma_has_at_concat(data, pos, a + b, c);
            bytes::lemma_has_at_concat(data, pos, a, b);
            assert(data[pos + 0] == a[0]);
            law_length_round_trip(data, pos + 1, stream.len());
            law_length_round_trip(data, pos + 1 + b.len(), s.len());
        },
        None => {
            lemma_raw_string_reads(data, pos, s);
        },
    }
}

/// A written string that is accepted can be read back.
pub proof fn lemma_string_accepted(data: Seq<u8>, pos: int, s: Seq<u8>)
    requires
        s.len() <= u64::MAX,
        bytes::has_at(data, pos, string_bytes(s)),
    ensures
        string_at(data, pos) is Some <==> storable(s),
{
    if storable(s) {
        law_string_round_trip(data, pos, s);
    } else {
        let stream = string_stream(s)->Some_0;
        let a = seq![0xC3u8];
        let b = length_bytes(stream.len());
        let c = length_bytes(s.len());
        bytes::lemma_has_at_concat(data, pos, a + b + c, stream);
        bytes::lemma_has_at_concat(data, pos, a + b, c);
        bytes::lemma_has_at_concat(data, pos, a, b);
        assert(data[pos + 0] == a[0]);
        law_length_round_trip(data, pos + 1, stream.len());
        law_length_round_trip(data, pos + 1 + b.len(), s.len());
    }
}

/// A string in its raw form is read back.
pub proof fn lemma_raw_string_reads(data: Seq<u8>, pos: int, s: Seq<u8>)
    requires
        s.len() <= u64::MAX,
        bytes::has_at(data, pos, raw_string_bytes(s)),
    ensures
        string_at(data, pos) == Some((s, pos + raw_string_bytes(s).len())),
{
    lemma_length_len(s.len());
    bytes::lemma_has_at_concat(data, pos, length_bytes(s.len()), s);
    law_length_round_trip(data, pos, s.len());
    bytes::lemma_has_at_subrange(data, pos + length_bytes(s.len()).len(), s);
    assert(data[pos + 0] == length_bytes(s.len())[0]);
}

/// Appends the encoding of a string.
pub fn rdb_encode_string(buf: &mut Vec<u8>, data: &[u8])
    ensures
        final(buf)@ == old(buf)@ + string_bytes(data@),
{
    let len: usize = data.len();
    if len > 20 {
        if let Some(stream) = lzf_compress(data, len - 4) {
            proof {
                lzf::law_lzf_within_budget(data@, len - 4);
                lemma_length_len(stream@.len());
                lemma_length_len(len as nat);
            }
            if len - stream.len() > 1 + rdb_length_size(stream.len()) {
                buf.push(0xC3);
                rdb_encode_length(buf, stream.len());
                rdb_encode_length(buf, len);
                buf.extend_from_slice(stream.as_slice());
                assert(buf@ =~= old(buf)@ + string_bytes(data@));
                return;
            }
        }
    }
    rdb_encode_length(buf, len);
    buf.extend_from_slice(data);
    assert(buf@ =~= old(buf)@ + string_bytes(data@));
}

/// Reads the string at `pos`.
pub fn rdb_decode_string(data: &[u8], pos: usize) -> (r: Option<(Vec<u8>, usize)>)
    ensures
        match r {
            Some((s, end)) => string_at(data@, pos as int) == Some((s@, end as int)),
            None => string_at(data@, pos as int) is None,
        },
        r matches Some((_, end)) ==> pos < end <= data@.len(),
{
    let len: usize = data.len();
    if pos >= len {
        return None;
    }
    let first: u8 = data[pos];
    if first < 0xC0 {
        match rdb_decode_length(data, pos) {
            None => None,
            Some((n, start)) => {
                if n <= (len - start) as u64 {
                    let end: usize = start + n as usize;
                    Some((copy_window(data, start, end), end))
                } else {
                    None
                }
            },
        }
    } else if first <= 0xC2 {
        let width: usize = if first == 0xC0 {
            1
        } else if first == 0xC1 {
            2
        } else {
            4
        };
        if len - pos >= 1 + width {
            let v: i64 = read_le_signed(data, pos + 1, width);
            Some((decimal_i64_bytes(v), pos + 1 + width))
        } else {
            None
        }
    } else if first == 0xC3 {
        let (packed, mid) = match rdb_decode_length(data, pos + 1) {
            None => {
                return None;
            },
            Some(found) => found,
        };
        let (expanded, start) = match rdb_decode_length(data, mid) {
            None => {
                return None;
            },
            Some(found) => found,
        };
        if packed <= (len - start) as u64 {
            let end: usize = start + packed as usize;
            match lzf_decompress(&data[start..end], expanded) {
                None => None,
                Some(s) => Some((s, end)),
            }
        } else {
            None
        }
    } else {
        None
    }
}

} // verus!
