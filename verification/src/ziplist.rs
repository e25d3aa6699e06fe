//! Two older packed forms: ziplists, and zipmaps for small hashes.
//!
//! A ziplist has a header (its length in bytes, the offset of its last entry, the
//! number of entries), entries, and a terminator. An entry starts with the length of
//! the one before it; that length and the offset serve walking backwards, and are not
//! looked at here.

use vstd::prelude::*;

use crate::bytes;
use crate::bytes::{copy_window, read_be, read_le, read_le_signed};
use crate::decimal;
use crate::decimal::decimal_i64_bytes;

verus! {

/// The byte behind the last entry.
pub const ZIP_END: u8 = 0xFF;

// ---------------------------------------------------------------------------
// Ziplists
// ---------------------------------------------------------------------------

/// The window of `n` bytes at `pos`, if it ends before `end`.
pub open spec fn window_at(data: Seq<u8>, pos: int, n: int, end: int) -> Option<(Seq<u8>, int)> {
    if pos + n <= end {
        Some((data.subrange(pos, pos + n), pos + n))
    } else {
        None
    }
}

/// The integer of `width` bytes at `pos` as text, if it ends before `end`.
pub open spec fn integer_at(data: Seq<u8>, pos: int, width: nat, end: int) -> Option<
    (Seq<u8>, int),
> {
    if pos + width <= end {
        Some(
            (decimal::dec_int(bytes::signed(bytes::le_at(data, pos, width), width)), pos + width),
        )
    } else {
        None
    }
}

/// The payload of an entry behind the length of the entry before it: a string by the
/// form of its length, or an integer by its width.
pub open spec fn payload_at(data: Seq<u8>, pos: int, end: int) -> Option<(Seq<u8>, int)> {
    if pos >= end {
        None
    } else {
        let lead = data[pos];
        if lead < 0x40 {
            window_at(data, pos + 1, lead as int, end)
        } else if lead < 0x80 {
            if pos + 2 > end {
                None
            } else {
                window_at(data, pos + 2, (lead - 0x40) * 256 + data[pos + 1], end)
            }
        } else if lead == 0x80 {
            if pos + 5 > end {
                None
            } else {
                window_at(data, pos + 5, bytes::be_at(data, pos + 1, 4) as int, end)
            }
        } else if lead == 0xC0 {
            integer_at(data, pos + 1, 2, end)
        } else if lead == 0xD0 {
            integer_at(data, pos + 1, 4, end)
        } else if lead == 0xE0 {
            integer_at(data, pos + 1, 8, end)
        } else if lead == 0xF0 {
            integer_at(data, pos + 1, 3, end)
        } else if lead == 0xFE {
            integer_at(data, pos + 1, 1, end)
        } else if 0xF1 <= lead <= 0xFD {
            Some((decimal::dec_int(lead - 0xF1), pos + 1))
        } else {
            None
        }
    }
}

/// The entry at `pos`, with the offset behind it.
pub open spec fn zip_entry_at(data: Seq<u8>, pos: int, end: int) -> Option<(Seq<u8>, int)> {
    if pos >= end || data[pos] == 0xFF {
        None
    } else if data[pos] < 0xFE {
        payload_at(data, pos + 1, end)
    } else {
        payload_at(data, pos + 5, end)
    }
}

proof fn lemma_zip_entry(data: Seq<u8>, pos: int, end: int)
    requires
        0 <= pos,
        end <= data.len(),
    ensures
        zip_entry_at(data, pos, end) matches Some((_, next)) ==> pos < next <= end,
{
}

/// The entries from `pos` up to `end`.
pub open spec fn zip_walk(data: Seq<u8>, pos: int, end: int, found: Seq<Seq<u8>>) -> Option<
    Seq<Seq<u8>>,
>
    decreases end - pos,
{
    if pos >= end {
        Some(found)
    } else {
        match zip_entry_at(data, pos, end) {
            None => None,
            Some((s, next)) => if next <= pos {
                None
            } else {
                zip_walk(data, next, end, found.push(s))
            },
        }
    }
}

/// The bytes of the header.
pub const ZIPLIST_HEADER_SIZE: usize = 10;

/// The strings that a ziplist holds: its header gives its length and, unless it is all
/// ones, the number of entries.
pub open spec fn ziplist_of(data: Seq<u8>) -> Option<Seq<Seq<u8>>> {
    if data.len() < ZIPLIST_HEADER_SIZE + 1 || bytes::le_at(data, 0, 4) != data.len() || data.last()
        != ZIP_END {
        None
    } else {
        match zip_walk(data, ZIPLIST_HEADER_SIZE as int, data.len() - 1, Seq::empty()) {
            None => None,
            Some(found) => if bytes::le_at(data, 8, 2) == 0xffff || bytes::le_at(data, 8, 2)
                == found.len() {
                Some(found)
            } else {
                None
            },
        }
    }
}

fn read_window(data: &[u8], pos: usize, n: u64, end: usize) -> (r: Option<(Vec<u8>, usize)>)
    requires
        pos <= end <= data@.len(),
    ensures
        match r {
            Some((s, next)) => window_at(data@, pos as int, n as int, end as int) == Some(
                (s@, next as int),
            ),
            None => window_at(data@, pos as int, n as int, end as int) is None,
        },
{
    if n > (end - pos) as u64 {
        return None;
    }
    let next: usize = pos + n as usize;
    Some((copy_window(data, pos, next), next))
}

fn read_integer(data: &[u8], pos: usize, width: usize, end: usize) -> (r: Option<(Vec<u8>, usize)>)
    requires
        pos <= end <= data@.len(),
        width == 1 || width == 2 || width == 3 || width == 4 || width == 8,
    ensures
        match r {
            Some((s, next)) => integer_at(data@, pos as int, width as nat, end as int) == Some(
                (s@, next as int),
            ),
            None => integer_at(data@, pos as int, width as nat, end as int) is None,
        },
{
    if width > end - pos {
        return None;
    }
    Some((decimal_i64_bytes(read_le_signed(data, pos, width)), pos + width))
}

fn read_payload(data: &[u8], pos: usize, end: usize) -> (r: Option<(Vec<u8>, usize)>)
    requires
        end <= data@.len(),
    ensures
        match r {
            Some((s, next)) => payload_at(data@, pos as int, end as int) == Some((s@, next as int)),
            None => payload_at(data@, pos as int, end as int) is None,
        },
{
    if pos >= end {
        return None;
    }
    let lead: u8 = data[pos];
    if lead < 0x40 {
        read_window(data, pos + 1, lead as u64, end)
    } else if lead < 0x80 {
        if end - pos < 2 {
            return None;
        }
        let n: u64 = (lead as u64 - 0x40) * 256 + data[pos + 1] as u64;
        read_window(data, pos + 2, n, end)
    } else if lead == 0x80 {
        if end - pos < 5 {
            return None;
        }
        let n: u64 = read_be(data, pos + 1, 4);
        read_window(data, pos + 5, n, end)
    } else if lead == 0xC0 {
        read_integer(data, pos + 1, 2, end)
    } else if lead == 0xD0 {
        read_integer(data, pos + 1, 4, end)
    } else if lead == 0xE0 {
        read_integer(data, pos + 1, 8, end)
    } else if lead == 0xF0 {
        read_integer(data, pos + 1, 3, end)
    } else if lead == 0xFE {
        read_integer(data, pos + 1, 1, end)
    } else if 0xF1 <= lead && lead <= 0xFD {
        Some((decimal_i64_bytes((lead - 0xF1) as i64), pos + 1))
    } else {
        None
    }
}

fn read_zip_entry(data: &[u8], pos: usize, end: usize) -> (r: Option<(Vec<u8>, usize)>)
    requires
        end <= data@.len(),
    ensures
        match r {
            Some((s, next)) => zip_entry_at(data@, pos as int, end as int) == Some(
                (s@, next as int),
            ),
            None => zip_entry_at(data@, pos as int, end as int) is None,
        },
{
    if pos >= end || data[pos] == 0xFF {
        return None;
    }
    if data[pos] < 0xFE {
        read_payload(data, pos + 1, end)
    } else {
        if end - pos < 5 {
            return None;
        }
        read_payload(data, pos + 5, end)
    }
}

/// The strings that a ziplist holds.
pub fn decode_ziplist(data: &[u8]) -> (r: Option<Vec<Vec<u8>>>)
    ensures
        match r {
            Some(items) => ziplist_of(data@) == Some(bytes::views(items@)),
            None => ziplist_of(data@) is None,
        },
{
    let len: usize = data.len();
    if len < ZIPLIST_HEADER_SIZE + 1 || read_le(data, 0, 4) != len as u64 || data[len - 1]
        != ZIP_END {
        return None;
    }
    let end: usize = len - 1;
    let mut items: Vec<Vec<u8>> = Vec::new();
    let mut pos: usize = ZIPLIST_HEADER_SIZE;
    let ghost whole = zip_walk(data@, ZIPLIST_HEADER_SIZE as int, end as int, Seq::empty());
    assert(bytes::views(items@) =~= Seq::empty());
    while pos < end
        invariant
            len == data@.len(),
            end == len - 1,
            len >= ZIPLIST_HEADER_SIZE + 1,
            bytes::le_at(data@, 0, 4) == len,
            data@.last() == ZIP_END,
            whole == zip_walk(data@, ZIPLIST_HEADER_SIZE as int, end as int, Seq::empty()),
            pos <= end,
            zip_walk(data@, pos as int, end as int, bytes::views(items@)) == whole,
        decreases end - pos,
    {
        proof {
            lemma_zip_entry(data@, pos as int, end as int);
        }
        match read_zip_entry(data, pos, end) {
            None => {
                return None;
            },
            Some((s, next)) => {
                let ghost before = items@;
                items.push(s);
                assert(bytes::views(items@) =~= bytes::views(before).push(s@));
                pos = next;
            },
        }
    }
    let count: u64 = read_le(data, 8, 2);
    assert(bytes::views(items@).len() == items@.len());
    if count != 0xffff && count != items.len() as u64 {
        return None;
    }
    Some(items)
}

// ---------------------------------------------------------------------------
// Zipmaps
// ---------------------------------------------------------------------------

/// A length in a zipmap: one byte, or a mark and four.
pub open spec fn map_length_at(data: Seq<u8>, pos: int, end: int) -> Option<(nat, int)> {
    if pos >= end || data[pos] == 0xFF {
        None
    } else if data[pos] < 0xFE {
        Some((data[pos] as nat, pos + 1))
    } else if pos + 5 <= end {
        Some((bytes::le_at(data, pos + 1, 4), pos + 5))
    } else {
        None
    }
}

/// A field name with its value: a length and the name; a length, a number of unused
/// bytes, the value, and the unused bytes.
pub open spec fn map_pair_at(data: Seq<u8>, pos: int, end: int) -> Option<
    (Seq<u8>, Seq<u8>, int),
> {
    match map_length_at(data, pos, end) {
        None => None,
        Some((n, p1)) => match window_at(data, p1, n as int, end) {
            None => None,
            Some((name, p2)) => match map_length_at(data, p2, end) {
                None => None,
                Some((m, p3)) => if p3 >= end {
                    None
                } else {
                    match window_at(data, p3 + 1, m as int, end) {
                        None => None,
                        Some((value, p4)) => if p4 + data[p3] <= end {
                            Some((name, value, p4 + data[p3]))
                        } else {
                            None
                        },
                    }
                },
            },
        },
    }
}

proof fn lemma_map_pair(data: Seq<u8>, pos: int, end: int)
    requires
        0 <= pos,
        end <= data.len(),
    ensures
        map_pair_at(data, pos, end) matches Some((_, _, next)) ==> pos < next <= end,
{
}

/// The names and values from `pos` up to `end`, one behind the other.
pub open spec fn map_walk(data: Seq<u8>, pos: int, end: int, found: Seq<Seq<u8>>) -> Option<
    Seq<Seq<u8>>,
>
    decreases end - pos,
{
    if pos >= end {
        Some(found)
    } else {
        match map_pair_at(data, pos, end) {
            None => None,
            Some((name, value, next)) => if next <= pos {
                None
            } else {
                map_walk(data, next, end, found.push(name).push(value))
            },
        }
    }
}

/// The names and values that a zipmap holds: its first byte gives the number of pairs
/// where that is below 254.
pub open spec fn zipmap_of(data: Seq<u8>) -> Option<Seq<Seq<u8>>> {
    if data.len() < 2 || data.last() != ZIP_END {
        None
    } else {
        match map_walk(data, 1, data.len() - 1, Seq::empty()) {
            None => None,
            Some(found) => if data[0] >= 254 || 2 * data[0] == found.len() {
                Some(found)
            } else {
                None
            },
        }
    }
}

fn read_map_length(data: &[u8], pos: usize, end: usize) -> (r: Option<(u64, usize)>)
    requires
        end <= data@.len(),
    ensures
        match r {
            Some((n, next)) => map_length_at(data@, pos as int, end as int) == Some(
                (n as nat, next as int),
            ) && next <= end,
            None => map_length_at(data@, pos as int, end as int) is None,
        },
{
    if pos >= end || data[pos] == 0xFF {
        return None;
    }
    if data[pos] < 0xFE {
        Some((data[pos] as u64, pos + 1))
    } else if end - pos >= 5 {
        Some((read_le(data, pos + 1, 4), pos + 5))
    } else {
        None
    }
}

fn read_map_pair(data: &[u8], pos: usize, end: usize) -> (r: Option<(Vec<u8>, Vec<u8>, usize)>)
    requires
        end <= data@.len(),
    ensures
        match r {
            Some((name, value, next)) => map_pair_at(data@, pos as int, end as int) == Some(
                (name@, value@, next as int),
            ),
            None => map_pair_at(data@, pos as int, end as int) is None,
        },
{
    let (n, p1) = match read_map_length(data, pos, end) {
        None => {
            return None;
        },
        Some(found) => found,
    };
    let (name, p2) = match read_window(data, p1, n, end) {
        None => {
            return None;
        },
        Some(found) => found,
    };
    let (m, p3) = match read_map_length(data, p2, end) {
        None => {
            return None;
        },
        Some(found) => found,
    };
    if p3 >= end {
        return None;
    }
    let free: usize = data[p3] as usize;
    let (value, p4) = match read_window(data, p3 + 1, m, end) {
        None => {
            return None;
        },
        Some(found) => found,
    };
    if free > end - p4 {
        return None;
    }
    Some((name, value, p4 + free))
}

/// The names and values that a zipmap holds, one behind the other.
pub fn decode_zipmap(data: &[u8]) -> (r: Option<Vec<Vec<u8>>>)
    ensures
        match r {
            Some(items) => zipmap_of(data@) == Some(bytes::views(items@)),
            None => zipmap_of(data@) is None,
        },
{
    let len: usize = data.len();
    if len < 2 || data[len - 1] != ZIP_END {
        return None;
    }
    let end: usize = len - 1;
    let mut items: Vec<Vec<u8>> = Vec::new();
    let mut pos: usize = 1;
    let ghost whole = map_walk(data@, 1, end as int, Seq::empty());
    assert(bytes::views(items@) =~= Seq::empty());
    while pos < end
        invariant
            len == data@.len(),
            end == len - 1,
            len >= 2,
            data@.last() == ZIP_END,
            whole == map_walk(data@, 1, end as int, Seq::empty()),
            pos <= end,
            map_walk(data@, pos as int, end as int, bytes::views(items@)) == whole,
        decreases end - pos,
    {
        proof {
            lemma_map_pair(data@, pos as int, end as int);
        }
        match read_map_pair(data, pos, end) {
            None => {
                return None;
            },
            Some((name, value, next)) => {
                let ghost before = items@;
                items.push(name);
                items.push(value);
                assert(bytes::views(items@) =~= bytes::views(before).push(name@).push(value@));
                pos = next;
            },
        }
    }
    assert(bytes::views(items@).len() == items@.len());
    if data[0] < 254 && 2 * data[0] as u64 != items.len() as u64 {
        return None;
    }
    Some(items)
}

} // verus!
