//! Reading the values of a snapshot.

use vstd::prelude::*;
use vstd::slice::slice_subrange;

use crate::bytes;
use crate::bytes::{copy_bytes, copy_window};
use crate::intset;
use crate::intset::decode_intset_members;
use crate::listpack;
use crate::listpack::{decode_listpack, ListpackEntry, LpValue};
use crate::listpack_members;
use crate::listpack_members::decode_zset_listpack_pairs_orig;
use crate::rdb_save::{
    RDB_TYPE_HASH, RDB_TYPE_HASH_LISTPACK, RDB_TYPE_HASH_WITH_TTLS, RDB_TYPE_HASH_ZIPLIST,
    RDB_TYPE_HASH_ZIPMAP, RDB_TYPE_LIST, RDB_TYPE_LIST_QUICKLIST, RDB_TYPE_LIST_QUICKLIST_2,
    RDB_TYPE_LIST_ZIPLIST, RDB_TYPE_SET, RDB_TYPE_SET_INTSET, RDB_TYPE_SET_LISTPACK,
    RDB_TYPE_STREAM, RDB_TYPE_STRING, RDB_TYPE_ZSET, RDB_TYPE_ZSET_2, RDB_TYPE_ZSET_LISTPACK,
    RDB_TYPE_ZSET_ZIPLIST,
};
use crate::rdb_stream;
use crate::rdb_stream::decode_upstream_stream_skeleton;
use crate::rdb_types;
use crate::rdb_types::{FieldView, RdbValue, ValueView};
use crate::rdb_wire;
use crate::rdb_wire::{rdb_decode_length, rdb_decode_string};
use crate::records;
use crate::records::read_counted;
use crate::score;
use crate::score::{text_is_double, RdbScore, ScoreView};
use crate::stream_private;
use crate::stream_private::decode_private_stream;
use crate::ziplist;
use crate::ziplist::{decode_ziplist, decode_zipmap};

verus! {

// ---------------------------------------------------------------------------
// Packs
// ---------------------------------------------------------------------------

/// The byte strings that a pack holds.
pub open spec fn pack_strings(blob: Seq<u8>) -> Option<Seq<Seq<u8>>> {
    match listpack::values_of(blob) {
        Err(_) => None,
        Ok(values) => Some(values.map_values(|v: LpValue| listpack::value_bytes(blob, v))),
    }
}

/// Strings in pairs, if their number is even.
pub open spec fn paired_up(items: Seq<Seq<u8>>) -> Option<Seq<FieldView>> {
    if items.len() % 2 == 0 {
        Some(Seq::new((items.len() / 2) as nat, |i: int| (items[2 * i], items[2 * i + 1])))
    } else {
        None
    }
}

/// Pairs of names and texts of scores.
pub open spec fn text_scores(pairs: Seq<FieldView>) -> Option<Seq<(Seq<u8>, ScoreView)>> {
    if forall|i: int| 0 <= i < pairs.len() ==> score::is_double_text((#[trigger] pairs[i]).1) {
        Some(pairs.map_values(|p: FieldView| (p.0, ScoreView::Decimal(p.1))))
    } else {
        None
    }
}

/// The members of a packed sorted set.
pub open spec fn pack_members(blob: Seq<u8>) -> Option<Seq<(Seq<u8>, ScoreView)>> {
    match listpack::values_of(blob) {
        Err(_) => None,
        Ok(values) => match listpack_members::paired(blob, values) {
            Err(_) => None,
            Ok(pairs) => Some(
                pairs.map_values(
                    |p: (LpValue, LpValue)|
                        (
                            listpack::value_bytes(blob, p.0),
                            listpack_members::score_view(blob, p.1),
                        ),
                ),
            ),
        },
    }
}

fn read_pack(blob: &[u8]) -> (r: Option<Vec<Vec<u8>>>)
    ensures
        match r {
            Some(items) => pack_strings(blob@) == Some(bytes::views(items@)),
            None => pack_strings(blob@) is None,
        },
{
    let entries: Vec<ListpackEntry> = match decode_listpack(blob) {
        Err(_) => {
            return None;
        },
        Ok(entries) => entries,
    };
    let ghost values = listpack::values_of(blob@)->Ok_0;
    let ghost all = pack_strings(blob@)->Some_0;
    let mut items: Vec<Vec<u8>> = Vec::new();
    let mut i: usize = 0;
    while i < entries.len()
        invariant
            i <= entries@.len(),
            listpack::entries_match(blob@, entries@, values),
            all == values.map_values(|v: LpValue| listpack::value_bytes(blob@, v)),
            items@.len() == i,
            forall|k: int| 0 <= k < i ==> (#[trigger] items@[k])@ == all[k],
        decreases entries@.len() - i,
    {
        assert(entries@[i as int]@ == listpack::value_entry(blob@, values[i as int]));
        items.push(entries[i].to_bytes());
        i = i + 1;
    }
    assert(bytes::views(items@) =~= all);
    Some(items)
}

fn pair_up(items: &Vec<Vec<u8>>) -> (r: Option<Vec<(Vec<u8>, Vec<u8>)>>)
    ensures
        match r {
            Some(pairs) => paired_up(bytes::views(items@)) == Some(rdb_types::field_views(pairs@)),
            None => paired_up(bytes::views(items@)) is None,
        },
{
    let ghost all = bytes::views(items@);
    if items.len() % 2 != 0 {
        return None;
    }
    let count: usize = items.len();
    let half: usize = count / 2;
    let mut pairs: Vec<(Vec<u8>, Vec<u8>)> = Vec::new();
    let mut i: usize = 0;
    while i < half
        invariant
            i <= half,
            2 * half == items@.len() == count,
            all == bytes::views(items@),
            pairs@.len() == i,
            forall|k: int|
                0 <= k < i ==> (#[trigger] pairs@[k]).0@ == all[2 * k] && pairs@[k].1@ == all[2 * k
                    + 1],
        decreases half - i,
    {
        pairs.push((copy_bytes(items[2 * i].as_slice()), copy_bytes(items[2 * i + 1].as_slice())));
        i = i + 1;
    }
    assert(rdb_types::field_views(pairs@) =~= paired_up(all)->Some_0);
    Some(pairs)
}

fn score_pairs(pairs: &Vec<(Vec<u8>, Vec<u8>)>) -> (r: Option<Vec<(Vec<u8>, RdbScore)>>)
    ensures
        match r {
            Some(members) => text_scores(rdb_types::field_views(pairs@)) == Some(
                rdb_types::member_views(members@),
            ),
            None => text_scores(rdb_types::field_views(pairs@)) is None,
        },
{
    let ghost all = rdb_types::field_views(pairs@);
    let mut members: Vec<(Vec<u8>, RdbScore)> = Vec::new();
    let mut i: usize = 0;
    while i < pairs.len()
        invariant
            i <= pairs@.len(),
            all == rdb_types::field_views(pairs@),
            members@.len() == i,
            forall|k: int|
                0 <= k < i ==> {
                    &&& score::is_double_text((#[trigger] all[k]).1)
                    &&& members@[k].0@ == all[k].0
                    &&& members@[k].1@ == ScoreView::Decimal(all[k].1)
                },
        decreases pairs@.len() - i,
    {
        let pair = &pairs[i];
        assert(all[i as int] == (pair.0@, pair.1@));
        if !text_is_double(pair.1.as_slice()) {
            return None;
        }
        members.push(
            (copy_bytes(pair.0.as_slice()), RdbScore::Decimal(copy_bytes(pair.1.as_slice()))),
        );
        i = i + 1;
    }
    assert(rdb_types::member_views(members@) =~= text_scores(all)->Some_0);
    Some(members)
}

fn read_pack_members(blob: &[u8]) -> (r: Option<Vec<(Vec<u8>, RdbScore)>>)
    ensures
        match r {
            Some(members) => pack_members(blob@) == Some(rdb_types::member_views(members@)),
            None => pack_members(blob@) is None,
        },
{
    match decode_zset_listpack_pairs_orig(blob) {
        Err(_) => None,
        Ok(members) => {
            assert(rdb_types::member_views(members@) =~= pack_members(blob@)->Some_0);
            Some(members)
        },
    }
}

// ---------------------------------------------------------------------------
// Scores as text
// ---------------------------------------------------------------------------

/// The second and third byte of a three-byte white space character that starts with
/// 0xE1, 0xE2 or 0xE3.
pub open spec fn wide_space(a: u8, b: u8, c: u8) -> bool {
    ||| a == 0xE1 && b == 0x9A && c == 0x80
    ||| a == 0xE2 && b == 0x80 && (0x80 <= c <= 0x8A || c == 0xA8 || c == 0xA9 || c == 0xAF)
    ||| a == 0xE2 && b == 0x81 && c == 0x9F
    ||| a == 0xE3 && b == 0x80 && c == 0x80
}

/// A white space character of one byte.
pub open spec fn narrow_space(b: u8) -> bool {
    9 <= b <= 13 || b == 32
}

/// A white space character of two bytes.
pub open spec fn middle_space(a: u8, b: u8) -> bool {
    a == 0xC2 && (b == 0x85 || b == 0xA0)
}

/// The length of the white space character at the start, or zero.
pub open spec fn leading_space(s: Seq<u8>) -> nat {
    if s.len() >= 1 && narrow_space(s[0]) {
        1
    } else if s.len() >= 2 && middle_space(s[0], s[1]) {
        2
    } else if s.len() >= 3 && wide_space(s[0], s[1], s[2]) {
        3
    } else {
        0
    }
}

/// The length of the white space character at the end, or zero.
pub open spec fn trailing_space(s: Seq<u8>) -> nat {
    let n = s.len() as int;
    if n >= 1 && narrow_space(s[n - 1]) {
        1
    } else if n >= 2 && middle_space(s[n - 2], s[n - 1]) {
        2
    } else if n >= 3 && wide_space(s[n - 3], s[n - 2], s[n - 1]) {
        3
    } else {
        0
    }
}

/// The text without white space at its start.
pub open spec fn trimmed_start(s: Seq<u8>) -> Seq<u8>
    decreases s.len(),
{
    if leading_space(s) > 0 {
        trimmed_start(s.skip(leading_space(s) as int))
    } else {
        s
    }
}

/// The text without white space at its end.
pub open spec fn trimmed_end(s: Seq<u8>) -> Seq<u8>
    decreases s.len(),
{
    if trailing_space(s) > 0 {
        trimmed_end(s.take(s.len() - trailing_space(s)))
    } else {
        s
    }
}

/// The text without white space around it.
pub open spec fn trimmed(s: Seq<u8>) -> Seq<u8> {
    trimmed_end(trimmed_start(s))
}

/// The bits of not-a-number.
pub const NAN_BITS: u64 = 0x7ff8_0000_0000_0000;

/// The bits of infinity.
pub const INFINITY_BITS: u64 = 0x7ff0_0000_0000_0000;

/// The bits of minus infinity.
pub const NEG_INFINITY_BITS: u64 = 0xfff0_0000_0000_0000;

/// A double by its bits.
pub open spec fn bare_double(bits: u64) -> ScoreView {
    ScoreView::Double { bits, text: Seq::empty() }
}

/// A score in its older form: a byte for a special value, or a length and text.
pub open spec fn legacy_score_at(data: Seq<u8>, pos: int) -> Option<(ScoreView, int)> {
    if !(0 <= pos < data.len()) {
        None
    } else if data[pos] == 255 {
        Some((bare_double(NEG_INFINITY_BITS), pos + 1))
    } else if data[pos] == 254 {
        Some((bare_double(INFINITY_BITS), pos + 1))
    } else if data[pos] == 253 {
        Some((bare_double(NAN_BITS), pos + 1))
    } else if pos + 1 + data[pos] > data.len() {
        None
    } else {
        let text = trimmed(data.subrange(pos + 1, pos + 1 + data[pos]));
        if score::is_double_text(text) {
            Some((ScoreView::Decimal(text), pos + 1 + data[pos]))
        } else {
            None
        }
    }
}

fn skip_leading(data: &[u8], start: usize, end: usize) -> (at: usize)
    requires
        start <= end <= data@.len(),
    ensures
        start <= at <= end,
        trimmed_start(data@.subrange(start as int, end as int)) == data@.subrange(
            at as int,
            end as int,
        ),
{
    let ghost whole = trimmed_start(data@.subrange(start as int, end as int));
    let mut at: usize = start;
    loop
        invariant
            start <= at <= end <= data@.len(),
            trimmed_start(data@.subrange(at as int, end as int)) == whole,
        ensures
            start <= at <= end,
            data@.subrange(at as int, end as int) == whole,
        decreases end - at,
    {
        let ghost s = data@.subrange(at as int, end as int);
        let n: usize = if end - at >= 1 && is_narrow(data[at]) {
            1
        } else if end - at >= 2 && is_middle(data[at], data[at + 1]) {
            2
        } else if end - at >= 3 && is_wide(data[at], data[at + 1], data[at + 2]) {
            3
        } else {
            0
        };
        assert(n == leading_space(s));
        if n == 0 {
            break;
        }
        assert(s.skip(n as int) =~= data@.subrange(at + n, end as int));
        at = at + n;
    }
    at
}

fn skip_trailing(data: &[u8], start: usize, end: usize) -> (at: usize)
    requires
        start <= end <= data@.len(),
    ensures
        start <= at <= end,
        trimmed_end(data@.subrange(start as int, end as int)) == data@.subrange(
            start as int,
            at as int,
        ),
{
    let ghost whole = trimmed_end(data@.subrange(start as int, end as int));
    let mut at: usize = end;
    loop
        invariant
            start <= at <= end <= data@.len(),
            trimmed_end(data@.subrange(start as int, at as int)) == whole,
        ensures
            start <= at <= end,
            data@.subrange(start as int, at as int) == whole,
        decreases at - start,
    {
        let ghost s = data@.subrange(start as int, at as int);
        let n: usize = if at - start >= 1 && is_narrow(data[at - 1]) {
            1
        } else if at - start >= 2 && is_middle(data[at - 2], data[at - 1]) {
            2
        } else if at - start >= 3 && is_wide(data[at - 3], data[at - 2], data[at - 1]) {
            3
        } else {
            0
        };
        assert(n == trailing_space(s));
        if n == 0 {
            break;
        }
        assert(s.take(s.len() - n) =~= data@.subrange(start as int, at - n));
        at = at - n;
    }
    at
}

fn is_narrow(b: u8) -> (r: bool)
    ensures
        r == narrow_space(b),
{
    (9 <= b && b <= 13) || b == 32
}

fn is_middle(a: u8, b: u8) -> (r: bool)
    ensures
        r == middle_space(a, b),
{
    a == 0xC2 && (b == 0x85 || b == 0xA0)
}

fn is_wide(a: u8, b: u8, c: u8) -> (r: bool)
    ensures
        r == wide_space(a, b, c),
{
    (a == 0xE1 && b == 0x9A && c == 0x80) || (a == 0xE2 && b == 0x80 && ((0x80 <= c && c <= 0x8A)
        || c == 0xA8 || c == 0xA9 || c == 0xAF)) || (a == 0xE2 && b == 0x81 && c == 0x9F) || (a
        == 0xE3 && b == 0x80 && c == 0x80)
}

fn bare(bits: u64) -> (s: RdbScore)
    ensures
        s@ == bare_double(bits),
{
    let text: Vec<u8> = Vec::new();
    assert(text@ =~= Seq::empty());
    RdbScore::Double { bits, text }
}

/// Reads a score in its older form.
pub fn rdb_load_legacy_double(data: &[u8], pos: usize) -> (r: Option<(RdbScore, usize)>)
    ensures
        match r {
            Some((s, end)) => legacy_score_at(data@, pos as int) == Some((s@, end as int)) && pos
                <= end <= data@.len(),
            None => legacy_score_at(data@, pos as int) is None,
        },
{
    let len: usize = data.len();
    if pos >= len {
        return None;
    }
    let n: usize = data[pos] as usize;
    if n == 255 {
        return Some((bare(NEG_INFINITY_BITS), pos + 1));
    }
    if n == 254 {
        return Some((bare(INFINITY_BITS), pos + 1));
    }
    if n == 253 {
        return Some((bare(NAN_BITS), pos + 1));
    }
    if n > len - pos - 1 {
        return None;
    }
    let end: usize = pos + 1 + n;
    let a: usize = skip_leading(data, pos + 1, end);
    let b: usize = skip_trailing(data, a, end);
    let text: Vec<u8> = copy_window(data, a, b);
    if text_is_double(text.as_slice()) {
        Some((RdbScore::Decimal(text), end))
    } else {
        None
    }
}

/// A member with its score in the older form.
pub open spec fn legacy_member_at(data: Seq<u8>, pos: int) -> Option<
    ((Seq<u8>, ScoreView), int),
> {
    match rdb_wire::string_at(data, pos) {
        None => None,
        Some((name, mid)) => match legacy_score_at(data, mid) {
            None => None,
            Some((s, end)) => Some(((name, s), end)),
        },
    }
}

/// A member with its score in the older form, as a parser.
pub open spec fn legacy_member_parser() -> bytes::Parser<(Seq<u8>, ScoreView)> {
    |data: Seq<u8>, pos: int| legacy_member_at(data, pos)
}

/// A sorted set with scores in the older form.
pub open spec fn legacy_zset_at(data: Seq<u8>, pos: int) -> Option<
    (Seq<(Seq<u8>, ScoreView)>, int),
> {
    match rdb_wire::length_at(data, pos) {
        None => None,
        Some((n, start)) => bytes::parse_repeat(legacy_member_parser(), data, start, n),
    }
}

fn read_legacy_zset(data: &[u8], pos: usize) -> (r: Option<(Vec<(Vec<u8>, RdbScore)>, usize)>)
    ensures
        match r {
            Some((members, end)) => legacy_zset_at(data@, pos as int) == Some(
                (rdb_types::member_views(members@), end as int),
            ) && pos <= end <= data@.len(),
            None => legacy_zset_at(data@, pos as int) is None,
        },
{
    let (n, start) = match rdb_decode_length(data, pos) {
        None => {
            return None;
        },
        Some(found) => found,
    };
    let ghost p = legacy_member_parser();
    let mut members: Vec<(Vec<u8>, RdbScore)> = Vec::new();
    let mut at: usize = start;
    let mut k: u64 = 0;
    assert(rdb_types::member_views(members@) =~= Seq::empty());
    while k < n
        invariant
            k <= n,
            p == legacy_member_parser(),
            rdb_wire::length_at(data@, pos as int) == Some((n as nat, start as int)),
            bytes::parse_repeat(p, data@, start as int, k as nat) == Some(
                (rdb_types::member_views(members@), at as int),
            ),
            pos <= start <= at <= data@.len(),
        decreases n - k,
    {
        proof {
            if legacy_member_at(data@, at as int) is None {
                bytes::lemma_repeat_none(p, data@, start as int, (k + 1) as nat, n as nat);
            }
        }
        let (name, mid) = match rdb_decode_string(data, at) {
            None => {
                return None;
            },
            Some(found) => found,
        };
        match rdb_load_legacy_double(data, mid) {
            None => {
                return None;
            },
            Some((s, end)) => {
                let ghost before = members@;
                members.push((name, s));
                assert(rdb_types::member_views(members@) =~= rdb_types::member_views(before).push(
                    (name@, s@),
                ));
                at = end;
            },
        }
        k = k + 1;
    }
    Some((members, at))
}

// ---------------------------------------------------------------------------
// Lists
// ---------------------------------------------------------------------------

/// A node of a list: its kind, then one item or a pack of items.
pub open spec fn list_node_at(data: Seq<u8>, pos: int) -> Option<(Seq<Seq<u8>>, int)> {
    match rdb_wire::length_at(data, pos) {
        None => None,
        Some((kind, mid)) => match rdb_wire::string_at(data, mid) {
            None => None,
            Some((blob, end)) => if kind == 1 {
                Some((seq![blob], end))
            } else if kind == 2 {
                match pack_strings(blob) {
                    None => None,
                    Some(items) => Some((items, end)),
                }
            } else {
                None
            },
        },
    }
}

/// A node of a list in its older form: a ziplist.
pub open spec fn old_list_node_at(data: Seq<u8>, pos: int) -> Option<(Seq<Seq<u8>>, int)> {
    match rdb_wire::string_at(data, pos) {
        None => None,
        Some((blob, end)) => match ziplist::ziplist_of(blob) {
            None => None,
            Some(items) => Some((items, end)),
        },
    }
}

/// A node of a list, as a parser.
pub open spec fn list_node_parser(old_form: bool) -> bytes::Parser<Seq<Seq<u8>>> {
    |data: Seq<u8>, pos: int|
        if old_form {
            old_list_node_at(data, pos)
        } else {
            list_node_at(data, pos)
        }
}

/// Sequences, one behind the other.
pub open spec fn joined(nodes: Seq<Seq<Seq<u8>>>) -> Seq<Seq<u8>>
    decreases nodes.len(),
{
    if nodes.len() == 0 {
        Seq::empty()
    } else {
        joined(nodes.drop_last()) + nodes.last()
    }
}

/// The items of a list in nodes.
pub open spec fn node_list_at(data: Seq<u8>, pos: int, old_form: bool) -> Option<
    (Seq<Seq<u8>>, int),
> {
    match rdb_wire::length_at(data, pos) {
        None => None,
        Some((n, start)) => match bytes::parse_repeat(
            list_node_parser(old_form),
            data,
            start,
            n,
        ) {
            None => None,
            Some((nodes, end)) => Some((joined(nodes), end)),
        },
    }
}

fn read_list_node(data: &[u8], pos: usize, old_form: bool) -> (r: Option<(Vec<Vec<u8>>, usize)>)
    ensures
        match r {
            Some((items, end)) => list_node_parser(old_form)(data@, pos as int) == Some(
                (bytes::views(items@), end as int),
            ) && pos <= end <= data@.len(),
            None => list_node_parser(old_form)(data@, pos as int) is None,
        },
{
    if old_form {
        let (blob, end) = match rdb_decode_string(data, pos) {
            None => {
                return None;
            },
            Some(found) => found,
        };
        return match decode_ziplist(blob.as_slice()) {
            None => None,
            Some(items) => Some((items, end)),
        };
    }
    let (kind, mid) = match rdb_decode_length(data, pos) {
        None => {
            return None;
        },
        Some(found) => found,
    };
    let (blob, end) = match rdb_decode_string(data, mid) {
        None => {
            return None;
        },
        Some(found) => found,
    };
    if kind == 1 {
        let mut items: Vec<Vec<u8>> = Vec::new();
        let ghost b = blob@;
        items.push(blob);
        assert(bytes::views(items@) =~= seq![b]);
        Some((items, end))
    } else if kind == 2 {
        match read_pack(blob.as_slice()) {
            None => None,
            Some(items) => Some((items, end)),
        }
    } else {
        None
    }
}

fn append_items(items: &mut Vec<Vec<u8>>, more: Vec<Vec<u8>>)
    ensures
        bytes::views(final(items)@) == bytes::views(old(items)@) + bytes::views(more@),
{
    let mut more = more;
    let ghost before = items@;
    let ghost tail = more@;
    items.append(&mut more);
    assert(bytes::views(items@) =~= bytes::views(before) + bytes::views(tail));
}

fn read_node_list(data: &[u8], pos: usize, old_form: bool) -> (r: Option<(Vec<Vec<u8>>, usize)>)
    ensures
        match r {
            Some((items, end)) => node_list_at(data@, pos as int, old_form) == Some(
                (bytes::views(items@), end as int),
            ) && pos <= end <= data@.len(),
            None => node_list_at(data@, pos as int, old_form) is None,
        },
{
    let (n, start) = match rdb_decode_length(data, pos) {
        None => {
            return None;
        },
        Some(found) => found,
    };
    let ghost p = list_node_parser(old_form);
    let ghost mut nodes = Seq::<Seq<Seq<u8>>>::empty();
    let mut items: Vec<Vec<u8>> = Vec::new();
    let mut at: usize = start;
    let mut k: u64 = 0;
    assert(bytes::views(items@) =~= joined(nodes));
    while k < n
        invariant
            k <= n,
            p == list_node_parser(old_form),
            rdb_wire::length_at(data@, pos as int) == Some((n as nat, start as int)),
            bytes::parse_repeat(p, data@, start as int, k as nat) == Some((nodes, at as int)),
            bytes::views(items@) == joined(nodes),
            pos <= start <= at <= data@.len(),
        decreases n - k,
    {
        match read_list_node(data, at, old_form) {
            None => {
                proof {
                    bytes::lemma_repeat_none(p, data@, start as int, (k + 1) as nat, n as nat);
                }
                return None;
            },
            Some((more, end)) => {
                proof {
                    let m = bytes::views(more@);
                    assert(nodes.push(m).drop_last() =~= nodes);
                    nodes = nodes.push(m);
                }
                append_items(&mut items, more);
                at = end;
            },
        }
        k = k + 1;
    }
    Some((items, at))
}

// ---------------------------------------------------------------------------
// All values
// ---------------------------------------------------------------------------

/// The type byte is known.
pub open spec fn is_type_byte(b: u8) -> bool {
    b <= 5 || 9 <= b <= 21 || b == RDB_TYPE_HASH_WITH_TTLS
}

/// A value out of a stored string.
pub open spec fn wrapped_at(tag: u8, data: Seq<u8>, pos: int) -> Option<(ValueView, int)> {
    match rdb_wire::string_at(data, pos) {
        None => None,
        Some((blob, end)) => match wrapped_value(tag, blob) {
            None => None,
            Some(v) => Some((v, end)),
        },
    }
}

/// The value that a string stands for under a type byte.
pub open spec fn wrapped_value(tag: u8, blob: Seq<u8>) -> Option<ValueView> {
    if tag == RDB_TYPE_STRING {
        Some(ValueView::String(blob))
    } else if tag == RDB_TYPE_SET_INTSET {
        match intset::intset_values(blob) {
            None => None,
            Some(values) => Some(ValueView::MemberSet(intset::texts(values))),
        }
    } else if tag == RDB_TYPE_SET_LISTPACK {
        match pack_strings(blob) {
            None => None,
            Some(members) => Some(ValueView::MemberSet(members)),
        }
    } else if tag == RDB_TYPE_HASH_LISTPACK {
        paired_hash(pack_strings(blob))
    } else if tag == RDB_TYPE_HASH_ZIPLIST {
        paired_hash(ziplist::ziplist_of(blob))
    } else if tag == RDB_TYPE_HASH_ZIPMAP {
        paired_hash(ziplist::zipmap_of(blob))
    } else if tag == RDB_TYPE_LIST_ZIPLIST {
        match ziplist::ziplist_of(blob) {
            None => None,
            Some(items) => Some(ValueView::List(items)),
        }
    } else if tag == RDB_TYPE_ZSET_LISTPACK {
        match pack_members(blob) {
            None => None,
            Some(members) => Some(ValueView::SortedSet(members)),
        }
    } else {
        paired_zset(ziplist::ziplist_of(blob))
    }
}

/// The hash of names and values one behind the other.
pub open spec fn paired_hash(items: Option<Seq<Seq<u8>>>) -> Option<ValueView> {
    match items {
        None => None,
        Some(items) => match paired_up(items) {
            None => None,
            Some(fields) => Some(ValueView::Hash(fields)),
        },
    }
}

/// The sorted set of names and scores one behind the other.
pub open spec fn paired_zset(items: Option<Seq<Seq<u8>>>) -> Option<ValueView> {
    match items {
        None => None,
        Some(items) => match paired_up(items) {
            None => None,
            Some(pairs) => match text_scores(pairs) {
                None => None,
                Some(members) => Some(ValueView::SortedSet(members)),
            },
        },
    }
}

/// The value is one stored string.
pub open spec fn is_wrapped(tag: u8) -> bool {
    tag == RDB_TYPE_STRING || tag == RDB_TYPE_SET_INTSET || tag == RDB_TYPE_SET_LISTPACK || tag
        == RDB_TYPE_HASH_LISTPACK || tag == RDB_TYPE_HASH_ZIPLIST || tag == RDB_TYPE_HASH_ZIPMAP
        || tag == RDB_TYPE_LIST_ZIPLIST || tag == RDB_TYPE_ZSET_LISTPACK || tag
        == RDB_TYPE_ZSET_ZIPLIST
}

/// The stream in packs at an offset.
pub open spec fn packed_stream_at(tag: u8, data: Seq<u8>, pos: int) -> Option<(ValueView, int)> {
    match rdb_stream::stream_of(tag, data.skip(pos)) {
        Err(_) => None,
        Ok((v, n)) => Some((v, pos + n)),
    }
}

/// A value made of what was read.
pub open spec fn made<X>(found: Option<(X, int)>, value: spec_fn(X) -> ValueView) -> Option<
    (ValueView, int),
> {
    match found {
        None => None,
        Some((x, end)) => Some((value(x), end)),
    }
}

/// The value at an offset under a type byte.
pub open spec fn value_at(tag: u8, data: Seq<u8>, pos: int) -> Option<(ValueView, int)> {
    if is_wrapped(tag) {
        wrapped_at(tag, data, pos)
    } else if tag == RDB_TYPE_LIST {
        made(
            records::counted_at::<Vec<u8>>(data, pos),
            |items: Seq<Seq<u8>>| ValueView::List(items),
        )
    } else if tag == RDB_TYPE_SET {
        made(
            records::counted_at::<Vec<u8>>(data, pos),
            |members: Seq<Seq<u8>>| ValueView::SetHashtable(members),
        )
    } else if tag == RDB_TYPE_HASH {
        made(
            records::counted_at::<(Vec<u8>, Vec<u8>)>(data, pos),
            |fields: Seq<FieldView>| ValueView::Hash(fields),
        )
    } else if tag == RDB_TYPE_HASH_WITH_TTLS {
        made(
            records::counted_at::<(Vec<u8>, Vec<u8>, Option<u64>)>(data, pos),
            |fields: Seq<(Seq<u8>, Seq<u8>, Option<u64>)>| ValueView::HashWithTtls(fields),
        )
    } else if tag == RDB_TYPE_ZSET_2 {
        made(
            records::counted_at::<(Vec<u8>, RdbScore)>(data, pos),
            |members: Seq<(Seq<u8>, ScoreView)>| ValueView::SortedSet(members),
        )
    } else if tag == RDB_TYPE_ZSET {
        made(
            legacy_zset_at(data, pos),
            |members: Seq<(Seq<u8>, ScoreView)>| ValueView::SortedSet(members),
        )
    } else if tag == RDB_TYPE_STREAM {
        made(
            stream_private::private_stream_at(data, pos),
            |s: rdb_types::StreamView| ValueView::Stream(s),
        )
    } else if tag == RDB_TYPE_LIST_QUICKLIST_2 || tag == RDB_TYPE_LIST_QUICKLIST {
        made(
            node_list_at(data, pos, tag == RDB_TYPE_LIST_QUICKLIST),
            |items: Seq<Seq<u8>>| ValueView::List(items),
        )
    } else {
        packed_stream_at(tag, data, pos)
    }
}

fn hash_of(items: Option<Vec<Vec<u8>>>, Ghost(all): Ghost<Option<Seq<Seq<u8>>>>) -> (r: Option<
    RdbValue,
>)
    requires
        match items {
            Some(found) => all == Some(bytes::views(found@)),
            None => all is None,
        },
    ensures
        match r {
            Some(v) => paired_hash(all) == Some(v@),
            None => paired_hash(all) is None,
        },
{
    match items {
        None => None,
        Some(items) => match pair_up(&items) {
            None => None,
            Some(fields) => Some(RdbValue::Hash(fields)),
        },
    }
}

/// The value that a string stands for under a type byte.
fn unwrap_value(tag: u8, blob: Vec<u8>) -> (r: Option<RdbValue>)
    requires
        is_wrapped(tag),
    ensures
        match r {
            Some(v) => wrapped_value(tag, blob@) == Some(v@),
            None => wrapped_value(tag, blob@) is None,
        },
{
    if tag == RDB_TYPE_STRING {
        Some(RdbValue::String(blob))
    } else if tag == RDB_TYPE_SET_INTSET {
        match decode_intset_members(blob.as_slice()) {
            None => None,
            Some(members) => Some(RdbValue::MemberSet(members)),
        }
    } else if tag == RDB_TYPE_SET_LISTPACK {
        match read_pack(blob.as_slice()) {
            None => None,
            Some(members) => Some(RdbValue::MemberSet(members)),
        }
    } else if tag == RDB_TYPE_HASH_LISTPACK {
        hash_of(read_pack(blob.as_slice()), Ghost(pack_strings(blob@)))
    } else if tag == RDB_TYPE_HASH_ZIPLIST {
        hash_of(decode_ziplist(blob.as_slice()), Ghost(ziplist::ziplist_of(blob@)))
    } else if tag == RDB_TYPE_HASH_ZIPMAP {
        hash_of(decode_zipmap(blob.as_slice()), Ghost(ziplist::zipmap_of(blob@)))
    } else if tag == RDB_TYPE_LIST_ZIPLIST {
        match decode_ziplist(blob.as_slice()) {
            None => None,
            Some(items) => Some(RdbValue::List(items)),
        }
    } else if tag == RDB_TYPE_ZSET_LISTPACK {
        match read_pack_members(blob.as_slice()) {
            None => None,
            Some(members) => Some(RdbValue::SortedSet(members)),
        }
    } else {
        match decode_ziplist(blob.as_slice()) {
            None => None,
            Some(items) => match pair_up(&items) {
                None => None,
                Some(pairs) => match score_pairs(&pairs) {
                    None => None,
                    Some(members) => Some(RdbValue::SortedSet(members)),
                },
            },
        }
    }
}

fn read_plain_stream(data: &[u8], pos: usize) -> (r: Option<(RdbValue, usize)>)
    ensures
        match r {
            Some((v, end)) => value_at(RDB_TYPE_STREAM, data@, pos as int) == Some((v@, end as int))
                && pos <= end <= data@.len(),
            None => value_at(RDB_TYPE_STREAM, data@, pos as int) is None,
        },
{
    decode_private_stream(data, pos)
}

fn read_packed_stream(tag: u8, data: &[u8], pos: usize) -> (r: Option<(RdbValue, usize)>)
    requires
        pos <= data@.len(),
    ensures
        match r {
            Some((v, end)) => packed_stream_at(tag, data@, pos as int) == Some((v@, end as int))
                && pos <= end <= data@.len(),
            None => packed_stream_at(tag, data@, pos as int) is None,
        },
{
    let len: usize = data.len();
    let rest: &[u8] = slice_subrange(data, pos, len);
    assert(rest@ =~= data@.skip(pos as int));
    match decode_upstream_stream_skeleton(tag, rest) {
        Err(_) => None,
        Ok((v, n)) => Some((v, pos + n)),
    }
}

/// Reads the value at an offset under a type byte.
pub fn read_value(tag: u8, data: &[u8], pos: usize) -> (r: Option<(RdbValue, usize)>)
    requires
        pos <= data@.len(),
    ensures
        match r {
            Some((v, end)) => value_at(tag, data@, pos as int) == Some((v@, end as int)) && pos
                <= end <= data@.len(),
            None => value_at(tag, data@, pos as int) is None,
        },
{
    match tag {
        RDB_TYPE_STRING | RDB_TYPE_SET_INTSET | RDB_TYPE_SET_LISTPACK | RDB_TYPE_HASH_LISTPACK
        | RDB_TYPE_HASH_ZIPLIST | RDB_TYPE_HASH_ZIPMAP | RDB_TYPE_LIST_ZIPLIST
        | RDB_TYPE_ZSET_LISTPACK | RDB_TYPE_ZSET_ZIPLIST => match rdb_decode_string(data, pos) {
            None => None,
            Some((blob, end)) => match unwrap_value(tag, blob) {
                None => None,
                Some(v) => Some((v, end)),
            },
        },
        RDB_TYPE_LIST => match read_counted::<Vec<u8>>(data, pos) {
            None => None,
            Some((items, end)) => {
                assert(records::models(items@) =~= bytes::views(items@));
                Some((RdbValue::List(items), end))
            },
        },
        RDB_TYPE_SET => match read_counted::<Vec<u8>>(data, pos) {
            None => None,
            Some((members, end)) => {
                assert(records::models(members@) =~= bytes::views(members@));
                Some((RdbValue::SetHashtable(members), end))
            },
        },
        RDB_TYPE_HASH => match read_counted::<(Vec<u8>, Vec<u8>)>(data, pos) {
            None => None,
            Some((fields, end)) => {
                assert(records::models(fields@) =~= rdb_types::field_views(fields@));
                Some((RdbValue::Hash(fields), end))
            },
        },
        RDB_TYPE_HASH_WITH_TTLS => match read_counted::<(Vec<u8>, Vec<u8>, Option<u64>)>(
            data,
            pos,
        ) {
            None => None,
            Some((fields, end)) => {
                assert(records::models(fields@) =~= rdb_types::ttl_field_views(fields@));
                Some((RdbValue::HashWithTtls(fields), end))
            },
        },
        RDB_TYPE_ZSET_2 => match read_counted::<(Vec<u8>, RdbScore)>(data, pos) {
            None => None,
            Some((members, end)) => {
                assert(records::models(members@) =~= rdb_types::member_views(members@));
                Some((RdbValue::SortedSet(members), end))
            },
        },
        RDB_TYPE_ZSET => match read_legacy_zset(data, pos) {
            None => None,
            Some((members, end)) => Some((RdbValue::SortedSet(members), end)),
        },
        RDB_TYPE_STREAM => read_plain_stream(data, pos),
        RDB_TYPE_LIST_QUICKLIST_2 => match read_node_list(data, pos, false) {
            None => None,
            Some((items, end)) => Some((RdbValue::List(items), end)),
        },
        RDB_TYPE_LIST_QUICKLIST => match read_node_list(data, pos, true) {
            None => None,
            Some((items, end)) => Some((RdbValue::List(items), end)),
        },
        _ => read_packed_stream(tag, data, pos),
    }
}

} // verus!
