//! How packs are walked, and what is told of their shape.

use vstd::prelude::*;

use crate::bytes;
use crate::listpack;
use crate::listpack::{ListpackError, LpValue};
use crate::listpack_members;
use crate::pack_laws;
use crate::pack_laws::PackEntry;
use crate::score;

verus! {

// ---------------------------------------------------------------------------
// Errors
// ---------------------------------------------------------------------------

/// The header of a pack is refused where it is cut off, where the length in its first four bytes
/// is not that of the pack, and where the end mark is missing, each with an error of its own. Of
/// several, the first counts.
pub proof fn law_header_errors(data: Seq<u8>)
    ensures
        data.len() < 6 ==> listpack::header_of(data) == Err::<(nat, nat), ListpackError>(
            ListpackError::ShortHeader,
        ),
        data.len() >= 6 ==> ({
            let total = data[0] + 0x100 * data[1] + 0x1_0000 * data[2] + 0x100_0000 * data[3];
            let count = data[4] + 0x100 * data[5];
            &&& total > data.len() ==> listpack::header_of(data) == Err::<
                (nat, nat),
                ListpackError,
            >(ListpackError::TotalBytesOutOfRange)
            &&& total < data.len() ==> listpack::header_of(data) == Err::<
                (nat, nat),
                ListpackError,
            >(ListpackError::TotalBytesMismatch)
            &&& total == data.len() && data.last() != 255 ==> listpack::header_of(data) == Err::<
                (nat, nat),
                ListpackError,
            >(ListpackError::MissingTerminator)
            &&& total == data.len() && data.last() == 255 ==> listpack::header_of(data) == Ok::<
                (nat, nat),
                ListpackError,
            >((total as nat, count as nat))
        }),
{
    if data.len() >= 6 {
        lemma_four_bytes(data, 0);
        lemma_two_bytes(data, 4);
    }
}

proof fn lemma_two_bytes(data: Seq<u8>, pos: int)
    requires
        0 <= pos,
        pos + 2 <= data.len(),
    ensures
        bytes::le_at(data, pos, 2) == data[pos] + 0x100 * data[pos + 1],
{
    let s = data.subrange(pos, pos + 2);
    reveal_with_fuel(bytes::le_value, 3);
    assert(s.drop_first().drop_first() =~= Seq::empty());
}

proof fn lemma_four_bytes(data: Seq<u8>, pos: int)
    requires
        0 <= pos,
        pos + 4 <= data.len(),
    ensures
        bytes::le_at(data, pos, 4) == data[pos] + 0x100 * data[pos + 1] + 0x1_0000 * data[pos + 2]
            + 0x100_0000 * data[pos + 3],
{
    let s = data.subrange(pos, pos + 4);
    reveal_with_fuel(bytes::le_value, 5);
    assert(s.drop_first().drop_first().drop_first().drop_first() =~= Seq::empty());
}

/// An entry that is read takes the bytes that its lead tells and a trailer that repeats their
/// number. One that is cut off or whose trailer says something else is refused, and so is a lead
/// that no entry has.
pub proof fn law_entry_errors(data: Seq<u8>, pos: int)
    requires
        data.len() <= u32::MAX,
    ensures
        !(0 <= pos < data.len()) ==> listpack::entry_at(data, pos) == Err::<
            (LpValue, int),
            ListpackError,
        >(ListpackError::TruncatedEntry),
        0 <= pos < data.len() && data[pos] > 0xF4 ==> listpack::entry_at(data, pos) == Err::<
            (LpValue, int),
            ListpackError,
        >(ListpackError::InvalidEncoding(data[pos])),
        listpack::entry_at(data, pos) matches Ok((v, k)) ==> (listpack::data_len_at(
            data,
            pos,
        ) matches Ok(n) && k == n + listpack::backlen_bytes(n).len() && bytes::has_at(
            data,
            pos + n,
            listpack::backlen_bytes(n),
        )),
        listpack::data_len_at(data, pos) matches Ok(n) ==> {
            &&& pos + n + listpack::backlen_bytes(n).len() > data.len() ==> (listpack::entry_at(
                data,
                pos,
            ) matches Err(e) && (e == ListpackError::TruncatedEntry || e
                == ListpackError::StringLengthOverflow))
            &&& pos + n + listpack::backlen_bytes(n).len() <= data.len() && !bytes::has_at(
                data,
                pos + n,
                listpack::backlen_bytes(n),
            ) ==> listpack::entry_at(data, pos) == Err::<(LpValue, int), ListpackError>(
                ListpackError::InvalidBacklen,
            )
            &&& pos + n + listpack::backlen_bytes(n).len() <= data.len() && bytes::has_at(
                data,
                pos + n,
                listpack::backlen_bytes(n),
            ) ==> listpack::entry_at(data, pos) is Ok
        },
{
    reveal(listpack::entry_at);
    if let Ok(n) = listpack::data_len_at(data, pos) {
        listpack::lemma_backlen_len(n);
    }
}

// ---------------------------------------------------------------------------
// Walks
// ---------------------------------------------------------------------------

proof fn lemma_trailers(
    entries: Seq<PackEntry>,
    k: int,
    data: Seq<u8>,
    pos: int,
    sum: int,
)
    requires
        0 <= k <= entries.len(),
        pack_laws::entries_right(entries),
        data.len() <= u32::MAX,
        bytes::has_at(
            data,
            pos,
            bytes::concat_all(pack_laws::entry_encoder(), entries.skip(k)),
        ),
    ensures
        ({
            let rest = bytes::concat_all(pack_laws::entry_encoder(), entries.skip(k)).len();
            listpack::trailer_walk(data, pos, pos + rest, sum) == Ok::<int, ListpackError>(
                sum + rest,
            )
        }),
    decreases entries.len() - k,
{
    let e = pack_laws::entry_encoder();
    if k < entries.len() {
        bytes::lemma_concat_first(e, entries, k);
        let here = e(entries[k]);
        let rest = bytes::concat_all(e, entries.skip(k + 1));
        bytes::lemma_has_at_concat(data, pos, here, rest);
        assert(pack_laws::is_entry(entries[k].data, entries[k].value));
        law_entry_errors(data, pos);
        let n = listpack::data_len_at(data, pos)->Ok_0;
        listpack::lemma_backlen_len(n);
        lemma_trailers(entries, k + 1, data, pos + here.len(), sum + here.len());
    } else {
        assert(entries.skip(k) =~= Seq::empty());
    }
}

/// Walking a pack by its trailers alone adds up the bytes of all its entries: those of the pack
/// without the seven around them.
pub proof fn law_trailers_add_up(entries: Seq<PackEntry>, count: nat)
    requires
        pack_laws::entries_right(entries),
        pack_laws::pack_bytes(entries, count).len() <= u32::MAX,
    ensures
        ({
            let data = pack_laws::pack_bytes(entries, count);
            listpack::trailer_walk(data, 6, data.len() - 1, 0) == Ok::<int, ListpackError>(
                data.len() - 7,
            )
        }),
{
    let body = bytes::concat_all(pack_laws::entry_encoder(), entries);
    let a = bytes::le_bytes((body.len() + 7) as nat, 4);
    let c = bytes::le_bytes(count, 2);
    let data = pack_laws::pack_bytes(entries, count);
    bytes::lemma_le_bytes_len((body.len() + 7) as nat, 4);
    bytes::lemma_le_bytes_len(count, 2);
    bytes::lemma_has_at_whole(data);
    bytes::lemma_has_at_concat(data, 0, a + c + body, seq![0xFFu8]);
    bytes::lemma_has_at_concat(data, 0, a + c, body);
    assert(entries.skip(0) =~= entries);
    lemma_trailers(entries, 0, data, 6, 0);
}

// ---------------------------------------------------------------------------
// Pairs
// ---------------------------------------------------------------------------

/// The value is text that says that it is no number.
pub open spec fn is_nan_value(data: Seq<u8>, v: LpValue) -> bool {
    v matches LpValue::Text(start, end) && score::is_nan_text(data.subrange(start, end))
}

/// No score is text that says that it is no number.
pub open spec fn scores_are_numbers(data: Seq<u8>, pairs: Seq<(LpValue, LpValue)>) -> bool {
    forall|i: int| 0 <= i < pairs.len() ==> !is_nan_value(data, (#[trigger] pairs[i]).1)
}

proof fn lemma_walk_keeps(
    data: Seq<u8>,
    cursor: int,
    end: int,
    found: Seq<(LpValue, LpValue)>,
    member: Option<LpValue>,
)
    ensures
        listpack_members::pair_walk(data, cursor, end, false, found, member) matches Ok(pairs)
            ==> pairs.len() >= found.len() && pairs.take(found.len() as int) == found,
    decreases end - cursor,
{
    if cursor < end {
        listpack::lemma_entry_at(data, cursor);
        if let Ok((v, n)) = listpack::entry_at(data, cursor) {
            if cursor + n <= end {
                match member {
                    None => {
                        lemma_walk_keeps(data, cursor + n, end, found, Some(v));
                    },
                    Some(m) => {
                        let more = found.push((m, v));
                        lemma_walk_keeps(data, cursor + n, end, more, None);
                        if let Ok(pairs) = listpack_members::pair_walk(
                            data,
                            cursor + n,
                            end,
                            false,
                            more,
                            None,
                        ) {
                            assert(pairs.take(found.len() as int) =~= pairs.take(
                                more.len() as int,
                            ).take(found.len() as int));
                            assert(more.take(found.len() as int) =~= found);
                        }
                    },
                }
            }
        }
    } else {
        assert(found.take(found.len() as int) =~= found);
    }
}

proof fn lemma_strict_walk(
    data: Seq<u8>,
    cursor: int,
    end: int,
    found: Seq<(LpValue, LpValue)>,
    member: Option<LpValue>,
)
    requires
        scores_are_numbers(data, found),
    ensures
        ({
            let loose = listpack_members::pair_walk(data, cursor, end, false, found, member);
            let strict = listpack_members::pair_walk(data, cursor, end, true, found, member);
            match loose {
                Ok(pairs) => if scores_are_numbers(data, pairs) {
                    strict == loose
                } else {
                    strict is Err
                },
                Err(_) => strict is Err,
            }
        }),
    decreases end - cursor,
{
    if cursor < end {
        listpack::lemma_entry_at(data, cursor);
        if let Ok((v, n)) = listpack::entry_at(data, cursor) {
            if cursor + n <= end {
                match member {
                    None => {
                        lemma_strict_walk(data, cursor + n, end, found, Some(v));
                    },
                    Some(m) => {
                        let more = found.push((m, v));
                        if is_nan_value(data, v) {
                            lemma_walk_keeps(data, cursor + n, end, more, None);
                            if let Ok(pairs) = listpack_members::pair_walk(
                                data,
                                cursor + n,
                                end,
                                false,
                                more,
                                None,
                            ) {
                                assert(pairs.take(more.len() as int)[found.len() as int]
                                    == pairs[found.len() as int]);
                                assert(more[found.len() as int] == (m, v));
                            }
                        } else {
                            lemma_strict_walk(data, cursor + n, end, more, None);
                        }
                    },
                }
            }
        }
    }
}

/// Where a score must be a number, exactly the packs without a NaN are read, and as the same
/// members and scores.
pub proof fn law_strict_pairs(data: Seq<u8>)
    ensures
        match listpack_members::pairs_of(data, false) {
            Ok(pairs) => if scores_are_numbers(data, pairs) {
                listpack_members::pairs_of(data, true) == Ok::<
                    Seq<(LpValue, LpValue)>,
                    ListpackError,
                >(pairs)
            } else {
                listpack_members::pairs_of(data, true) is Err
            },
            Err(_) => listpack_members::pairs_of(data, true) is Err,
        },
{
    if listpack::header_of(data) is Ok {
        lemma_strict_walk(data, 6, data.len() - 1, Seq::empty(), None);
    }
}

// ---------------------------------------------------------------------------
// Shapes
// ---------------------------------------------------------------------------

/// The greatest length that is told is that of an item, and no item is longer.
pub proof fn law_longest_item(items: Seq<Seq<u8>>, n: nat)
    requires
        n <= items.len(),
    ensures
        forall|i: int|
            0 <= i < n ==> (#[trigger] items[i]).len() <= listpack_members::longest(items, n),
        n > 0 ==> exists|i: int|
            0 <= i < n && (#[trigger] items[i]).len() == listpack_members::longest(items, n),
        n == 0 ==> listpack_members::longest(items, n) == 0,
    decreases n,
{
    if n > 0 {
        let less = (n - 1) as nat;
        law_longest_item(items, less);
        let most = listpack_members::longest(items, n);
        if items[n - 1].len() == most {
            assert(items[less as int].len() == most);
        } else {
            assert(less > 0);
            let i = choose|i: int|
                0 <= i < less && (#[trigger] items[i]).len() == listpack_members::longest(
                    items,
                    less,
                );
            assert(items[i].len() == most);
        }
    }
}

/// What may be an integer is a run of one to twenty digits, or of up to nineteen behind a minus
/// sign.
pub proof fn law_possible_integers(s: Seq<u8>, k: int)
    ensures
        s.len() == 0 || s.len() > 20 ==> !listpack_members::could_be_int(s),
        s == seq![45u8] ==> !listpack_members::could_be_int(s),
        0 <= k < s.len() && !(48 <= s[k] <= 57) && (k > 0 || s[0] != 45)
            ==> !listpack_members::could_be_int(s),
        0 < s.len() <= 20 && (forall|i: int| 0 <= i < s.len() ==> 48 <= #[trigger] s[i] <= 57)
            ==> listpack_members::could_be_int(s),
        1 < s.len() <= 20 && s[0] == 45 && (forall|i: int|
            0 < i < s.len() ==> 48 <= #[trigger] s[i] <= 57) ==> listpack_members::could_be_int(s),
{
    if s.len() > 0 && s[0] == 45 {
        let d = s.drop_first();
        assert forall|i: int| 0 <= i < d.len() implies d[i] == s[i + 1] by {}
        if 0 < k < s.len() && !(48 <= s[k] <= 57) {
            assert(d[k - 1] == s[k]);
        }
    }
}

} // verus!
