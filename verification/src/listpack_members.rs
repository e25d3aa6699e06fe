//! Packed sorted sets, members and scores in turn, and packed sets.

use vstd::prelude::*;

use crate::bytes::copy_window;
use crate::decimal;
use crate::decimal::decimal_i64_bytes;
use crate::listpack;
use crate::listpack::{
    decode_entry_raw, decode_listpack, parse_header, ListpackEntry, ListpackError,
    ListpackValueSpan, LpValue, RawKind, RawListpackValue, LISTPACK_HDR_NUMELE_UNKNOWN,
    LISTPACK_HEADER_SIZE,
};
use crate::order;
use crate::order::{has_equal_keys, SortKey};
use crate::score;
use crate::score::{text_is_double, text_is_nan, RdbScore, ScoreView};

verus! {

// ---------------------------------------------------------------------------
// What a packed sorted set says
// ---------------------------------------------------------------------------

/// What is wrong with a score, if anything. A score is an integer or the text of a
/// double; the strict reading takes no NaN, and reports a bad score as a truncated
/// entry.
pub open spec fn score_error(data: Seq<u8>, v: LpValue, strict: bool) -> Option<ListpackError> {
    match v {
        LpValue::Integer(_) => None,
        LpValue::Text(start, end) => {
            let text = data.subrange(start, end);
            if strict {
                if !score::is_double_text(text) || score::is_nan_text(text) {
                    Some(ListpackError::TruncatedEntry)
                } else {
                    None
                }
            } else if !score::is_double_text(text) {
                Some(ListpackError::InvalidScore)
            } else {
                None
            }
        },
    }
}

/// The score that a value stands for.
pub open spec fn score_view(data: Seq<u8>, v: LpValue) -> ScoreView {
    match v {
        LpValue::Integer(n) => ScoreView::Integer(n),
        LpValue::Text(start, end) => ScoreView::Decimal(data.subrange(start, end)),
    }
}

/// The pairs from `cursor` to `end`, behind those already found and the member that
/// still wants its score.
pub open spec fn pair_walk(
    data: Seq<u8>,
    cursor: int,
    end: int,
    strict: bool,
    found: Seq<(LpValue, LpValue)>,
    member: Option<LpValue>,
) -> Result<Seq<(LpValue, LpValue)>, ListpackError>
    decreases end - cursor,
{
    if cursor < end {
        proof {
            listpack::lemma_entry_at(data, cursor);
        }
        match listpack::entry_at(data, cursor) {
            Err(e) => Err(e),
            Ok((v, n)) => if cursor + n > end {
                Err(ListpackError::TruncatedEntry)
            } else {
                match member {
                    None => pair_walk(data, cursor + n, end, strict, found, Some(v)),
                    Some(m) => match score_error(data, v, strict) {
                        Some(e) => Err(e),
                        None => pair_walk(
                            data,
                            cursor + n,
                            end,
                            strict,
                            found.push((m, v)),
                            None,
                        ),
                    },
                }
            },
        }
    } else if cursor != end {
        Err(ListpackError::MissingTerminator)
    } else if member is Some {
        Err(ListpackError::ElementCountMismatch)
    } else {
        Ok(found)
    }
}

/// The pairs of a packed sorted set.
pub open spec fn pairs_of(data: Seq<u8>, strict: bool) -> Result<
    Seq<(LpValue, LpValue)>,
    ListpackError,
> {
    match listpack::header_of(data) {
        Err(e) => Err(e),
        Ok((total, count)) => match pair_walk(
            data,
            LISTPACK_HEADER_SIZE as int,
            data.len() - 1,
            strict,
            Seq::empty(),
            None,
        ) {
            Err(e) => Err(e),
            Ok(pairs) => if listpack::count_matches(count, 2 * pairs.len()) {
                Ok(pairs)
            } else {
                Err(ListpackError::ElementCountMismatch)
            },
        },
    }
}

/// The header says an odd number of entries.
pub open spec fn odd_count(data: Seq<u8>) -> bool {
    match listpack::header_of(data) {
        Err(_) => false,
        Ok((_, count)) => count != LISTPACK_HDR_NUMELE_UNKNOWN && count % 2 != 0,
    }
}

/// The pairs as a snapshot is loaded: an odd entry count is rejected before any entry
/// is looked at.
pub open spec fn loaded_pairs_of(data: Seq<u8>) -> Result<Seq<(LpValue, LpValue)>, ListpackError> {
    if odd_count(data) {
        Err(ListpackError::ElementCountMismatch)
    } else {
        pairs_of(data, false)
    }
}

// ---------------------------------------------------------------------------
// Reading pairs
// ---------------------------------------------------------------------------

fn check_score(data: &[u8], raw: RawListpackValue, strict: bool) -> (r: Option<ListpackError>)
    requires
        listpack::value_fits(data@, raw@),
    ensures
        r == score_error(data@, raw@, strict),
{
    match raw.kind() {
        RawKind::Integer(_) => None,
        RawKind::String(range) => {
            let text: &[u8] = &data[range.start as usize..range.end as usize];
            if strict {
                if !text_is_double(text) || text_is_nan(text) {
                    Some(ListpackError::TruncatedEntry)
                } else {
                    None
                }
            } else if !text_is_double(text) {
                Some(ListpackError::InvalidScore)
            } else {
                None
            }
        },
    }
}

/// The pairs say what the values of the pack are.
pub open spec fn raw_pairs_match(
    raws: Seq<(RawListpackValue, RawListpackValue)>,
    pairs: Seq<(LpValue, LpValue)>,
) -> bool {
    &&& raws.len() == pairs.len()
    &&& forall|i: int|
        0 <= i < pairs.len() ==> (#[trigger] raws[i]).0@ == pairs[i].0 && raws[i].1@ == pairs[i].1
}

/// Every member and score lies inside the pack.
pub open spec fn pairs_fit(data: Seq<u8>, pairs: Seq<(LpValue, LpValue)>) -> bool {
    forall|i: int|
        0 <= i < pairs.len() ==> listpack::value_fits(data, (#[trigger] pairs[i]).0)
            && listpack::value_fits(data, pairs[i].1)
}

/// Reads the pairs, two entries at a time.
fn read_pairs(data: &[u8], strict: bool) -> (r: Result<
    Vec<(RawListpackValue, RawListpackValue)>,
    ListpackError,
>)
    ensures
        match pairs_of(data@, strict) {
            Ok(pairs) => r matches Ok(raws) && raw_pairs_match(raws@, pairs) && pairs_fit(
                data@,
                pairs,
            ),
            Err(e) => r == Err::<Vec<(RawListpackValue, RawListpackValue)>, ListpackError>(e),
        },
{
    let (_, count) = match parse_header(data) {
        Err(e) => {
            return Err(e);
        },
        Ok(header) => header,
    };
    let end: usize = data.len() - 1;
    let mut cursor: usize = LISTPACK_HEADER_SIZE;
    let mut raws: Vec<(RawListpackValue, RawListpackValue)> = Vec::new();
    let mut entries: u64 = 0;
    let ghost mut found = Seq::<(LpValue, LpValue)>::empty();
    let ghost start = LISTPACK_HEADER_SIZE as int;
    while cursor < end
        invariant
            end == data@.len() - 1,
            data@.len() <= u32::MAX,
            raw_pairs_match(raws@, found),
            pairs_fit(data@, found),
            entries == 2 * found.len(),
            entries <= cursor <= end || (entries == 0 && cursor == start),
            pair_walk(data@, cursor as int, end as int, strict, found, None) == pair_walk(
                data@,
                start,
                end as int,
                strict,
                Seq::empty(),
                None,
            ),
            listpack::header_of(data@) is Ok,
            start == LISTPACK_HEADER_SIZE,
        decreases end - cursor,
    {
        proof {
            listpack::lemma_entry_at(data@, cursor as int);
        }
        let (member, n) = match decode_entry_raw(data, cursor) {
            Err(e) => {
                return Err(e);
            },
            Ok(entry) => entry,
        };
        if n > end - cursor {
            return Err(ListpackError::TruncatedEntry);
        }
        let middle: usize = cursor + n;
        assert(pair_walk(data@, middle as int, end as int, strict, found, Some(member@))
            == pair_walk(data@, start, end as int, strict, Seq::empty(), None));
        if middle >= end {
            return Err(ListpackError::ElementCountMismatch);
        }
        proof {
            listpack::lemma_entry_at(data@, middle as int);
        }
        let (score, k) = match decode_entry_raw(data, middle) {
            Err(e) => {
                return Err(e);
            },
            Ok(entry) => entry,
        };
        if k > end - middle {
            return Err(ListpackError::TruncatedEntry);
        }
        if let Some(e) = check_score(data, score, strict) {
            return Err(e);
        }
        proof {
            found = found.push((member@, score@));
        }
        raws.push((member, score));
        entries = entries + 2;
        cursor = middle + k;
    }
    if cursor != end {
        return Err(ListpackError::MissingTerminator);
    }
    if count != LISTPACK_HDR_NUMELE_UNKNOWN && entries != count as u64 {
        return Err(ListpackError::ElementCountMismatch);
    }
    Ok(raws)
}

fn member_bytes(data: &[u8], raw: RawListpackValue) -> (out: Vec<u8>)
    requires
        listpack::value_fits(data@, raw@),
    ensures
        out@ == listpack::value_bytes(data@, raw@),
{
    match raw.kind() {
        RawKind::Integer(n) => decimal_i64_bytes(n),
        RawKind::String(range) => copy_window(data, range.start as usize, range.end as usize),
    }
}

fn score_of(data: &[u8], raw: RawListpackValue) -> (score: RdbScore)
    requires
        listpack::value_fits(data@, raw@),
    ensures
        score@ == score_view(data@, raw@),
{
    match raw.kind() {
        RawKind::Integer(n) => RdbScore::Integer(n),
        RawKind::String(range) => RdbScore::Decimal(
            copy_window(data, range.start as usize, range.end as usize),
        ),
    }
}

/// The decoded pairs say what the pairs of the pack stand for.
pub open spec fn members_match(
    data: Seq<u8>,
    members: Seq<(Vec<u8>, RdbScore)>,
    pairs: Seq<(LpValue, LpValue)>,
) -> bool {
    &&& members.len() == pairs.len()
    &&& forall|i: int|
        0 <= i < pairs.len() ==> (#[trigger] members[i]).0@ == listpack::value_bytes(
            data,
            pairs[i].0,
        ) && members[i].1@ == score_view(data, pairs[i].1)
}

/// Reads the members and scores of a packed sorted set.
pub fn decode_zset_listpack_pairs(data: &[u8]) -> (r: Result<
    Vec<(Vec<u8>, RdbScore)>,
    ListpackError,
>)
    ensures
        match loaded_pairs_of(data@) {
            Ok(pairs) => r matches Ok(members) && members_match(data@, members@, pairs),
            Err(e) => r == Err::<Vec<(Vec<u8>, RdbScore)>, ListpackError>(e),
        },
{
    let (_, count) = match parse_header(data) {
        Err(e) => {
            return Err(e);
        },
        Ok(header) => header,
    };
    if count != LISTPACK_HDR_NUMELE_UNKNOWN && count % 2 != 0 {
        return Err(ListpackError::ElementCountMismatch);
    }
    let raws: Vec<(RawListpackValue, RawListpackValue)> = match read_pairs(data, false) {
        Err(e) => {
            return Err(e);
        },
        Ok(raws) => raws,
    };
    let ghost pairs = pairs_of(data@, false)->Ok_0;
    let mut members: Vec<(Vec<u8>, RdbScore)> = Vec::new();
    let mut i: usize = 0;
    while i < raws.len()
        invariant
            i <= raws@.len(),
            raw_pairs_match(raws@, pairs),
            pairs_fit(data@, pairs),
            members_match(data@, members@, pairs.take(i as int)),
        decreases raws@.len() - i,
    {
        let (member, score) = raws[i];
        assert(raws@[i as int].0@ == pairs[i as int].0);
        assert(listpack::value_fits(data@, pairs[i as int].0));
        members.push((member_bytes(data, member), score_of(data, score)));
        i = i + 1;
    }
    assert(pairs.take(i as int) =~= pairs);
    Ok(members)
}

/// As [`decode_zset_listpack_pairs`], by way of the decoded entries. It accepts the
/// same packs with the same members and scores; of several faults in one pack it may
/// report another.
pub fn decode_zset_listpack_pairs_orig(data: &[u8]) -> (r: Result<
    Vec<(Vec<u8>, RdbScore)>,
    ListpackError,
>)
    ensures
        match listpack::values_of(data@) {
            Err(e) => r == Err::<Vec<(Vec<u8>, RdbScore)>, ListpackError>(e),
            Ok(values) => match paired(data@, values) {
                Ok(pairs) => r matches Ok(members) && members_match(data@, members@, pairs),
                Err(e) => r == Err::<Vec<(Vec<u8>, RdbScore)>, ListpackError>(e),
            },
        },
{
    let entries: Vec<ListpackEntry> = match decode_listpack(data) {
        Err(e) => {
            return Err(e);
        },
        Ok(entries) => entries,
    };
    let ghost values = listpack::values_of(data@)->Ok_0;
    if entries.len() % 2 != 0 {
        return Err(ListpackError::ElementCountMismatch);
    }
    let mut members: Vec<(Vec<u8>, RdbScore)> = Vec::new();
    let mut i: usize = 0;
    while i < entries.len()
        invariant
            entries@.len() % 2 == 0,
            i % 2 == 0,
            i <= entries@.len(),
            values.len() == entries@.len(),
            listpack::values_of(data@) == Ok::<Seq<LpValue>, ListpackError>(values),
            listpack::entries_match(data@, entries@, values),
            members@.len() == i / 2,
            members_match(data@, members@, pairs_upto(values, (i / 2) as nat)),
            forall|k: int|
                0 <= k < i / 2 ==> score_error(data@, #[trigger] values[2 * k + 1], false) is None,
        decreases entries@.len() - i,
    {
        assert(entries@[i as int]@ == listpack::value_entry(data@, values[i as int]));
        assert(entries@[i + 1]@ == listpack::value_entry(data@, values[i + 1]));
        let score = match &entries[i + 1] {
            ListpackEntry::Integer(n) => RdbScore::Integer(*n),
            ListpackEntry::String(text) => {
                if !text_is_double(text.as_slice()) {
                    proof {
                        let k = (i / 2) as int;
                        assert(values[2 * k + 1] == values[i + 1]);
                        assert(score_error(data@, values[2 * k + 1], false) is Some);
                    }
                    return Err(ListpackError::InvalidScore);
                }
                RdbScore::Decimal(crate::bytes::copy_bytes(text.as_slice()))
            },
        };
        assert(score@ == score_view(data@, values[i + 1]));
        let member: Vec<u8> = entries[i].to_bytes();
        let ghost before = pairs_upto(values, (i / 2) as nat);
        proof {
            assert(2 * (i / 2) == i);
            assert(pairs_upto(values, (i / 2 + 1) as nat) =~= before.push(
                (values[i as int], values[i + 1]),
            ));
        }
        members.push((member, score));
        i = i + 2;
    }
    assert(pairs_upto(values, (values.len() / 2) as nat) == pairs_upto(values, (i / 2) as nat));
    Ok(members)
}

/// The first `n` pairs of a flat sequence.
pub open spec fn pairs_upto(values: Seq<LpValue>, n: nat) -> Seq<(LpValue, LpValue)> {
    Seq::new(n, |k: int| (values[2 * k], values[2 * k + 1]))
}

/// The values in pairs, if their number is even and every score is one.
pub open spec fn paired(data: Seq<u8>, values: Seq<LpValue>) -> Result<
    Seq<(LpValue, LpValue)>,
    ListpackError,
> {
    if values.len() % 2 != 0 {
        Err(ListpackError::ElementCountMismatch)
    } else if exists|k: int|
        0 <= k < values.len() / 2 && score_error(data, #[trigger] values[2 * k + 1], false) is Some {
        Err(ListpackError::InvalidScore)
    } else {
        Ok(pairs_upto(values, values.len() / 2))
    }
}

proof fn lemma_walks_agree(
    data: Seq<u8>,
    cursor: int,
    end: int,
    found: Seq<(LpValue, LpValue)>,
    member: Option<LpValue>,
    flat: Seq<LpValue>,
)
    requires
        flat.len() == 2 * found.len() + (if member is Some {
            1int
        } else {
            0int
        }),
        forall|k: int|
            0 <= k < found.len() ==> flat[2 * k] == (#[trigger] found[k]).0 && flat[2 * k + 1]
                == found[k].1 && score_error(data, found[k].1, false) is None,
        member matches Some(m) ==> flat.last() == m,
    ensures
        match pair_walk(data, cursor, end, false, found, member) {
            Ok(pairs) => listpack::walk(data, cursor, end, flat) matches Ok(values) && paired(
                data,
                values,
            ) == Ok::<Seq<(LpValue, LpValue)>, ListpackError>(pairs),
            Err(_) => listpack::walk(data, cursor, end, flat) matches Ok(values) ==> paired(
                data,
                values,
            ) is Err,
        },
    decreases end - cursor,
{
    if cursor < end {
        listpack::lemma_entry_at(data, cursor);
        if let Ok((v, n)) = listpack::entry_at(data, cursor) {
            if cursor + n <= end {
                let longer = flat.push(v);
                match member {
                    None => {
                        lemma_walks_agree(data, cursor + n, end, found, Some(v), longer);
                    },
                    Some(m) => {
                        if score_error(data, v, false) is None {
                            let more = found.push((m, v));
                            assert forall|k: int| 0 <= k < more.len() implies longer[2 * k] == (
                            #[trigger] more[k]).0 && longer[2 * k + 1] == more[k].1 && score_error(
                                data,
                                more[k].1,
                                false,
                            ) is None by {
                                if k < found.len() {
                                    assert(more[k] == found[k]);
                                } else {
                                    assert(longer[2 * k] == flat.last());
                                }
                            }
                            lemma_walks_agree(data, cursor + n, end, more, None, longer);
                        } else {
                            listpack::lemma_walk_extends(data, cursor + n, end, longer);
                            if let Ok(values) = listpack::walk(data, cursor + n, end, longer) {
                                let k = found.len() as int;
                                assert(longer[2 * k + 1] == v);
                                assert(values[2 * k + 1] == longer[2 * k + 1]);
                                if values.len() % 2 == 0 {
                                    assert(score_error(data, values[2 * k + 1], false) is Some);
                                }
                            }
                        }
                    },
                }
            }
        }
    } else if cursor == end && member is None {
        assert(flat.len() / 2 == found.len());
        assert(pairs_upto(flat, flat.len() / 2) =~= found) by {
            assert forall|k: int| 0 <= k < found.len() implies pairs_upto(flat, flat.len() / 2)[k]
                == found[k] by {
                assert(flat[2 * k] == found[k].0);
            }
        }
        assert forall|k: int| 0 <= k < flat.len() / 2 implies score_error(
            data,
            #[trigger] flat[2 * k + 1],
            false,
        ) is None by {
            assert(flat[2 * k + 1] == found[k].1);
        }
    }
}

/// Reading a packed sorted set pair by pair, and pairing its decoded entries, accept
/// the same packs and give the same members and scores.
pub proof fn law_zset_readings_agree(data: Seq<u8>)
    ensures
        match loaded_pairs_of(data) {
            Ok(pairs) => listpack::values_of(data) matches Ok(values) && paired(data, values)
                == Ok::<Seq<(LpValue, LpValue)>, ListpackError>(pairs),
            Err(_) => listpack::values_of(data) matches Ok(values) ==> paired(data, values) is Err,
        },
{
    if listpack::header_of(data) is Ok {
        lemma_walks_agree(
            data,
            LISTPACK_HEADER_SIZE as int,
            data.len() - 1,
            Seq::empty(),
            None,
            Seq::empty(),
        );
    }
}

// ---------------------------------------------------------------------------
// Spans and scores
// ---------------------------------------------------------------------------

/// The decoded pairs stand for the pairs of the pack.
pub open spec fn span_pairs_match(
    data: Seq<u8>,
    spans: Seq<(ListpackValueSpan, RdbScore)>,
    pairs: Seq<(LpValue, LpValue)>,
) -> bool {
    &&& spans.len() == pairs.len()
    &&& forall|i: int|
        0 <= i < pairs.len() ==> (#[trigger] spans[i]).0.stands_for(pairs[i].0) && spans[i].1@
            == score_view(data, pairs[i].1)
}

/// Reads the members of a packed sorted set as spans, with their scores. A score
/// that is no number, or a NaN, counts as a truncated entry.
pub fn decode_zset_spans_and_scores(data: &[u8]) -> (r: Result<
    Vec<(ListpackValueSpan, RdbScore)>,
    ListpackError,
>)
    ensures
        match pairs_of(data@, true) {
            Ok(pairs) => r matches Ok(spans) && span_pairs_match(data@, spans@, pairs),
            Err(e) => r == Err::<Vec<(ListpackValueSpan, RdbScore)>, ListpackError>(e),
        },
{
    let raws: Vec<(RawListpackValue, RawListpackValue)> = match read_pairs(data, true) {
        Err(e) => {
            return Err(e);
        },
        Ok(raws) => raws,
    };
    let ghost pairs = pairs_of(data@, true)->Ok_0;
    let mut spans: Vec<(ListpackValueSpan, RdbScore)> = Vec::new();
    let mut i: usize = 0;
    while i < raws.len()
        invariant
            i <= raws@.len(),
            raw_pairs_match(raws@, pairs),
            pairs_fit(data@, pairs),
            span_pairs_match(data@, spans@, pairs.take(i as int)),
        decreases raws@.len() - i,
    {
        let (member, score) = raws[i];
        assert(raws@[i as int].0@ == pairs[i as int].0);
        assert(listpack::value_fits(data@, pairs[i as int].0));
        spans.push((ListpackValueSpan::of_raw(member), score_of(data, score)));
        i = i + 1;
    }
    assert(pairs.take(i as int) =~= pairs);
    Ok(spans)
}

/// As [`decode_zset_spans_and_scores`], one entry at a time with the member kept
/// between them.
pub fn decode_zset_spans_and_scores_orig(data: &[u8]) -> (r: Result<
    Vec<(ListpackValueSpan, RdbScore)>,
    ListpackError,
>)
    ensures
        match pairs_of(data@, true) {
            Ok(pairs) => r matches Ok(spans) && span_pairs_match(data@, spans@, pairs),
            Err(e) => r == Err::<Vec<(ListpackValueSpan, RdbScore)>, ListpackError>(e),
        },
{
    let (_, count) = match parse_header(data) {
        Err(e) => {
            return Err(e);
        },
        Ok(header) => header,
    };
    let end: usize = data.len() - 1;
    let mut cursor: usize = LISTPACK_HEADER_SIZE;
    let mut spans: Vec<(ListpackValueSpan, RdbScore)> = Vec::new();
    let mut pending: Option<RawListpackValue> = None;
    let mut entries: u64 = 0;
    let ghost mut found = Seq::<(LpValue, LpValue)>::empty();
    let ghost start = LISTPACK_HEADER_SIZE as int;
    while cursor < end
        invariant
            end == data@.len() - 1,
            data@.len() <= u32::MAX,
            span_pairs_match(data@, spans@, found),
            entries == 2 * found.len() + (if pending is Some {
                1int
            } else {
                0int
            }),
            entries <= cursor <= end || (entries == 0 && cursor == start),
            pair_walk(
                data@,
                cursor as int,
                end as int,
                true,
                found,
                match pending {
                    Some(m) => Some(m@),
                    None => None,
                },
            ) == pair_walk(data@, start, end as int, true, Seq::empty(), None),
            listpack::header_of(data@) is Ok,
            start == LISTPACK_HEADER_SIZE,
        decreases end - cursor,
    {
        proof {
            listpack::lemma_entry_at(data@, cursor as int);
        }
        let (raw, n) = match decode_entry_raw(data, cursor) {
            Err(e) => {
                return Err(e);
            },
            Ok(entry) => entry,
        };
        entries = entries + 1;
        if n > end - cursor {
            return Err(ListpackError::TruncatedEntry);
        }
        match pending {
            None => {
                pending = Some(raw);
            },
            Some(member) => {
                if let Some(e) = check_score(data, raw, true) {
                    return Err(e);
                }
                proof {
                    found = found.push((member@, raw@));
                }
                spans.push((ListpackValueSpan::of_raw(member), score_of(data, raw)));
                pending = None;
            },
        }
        cursor = cursor + n;
    }
    if cursor != end {
        return Err(ListpackError::MissingTerminator);
    }
    if pending.is_some() {
        return Err(ListpackError::ElementCountMismatch);
    }
    if count != LISTPACK_HDR_NUMELE_UNKNOWN && entries != count as u64 {
        return Err(ListpackError::ElementCountMismatch);
    }
    Ok(spans)
}

// ---------------------------------------------------------------------------
// Shape
// ---------------------------------------------------------------------------

/// What a packed sorted set looks like.
#[derive(Debug, Clone, Copy, PartialEq, Eq)]
pub struct ZsetListpackShape {
    /// Number of members.
    pub pair_count: usize,
    /// Length of the longest member.
    pub max_member_len: usize,
    /// Some member occurs twice.
    pub has_duplicate_member: bool,
}

/// The length of the longest of the first `n` byte strings.
pub open spec fn longest(items: Seq<Seq<u8>>, n: nat) -> nat
    decreases n,
{
    if n == 0 {
        0
    } else {
        let before = longest(items, (n - 1) as nat);
        if items[n - 1].len() > before {
            items[n - 1].len()
        } else {
            before
        }
    }
}

/// Some byte string occurs twice.
pub open spec fn repeats(items: Seq<Seq<u8>>) -> bool {
    exists|a: int, b: int| 0 <= a < b < items.len() && #[trigger] items[a] == #[trigger] items[b]
}

/// The members of the pairs.
pub open spec fn pair_members(data: Seq<u8>, pairs: Seq<(LpValue, LpValue)>) -> Seq<Seq<u8>> {
    pairs.map_values(|p: (LpValue, LpValue)| listpack::value_bytes(data, p.0))
}

/// The length of the longest of the byte strings that the spans stand for.
pub(crate) fn longest_span(data: &[u8], spans: &[ListpackValueSpan], Ghost(items): Ghost<Seq<Seq<u8>>>) -> (n: usize)
    requires
        spans@.len() == items.len(),
        forall|i: int|
            0 <= i < items.len() ==> (#[trigger] spans@[i]).fits(data@) && spans@[i].bytes_in(data@)
                == items[i],
    ensures
        n == longest(items, items.len()),
{
    let mut n: usize = 0;
    let mut i: usize = 0;
    while i < spans.len()
        invariant
            i <= spans@.len(),
            spans@.len() == items.len(),
            forall|i: int|
                0 <= i < items.len() ==> (#[trigger] spans@[i]).fits(data@) && spans@[i].bytes_in(
                    data@,
                ) == items[i],
            n == longest(items, i as nat),
        decreases spans@.len() - i,
    {
        assert(spans@[i as int].fits(data@));
        let len: usize = spans[i].byte_len();
        if len > n {
            n = len;
        }
        i = i + 1;
    }
    n
}

/// Whether two spans stand for the same byte string.
pub(crate) fn spans_repeat(data: &[u8], spans: &[ListpackValueSpan], Ghost(items): Ghost<Seq<Seq<u8>>>) -> (r: bool)
    requires
        spans@.len() == items.len(),
        forall|i: int|
            0 <= i < items.len() ==> (#[trigger] spans@[i]).fits(data@) && spans@[i].bytes_in(data@)
                == items[i],
    ensures
        r == repeats(items),
{
    let mut keys: Vec<SortKey> = Vec::new();
    let mut i: usize = 0;
    while i < spans.len()
        invariant
            i <= spans@.len(),
            spans@.len() == items.len(),
            forall|i: int|
                0 <= i < items.len() ==> (#[trigger] spans@[i]).fits(data@) && spans@[i].bytes_in(
                    data@,
                ) == items[i],
            keys@.len() == i,
            forall|k: int|
                0 <= k < i ==> (#[trigger] keys@[k])@ == (order::KeyView {
                    major: 0,
                    minor: 0,
                    bytes: items[k],
                }),
        decreases spans@.len() - i,
    {
        assert(spans@[i as int].fits(data@));
        keys.push(SortKey { major: 0, minor: 0, bytes: spans[i].as_bytes(data) });
        i = i + 1;
    }
    let r: bool = has_equal_keys(keys.as_slice());
    proof {
        if repeats(items) {
            let (a, b) = choose|a: int, b: int|
                0 <= a < b < items.len() && #[trigger] items[a] == #[trigger] items[b];
            assert(keys@[a]@ == keys@[b]@);
        }
        if r {
            let (a, b) = choose|a: int, b: int|
                0 <= a < b < keys@.len() && #[trigger] keys@[a]@ == #[trigger] keys@[b]@;
            assert(items[a] == items[b]);
        }
    }
    r
}

/// Checks a packed sorted set and tells its shape. It accepts and rejects exactly
/// what [`decode_zset_listpack_pairs`] does.
pub fn zset_listpack_shape(data: &[u8]) -> (r: Result<ZsetListpackShape, ListpackError>)
    ensures
        match loaded_pairs_of(data@) {
            Ok(pairs) => {
                let members = pair_members(data@, pairs);
                r matches Ok(shape) && shape.pair_count == pairs.len() && shape.max_member_len
                    == longest(members, members.len()) && shape.has_duplicate_member == repeats(
                    members,
                )
            },
            Err(e) => r == Err::<ZsetListpackShape, ListpackError>(e),
        },
{
    let (_, count) = match parse_header(data) {
        Err(e) => {
            return Err(e);
        },
        Ok(header) => header,
    };
    if count != LISTPACK_HDR_NUMELE_UNKNOWN && count % 2 != 0 {
        return Err(ListpackError::ElementCountMismatch);
    }
    let raws: Vec<(RawListpackValue, RawListpackValue)> = match read_pairs(data, false) {
        Err(e) => {
            return Err(e);
        },
        Ok(raws) => raws,
    };
    let ghost pairs = pairs_of(data@, false)->Ok_0;
    let ghost members = pair_members(data@, pairs);
    let mut spans: Vec<ListpackValueSpan> = Vec::new();
    let mut i: usize = 0;
    while i < raws.len()
        invariant
            i <= raws@.len(),
            raw_pairs_match(raws@, pairs),
            pairs_fit(data@, pairs),
            members == pair_members(data@, pairs),
            spans@.len() == i,
            forall|k: int|
                0 <= k < i ==> (#[trigger] spans@[k]).fits(data@) && spans@[k].bytes_in(data@)
                    == members[k],
        decreases raws@.len() - i,
    {
        assert(raws@[i as int].0@ == pairs[i as int].0);
        assert(listpack::value_fits(data@, pairs[i as int].0));
        let span = ListpackValueSpan::of_raw(raws[i].0);
        spans.push(span);
        i = i + 1;
    }
    Ok(
        ZsetListpackShape {
            pair_count: raws.len(),
            max_member_len: longest_span(data, spans.as_slice(), Ghost(members)),
            has_duplicate_member: spans_repeat(data, spans.as_slice(), Ghost(members)),
        },
    )
}

// ---------------------------------------------------------------------------
// Packed sets
// ---------------------------------------------------------------------------

/// What a packed set looks like.
#[derive(Debug, Clone, Copy, PartialEq, Eq)]
pub struct SetListpackShape {
    /// Number of members.
    pub member_count: usize,
    /// Length of the longest member.
    pub max_member_len: usize,
    /// Some member occurs twice.
    pub has_duplicate_member: bool,
    /// Some member is stored as an integer, or is text that might be read as one.
    pub has_possible_int_member: bool,
}

/// At most twenty bytes: digits, at least one, behind an optional minus sign.
pub open spec fn could_be_int(s: Seq<u8>) -> bool {
    let digits = if s.len() > 0 && s[0] == 45 {
        s.drop_first()
    } else {
        s
    };
    s.len() <= 20 && digits.len() > 0 && decimal::all_digits(digits)
}

/// The member is an integer, or text that might be read as one.
pub open spec fn possible_int(data: Seq<u8>, v: LpValue) -> bool {
    match v {
        LpValue::Integer(_) => true,
        LpValue::Text(start, end) => could_be_int(data.subrange(start, end)),
    }
}

/// The members of a packed set.
pub open spec fn set_members(data: Seq<u8>, values: Seq<LpValue>) -> Seq<Seq<u8>> {
    values.map_values(|v: LpValue| listpack::value_bytes(data, v))
}

/// Whether the text might be read as an integer.
pub fn member_could_be_int(s: &[u8]) -> (r: bool)
    ensures
        r == could_be_int(s@),
{
    if s.len() == 0 || s.len() > 20 {
        return false;
    }
    let start: usize = if s[0] == 45 {
        1
    } else {
        0
    };
    if start == s.len() {
        return false;
    }
    let ghost digits = if s@[0] == 45 {
        s@.drop_first()
    } else {
        s@
    };
    let mut i: usize = start;
    while i < s.len()
        invariant
            start <= i <= s@.len() <= 20,
            start <= 1,
            digits == s@.skip(start as int),
            start == (if s@[0] == 45 {
                1int
            } else {
                0int
            }),
            digits == (if s@[0] == 45 {
                s@.drop_first()
            } else {
                s@
            }),
            forall|k: int| 0 <= k < i - start ==> 48 <= #[trigger] digits[k] <= 57,
        decreases s@.len() - i,
    {
        assert(digits[i - start] == s@[i as int]);
        if s[i] < 48 || s[i] > 57 {
            return false;
        }
        i = i + 1;
    }
    true
}

/// Text that might be read as an integer is all that has a decimal reading: the text
/// of any `i64` qualifies.
pub proof fn law_int_text_is_possible(v: i64)
    ensures
        could_be_int(decimal::dec_int(v as int)),
{
    let m: nat = if v < 0 {
        (-v) as nat
    } else {
        v as nat
    };
    decimal::lemma_dec_nat(m);
    decimal::lemma_dec_nat_len(m);
    let s = decimal::dec_int(v as int);
    if v < 0 {
        assert(s.drop_first() =~= decimal::dec_nat(m));
    }
}

/// Checks a packed set and tells its shape. It accepts and rejects exactly what
/// [`decode_listpack`] does.
pub fn set_listpack_shape(data: &[u8]) -> (r: Result<SetListpackShape, ListpackError>)
    ensures
        match listpack::values_of(data@) {
            Ok(values) => {
                let members = set_members(data@, values);
                r matches Ok(shape) && shape.member_count == values.len() && shape.max_member_len
                    == longest(members, members.len()) && shape.has_duplicate_member == repeats(
                    members,
                ) && shape.has_possible_int_member == (exists|i: int|
                    0 <= i < values.len() && possible_int(data@, #[trigger] values[i]))
            },
            Err(e) => r == Err::<SetListpackShape, ListpackError>(e),
        },
{
    let spans: Vec<ListpackValueSpan> = match listpack::decode_value_spans(data) {
        Err(e) => {
            return Err(e);
        },
        Ok(spans) => spans,
    };
    let ghost values = listpack::values_of(data@)->Ok_0;
    let ghost members = set_members(data@, values);
    proof {
        listpack::law_values_fit(data@);
        assert forall|i: int| 0 <= i < members.len() implies (#[trigger] spans@[i]).fits(data@)
            && spans@[i].bytes_in(data@) == members[i] by {
            assert(spans@[i].stands_for(values[i]));
            assert(listpack::value_fits(data@, values[i]));
        }
    }
    let mut possible: bool = false;
    let mut i: usize = 0;
    while i < spans.len()
        invariant
            i <= spans@.len() == values.len(),
            members == set_members(data@, values),
            listpack::spans_match(spans@, values),
            forall|i: int|
                0 <= i < members.len() ==> (#[trigger] spans@[i]).fits(data@) && spans@[i].bytes_in(
                    data@,
                ) == members[i],
            possible == (exists|k: int|
                0 <= k < i && possible_int(data@, #[trigger] values[k])),
        decreases spans@.len() - i,
    {
        assert(spans@[i as int].stands_for(values[i as int]));
        assert(spans@[i as int].fits(data@));
        let here: bool = if spans[i].is_string_encoded() {
            member_could_be_int(spans[i].as_bytes(data))
        } else {
            true
        };
        assert(here == possible_int(data@, values[i as int]));
        possible = possible || here;
        i = i + 1;
    }
    Ok(
        SetListpackShape {
            member_count: spans.len(),
            max_member_len: longest_span(data, spans.as_slice(), Ghost(members)),
            has_duplicate_member: spans_repeat(data, spans.as_slice(), Ghost(members)),
            has_possible_int_member: possible,
        },
    )
}

} // verus!
