//! When a damaged log is repaired, and what is left of open transactions.

use vstd::prelude::*;

use crate::aof;
use crate::aof::{AofReplayTailFailure, ReplayView};
use crate::aof_tail;
use crate::aof_tail::{AofReplaySegmentPosition, AofReplayTailRepairPolicy, OutcomeView};
use crate::log_laws;
use crate::resp::RespParseError;

verus! {

// ---------------------------------------------------------------------------
// Repairs
// ---------------------------------------------------------------------------

/// What becomes of a log.
pub open spec fn outcome(
    data: Seq<u8>,
    position: AofReplaySegmentPosition,
    policy: AofReplayTailRepairPolicy,
) -> OutcomeView {
    aof_tail::outcome_of(aof::replay_of(data, 0), data.len() as int, position, policy)
}

/// A log is clean exactly where all of it is replayed. A damaged one is repaired exactly where
/// it is the last segment, repairs are allowed up to some number of bytes, and there are no
/// more bytes than that behind the last whole record; else it is given up on.
pub proof fn law_repaired_iff_within_bound(
    data: Seq<u8>,
    position: AofReplaySegmentPosition,
    policy: AofReplayTailRepairPolicy,
)
    ensures
        outcome(data, position, policy) is Clean <==> aof::replay_of(data, 0).1 is None,
        outcome(data, position, policy) is Repaired <==> (aof::replay_of(data, 0).1 matches Some(
            (at, _),
        ) && position is Final && (policy matches AofReplayTailRepairPolicy::BoundedFinalSegment {
            max_tail_bytes,
        } && data.len() - at <= max_tail_bytes)),
{
}

/// What is repaired under a bound is repaired in the same way under every greater one.
pub proof fn law_repair_grows_with_bound(
    data: Seq<u8>,
    position: AofReplaySegmentPosition,
    less: usize,
    more: usize,
)
    requires
        less <= more,
        outcome(
            data,
            position,
            AofReplayTailRepairPolicy::BoundedFinalSegment { max_tail_bytes: less },
        ) is Repaired,
    ensures
        outcome(
            data,
            position,
            AofReplayTailRepairPolicy::BoundedFinalSegment { max_tail_bytes: more },
        ) == outcome(
            data,
            position,
            AofReplayTailRepairPolicy::BoundedFinalSegment { max_tail_bytes: less },
        ),
{
}

/// Some bound repairs a damaged last segment: the number of bytes behind its last whole
/// record, and no lesser one.
pub proof fn law_least_bound(data: Seq<u8>, bound: usize)
    requires
        aof::replay_of(data, 0).1 is Some,
        data.len() <= usize::MAX,
    ensures
        ({
            let at = aof::replay_of(data, 0).1->Some_0.0;
            outcome(
                data,
                AofReplaySegmentPosition::Final,
                AofReplayTailRepairPolicy::BoundedFinalSegment { max_tail_bytes: bound },
            ) is Repaired <==> at + bound >= data.len()
        }),
{
}

/// The code of a giving up says why: the segment is not the last one, or the tail is too
/// long, or the repair is not allowed, or it is switched off.
pub proof fn law_reasons_for_giving_up(
    data: Seq<u8>,
    position: AofReplaySegmentPosition,
    policy: AofReplayTailRepairPolicy,
)
    ensures
        outcome(data, position, policy) matches OutcomeView::Fatal {
            records,
            offset,
            bytes,
            failure,
            reason,
        } ==> {
            &&& position is NonFinal ==> reason == "persist.replay.nonfinal_truncation_fatal"@
            &&& position is Final && policy is BoundedFinalSegment ==> reason
                == "persist.replay.tail_repair_bound_exceeded"@
            &&& position is Final && policy is HardenedNonAllowlisted ==> reason
                == "persist.hardened_nonallowlisted_rejected"@
            &&& position is Final && policy is Disabled ==> reason
                == "persist.replay.frame_parse_invalid"@
            &&& aof::replay_of(data, 0) == (records, Some((offset, failure)))
            &&& bytes == data.len() - offset
        },
        outcome(data, position, policy) matches OutcomeView::Repaired {
            records,
            offset,
            bytes,
            failure,
            reason,
            policy_reason,
        } ==> {
            &&& reason == "persist.replay.tail_truncate_recover"@
            &&& policy_reason == "persist.replay.repair_policy_applied"@
            &&& aof::replay_of(data, 0) == (records, Some((offset, failure)))
            &&& bytes == data.len() - offset
        },
{
}

/// A log that ends within a record is cut behind the record before it where the bound covers
/// what there is of it, and is given up on elsewhere.
pub proof fn law_torn_log_is_cut(
    records: Seq<Seq<Seq<u8>>>,
    last: Seq<Seq<u8>>,
    k: int,
    bound: usize,
)
    requires
        log_laws::all_replayable(records),
        aof::replayable(last),
        0 < k < aof::record_bytes(last).len(),
    ensures
        ({
            let whole = aof::stream_bytes(records);
            let data = whole + aof::record_bytes(last).take(k);
            let policy = AofReplayTailRepairPolicy::BoundedFinalSegment { max_tail_bytes: bound };
            &&& outcome(data, AofReplaySegmentPosition::NonFinal, policy) is Fatal
            &&& if k <= bound {
                outcome(data, AofReplaySegmentPosition::Final, policy) matches OutcomeView::Repaired {
                    records: kept,
                    offset,
                    bytes,
                    failure,
                    reason,
                    policy_reason,
                } && kept == aof::laid_out(records, 0) && offset == whole.len() && bytes == k
                    && failure == AofReplayTailFailure::Parse(RespParseError::Incomplete)
            } else {
                outcome(data, AofReplaySegmentPosition::Final, policy) matches OutcomeView::Fatal {
                    records: kept,
                    offset,
                    bytes,
                    failure,
                    reason,
                } && kept == aof::laid_out(records, 0) && offset == whole.len() && bytes == k
            }
        }),
{
    log_laws::law_torn_record(records, last, k);
}

/// A whole log is clean, whatever the policy.
pub proof fn law_whole_log_is_clean(
    records: Seq<Seq<Seq<u8>>>,
    position: AofReplaySegmentPosition,
    policy: AofReplayTailRepairPolicy,
)
    requires
        log_laws::all_replayable(records),
    ensures
        outcome(aof::stream_bytes(records), position, policy) == OutcomeView::Clean(
            aof::laid_out(records, 0),
        ),
{
    log_laws::law_log_round_trip(records);
}

// ---------------------------------------------------------------------------
// Transactions
// ---------------------------------------------------------------------------

/// The first argument is the word, given in capitals, with each letter in either case.
pub open spec fn says(argv: Seq<Seq<u8>>, word: Seq<u8>) -> bool {
    &&& argv.len() > 0
    &&& argv[0].len() == word.len()
    &&& forall|i: int|
        0 <= i < word.len() ==> #[trigger] argv[0][i] == word[i] || argv[0][i] == word[i] + 32
}

/// `MULTI` opens a transaction.
pub open spec fn opens(argv: Seq<Seq<u8>>) -> bool {
    says(argv, seq![77u8, 85u8, 76u8, 84u8, 73u8])
}

/// `EXEC` and `DISCARD` close a transaction.
pub open spec fn closes(argv: Seq<Seq<u8>>) -> bool {
    says(argv, seq![69u8, 88u8, 69u8, 67u8]) || says(
        argv,
        seq![68u8, 73u8, 83u8, 67u8, 65u8, 82u8, 68u8],
    )
}

proof fn lemma_says(argv: Seq<Seq<u8>>, upper: Seq<u8>, word: Seq<u8>)
    requires
        upper.len() == word.len(),
        forall|i: int| 0 <= i < upper.len() ==> 65 <= #[trigger] upper[i] <= 90 && word[i]
            == upper[i] + 32,
    ensures
        aof_tail::is_command(argv, word) <==> says(argv, upper),
{
    if aof_tail::is_command(argv, word) {
        assert forall|i: int| 0 <= i < upper.len() implies #[trigger] argv[0][i] == upper[i]
            || argv[0][i] == upper[i] + 32 by {
            assert(aof_tail::lower(argv[0][i]) == word[i]);
            assert(65 <= upper[i] <= 90);
        }
    }
    if says(argv, upper) {
        assert forall|i: int| 0 <= i < word.len() implies aof_tail::lower(#[trigger] argv[0][i])
            == word[i] by {
            assert(65 <= upper[i] <= 90);
        }
    }
}

proof fn lemma_commands(argv: Seq<Seq<u8>>)
    ensures
        aof_tail::is_command(argv, aof_tail::multi_word()) <==> opens(argv),
        (aof_tail::is_command(argv, aof_tail::exec_word()) || aof_tail::is_command(
            argv,
            aof_tail::discard_word(),
        )) <==> closes(argv),
        opens(argv) ==> !closes(argv),
{
    lemma_says(argv, seq![77u8, 85u8, 76u8, 84u8, 73u8], aof_tail::multi_word());
    lemma_says(argv, seq![69u8, 88u8, 69u8, 67u8], aof_tail::exec_word());
    lemma_says(
        argv,
        seq![68u8, 73u8, 83u8, 67u8, 65u8, 82u8, 68u8],
        aof_tail::discard_word(),
    );
}

/// No record of a sequence opens a transaction.
pub open spec fn none_opens(records: Seq<ReplayView>) -> bool {
    forall|i: int| 0 <= i < records.len() ==> !opens((#[trigger] records[i]).argv)
}

/// No record of a sequence closes a transaction.
pub open spec fn none_closes(records: Seq<ReplayView>) -> bool {
    forall|i: int| 0 <= i < records.len() ==> !closes((#[trigger] records[i]).argv)
}

/// Records of which none opens a transaction are left as they are.
pub proof fn law_records_without_transactions_are_kept(records: Seq<ReplayView>)
    requires
        none_opens(records),
    ensures
        aof_tail::trimmed(records) == (records, None::<int>),
    decreases records.len(),
{
    if records.len() > 0 {
        let front = records.drop_last();
        assert forall|i: int| 0 <= i < front.len() implies !opens((#[trigger] front[i]).argv) by {
            assert(front[i] == records[i]);
        }
        law_records_without_transactions_are_kept(front);
        lemma_commands(records.last().argv);
        assert(!opens(records[records.len() - 1].argv));
    }
}

/// Records with a transaction that is opened behind records that are left as they are, and
/// not closed, are cut in front of what opens it.
pub proof fn law_open_transaction_is_cut(
    before: Seq<ReplayView>,
    first: ReplayView,
    body: Seq<ReplayView>,
)
    requires
        aof_tail::trimmed(before).1 is None,
        opens(first.argv),
        none_closes(body),
    ensures
        aof_tail::trimmed(before + seq![first] + body) == (before, Some(first.start)),
    decreases body.len(),
{
    let all = before + seq![first] + body;
    lemma_open_index(before, first, body);
    assert(all.take(before.len() as int) =~= before);
    assert(all[before.len() as int] == first);
}

proof fn lemma_open_index(before: Seq<ReplayView>, first: ReplayView, body: Seq<ReplayView>)
    requires
        aof_tail::trimmed(before).1 is None,
        opens(first.argv),
        none_closes(body),
    ensures
        aof_tail::open_transaction(before + seq![first] + body) == Some(before.len() as int),
    decreases body.len(),
{
    let all = before + seq![first] + body;
    if body.len() == 0 {
        assert(all.drop_last() =~= before);
        lemma_commands(first.argv);
    } else {
        let front = body.drop_last();
        assert(all.drop_last() =~= before + seq![first] + front);
        assert forall|i: int| 0 <= i < front.len() implies !closes((#[trigger] front[i]).argv) by {
            assert(front[i] == body[i]);
        }
        lemma_open_index(before, first, front);
        lemma_commands(body.last().argv);
        assert(!closes(body[body.len() - 1].argv));
        assert(all.last() == body.last());
    }
}

/// A transaction that is closed leaves nothing to cut: records with one behind records that
/// are left as they are, and what closes it behind it, are left as they are.
pub proof fn law_closed_transaction_is_kept(
    before: Seq<ReplayView>,
    first: ReplayView,
    body: Seq<ReplayView>,
    last: ReplayView,
)
    requires
        aof_tail::trimmed(before).1 is None,
        opens(first.argv),
        none_closes(body),
        closes(last.argv),
    ensures
        aof_tail::trimmed(before + seq![first] + body + seq![last]) == (
            before + seq![first] + body + seq![last],
            None::<int>,
        ),
{
    let inner = before + seq![first] + body;
    let all = inner + seq![last];
    lemma_open_index(before, first, body);
    assert(all.drop_last() =~= inner);
    lemma_commands(last.argv);
}

/// A record behind records that are left as they are is left too, unless it opens a
/// transaction.
pub proof fn law_record_behind_is_kept(before: Seq<ReplayView>, last: ReplayView)
    requires
        aof_tail::trimmed(before).1 is None,
        !opens(last.argv),
    ensures
        aof_tail::trimmed(before + seq![last]) == (before + seq![last], None::<int>),
{
    let all = before + seq![last];
    assert(all.drop_last() =~= before);
    lemma_commands(last.argv);
}

} // verus!
