//! Damaged ends of command logs: what to cut off, and what to give up on.

use vstd::prelude::*;

use crate::aof;
use crate::aof::{replay, AofReplayRecord, AofReplayTailFailure, Replay, ReplayView};

verus! {

/// Where a segment stands in its log.
#[derive(Debug, Clone, Copy, PartialEq, Eq)]
pub enum AofReplaySegmentPosition {
    Final,
    NonFinal,
}

/// What may be cut off.
#[derive(Debug, Clone, Copy, PartialEq, Eq)]
pub enum AofReplayTailRepairPolicy {
    /// Nothing.
    Disabled,
    /// So many bytes at the end of the last segment.
    BoundedFinalSegment { max_tail_bytes: usize },
    /// Nothing, because the repair is not allowed.
    HardenedNonAllowlisted,
}

/// A log whose end was cut off.
#[derive(Debug, Clone, PartialEq, Eq)]
pub struct AofReplayTailRepair {
    pub records: Vec<AofReplayRecord>,
    pub truncated_from_offset: usize,
    pub truncated_bytes: usize,
    pub failure: AofReplayTailFailure,
    pub reason_code: &'static str,
    pub policy_reason_code: &'static str,
}

/// A log that is given up on.
#[derive(Debug, Clone, PartialEq, Eq)]
pub struct AofReplayTailFatal {
    pub records: Vec<AofReplayRecord>,
    pub failure_offset: usize,
    pub trailing_bytes: usize,
    pub failure: AofReplayTailFailure,
    pub reason_code: &'static str,
}

/// What becomes of a log.
#[derive(Debug, Clone, PartialEq, Eq)]
pub enum AofReplayTailRepairOutcome {
    Clean { records: Vec<AofReplayRecord> },
    Repaired(AofReplayTailRepair),
    Fatal(AofReplayTailFatal),
}

/// What becomes of a log: nothing, its end is cut off, or it is given up on. A cut and
/// a giving up say from where, how many bytes, why, and under which code.
#[verifier::ext_equal]
pub enum OutcomeView {
    Clean(Seq<ReplayView>),
    Repaired {
        records: Seq<ReplayView>,
        offset: int,
        bytes: int,
        failure: AofReplayTailFailure,
        reason: Seq<char>,
        policy_reason: Seq<char>,
    },
    Fatal {
        records: Seq<ReplayView>,
        offset: int,
        bytes: int,
        failure: AofReplayTailFailure,
        reason: Seq<char>,
    },
}

impl View for AofReplayTailRepairOutcome {
    type V = OutcomeView;

    open spec fn view(&self) -> OutcomeView {
        match *self {
            AofReplayTailRepairOutcome::Clean { records } => OutcomeView::Clean(
                aof::replay_views(records@),
            ),
            AofReplayTailRepairOutcome::Repaired(r) => OutcomeView::Repaired {
                records: aof::replay_views(r.records@),
                offset: r.truncated_from_offset as int,
                bytes: r.truncated_bytes as int,
                failure: r.failure,
                reason: r.reason_code@,
                policy_reason: r.policy_reason_code@,
            },
            AofReplayTailRepairOutcome::Fatal(f) => OutcomeView::Fatal {
                records: aof::replay_views(f.records@),
                offset: f.failure_offset as int,
                bytes: f.trailing_bytes as int,
                failure: f.failure,
                reason: f.reason_code@,
            },
        }
    }
}

/// The tail may be cut off.
pub open spec fn repairable(
    bytes: int,
    position: AofReplaySegmentPosition,
    policy: AofReplayTailRepairPolicy,
) -> bool {
    position is Final && (policy matches AofReplayTailRepairPolicy::BoundedFinalSegment {
        max_tail_bytes,
    } && bytes <= max_tail_bytes)
}

/// The code under which a log is given up on.
pub open spec fn fatal_reason(
    position: AofReplaySegmentPosition,
    policy: AofReplayTailRepairPolicy,
) -> Seq<char> {
    match position {
        AofReplaySegmentPosition::NonFinal => "persist.replay.nonfinal_truncation_fatal"@,
        AofReplaySegmentPosition::Final => match policy {
            AofReplayTailRepairPolicy::BoundedFinalSegment { max_tail_bytes } => {
                "persist.replay.tail_repair_bound_exceeded"@
            },
            AofReplayTailRepairPolicy::HardenedNonAllowlisted => {
                "persist.hardened_nonallowlisted_rejected"@
            },
            AofReplayTailRepairPolicy::Disabled => "persist.replay.frame_parse_invalid"@,
        },
    }
}

/// What becomes of a log of `len` bytes that was replayed.
pub open spec fn outcome_of(
    replayed: Replay,
    len: int,
    position: AofReplaySegmentPosition,
    policy: AofReplayTailRepairPolicy,
) -> OutcomeView {
    match replayed.1 {
        None => OutcomeView::Clean(replayed.0),
        Some((at, failure)) => if repairable(len - at, position, policy) {
            OutcomeView::Repaired {
                records: replayed.0,
                offset: at,
                bytes: len - at,
                failure,
                reason: "persist.replay.tail_truncate_recover"@,
                policy_reason: "persist.replay.repair_policy_applied"@,
            }
        } else {
            OutcomeView::Fatal {
                records: replayed.0,
                offset: at,
                bytes: len - at,
                failure,
                reason: fatal_reason(position, policy),
            }
        },
    }
}

fn fatal_code(position: AofReplaySegmentPosition, policy: AofReplayTailRepairPolicy) -> (code:
    &'static str)
    ensures
        code@ == fatal_reason(position, policy),
{
    match position {
        AofReplaySegmentPosition::NonFinal => "persist.replay.nonfinal_truncation_fatal",
        AofReplaySegmentPosition::Final => match policy {
            AofReplayTailRepairPolicy::BoundedFinalSegment {
                max_tail_bytes,
            } => "persist.replay.tail_repair_bound_exceeded",
            AofReplayTailRepairPolicy::HardenedNonAllowlisted => {
                "persist.hardened_nonallowlisted_rejected"
            },
            AofReplayTailRepairPolicy::Disabled => "persist.replay.frame_parse_invalid",
        },
    }
}

/// Decides about a log whose records end with a failure.
pub fn classify_aof_tail_failure(
    records: Vec<AofReplayRecord>,
    failure_offset: usize,
    trailing_bytes: usize,
    failure: AofReplayTailFailure,
    segment_position: AofReplaySegmentPosition,
    policy: AofReplayTailRepairPolicy,
) -> (outcome: AofReplayTailRepairOutcome)
    ensures
        outcome@ == outcome_of(
            (aof::replay_views(records@), Some((failure_offset as int, failure))),
            failure_offset + trailing_bytes,
            segment_position,
            policy,
        ),
{
    let cut: bool = match segment_position {
        AofReplaySegmentPosition::NonFinal => false,
        AofReplaySegmentPosition::Final => match policy {
            AofReplayTailRepairPolicy::BoundedFinalSegment { max_tail_bytes } => trailing_bytes
                <= max_tail_bytes,
            _ => false,
        },
    };
    if cut {
        AofReplayTailRepairOutcome::Repaired(
            AofReplayTailRepair {
                records,
                truncated_from_offset: failure_offset,
                truncated_bytes: trailing_bytes,
                failure,
                reason_code: "persist.replay.tail_truncate_recover",
                policy_reason_code: "persist.replay.repair_policy_applied",
            },
        )
    } else {
        AofReplayTailRepairOutcome::Fatal(
            AofReplayTailFatal {
                records,
                failure_offset,
                trailing_bytes,
                failure,
                reason_code: fatal_code(segment_position, policy),
            },
        )
    }
}

/// Replays a segment, and decides about its end where that is damaged.
pub fn classify_aof_replay_tail_repair(
    input: &[u8],
    segment_position: AofReplaySegmentPosition,
    policy: AofReplayTailRepairPolicy,
) -> (outcome: AofReplayTailRepairOutcome)
    ensures
        outcome@ == outcome_of(
            aof::replay_of(input@, 0),
            input@.len() as int,
            segment_position,
            policy,
        ),
{
    let len: usize = input.len();
    let (records, failure) = replay(input, 0);
    match failure {
        None => AofReplayTailRepairOutcome::Clean { records },
        Some((at, e)) => classify_aof_tail_failure(
            records,
            at,
            len - at,
            e,
            segment_position,
            policy,
        ),
    }
}

/// Whatever becomes of a log, the records in front of the damage are kept, and what is
/// cut off or given up on is the rest, to the last byte.
pub proof fn law_tail_is_the_rest(
    data: Seq<u8>,
    position: AofReplaySegmentPosition,
    policy: AofReplayTailRepairPolicy,
)
    ensures
        match outcome_of(aof::replay_of(data, 0), data.len() as int, position, policy) {
            OutcomeView::Clean(records) => aof::replay_of(data, 0).1 is None && records
                == aof::replay_of(data, 0).0,
            OutcomeView::Repaired { records, offset, bytes, failure, reason, policy_reason } => {
                &&& records == aof::replay_of(data, 0).0
                &&& offset + bytes == data.len()
                &&& aof::replay_of(data.take(offset), 0) == (
                    records,
                    None::<(int, AofReplayTailFailure)>,
                )
            },
            OutcomeView::Fatal { records, offset, bytes, failure, reason } => {
                &&& records == aof::replay_of(data, 0).0
                &&& offset + bytes == data.len()
            },
        },
{
    aof::law_cut_is_clean(data);
}

// ---------------------------------------------------------------------------
// Transactions
// ---------------------------------------------------------------------------

/// An ASCII letter in lower case.
pub open spec fn lower(b: u8) -> u8 {
    if 65 <= b <= 90 {
        (b + 32) as u8
    } else {
        b
    }
}

/// The command is the word, in any mix of cases.
pub open spec fn is_command(argv: Seq<Seq<u8>>, word: Seq<u8>) -> bool {
    &&& argv.len() > 0
    &&& argv[0].len() == word.len()
    &&& forall|i: int| 0 <= i < word.len() ==> lower(#[trigger] argv[0][i]) == word[i]
}

/// The word `multi`.
pub open spec fn multi_word() -> Seq<u8> {
    seq![109u8, 117u8, 108u8, 116u8, 105u8]
}

/// The word `exec`.
pub open spec fn exec_word() -> Seq<u8> {
    seq![101u8, 120u8, 101u8, 99u8]
}

/// The word `discard`.
pub open spec fn discard_word() -> Seq<u8> {
    seq![100u8, 105u8, 115u8, 99u8, 97u8, 114u8, 100u8]
}

/// The index of the record that opened the transaction which is open behind `records`.
pub open spec fn open_transaction(records: Seq<ReplayView>) -> Option<int>
    decreases records.len(),
{
    if records.len() == 0 {
        None
    } else {
        let before = open_transaction(records.drop_last());
        let argv = records.last().argv;
        match before {
            None => if is_command(argv, multi_word()) {
                Some(records.len() - 1)
            } else {
                None
            },
            Some(i) => if !is_command(argv, multi_word()) && (is_command(argv, exec_word())
                || is_command(argv, discard_word())) {
                None
            } else {
                Some(i)
            },
        }
    }
}

/// What is left of records, and where they were cut.
#[derive(Debug, Clone, PartialEq, Eq)]
pub struct AofReplayTransactionTrim {
    pub records: Vec<AofReplayRecord>,
    pub truncated_from_offset: Option<usize>,
}

/// The records in front of the transaction that is open behind them.
pub open spec fn trimmed(records: Seq<ReplayView>) -> (Seq<ReplayView>, Option<int>) {
    match open_transaction(records) {
        None => (records, None),
        Some(i) => (records.take(i), Some(records[i].start)),
    }
}

pub proof fn lemma_open_transaction(records: Seq<ReplayView>)
    ensures
        open_transaction(records) matches Some(i) ==> 0 <= i < records.len() && open_transaction(
            records.take(i),
        ) is None && is_command(records[i].argv, multi_word()),
    decreases records.len(),
{
    if records.len() > 0 {
        let front = records.drop_last();
        lemma_open_transaction(front);
        if let Some(i) = open_transaction(records) {
            if open_transaction(front) is None {
                assert(records.take(i) =~= front);
            } else {
                assert(records.take(i) =~= front.take(i));
            }
        }
    }
}

/// What is left leaves no transaction open, and is not trimmed again.
pub proof fn law_trimmed_is_closed(records: Seq<ReplayView>)
    ensures
        open_transaction(trimmed(records).0) is None,
        trimmed(trimmed(records).0) == (trimmed(records).0, None::<int>),
{
    lemma_open_transaction(records);
}

/// Only an open transaction is trimmed, from its first record on.
pub proof fn law_trimmed_is_a_prefix(records: Seq<ReplayView>)
    ensures
        trimmed(records).0 == records.take(trimmed(records).0.len() as int),
        match trimmed(records).1 {
            None => trimmed(records).0 == records,
            Some(offset) => {
                let i = trimmed(records).0.len() as int;
                i < records.len() && records[i].start == offset && is_command(
                    records[i].argv,
                    multi_word(),
                )
            },
        },
{
    lemma_open_transaction(records);
    assert(records.take(records.len() as int) =~= records);
}

fn command_is(record: &AofReplayRecord, word: &[u8]) -> (r: bool)
    ensures
        r == is_command(record@.argv, word@),
{
    let argv = &record.record.argv;
    if argv.len() == 0 {
        return false;
    }
    let command: &[u8] = argv[0].as_slice();
    assert(record@.argv[0] == command@);
    if command.len() != word.len() {
        return false;
    }
    let mut i: usize = 0;
    while i < word.len()
        invariant
            i <= word@.len() == command@.len(),
            record@.argv.len() > 0,
            record@.argv[0] == command@,
            forall|k: int| 0 <= k < i ==> lower(#[trigger] record@.argv[0][k]) == word@[k],
        decreases word@.len() - i,
    {
        let b: u8 = command[i];
        let low: u8 = if 65 <= b && b <= 90 {
            b + 32
        } else {
            b
        };
        if low != word[i] {
            assert(lower(record@.argv[0][i as int]) != word@[i as int]);
            return false;
        }
        i = i + 1;
    }
    true
}

/// Cuts off a transaction that is still open behind the last record.
pub fn trim_incomplete_multi_replay(records: &[AofReplayRecord]) -> (r: AofReplayTransactionTrim)
    ensures
        aof::replay_views(r.records@) == trimmed(aof::replay_views(records@)).0,
        match r.truncated_from_offset {
            Some(at) => trimmed(aof::replay_views(records@)).1 == Some(at as int),
            None => trimmed(aof::replay_views(records@)).1 is None,
        },
{
    let ghost all = aof::replay_views(records@);
    let multi: [u8; 5] = [109, 117, 108, 116, 105];
    let exec: [u8; 4] = [101, 120, 101, 99];
    let discard: [u8; 7] = [100, 105, 115, 99, 97, 114, 100];
    proof {
        assert(multi@ =~= multi_word());
        assert(exec@ =~= exec_word());
        assert(discard@ =~= discard_word());
        assert(all.take(0) =~= Seq::empty());
    }
    let mut open: Option<usize> = None;
    let mut i: usize = 0;
    while i < records.len()
        invariant
            i <= records@.len(),
            all == aof::replay_views(records@),
            multi@ == multi_word(),
            exec@ == exec_word(),
            discard@ == discard_word(),
            match open {
                None => open_transaction(all.take(i as int)) is None,
                Some(k) => open_transaction(all.take(i as int)) == Some(k as int),
            },
        decreases records@.len() - i,
    {
        proof {
            assert(all.take(i as int + 1).drop_last() =~= all.take(i as int));
            assert(all[i as int] == records@[i as int]@);
        }
        if command_is(&records[i], multi.as_slice()) {
            if open.is_none() {
                open = Some(i);
            }
        } else if open.is_some() && (command_is(&records[i], exec.as_slice()) || command_is(
            &records[i],
            discard.as_slice(),
        )) {
            open = None;
        }
        i = i + 1;
    }
    proof {
        assert(all.take(i as int) =~= all);
        lemma_open_transaction(all);
    }
    let keep: usize = match open {
        None => records.len(),
        Some(k) => k,
    };
    let mut kept: Vec<AofReplayRecord> = Vec::new();
    let mut j: usize = 0;
    while j < keep
        invariant
            j <= keep <= records@.len(),
            kept@.len() == j,
            forall|k: int| 0 <= k < j ==> (#[trigger] kept@[k])@ == records@[k]@,
        decreases keep - j,
    {
        kept.push(records[j].clone());
        j = j + 1;
    }
    proof {
        assert(aof::replay_views(kept@) =~= all.take(keep as int));
        assert(open is Some ==> all[keep as int] == records@[keep as int]@);
    }
    match open {
        None => AofReplayTransactionTrim { records: kept, truncated_from_offset: None },
        Some(k) => AofReplayTransactionTrim {
            records: kept,
            truncated_from_offset: Some(records[k].start_offset),
        },
    }
}

} // verus!
