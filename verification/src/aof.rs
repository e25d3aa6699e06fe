//! Command logs: records of commands, replayed one by one.

use vstd::prelude::*;

use crate::bytes;
use crate::bytes::copy_bytes;
use crate::decimal;
use crate::decimal::decimal_i64_bytes;
use crate::persist_error::PersistError;
use crate::rdb_load;
use crate::rdb_load::{decode_rdb_prefix, RdbDecodeResult};
use crate::resp;
use crate::resp::{
    encode_aggregate_header, encode_bulk_string_slice, parse_frame_with_config, FrameView,
    ParserConfig, RespFrame, RespParseError,
};

verus! {

/// A command with its arguments.
#[derive(Debug, PartialEq, Eq)]
pub struct AofRecord {
    pub argv: Vec<Vec<u8>>,
}

impl View for AofRecord {
    type V = Seq<Seq<u8>>;

    open spec fn view(&self) -> Seq<Seq<u8>> {
        bytes::views(self.argv@)
    }
}

/// A record with the window that it was read from.
#[derive(Debug, PartialEq, Eq)]
pub struct AofReplayRecord {
    pub record: AofRecord,
    pub start_offset: usize,
    pub end_offset: usize,
}

/// What a replayed record says.
#[verifier::ext_equal]
pub struct ReplayView {
    pub argv: Seq<Seq<u8>>,
    pub start: int,
    pub end: int,
}

impl View for AofReplayRecord {
    type V = ReplayView;

    open spec fn view(&self) -> ReplayView {
        ReplayView {
            argv: self.record@,
            start: self.start_offset as int,
            end: self.end_offset as int,
        }
    }
}

/// What replayed records say.
pub open spec fn replay_views(records: Seq<AofReplayRecord>) -> Seq<ReplayView> {
    records.map_values(|r: AofReplayRecord| r@)
}

/// What records say.
pub open spec fn record_views(records: Seq<AofRecord>) -> Seq<Seq<Seq<u8>>> {
    records.map_values(|r: AofRecord| r@)
}

fn copy_record(record: &AofRecord) -> (copy: AofRecord)
    ensures
        copy@ == record@,
{
    let mut argv: Vec<Vec<u8>> = Vec::new();
    let mut i: usize = 0;
    while i < record.argv.len()
        invariant
            i <= record.argv@.len(),
            argv@.len() == i,
            forall|k: int| 0 <= k < i ==> (#[trigger] argv@[k])@ == record.argv@[k]@,
        decreases record.argv@.len() - i,
    {
        argv.push(copy_bytes(record.argv[i].as_slice()));
        i = i + 1;
    }
    assert(bytes::views(argv@) =~= bytes::views(record.argv@));
    AofRecord { argv }
}

impl Clone for AofRecord {
    fn clone(&self) -> (copy: Self)
        ensures
            copy@ == self@,
    {
        copy_record(self)
    }
}

impl Clone for AofReplayRecord {
    fn clone(&self) -> (copy: Self)
        ensures
            copy@ == self@,
    {
        AofReplayRecord {
            record: copy_record(&self.record),
            start_offset: self.start_offset,
            end_offset: self.end_offset,
        }
    }
}

// ---------------------------------------------------------------------------
// Writing
// ---------------------------------------------------------------------------

/// A string of a record, as a function value.
pub open spec fn bulk_encoder() -> spec_fn(Seq<u8>) -> Seq<u8> {
    |b: Seq<u8>| resp::bulk_bytes(b)
}

/// The bytes of a record: an array of strings.
pub open spec fn record_bytes(argv: Seq<Seq<u8>>) -> Seq<u8> {
    resp::number_line(42, argv.len() as int) + bytes::concat_all(bulk_encoder(), argv)
}

/// The bytes of a record, as a function value.
pub open spec fn record_encoder() -> spec_fn(Seq<Seq<u8>>) -> Seq<u8> {
    |argv: Seq<Seq<u8>>| record_bytes(argv)
}

/// The bytes of records, one behind the other.
pub open spec fn stream_bytes(records: Seq<Seq<Seq<u8>>>) -> Seq<u8> {
    bytes::concat_all(record_encoder(), records)
}

/// A record as a frame.
pub open spec fn record_frame(argv: Seq<Seq<u8>>) -> FrameView {
    FrameView::Array(Some(bulk_frames(argv)))
}

/// Arguments as frames.
pub open spec fn bulk_frames(argv: Seq<Seq<u8>>) -> Seq<FrameView> {
    argv.map_values(|a: Seq<u8>| FrameView::BulkString(Some(a)))
}

proof fn lemma_frames_bytes(argv: Seq<Seq<u8>>)
    ensures
        resp::frames_bytes(bulk_frames(argv)) == bytes::concat_all(bulk_encoder(), argv),
    decreases argv.len(),
{
    if argv.len() > 0 {
        let front = argv.drop_last();
        lemma_frames_bytes(front);
        assert(bulk_frames(argv).drop_last() =~= bulk_frames(front));
        let last = FrameView::BulkString(Some(argv.last()));
        assert(bulk_frames(argv).last() == last);
        assert(resp::frame_bytes(last) == resp::bulk_bytes(argv.last()));
        assert(resp::frames_bytes(bulk_frames(argv)) == resp::frames_bytes(
            bulk_frames(argv).drop_last(),
        ) + resp::frame_bytes(last));
    }
}

/// A record is written as the frame that it is.
pub proof fn law_record_frame_bytes(argv: Seq<Seq<u8>>)
    ensures
        resp::frame_bytes(record_frame(argv)) == record_bytes(argv),
{
    lemma_frames_bytes(argv);
}

/// Records written together are what they are written one after the other.
pub proof fn law_stream_concatenation(left: Seq<Seq<Seq<u8>>>, right: Seq<Seq<Seq<u8>>>)
    ensures
        stream_bytes(left + right) == stream_bytes(left) + stream_bytes(right),
{
    bytes::lemma_concat_append(record_encoder(), left, right);
}

/// The number of decimal digits of a number.
fn decimal_len(n: usize) -> (len: usize)
    ensures
        len == decimal::dec_nat(n as nat).len(),
        1 <= len <= 20,
{
    proof {
        decimal::lemma_dec_nat_len(n as nat);
    }
    let mut len: usize = 1;
    let mut rest: usize = n;
    while rest >= 10
        invariant
            decimal::dec_nat(n as nat).len() <= 20,
            1 <= len,
            len - 1 + decimal::dec_nat(rest as nat).len() == decimal::dec_nat(n as nat).len(),
            1 <= decimal::dec_nat(rest as nat).len(),
        decreases rest,
    {
        proof {
            decimal::lemma_dec_nat_len(rest as nat);
            decimal::lemma_dec_nat((rest / 10) as nat);
        }
        rest = rest / 10;
        len = len + 1;
    }
    len
}

impl AofRecord {
    /// The record as a frame.
    pub fn to_resp_frame(&self) -> (frame: RespFrame)
        ensures
            frame@ == record_frame(self@),
    {
        let ghost all = self@;
        let mut items: Vec<RespFrame> = Vec::new();
        let mut i: usize = 0;
        while i < self.argv.len()
            invariant
                i <= self.argv@.len(),
                all == self@,
                items@.len() == i,
                forall|k: int|
                    0 <= k < i ==> resp::frame_view(#[trigger] items@[k]) == FrameView::BulkString(
                        Some(all[k]),
                    ),
            decreases self.argv@.len() - i,
        {
            items.push(RespFrame::BulkString(Some(copy_bytes(self.argv[i].as_slice()))));
            i = i + 1;
        }
        proof {
            resp::lemma_frame_views(items@);
            assert forall|k: int| 0 <= k < items@.len() implies resp::frame_views(items@)[k]
                == bulk_frames(all)[k] by {
                assert(resp::frame_view(items@[k]) == FrameView::BulkString(Some(all[k])));
            }
            assert(resp::frame_views(items@) =~= bulk_frames(all));
        }
        RespFrame::Array(Some(items))
    }

    /// The number of bytes that the record is written in.
    pub fn encoded_resp_len(&self) -> (n: usize)
        requires
            record_bytes(self@).len() <= usize::MAX,
        ensures
            n == record_bytes(self@).len(),
    {
        let ghost all = self@;
        let ghost e = bulk_encoder();
        let mut len: usize = 1 + decimal_len(self.argv.len()) + 2;
        let ghost head = resp::number_line(42, all.len() as int);
        let mut i: usize = 0;
        assert(len == head.len());
        assert(all.take(0) =~= Seq::empty());
        while i < self.argv.len()
            invariant
                i <= self.argv@.len(),
                all == self@,
                e == bulk_encoder(),
                head == resp::number_line(42, all.len() as int),
                len == head.len() + bytes::concat_all(e, all.take(i as int)).len(),
                record_bytes(all).len() <= usize::MAX,
            decreases self.argv@.len() - i,
        {
            let arg: &[u8] = self.argv[i].as_slice();
            assert(all[i as int] == arg@);
            proof {
                bytes::lemma_concat_take(e, all, i as int);
                lemma_prefix_len(all, i as int + 1);
                let text = decimal::dec_nat(arg@.len());
                assert(resp::bulk_bytes(arg@).len() == 1 + text.len() + 2 + arg@.len() + 2);
            }
            len = len + (1 + decimal_len(arg.len()) + 2 + arg.len() + 2);
            i = i + 1;
        }
        assert(all.take(i as int) =~= all);
        len
    }

    /// The record that a frame is.
    pub fn from_resp_frame(frame: &RespFrame) -> (r: Result<Self, PersistError>)
        ensures
            match record_of(frame@) {
                Some(argv) => r matches Ok(record) && record@ == argv,
                None => r == Err::<Self, PersistError>(PersistError::InvalidFrame),
            },
    {
        let items: &Vec<RespFrame> = match frame {
            RespFrame::Array(Some(items)) => items,
            _ => {
                return Err(PersistError::InvalidFrame);
            },
        };
        if items.len() == 0 {
            return Err(PersistError::InvalidFrame);
        }
        let ghost all = resp::frame_views(items@);
        proof {
            resp::lemma_frame_views(items@);
        }
        let mut argv: Vec<Vec<u8>> = Vec::new();
        let mut i: usize = 0;
        while i < items.len()
            invariant
                i <= items@.len(),
                items@.len() > 0,
                frame@ == FrameView::Array(Some(all)),
                all.len() == items@.len(),
                forall|k: int|
                    0 <= k < items@.len() ==> all[k] == resp::frame_view(#[trigger] items@[k]),
                argv@.len() == i,
                forall|k: int|
                    0 <= k < i ==> argument_of(#[trigger] all[k]) == Some(argv@[k]@),
            decreases items@.len() - i,
        {
            let item: &RespFrame = &items[i];
            assert(all[i as int] == item@);
            match item {
                RespFrame::BulkString(Some(b)) => {
                    argv.push(copy_bytes(b.as_slice()));
                },
                RespFrame::SimpleString(s) => {
                    argv.push(copy_bytes(s.as_str().as_bytes()));
                },
                RespFrame::Integer(n) => {
                    argv.push(decimal_i64_bytes(*n));
                },
                _ => {
                    assert(argument_of(all[i as int]) is None);
                    return Err(PersistError::InvalidFrame);
                },
            }
            i = i + 1;
        }
        proof {
            let found = record_of(frame@)->Some_0;
            assert(bytes::views(argv@) =~= found);
        }
        Ok(AofRecord { argv })
    }
}

proof fn lemma_prefix_len(argv: Seq<Seq<u8>>, k: int)
    requires
        0 <= k <= argv.len(),
    ensures
        bytes::concat_all(bulk_encoder(), argv.take(k)).len() <= bytes::concat_all(
            bulk_encoder(),
            argv,
        ).len(),
    decreases argv.len(),
{
    if k < argv.len() {
        assert(argv.drop_last().take(k) =~= argv.take(k));
        lemma_prefix_len(argv.drop_last(), k);
    } else {
        assert(argv.take(k) =~= argv);
    }
}

/// The argument that a frame stands for.
pub open spec fn argument_of(f: FrameView) -> Option<Seq<u8>> {
    match f {
        FrameView::BulkString(Some(b)) => Some(b),
        FrameView::SimpleString(s) => Some(vstd::utf8::encode_utf8(s)),
        FrameView::Integer(n) => Some(decimal::dec_int(n)),
        _ => None,
    }
}

/// The record that a frame is: an array of at least one argument.
pub open spec fn record_of(f: FrameView) -> Option<Seq<Seq<u8>>> {
    match f {
        FrameView::Array(Some(items)) => if items.len() == 0 || exists|i: int|
            0 <= i < items.len() && argument_of(#[trigger] items[i]) is None {
            None
        } else {
            Some(items.map_values(|f: FrameView| argument_of(f)->Some_0))
        },
        _ => None,
    }
}

/// The bytes of records, one behind the other.
pub fn encode_aof_stream(records: &[AofRecord]) -> (out: Vec<u8>)
    ensures
        out@ == stream_bytes(record_views(records@)),
{
    let ghost all = record_views(records@);
    let ghost e = record_encoder();
    let mut out: Vec<u8> = Vec::new();
    let mut i: usize = 0;
    assert(all.take(0) =~= Seq::empty());
    assert(out@ =~= bytes::concat_all(e, all.take(0)));
    while i < records.len()
        invariant
            i <= records@.len(),
            all == record_views(records@),
            e == record_encoder(),
            out@ == bytes::concat_all(e, all.take(i as int)),
        decreases records@.len() - i,
    {
        assert(all[i as int] == records@[i as int]@);
        push_record(&mut out, &records[i]);
        proof {
            bytes::lemma_concat_take(e, all, i as int);
        }
        i = i + 1;
    }
    assert(all.take(i as int) =~= all);
    out
}

fn push_record(out: &mut Vec<u8>, record: &AofRecord)
    ensures
        final(out)@ == old(out)@ + record_bytes(record@),
{
    let ghost all = record@;
    let ghost e = bulk_encoder();
    encode_aggregate_header(record.argv.len(), out);
    let ghost head = out@;
    let mut i: usize = 0;
    assert(all.take(0) =~= Seq::empty());
    assert(head + bytes::concat_all(e, all.take(0)) =~= head);
    while i < record.argv.len()
        invariant
            i <= record.argv@.len(),
            all == record@,
            e == bulk_encoder(),
            out@ == head + bytes::concat_all(e, all.take(i as int)),
        decreases record.argv@.len() - i,
    {
        assert(all[i as int] == record.argv@[i as int]@);
        encode_bulk_string_slice(record.argv[i].as_slice(), out);
        proof {
            bytes::lemma_concat_take(e, all, i as int);
            bytes::lemma_add_assoc(
                head,
                bytes::concat_all(e, all.take(i as int)),
                e(all[i as int]),
            );
        }
        i = i + 1;
    }
    proof {
        assert(all.take(i as int) =~= all);
        bytes::lemma_add_assoc(
            old(out)@,
            resp::number_line(42, all.len() as int),
            bytes::concat_all(e, all),
        );
    }
}

/// Argument lists as records.
pub fn argv_to_aof_records(commands: Vec<Vec<Vec<u8>>>) -> (records: Vec<AofRecord>)
    ensures
        records@.len() == commands@.len(),
        forall|i: int|
            0 <= i < commands@.len() ==> (#[trigger] records@[i])@ == bytes::views(commands@[i]@),
{
    let mut commands = commands;
    let ghost all = commands@;
    let mut reversed: Vec<AofRecord> = Vec::new();
    while commands.len() > 0
        invariant
            commands@.len() + reversed@.len() == all.len(),
            commands@ == all.take(commands@.len() as int),
            forall|k: int|
                0 <= k < reversed@.len() ==> (#[trigger] reversed@[k])@ == bytes::views(
                    all[all.len() - 1 - k]@,
                ),
        decreases commands@.len(),
    {
        let ghost before = commands@;
        if let Some(argv) = commands.pop() {
            assert(commands@ =~= all.take(commands@.len() as int));
            assert(before[before.len() - 1] == all[before.len() - 1]);
            reversed.push(AofRecord { argv });
        }
    }
    let mut records: Vec<AofRecord> = Vec::new();
    let ghost pool = reversed@;
    while reversed.len() > 0
        invariant
            reversed@.len() + records@.len() == all.len() == pool.len(),
            reversed@ == pool.take(reversed@.len() as int),
            forall|k: int|
                0 <= k < pool.len() ==> (#[trigger] pool[k])@ == bytes::views(
                    all[all.len() - 1 - k]@,
                ),
            forall|k: int|
                0 <= k < records@.len() ==> (#[trigger] records@[k])@ == bytes::views(all[k]@),
        decreases reversed@.len(),
    {
        let ghost before = reversed@;
        if let Some(record) = reversed.pop() {
            assert(reversed@ =~= pool.take(reversed@.len() as int));
            assert(before[before.len() - 1] == pool[before.len() - 1]);
            records.push(record);
        }
    }
    records
}

// ---------------------------------------------------------------------------
// Replaying
// ---------------------------------------------------------------------------

/// The greatest length of an argument.
pub const AOF_MAX_BULK_LEN: u64 = 0x4000_0000;

/// The greatest number of arguments.
pub const AOF_MAX_ARRAY_LEN: u64 = 0xA0_0000;

/// How deep arrays may nest.
pub const AOF_MAX_RECURSION_DEPTH: u64 = 64;

/// How large the frames of a log may be.
pub open spec fn aof_config() -> ParserConfig {
    ParserConfig {
        max_bulk_len: AOF_MAX_BULK_LEN,
        max_array_len: AOF_MAX_ARRAY_LEN,
        max_recursion_depth: AOF_MAX_RECURSION_DEPTH,
    }
}

fn aof_parser_config() -> (config: ParserConfig)
    ensures
        config == aof_config(),
{
    ParserConfig {
        max_bulk_len: AOF_MAX_BULK_LEN,
        max_array_len: AOF_MAX_ARRAY_LEN,
        max_recursion_depth: AOF_MAX_RECURSION_DEPTH,
    }
}

/// Why the rest of a log cannot be replayed.
#[derive(Debug, Clone, Copy, PartialEq, Eq)]
pub enum AofReplayTailFailure {
    /// The bytes are no frame.
    Parse(RespParseError),
    /// The frame is no record.
    InvalidFrame,
}

/// The record at `pos`.
pub open spec fn record_at(data: Seq<u8>, pos: int) -> Result<ReplayView, AofReplayTailFailure> {
    match resp::frame_at(aof_config(), data, pos, AOF_MAX_RECURSION_DEPTH as nat) {
        Err(e) => Err(AofReplayTailFailure::Parse(e)),
        Ok((f, end)) => match record_of(f) {
            None => Err(AofReplayTailFailure::InvalidFrame),
            Some(argv) => Ok(ReplayView { argv, start: pos, end }),
        },
    }
}

/// Records, and where and why the reading of them stopped, if it did.
pub type Replay = (Seq<ReplayView>, Option<(int, AofReplayTailFailure)>);

/// The records from `pos` on, behind those already found.
pub open spec fn replay_from(data: Seq<u8>, pos: int, found: Seq<ReplayView>) -> Replay
    decreases data.len() - pos,
{
    if pos >= data.len() {
        (found, None)
    } else {
        match record_at(data, pos) {
            Err(e) => (found, Some((pos, e))),
            Ok(r) => if pos < r.end <= data.len() {
                replay_from(data, r.end, found.push(r))
            } else {
                (found, Some((pos, AofReplayTailFailure::InvalidFrame)))
            },
        }
    }
}

/// The records of a log from `pos` on.
pub open spec fn replay_of(data: Seq<u8>, pos: int) -> Replay {
    replay_from(data, pos, Seq::empty())
}

/// The error that a failure is reported as.
pub open spec fn failure_error(f: AofReplayTailFailure) -> PersistError {
    match f {
        AofReplayTailFailure::Parse(e) => PersistError::Parse(e),
        AofReplayTailFailure::InvalidFrame => PersistError::InvalidFrame,
    }
}

/// A record that can be replayed once it is written: it has a command, and neither too
/// many arguments nor too long ones.
pub open spec fn replayable(argv: Seq<Seq<u8>>) -> bool {
    &&& 0 < argv.len() <= AOF_MAX_ARRAY_LEN
    &&& forall|i: int| 0 <= i < argv.len() ==> (#[trigger] argv[i]).len() <= AOF_MAX_BULK_LEN
}

pub proof fn lemma_arguments_read(argv: Seq<Seq<u8>>, n: nat, data: Seq<u8>, pos: int, depth: nat)
    requires
        replayable(argv),
        n <= argv.len(),
        bytes::has_at(data, pos, bytes::concat_all(bulk_encoder(), argv.take(n as int))),
    ensures
        resp::frames_at(aof_config(), data, pos, n, depth) == Ok::<
            (Seq<FrameView>, int),
            RespParseError,
        >(
            (
                bulk_frames(argv.take(n as int)),
                pos + bytes::concat_all(bulk_encoder(), argv.take(n as int)).len(),
            ),
        ),
    decreases n,
{
    let e = bulk_encoder();
    if n == 0 {
        assert(argv.take(0) =~= Seq::empty());
        assert(bulk_frames(argv.take(0)) =~= Seq::empty());
    } else {
        let front = argv.take(n - 1);
        bytes::lemma_concat_take(e, argv, n - 1);
        bytes::lemma_has_at_concat(data, pos, bytes::concat_all(e, front), e(argv[n - 1]));
        lemma_arguments_read(argv, (n - 1) as nat, data, pos, depth);
        resp::lemma_bulk_reads(
            aof_config(),
            data,
            pos + bytes::concat_all(e, front).len(),
            argv[n - 1],
            depth,
        );
        assert(bulk_frames(argv.take(n as int)) =~= bulk_frames(front).push(
            FrameView::BulkString(Some(argv[n - 1])),
        ));
    }
}

/// A record is read back from its bytes.
pub proof fn law_record_round_trip(argv: Seq<Seq<u8>>, data: Seq<u8>, pos: int)
    requires
        replayable(argv),
        bytes::has_at(data, pos, record_bytes(argv)),
    ensures
        record_at(data, pos) == Ok::<ReplayView, AofReplayTailFailure>(
            ReplayView { argv, start: pos, end: pos + record_bytes(argv).len() },
        ),
        pos < data.len(),
        record_bytes(argv).len() > 0,
{
    let head = resp::number_line(42, argv.len() as int);
    let body = bytes::concat_all(bulk_encoder(), argv);
    bytes::lemma_has_at_concat(data, pos, head, body);
    resp::lemma_number_reads(data, pos, 42, argv.len() as int);
    assert(argv.take(argv.len() as int) =~= argv);
    lemma_arguments_read(
        argv,
        argv.len(),
        data,
        pos + head.len(),
        (AOF_MAX_RECURSION_DEPTH - 1) as nat,
    );
    let items = bulk_frames(argv);
    assert forall|i: int| 0 <= i < items.len() implies argument_of(#[trigger] items[i]) == Some(
        argv[i],
    ) by {}
    assert(items.map_values(|f: FrameView| argument_of(f)->Some_0) =~= argv);
}

/// Records with the windows that they take, one behind the other from `pos` on.
pub open spec fn laid_out(records: Seq<Seq<Seq<u8>>>, pos: int) -> Seq<ReplayView> {
    Seq::new(
        records.len(),
        |i: int|
            ReplayView {
                argv: records[i],
                start: pos + stream_bytes(records.take(i)).len(),
                end: pos + stream_bytes(records.take(i + 1)).len(),
            },
    )
}

/// Every record of a log is replayed, and then what follows the log is.
pub proof fn law_stream_round_trip(
    records: Seq<Seq<Seq<u8>>>,
    data: Seq<u8>,
    pos: int,
    found: Seq<ReplayView>,
)
    requires
        forall|i: int| 0 <= i < records.len() ==> replayable(#[trigger] records[i]),
        bytes::has_at(data, pos, stream_bytes(records)),
    ensures
        replay_from(data, pos, found) == replay_from(
            data,
            pos + stream_bytes(records).len(),
            found + laid_out(records, pos),
        ),
    decreases records.len(),
{
    if records.len() == 0 {
        assert(found + laid_out(records, pos) =~= found);
    } else {
        let front = records.drop_last();
        let last = records.last();
        let n = front.len() as int;
        bytes::lemma_has_at_concat(data, pos, stream_bytes(front), record_bytes(last));
        assert forall|i: int| 0 <= i < front.len() implies replayable(#[trigger] front[i]) by {
            assert(front[i] == records[i]);
        }
        assert(replayable(records[n]));
        law_stream_round_trip(front, data, pos, found);
        let mid = pos + stream_bytes(front).len();
        law_record_round_trip(last, data, mid);
        let r = ReplayView { argv: last, start: mid, end: mid + record_bytes(last).len() };
        assert(replay_from(data, mid, found + laid_out(front, pos)) == replay_from(
            data,
            r.end,
            (found + laid_out(front, pos)).push(r),
        ));
        assert(records.take(n) =~= front);
        assert(records.take(n + 1) =~= records);
        assert forall|i: int| 0 <= i < n implies laid_out(front, pos)[i] == laid_out(
            records,
            pos,
        )[i] by {
            assert(front.take(i) =~= records.take(i));
            assert(front.take(i + 1) =~= records.take(i + 1));
        }
        assert((found + laid_out(front, pos)).push(r) =~= found + laid_out(records, pos));
    }
}

/// Reads records from `pos` on. The records come back with the place and the kind of
/// the failure that ended the reading, if one did.
pub(crate) fn replay(input: &[u8], pos: usize) -> (r: (
    Vec<AofReplayRecord>,
    Option<(usize, AofReplayTailFailure)>,
))
    requires
        pos <= input@.len(),
    ensures
        replay_views(r.0@) == replay_of(input@, pos as int).0,
        match r.1 {
            None => replay_of(input@, pos as int).1 is None,
            Some((at, e)) => replay_of(input@, pos as int).1 == Some((at as int, e)) && at
                < input@.len(),
        },
{
    let config = aof_parser_config();
    let mut records: Vec<AofReplayRecord> = Vec::new();
    let mut cursor: usize = pos;
    let ghost whole = replay_of(input@, pos as int);
    assert(replay_views(records@) =~= Seq::empty());
    while cursor < input.len()
        invariant
            pos <= cursor <= input@.len(),
            config == aof_config(),
            whole == replay_of(input@, pos as int),
            replay_from(input@, cursor as int, replay_views(records@)) == whole,
        decreases input@.len() - cursor,
    {
        let parsed = match parse_frame_with_config(input, cursor, &config) {
            Err(e) => {
                return (records, Some((cursor, AofReplayTailFailure::Parse(e))));
            },
            Ok(parsed) => parsed,
        };
        let record = match AofRecord::from_resp_frame(&parsed.frame) {
            Err(e) => {
                return (records, Some((cursor, AofReplayTailFailure::InvalidFrame)));
            },
            Ok(record) => record,
        };
        let end: usize = cursor + parsed.consumed;
        let ghost before = records@;
        let next = AofReplayRecord { record, start_offset: cursor, end_offset: end };
        records.push(next);
        assert(replay_views(records@) =~= replay_views(before).push(next@));
        cursor = end;
    }
    (records, None)
}

fn failure_to_error(f: AofReplayTailFailure) -> (e: PersistError)
    ensures
        e == failure_error(f),
{
    match f {
        AofReplayTailFailure::Parse(e) => PersistError::Parse(e),
        AofReplayTailFailure::InvalidFrame => PersistError::InvalidFrame,
    }
}

fn replay_all(input: &[u8], pos: usize) -> (r: Result<Vec<AofReplayRecord>, PersistError>)
    requires
        pos <= input@.len(),
    ensures
        match replay_of(input@, pos as int).1 {
            None => r matches Ok(records) && replay_views(records@) == replay_of(
                input@,
                pos as int,
            ).0,
            Some((_, f)) => r == Err::<Vec<AofReplayRecord>, PersistError>(failure_error(f)),
        },
{
    let (records, failure) = replay(input, pos);
    match failure {
        None => Ok(records),
        Some((_, f)) => Err(failure_to_error(f)),
    }
}

/// The records of a log, with the windows that they take.
pub fn decode_aof_stream_with_offsets(input: &[u8]) -> (r: Result<
    Vec<AofReplayRecord>,
    PersistError,
>)
    ensures
        match replay_of(input@, 0).1 {
            None => r matches Ok(records) && replay_views(records@) == replay_of(input@, 0).0,
            Some((_, f)) => r == Err::<Vec<AofReplayRecord>, PersistError>(failure_error(f)),
        },
{
    replay_all(input, 0)
}

/// The arguments of replayed records.
pub open spec fn replay_arguments(records: Seq<ReplayView>) -> Seq<Seq<Seq<u8>>> {
    records.map_values(|r: ReplayView| r.argv)
}

/// The records of a log.
pub fn decode_aof_stream(input: &[u8]) -> (r: Result<Vec<AofRecord>, PersistError>)
    ensures
        match replay_of(input@, 0).1 {
            None => r matches Ok(records) && record_views(records@) == replay_arguments(
                replay_of(input@, 0).0,
            ),
            Some((_, f)) => r == Err::<Vec<AofRecord>, PersistError>(failure_error(f)),
        },
{
    let replayed: Vec<AofReplayRecord> = match decode_aof_stream_with_offsets(input) {
        Err(e) => {
            return Err(e);
        },
        Ok(replayed) => replayed,
    };
    let mut records: Vec<AofRecord> = Vec::new();
    let mut i: usize = 0;
    while i < replayed.len()
        invariant
            i <= replayed@.len(),
            records@.len() == i,
            forall|k: int| 0 <= k < i ==> (#[trigger] records@[k])@ == replayed@[k].record@,
        decreases replayed@.len() - i,
    {
        records.push(copy_record(&replayed[i].record));
        i = i + 1;
    }
    assert(record_views(records@) =~= replay_arguments(replay_views(replayed@)));
    Ok(records)
}

/// A log: the snapshot that it starts with, if any, and its records.
#[derive(Debug, Clone, PartialEq)]
pub struct AofReplayStream {
    pub rdb_preamble: Option<RdbDecodeResult>,
    pub records: Vec<AofReplayRecord>,
}

/// The bytes start with the signature of a snapshot.
pub open spec fn has_preamble(data: Seq<u8>) -> bool {
    data.len() >= 5 && data.take(5) == seq![82u8, 69u8, 68u8, 73u8, 83u8]
}

fn starts_with_signature(input: &[u8]) -> (r: bool)
    ensures
        r == has_preamble(input@),
{
    if input.len() < 5 {
        return false;
    }
    let r: bool = input[0] == 82 && input[1] == 69 && input[2] == 68 && input[3] == 73 && input[4]
        == 83;
    proof {
        let magic = seq![82u8, 69u8, 68u8, 73u8, 83u8];
        if r {
            assert(input@.take(5) =~= magic);
        } else if input@.take(5) == magic {
            assert(input@[0] == input@.take(5)[0]);
            assert(input@[1] == input@.take(5)[1]);
            assert(input@[2] == input@.take(5)[2]);
            assert(input@[3] == input@.take(5)[3]);
            assert(input@[4] == input@.take(5)[4]);
        }
    }
    r
}

/// Reads a log that is records alone, or a snapshot and the records behind it. Offsets
/// count from the start of the log.
pub fn decode_aof_replay_stream(input: &[u8]) -> (r: Result<AofReplayStream, PersistError>)
    ensures
        if has_preamble(input@) {
            match rdb_load::snapshot_prefix(input@) {
                None => r == Err::<AofReplayStream, PersistError>(PersistError::InvalidFrame),
                Some((loaded, end)) => match replay_of(input@, end).1 {
                    None => r matches Ok(stream) && replay_views(stream.records@) == replay_of(
                        input@,
                        end,
                    ).0 && (stream.rdb_preamble matches Some(result) && result.wf() && result.says(
                        loaded,
                        end,
                    )),
                    Some((_, f)) => r == Err::<AofReplayStream, PersistError>(failure_error(f)),
                },
            }
        } else {
            match replay_of(input@, 0).1 {
                None => r matches Ok(stream) && replay_views(stream.records@) == replay_of(
                    input@,
                    0,
                ).0 && stream.rdb_preamble is None,
                Some((_, f)) => r == Err::<AofReplayStream, PersistError>(failure_error(f)),
            }
        },
{
    if starts_with_signature(input) {
        let preamble: RdbDecodeResult = match decode_rdb_prefix(input) {
            Err(e) => {
                return Err(e);
            },
            Ok(preamble) => preamble,
        };
        return match replay_all(input, preamble.consumed) {
            Err(e) => Err(e),
            Ok(records) => Ok(AofReplayStream { rdb_preamble: Some(preamble), records }),
        };
    }
    match replay_all(input, 0) {
        Err(e) => Err(e),
        Ok(records) => Ok(AofReplayStream { rdb_preamble: None, records }),
    }
}

proof fn lemma_cut_is_clean(data: Seq<u8>, pos: int, found: Seq<ReplayView>, at: int)
    requires
        0 <= pos <= data.len(),
        replay_from(data, pos, found).1 matches Some((stop, _)) && stop == at,
    ensures
        pos <= at <= data.len(),
        replay_from(data.take(at), pos, found) == (
            replay_from(data, pos, found).0,
            None::<(int, AofReplayTailFailure)>,
        ),
    decreases data.len() - pos,
{
    if pos < data.len() {
        if let Ok(r) = record_at(data, pos) {
            resp::lemma_frame_bounds(aof_config(), data, pos, AOF_MAX_RECURSION_DEPTH as nat);
            lemma_cut_is_clean(data, r.end, found.push(r), at);
            resp::law_frame_is_local(
                aof_config(),
                data,
                pos,
                AOF_MAX_RECURSION_DEPTH as nat,
                at,
            );
            assert(record_at(data.take(at), pos) == record_at(data, pos));
        }
    }
}

/// A log cut off where its reading stopped replays to the same records, and to the end.
pub proof fn law_cut_is_clean(data: Seq<u8>)
    ensures
        replay_of(data, 0).1 matches Some((at, _)) ==> 0 <= at <= data.len() && replay_of(
            data.take(at),
            0,
        ) == (replay_of(data, 0).0, None::<(int, AofReplayTailFailure)>),
{
    if let Some((at, _)) = replay_of(data, 0).1 {
        lemma_cut_is_clean(data, 0, Seq::empty(), at);
    }
}

/// Records take at least one byte.
pub proof fn lemma_stream_nonempty(records: Seq<Seq<Seq<u8>>>)
    requires
        records.len() > 0,
    ensures
        stream_bytes(records).len() > 0,
{
    let last = records.last();
    assert(record_bytes(last)[0] == 42);
}

} // verus!
