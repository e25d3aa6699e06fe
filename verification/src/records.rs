//! Records of a snapshot that are written and read one behind the other.

use vstd::prelude::*;

use crate::bytes;
use crate::bytes::{push_le, read_le};
use crate::rdb_types::FieldView;
use crate::rdb_wire;
use crate::rdb_wire::{rdb_decode_length, rdb_decode_string, rdb_encode_length, rdb_encode_string};
use crate::score::{RdbScore, ScoreView};

verus! {

// ---------------------------------------------------------------------------
// Records
// ---------------------------------------------------------------------------

/// Something that a snapshot holds many of.
pub trait Record: Sized {
    /// What a record says.
    type Model;

    spec fn model(&self) -> Self::Model;

    /// The record can be written.
    spec fn writable(m: Self::Model) -> bool;

    /// The bytes that it is stored as.
    spec fn stored(m: Self::Model) -> Seq<u8>;

    /// The record at an offset, with the offset behind it.
    spec fn at(data: Seq<u8>, pos: int) -> Option<(Self::Model, int)>;

    /// The record reads back as it was written.
    spec fn lasting(m: Self::Model) -> bool;

    /// The numbers of its parts fit in 64 bits.
    spec fn sized(m: Self::Model) -> bool;

    /// A record is read back from its bytes.
    proof fn reads(m: Self::Model, data: Seq<u8>, pos: int)
        requires
            Self::lasting(m),
            bytes::has_at(data, pos, Self::stored(m)),
        ensures
            Self::at(data, pos) == Some((m, pos + Self::stored(m).len())),
    ;

    /// A record within the first `n` bytes is read the same where these are the same.
    proof fn keeps(data: Seq<u8>, other: Seq<u8>, n: int, pos: int)
        requires
            0 <= pos,
            bytes::same_upto(data, other, n),
        ensures
            Self::at(data, pos) matches Some((_, end)) ==> pos <= end <= data.len() && (end <= n
                ==> Self::at(other, pos) == Self::at(data, pos)),
    ;

    /// Where a record stands, reading it fails or ends behind it.
    proof fn spans(m: Self::Model, data: Seq<u8>, pos: int)
        requires
            Self::sized(m),
            bytes::has_at(data, pos, Self::stored(m)),
        ensures
            Self::at(data, pos) matches Some((_, end)) ==> end == pos + Self::stored(m).len(),
    ;

    fn write(&self, buf: &mut Vec<u8>)
        requires
            Self::writable(self.model()),
        ensures
            final(buf)@ == old(buf)@ + Self::stored(self.model()),
    ;

    fn read(data: &[u8], pos: usize) -> (r: Option<(Self, usize)>)
        ensures
            match r {
                Some((x, end)) => Self::at(data@, pos as int) == Some((x.model(), end as int))
                    && pos <= end <= data@.len(),
                None => Self::at(data@, pos as int) is None,
            },
    ;
}

/// What records say.
pub open spec fn models<T: Record>(items: Seq<T>) -> Seq<T::Model> {
    items.map_values(|x: T| x.model())
}

/// The bytes of a record, as a function value.
pub open spec fn encoder<T: Record>() -> spec_fn(T::Model) -> Seq<u8> {
    |m: T::Model| T::stored(m)
}

/// The parser of a record.
pub open spec fn parser<T: Record>() -> bytes::Parser<T::Model> {
    |data: Seq<u8>, pos: int| T::at(data, pos)
}

/// Records with their number before them.
#[verifier::opaque]
pub open spec fn counted_bytes<T: Record>(items: Seq<T::Model>) -> Seq<u8> {
    rdb_wire::length_bytes(items.len()) + bytes::concat_all(encoder::<T>(), items)
}

/// The records at an offset behind their number.
#[verifier::opaque]
pub open spec fn counted_at<T: Record>(data: Seq<u8>, pos: int) -> Option<(Seq<T::Model>, int)> {
    match rdb_wire::length_at(data, pos) {
        None => None,
        Some((n, start)) => bytes::parse_repeat(parser::<T>(), data, start, n),
    }
}

/// All records can be written.
pub open spec fn all_writable<T: Record>(items: Seq<T::Model>) -> bool {
    forall|i: int| 0 <= i < items.len() ==> T::writable(#[trigger] items[i])
}

/// All records read back as they were written.
pub open spec fn all_lasting<T: Record>(items: Seq<T::Model>) -> bool {
    forall|i: int| 0 <= i < items.len() ==> T::lasting(#[trigger] items[i])
}

/// Records are read back from their bytes.
pub proof fn law_counted_round_trip<T: Record>(items: Seq<T::Model>, data: Seq<u8>, pos: int)
    requires
        items.len() <= u64::MAX,
        all_lasting::<T>(items),
        bytes::has_at(data, pos, counted_bytes::<T>(items)),
    ensures
        counted_at::<T>(data, pos) == Some((items, pos + counted_bytes::<T>(items).len())),
{
    reveal(counted_bytes);
    reveal(counted_at);
    let e = encoder::<T>();
    let head = rdb_wire::length_bytes(items.len());
    bytes::lemma_has_at_concat(data, pos, head, bytes::concat_all(e, items));
    rdb_wire::law_length_round_trip(data, pos, items.len());
    assert forall|k: int| 0 <= k < items.len() implies bytes::reads_back(
        parser::<T>(),
        e,
        #[trigger] items[k],
    ) by {
        let m = items[k];
        assert forall|d: Seq<u8>, p: int| #[trigger] bytes::has_at(d, p, e(m)) implies parser::<
            T,
        >()(d, p) == Some((m, p + e(m).len())) by {
            T::reads(m, d, p);
        }
    }
    bytes::lemma_repeat_reads_back(parser::<T>(), e, items, data, pos + head.len());
}

/// Records behind their number are read the same where the first `n` bytes are the same.
pub proof fn lemma_counted_keeps<T: Record>(data: Seq<u8>, other: Seq<u8>, n: int, pos: int)
    requires
        0 <= pos,
        bytes::same_upto(data, other, n),
    ensures
        counted_at::<T>(data, pos) matches Some((_, end)) ==> pos < end <= data.len() && (end <= n
            ==> counted_at::<T>(other, pos) == counted_at::<T>(data, pos)),
{
    reveal(counted_at);
    rdb_wire::lemma_length_local(data, other, n, pos);
    if let Some((count, start)) = rdb_wire::length_at(data, pos) {
        let parse = parser::<T>();
        assert forall|p: int| 0 <= p <= data.len() implies #[trigger] bytes::parse_keeps(
            parse,
            data,
            other,
            n,
            p,
        ) by {
            T::keeps(data, other, n, p);
        }
        bytes::lemma_repeat_keeps(parse, data, other, n, start, count);
    }
}

/// The numbers of the parts of all records fit in 64 bits, and the number of records does.
pub open spec fn all_sized<T: Record>(items: Seq<T::Model>) -> bool {
    items.len() <= u64::MAX && forall|i: int| 0 <= i < items.len() ==> T::sized(#[trigger] items[i])
}

/// Where records stand behind their number, reading them fails or ends behind them.
pub proof fn lemma_counted_spans<T: Record>(items: Seq<T::Model>, data: Seq<u8>, pos: int)
    requires
        all_sized::<T>(items),
        bytes::has_at(data, pos, counted_bytes::<T>(items)),
    ensures
        counted_at::<T>(data, pos) matches Some((_, end)) ==> end == pos + counted_bytes::<T>(
            items,
        ).len(),
{
    reveal(counted_bytes);
    reveal(counted_at);
    let e = encoder::<T>();
    let parse = parser::<T>();
    let head = rdb_wire::length_bytes(items.len());
    bytes::lemma_has_at_concat(data, pos, head, bytes::concat_all(e, items));
    rdb_wire::law_length_round_trip(data, pos, items.len());
    assert forall|k: int| 0 <= k < items.len() implies bytes::spans(
        parse,
        e(#[trigger] items[k]),
    ) by {
        let m = items[k];
        assert forall|d: Seq<u8>, p: int| #[trigger] bytes::has_at(d, p, e(m)) implies (parse(d, p)
            matches Some((_, end)) ==> end == p + e(m).len()) by {
            T::spans(m, d, p);
        }
    }
    bytes::lemma_repeat_spans(parse, e, items, data, pos + head.len());
}

/// Writes records with their number before them.
pub fn write_counted<T: Record>(buf: &mut Vec<u8>, items: &[T])
    requires
        all_writable::<T>(models(items@)),
    ensures
        final(buf)@ == old(buf)@ + counted_bytes::<T>(models(items@)),
{
    proof {
        reveal(counted_bytes);
    }
    let ghost all = models(items@);
    let ghost e = encoder::<T>();
    let ghost start = buf@;
    rdb_encode_length(buf, items.len());
    let ghost head = buf@;
    let mut i: usize = 0;
    proof {
        assert(all.take(0) =~= Seq::empty());
        assert(head + bytes::concat_all(e, all.take(0)) =~= head);
    }
    while i < items.len()
        invariant
            i <= items@.len(),
            all == models(items@),
            all_writable::<T>(all),
            e == encoder::<T>(),
            buf@ == head + bytes::concat_all(e, all.take(i as int)),
        decreases items@.len() - i,
    {
        assert(all[i as int] == items@[i as int].model());
        items[i].write(buf);
        proof {
            bytes::lemma_concat_take(e, all, i as int);
            bytes::lemma_add_assoc(
                head,
                bytes::concat_all(e, all.take(i as int)),
                e(all[i as int]),
            );
        }
        i = i + 1;
    }
    proof {
        assert(all.take(i as int) =~= all);
        bytes::lemma_add_assoc(
            start,
            rdb_wire::length_bytes(all.len()),
            bytes::concat_all(e, all),
        );
    }
}

/// Reads records behind their number.
pub fn read_counted<T: Record>(data: &[u8], pos: usize) -> (r: Option<(Vec<T>, usize)>)
    ensures
        match r {
            Some((items, end)) => counted_at::<T>(data@, pos as int) == Some(
                (models(items@), end as int),
            ) && pos < end <= data@.len(),
            None => counted_at::<T>(data@, pos as int) is None,
        },
{
    proof {
        reveal(counted_at);
    }
    let (n, start) = match rdb_decode_length(data, pos) {
        None => {
            return None;
        },
        Some(found) => found,
    };
    let mut items: Vec<T> = Vec::new();
    let mut at: usize = start;
    let mut k: u64 = 0;
    let ghost p = parser::<T>();
    assert(models(items@) =~= Seq::empty());
    while k < n
        invariant
            k <= n,
            p == parser::<T>(),
            rdb_wire::length_at(data@, pos as int) == Some((n as nat, start as int)),
            bytes::parse_repeat(p, data@, start as int, k as nat) == Some(
                (models(items@), at as int),
            ),
            pos < start <= at <= data@.len(),
        decreases n - k,
    {
        match T::read(data, at) {
            None => {
                proof {
                    reveal(counted_at);
                    bytes::lemma_repeat_none(p, data@, start as int, (k + 1) as nat, n as nat);
                }
                return None;
            },
            Some((x, end)) => {
                let ghost before = items@;
                items.push(x);
                assert(models(items@) =~= models(before).push(x.model()));
                at = end;
            },
        }
        k = k + 1;
    }
    Some((items, at))
}

// ---------------------------------------------------------------------------
// Strings, fields, members
// ---------------------------------------------------------------------------

/// The number of eight bytes at an offset.
pub open spec fn number_at(data: Seq<u8>, pos: int) -> Option<(u64, int)> {
    if 0 <= pos && pos + 8 <= data.len() {
        Some((bytes::le_at(data, pos, 8) as u64, pos + 8))
    } else {
        None
    }
}

/// A number of eight bytes.
pub open spec fn number_bytes(n: u64) -> Seq<u8> {
    bytes::le_bytes(n as nat, 8)
}

pub proof fn lemma_number_reads(n: u64, data: Seq<u8>, pos: int)
    requires
        bytes::has_at(data, pos, number_bytes(n)),
    ensures
        number_at(data, pos) == Some((n, pos + 8)),
        number_bytes(n).len() == 8,
{
    bytes::lemma_pow256_values();
    bytes::lemma_le_at(data, pos, n as nat, 8);
    bytes::lemma_le_bytes_len(n as nat, 8);
}

pub proof fn lemma_number_keeps(data: Seq<u8>, other: Seq<u8>, n: int, pos: int)
    requires
        bytes::same_upto(data, other, n),
    ensures
        number_at(data, pos) matches Some((_, end)) ==> pos < end <= data.len() && (end <= n
            ==> number_at(other, pos) == number_at(data, pos)),
{
    if 0 <= pos && pos + 8 <= n {
        bytes::lemma_window(data, other, n, pos, pos + 8);
    }
}

/// Reads a number of eight bytes.
pub fn read_number(data: &[u8], pos: usize) -> (r: Option<(u64, usize)>)
    ensures
        match r {
            Some((n, end)) => number_at(data@, pos as int) == Some((n, end as int)) && pos <= end
                <= data@.len(),
            None => number_at(data@, pos as int) is None,
        },
{
    let len: usize = data.len();
    if pos > len || len - pos < 8 {
        return None;
    }
    Some((read_le(data, pos, 8), pos + 8))
}

impl Record for Vec<u8> {
    type Model = Seq<u8>;

    open spec fn model(&self) -> Seq<u8> {
        self@
    }

    open spec fn writable(m: Seq<u8>) -> bool {
        true
    }

    open spec fn stored(m: Seq<u8>) -> Seq<u8> {
        rdb_wire::string_bytes(m)
    }

    open spec fn at(data: Seq<u8>, pos: int) -> Option<(Seq<u8>, int)> {
        rdb_wire::string_at(data, pos)
    }

    open spec fn lasting(m: Seq<u8>) -> bool {
        rdb_wire::storable(m)
    }

    open spec fn sized(m: Seq<u8>) -> bool {
        m.len() <= u64::MAX
    }

    proof fn spans(m: Seq<u8>, data: Seq<u8>, pos: int) {
        rdb_wire::lemma_string_spans(data, pos, m);
    }

    proof fn reads(m: Seq<u8>, data: Seq<u8>, pos: int) {
        rdb_wire::law_string_round_trip(data, pos, m);
    }

    proof fn keeps(data: Seq<u8>, other: Seq<u8>, n: int, pos: int) {
        rdb_wire::lemma_string_local(data, other, n, pos);
    }

    fn write(&self, buf: &mut Vec<u8>) {
        rdb_encode_string(buf, self.as_slice());
    }

    fn read(data: &[u8], pos: usize) -> (r: Option<(Self, usize)>) {
        rdb_decode_string(data, pos)
    }
}

/// Two strings one behind the other.
pub open spec fn pair_bytes(f: FieldView) -> Seq<u8> {
    rdb_wire::string_bytes(f.0) + rdb_wire::string_bytes(f.1)
}

/// The two strings at an offset.
pub open spec fn pair_at(data: Seq<u8>, pos: int) -> Option<(FieldView, int)> {
    match rdb_wire::string_at(data, pos) {
        None => None,
        Some((a, mid)) => match rdb_wire::string_at(data, mid) {
            None => None,
            Some((b, end)) => Some(((a, b), end)),
        },
    }
}

impl Record for (Vec<u8>, Vec<u8>) {
    type Model = FieldView;

    open spec fn model(&self) -> FieldView {
        (self.0@, self.1@)
    }

    open spec fn writable(m: FieldView) -> bool {
        true
    }

    open spec fn stored(m: FieldView) -> Seq<u8> {
        pair_bytes(m)
    }

    open spec fn at(data: Seq<u8>, pos: int) -> Option<(FieldView, int)> {
        pair_at(data, pos)
    }

    open spec fn lasting(m: FieldView) -> bool {
        rdb_wire::storable(m.0) && rdb_wire::storable(m.1)
    }

    open spec fn sized(m: FieldView) -> bool {
        m.0.len() <= u64::MAX && m.1.len() <= u64::MAX
    }

    proof fn spans(m: FieldView, data: Seq<u8>, pos: int) {
        let a = rdb_wire::string_bytes(m.0);
        bytes::lemma_has_at_concat(data, pos, a, rdb_wire::string_bytes(m.1));
        rdb_wire::lemma_string_spans(data, pos, m.0);
        rdb_wire::lemma_string_spans(data, pos + a.len(), m.1);
    }

    proof fn reads(m: FieldView, data: Seq<u8>, pos: int) {
        let a = rdb_wire::string_bytes(m.0);
        bytes::lemma_has_at_concat(data, pos, a, rdb_wire::string_bytes(m.1));
        rdb_wire::law_string_round_trip(data, pos, m.0);
        rdb_wire::law_string_round_trip(data, pos + a.len(), m.1);
    }

    proof fn keeps(data: Seq<u8>, other: Seq<u8>, n: int, pos: int) {
        rdb_wire::lemma_string_local(data, other, n, pos);
        if let Some((_, mid)) = rdb_wire::string_at(data, pos) {
            rdb_wire::lemma_string_local(data, other, n, mid);
        }
    }

    fn write(&self, buf: &mut Vec<u8>) {
        rdb_encode_string(buf, self.0.as_slice());
        rdb_encode_string(buf, self.1.as_slice());
        assert(buf@ =~= old(buf)@ + pair_bytes((self.0@, self.1@)));
    }

    fn read(data: &[u8], pos: usize) -> (r: Option<(Self, usize)>) {
        match rdb_decode_string(data, pos) {
            None => None,
            Some((a, mid)) => match rdb_decode_string(data, mid) {
                None => None,
                Some((b, end)) => Some(((a, b), end)),
            },
        }
    }
}

/// The deadline as it is stored; all ones for none.
pub open spec fn stored_option(n: Option<u64>) -> u64 {
    match n {
        Some(n) => n,
        None => u64::MAX,
    }
}

/// What a stored number says; all ones say none.
pub open spec fn loaded_option(n: u64) -> Option<u64> {
    if n == u64::MAX {
        None
    } else {
        Some(n)
    }
}

/// The number to store; all ones for none.
pub fn option_to_stored(n: Option<u64>) -> (r: u64)
    ensures
        r == stored_option(n),
{
    match n {
        Some(n) => n,
        None => u64::MAX,
    }
}

/// What a stored number says; all ones say none.
pub fn option_from_stored(n: u64) -> (r: Option<u64>)
    ensures
        r == loaded_option(n),
{
    if n == u64::MAX {
        None
    } else {
        Some(n)
    }
}

impl Record for (Vec<u8>, Vec<u8>, Option<u64>) {
    type Model = (Seq<u8>, Seq<u8>, Option<u64>);

    open spec fn model(&self) -> (Seq<u8>, Seq<u8>, Option<u64>) {
        (self.0@, self.1@, self.2)
    }

    open spec fn writable(m: (Seq<u8>, Seq<u8>, Option<u64>)) -> bool {
        true
    }

    open spec fn stored(m: (Seq<u8>, Seq<u8>, Option<u64>)) -> Seq<u8> {
        pair_bytes((m.0, m.1)) + number_bytes(stored_option(m.2))
    }

    open spec fn at(data: Seq<u8>, pos: int) -> Option<
        ((Seq<u8>, Seq<u8>, Option<u64>), int),
    > {
        match pair_at(data, pos) {
            None => None,
            Some((f, mid)) => match number_at(data, mid) {
                None => None,
                Some((n, end)) => Some(((f.0, f.1, loaded_option(n)), end)),
            },
        }
    }

    open spec fn lasting(m: (Seq<u8>, Seq<u8>, Option<u64>)) -> bool {
        rdb_wire::storable(m.0) && rdb_wire::storable(m.1) && m.2 != Some(u64::MAX)
    }

    open spec fn sized(m: (Seq<u8>, Seq<u8>, Option<u64>)) -> bool {
        m.0.len() <= u64::MAX && m.1.len() <= u64::MAX
    }

    proof fn spans(m: (Seq<u8>, Seq<u8>, Option<u64>), data: Seq<u8>, pos: int) {
        let a = pair_bytes((m.0, m.1));
        bytes::lemma_has_at_concat(data, pos, a, number_bytes(stored_option(m.2)));
        <(Vec<u8>, Vec<u8>) as Record>::spans((m.0, m.1), data, pos);
        lemma_number_reads(stored_option(m.2), data, pos + a.len());
    }

    proof fn reads(m: (Seq<u8>, Seq<u8>, Option<u64>), data: Seq<u8>, pos: int) {
        let a = pair_bytes((m.0, m.1));
        bytes::lemma_has_at_concat(data, pos, a, number_bytes(stored_option(m.2)));
        <(Vec<u8>, Vec<u8>) as Record>::reads((m.0, m.1), data, pos);
        lemma_number_reads(stored_option(m.2), data, pos + a.len());
    }

    proof fn keeps(data: Seq<u8>, other: Seq<u8>, n: int, pos: int) {
        <(Vec<u8>, Vec<u8>) as Record>::keeps(data, other, n, pos);
        if let Some((_, mid)) = pair_at(data, pos) {
            lemma_number_keeps(data, other, n, mid);
        }
    }

    fn write(&self, buf: &mut Vec<u8>) {
        rdb_encode_string(buf, self.0.as_slice());
        rdb_encode_string(buf, self.1.as_slice());
        push_le(buf, option_to_stored(self.2), 8);
        assert(buf@ =~= old(buf)@ + Self::stored(self.model()));
    }

    fn read(data: &[u8], pos: usize) -> (r: Option<(Self, usize)>) {
        match <(Vec<u8>, Vec<u8>) as Record>::read(data, pos) {
            None => None,
            Some((f, mid)) => match read_number(data, mid) {
                None => None,
                Some((n, end)) => Some(((f.0, f.1, option_from_stored(n)), end)),
            },
        }
    }
}

/// The bits of a score.
pub open spec fn score_bits(s: ScoreView) -> u64 {
    match s {
        ScoreView::Double { bits, text } => bits,
        _ => 0,
    }
}

impl Record for (Vec<u8>, RdbScore) {
    type Model = (Seq<u8>, ScoreView);

    open spec fn model(&self) -> (Seq<u8>, ScoreView) {
        (self.0@, self.1@)
    }

    open spec fn writable(m: (Seq<u8>, ScoreView)) -> bool {
        m.1 is Double
    }

    open spec fn stored(m: (Seq<u8>, ScoreView)) -> Seq<u8> {
        rdb_wire::string_bytes(m.0) + number_bytes(score_bits(m.1))
    }

    open spec fn at(data: Seq<u8>, pos: int) -> Option<((Seq<u8>, ScoreView), int)> {
        match rdb_wire::string_at(data, pos) {
            None => None,
            Some((name, mid)) => match number_at(data, mid) {
                None => None,
                Some((bits, end)) => Some(
                    ((name, ScoreView::Double { bits, text: Seq::empty() }), end),
                ),
            },
        }
    }

    open spec fn lasting(m: (Seq<u8>, ScoreView)) -> bool {
        rdb_wire::storable(m.0) && (m.1 matches ScoreView::Double { bits, text } && text.len() == 0)
    }

    open spec fn sized(m: (Seq<u8>, ScoreView)) -> bool {
        m.0.len() <= u64::MAX
    }

    proof fn spans(m: (Seq<u8>, ScoreView), data: Seq<u8>, pos: int) {
        let a = rdb_wire::string_bytes(m.0);
        bytes::lemma_has_at_concat(data, pos, a, number_bytes(score_bits(m.1)));
        rdb_wire::lemma_string_spans(data, pos, m.0);
        lemma_number_reads(score_bits(m.1), data, pos + a.len());
    }

    proof fn reads(m: (Seq<u8>, ScoreView), data: Seq<u8>, pos: int) {
        let a = rdb_wire::string_bytes(m.0);
        bytes::lemma_has_at_concat(data, pos, a, number_bytes(score_bits(m.1)));
        rdb_wire::law_string_round_trip(data, pos, m.0);
        lemma_number_reads(score_bits(m.1), data, pos + a.len());
        assert(m.1 =~= ScoreView::Double { bits: score_bits(m.1), text: Seq::empty() });
    }

    proof fn keeps(data: Seq<u8>, other: Seq<u8>, n: int, pos: int) {
        rdb_wire::lemma_string_local(data, other, n, pos);
        if let Some((_, mid)) = rdb_wire::string_at(data, pos) {
            lemma_number_keeps(data, other, n, mid);
        }
    }

    fn write(&self, buf: &mut Vec<u8>) {
        rdb_encode_string(buf, self.0.as_slice());
        let n: u64 = match &self.1 {
            RdbScore::Double { bits, text } => *bits,
            _ => 0,
        };
        push_le(buf, n, 8);
        assert(buf@ =~= old(buf)@ + Self::stored(self.model()));
    }

    fn read(data: &[u8], pos: usize) -> (r: Option<(Self, usize)>) {
        match rdb_decode_string(data, pos) {
            None => None,
            Some((name, mid)) => match read_number(data, mid) {
                None => None,
                Some((bits, end)) => {
                    let text: Vec<u8> = Vec::new();
                    assert(text@ =~= Seq::empty());
                    Some(((name, RdbScore::Double { bits, text }), end))
                },
            },
        }
    }
}

} // verus!
