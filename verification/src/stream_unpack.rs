//! Taking stream entries out of packs.

use vstd::prelude::*;
use vstd::slice::slice_subrange;

use crate::bytes;
use crate::bytes::{copy_bytes, copy_window};
use crate::decimal::{decimal_i64_bytes, magnitude};
use crate::listpack;
use crate::listpack::{decode_raw_values, LpValue, RawKind, RawListpackValue};
use crate::rdb_stream;
use crate::rdb_stream::UpstreamStreamError;
use crate::rdb_types;
use crate::rdb_types::{EntryView, FieldView, StreamEntry};

verus! {

// ---------------------------------------------------------------------------
// What a node says
// ---------------------------------------------------------------------------

/// The integer at `i`.
pub open spec fn int_piece(values: Seq<LpValue>, i: int) -> Result<int, UpstreamStreamError> {
    if !(0 <= i < values.len()) {
        Err(UpstreamStreamError::ShortListpackEntries)
    } else {
        match values[i] {
            LpValue::Integer(n) => Ok(n),
            LpValue::Text(_, _) => Err(UpstreamStreamError::ExpectedListpackInteger),
        }
    }
}

/// The number at `i`, which must not be negative.
pub open spec fn count_piece(values: Seq<LpValue>, i: int) -> Result<nat, UpstreamStreamError> {
    match int_piece(values, i) {
        Err(e) => Err(e),
        Ok(n) => if n < 0 {
            Err(UpstreamStreamError::InvalidFieldCount)
        } else {
            Ok(n as nat)
        },
    }
}

/// The byte string at `i`.
pub open spec fn text_piece(blob: Seq<u8>, values: Seq<LpValue>, i: int) -> Result<
    Seq<u8>,
    UpstreamStreamError,
> {
    if !(0 <= i < values.len()) {
        Err(UpstreamStreamError::ShortListpackEntries)
    } else {
        Ok(listpack::value_bytes(blob, values[i]))
    }
}

/// `n` byte strings from `i` on.
pub open spec fn text_pieces(blob: Seq<u8>, values: Seq<LpValue>, i: int, n: nat) -> Result<
    Seq<Seq<u8>>,
    UpstreamStreamError,
>
    decreases n,
{
    if n == 0 {
        Ok(Seq::empty())
    } else {
        match text_pieces(blob, values, i, (n - 1) as nat) {
            Err(e) => Err(e),
            Ok(front) => match text_piece(blob, values, i + n - 1) {
                Err(e) => Err(e),
                Ok(s) => Ok(front.push(s)),
            },
        }
    }
}

/// `n` fields with their values from `i` on.
pub open spec fn field_pieces(blob: Seq<u8>, values: Seq<LpValue>, i: int, n: nat) -> Result<
    Seq<FieldView>,
    UpstreamStreamError,
>
    decreases n,
{
    if n == 0 {
        Ok(Seq::empty())
    } else {
        match field_pieces(blob, values, i, (n - 1) as nat) {
            Err(e) => Err(e),
            Ok(front) => match text_piece(blob, values, i + 2 * (n - 1)) {
                Err(e) => Err(e),
                Ok(name) => match text_piece(blob, values, i + 2 * (n - 1) + 1) {
                    Err(e) => Err(e),
                    Ok(value) => Ok(front.push((name, value))),
                },
            },
        }
    }
}

/// Names with the values at the same places.
pub open spec fn zipped(names: Seq<Seq<u8>>, values: Seq<Seq<u8>>) -> Seq<FieldView> {
    Seq::new(values.len(), |k: int| (names[k], values[k]))
}

/// The fields of an entry whose flags, id and number of fields are read, with the
/// offset behind them and the number of pieces that the entry should take.
pub open spec fn body_piece(
    blob: Seq<u8>,
    values: Seq<LpValue>,
    i: int,
    same: bool,
    names: Seq<Seq<u8>>,
) -> Result<(Seq<FieldView>, int, int), UpstreamStreamError> {
    if same {
        match text_pieces(blob, values, i, names.len()) {
            Err(e) => Err(e),
            Ok(found) => Ok((zipped(names, found), i + names.len(), (names.len() + 3) as int)),
        }
    } else {
        match count_piece(values, i) {
            Err(e) => Err(e),
            Ok(n) => match field_pieces(blob, values, i + 1, n) {
                Err(e) => Err(e),
                Ok(fields) => Ok((fields, i + 1 + 2 * n, (2 * n + 4) as int)),
            },
        }
    }
}

/// An id half moved by a signed difference, wrapped to 64 bits.
pub open spec fn moved(base: u64, delta: int) -> u64 {
    ((base + delta) % 0x1_0000_0000_0000_0000) as u64
}

/// The entry at `i` under a master: whether it is deleted, what it says, and the
/// offset behind it.
pub open spec fn entry_piece(
    blob: Seq<u8>,
    values: Seq<LpValue>,
    i: int,
    master: (u64, u64),
    names: Seq<Seq<u8>>,
) -> Result<(bool, EntryView, int), UpstreamStreamError> {
    match int_piece(values, i) {
        Err(e) => Err(e),
        Ok(flags) => match int_piece(values, i + 1) {
            Err(e) => Err(e),
            Ok(ms) => match int_piece(values, i + 2) {
                Err(e) => Err(e),
                Ok(seq) => match body_piece(blob, values, i + 3, flags % 4 >= 2, names) {
                    Err(e) => Err(e),
                    Ok((fields, after, pieces)) => match int_piece(values, after) {
                        Err(e) => Err(e),
                        Ok(said) => if said != pieces {
                            Err(UpstreamStreamError::InconsistentEntryTrailer)
                        } else {
                            Ok(
                                (
                                    flags % 2 == 1,
                                    EntryView {
                                        ms: moved(master.0, ms),
                                        seq: moved(master.1, seq),
                                        fields,
                                    },
                                    after + 1,
                                ),
                            )
                        },
                    },
                },
            },
        },
    }
}

/// The bytes of the values of fields.
pub open spec fn value_len(fields: Seq<FieldView>) -> nat
    decreases fields.len(),
{
    if fields.len() == 0 {
        0
    } else {
        value_len(fields.drop_last()) + fields.last().1.len()
    }
}

/// Where the unpacking of a stream stands: the entries found, the number of their
/// fields, and the bytes of all values read, those of deleted entries too.
#[verifier::ext_equal]
pub struct Unpacked {
    pub entries: Seq<EntryView>,
    pub fields: nat,
    pub value_bytes: nat,
}

/// The state with one more entry read.
pub open spec fn unpacked_more(u: Unpacked, deleted: bool, e: EntryView) -> Unpacked {
    if deleted {
        Unpacked { value_bytes: u.value_bytes + value_len(e.fields), ..u }
    } else {
        Unpacked {
            entries: u.entries.push(e),
            fields: u.fields + e.fields.len(),
            value_bytes: u.value_bytes + value_len(e.fields),
        }
    }
}

/// The entries from `i` on, behind what is already unpacked. Where the fields are
/// indexed (`flat`), their number must stay within 32 bits.
pub open spec fn entries_from(
    blob: Seq<u8>,
    values: Seq<LpValue>,
    i: int,
    master: (u64, u64),
    names: Seq<Seq<u8>>,
    flat: bool,
    u: Unpacked,
    total: nat,
    live: nat,
) -> Result<(Unpacked, nat, nat), UpstreamStreamError>
    decreases values.len() - i,
{
    if 0 <= i < values.len() {
        proof {
            lemma_entry_piece(blob, values, i, master, names);
        }
        match entry_piece(blob, values, i, master, names) {
            Err(e) => Err(e),
            Ok((deleted, e, next)) => if !deleted && flat && (e.fields.len() > u32::MAX
                || u.fields > u32::MAX) {
                Err(UpstreamStreamError::InvalidFieldCount)
            } else {
                entries_from(
                    blob,
                    values,
                    next,
                    master,
                    names,
                    flat,
                    unpacked_more(u, deleted, e),
                    total + 1,
                    if deleted {
                        live
                    } else {
                        live + 1
                    },
                )
            },
        }
    } else {
        Ok((u, total, live))
    }
}

/// The opening of a node: numbers of live and of deleted entries, the master's field
/// names, and the offset behind them.
pub open spec fn opening(blob: Seq<u8>, values: Seq<LpValue>) -> Result<
    (nat, nat, Seq<Seq<u8>>, int),
    UpstreamStreamError,
> {
    match count_piece(values, 0) {
        Err(e) => Err(e),
        Ok(live) => match count_piece(values, 1) {
            Err(e) => Err(e),
            Ok(deleted) => match count_piece(values, 2) {
                Err(e) => Err(e),
                Ok(n) => match text_pieces(blob, values, 3, n) {
                    Err(e) => Err(e),
                    Ok(names) => match int_piece(values, 3 + n as int) {
                        Err(e) => Err(e),
                        Ok(zero) => if zero != 0 {
                            Err(UpstreamStreamError::InconsistentEntryTrailer)
                        } else {
                            Ok((live, deleted, names, 4 + n as int))
                        },
                    },
                },
            },
        },
    }
}

/// A node unpacked, behind what is already unpacked.
pub open spec fn unpack_values(
    blob: Seq<u8>,
    values: Seq<LpValue>,
    master: (u64, u64),
    flat: bool,
    u: Unpacked,
) -> Result<Unpacked, UpstreamStreamError> {
    match opening(blob, values) {
        Err(e) => Err(e),
        Ok((live, deleted, names, start)) => match entries_from(
            blob,
            values,
            start,
            master,
            names,
            flat,
            u,
            0,
            0,
        ) {
            Err(e) => Err(e),
            Ok((found, total, alive)) => if total != live + deleted || alive != live {
                Err(UpstreamStreamError::InconsistentEntryCount)
            } else {
                Ok(found)
            },
        },
    }
}

/// A node unpacked, behind what is already unpacked.
pub open spec fn unpack_node(
    node: (u64, u64, Seq<u8>),
    flat: bool,
    u: Unpacked,
) -> Result<Unpacked, UpstreamStreamError> {
    match listpack::values_of(node.2) {
        Err(e) => Err(UpstreamStreamError::InvalidListpack(e)),
        Ok(values) => unpack_values(node.2, values, (node.0, node.1), flat, u),
    }
}

/// The first `k` nodes unpacked.
pub open spec fn unpack_upto(nodes: Seq<(u64, u64, Seq<u8>)>, k: nat, flat: bool) -> Result<
    Unpacked,
    UpstreamStreamError,
>
    decreases k,
{
    if k == 0 {
        Ok(Unpacked { entries: Seq::empty(), fields: 0, value_bytes: 0 })
    } else {
        match unpack_upto(nodes, (k - 1) as nat, flat) {
            Err(e) => Err(e),
            Ok(u) => unpack_node(nodes[k - 1], flat, u),
        }
    }
}

/// All nodes unpacked.
pub open spec fn unpack_all(nodes: Seq<(u64, u64, Seq<u8>)>, flat: bool) -> Result<
    Unpacked,
    UpstreamStreamError,
> {
    unpack_upto(nodes, nodes.len(), flat)
}

pub proof fn lemma_unpack_err(nodes: Seq<(u64, u64, Seq<u8>)>, k: nat, n: nat, flat: bool)
    requires
        k <= n,
        unpack_upto(nodes, k, flat) is Err,
    ensures
        unpack_upto(nodes, n, flat) == unpack_upto(nodes, k, flat),
    decreases n,
{
    if k < n {
        lemma_unpack_err(nodes, k, (n - 1) as nat, flat);
    }
}

pub proof fn lemma_text_pieces(blob: Seq<u8>, values: Seq<LpValue>, i: int, n: nat)
    requires
        0 <= i,
    ensures
        text_pieces(blob, values, i, n) matches Ok(found) ==> found.len() == n && (n > 0 ==> i + n
            <= values.len()),
    decreases n,
{
    if n > 0 {
        lemma_text_pieces(blob, values, i, (n - 1) as nat);
    }
}

pub proof fn lemma_field_pieces(blob: Seq<u8>, values: Seq<LpValue>, i: int, n: nat)
    requires
        0 <= i,
    ensures
        field_pieces(blob, values, i, n) matches Ok(found) ==> found.len() == n && (n > 0 ==> i + 2
            * n <= values.len()),
    decreases n,
{
    if n > 0 {
        lemma_field_pieces(blob, values, i, (n - 1) as nat);
    }
}

/// An entry takes at least four pieces.
pub proof fn lemma_entry_piece(
    blob: Seq<u8>,
    values: Seq<LpValue>,
    i: int,
    master: (u64, u64),
    names: Seq<Seq<u8>>,
)
    requires
        0 <= i,
    ensures
        entry_piece(blob, values, i, master, names) matches Ok((_, e, next)) ==> i + 4 <= next
            <= values.len() && e.fields.len() <= next - i,
{
    if let Ok(flags) = int_piece(values, i) {
        if flags % 4 >= 2 {
            lemma_text_pieces(blob, values, i + 3, names.len());
        } else if let Ok(n) = count_piece(values, i + 3) {
            lemma_field_pieces(blob, values, i + 4, n);
        }
    }
}

proof fn lemma_text_pieces_err(blob: Seq<u8>, values: Seq<LpValue>, i: int, k: nat, n: nat)
    requires
        k <= n,
        text_pieces(blob, values, i, k) is Err,
    ensures
        text_pieces(blob, values, i, n) == text_pieces(blob, values, i, k),
    decreases n,
{
    if k < n {
        lemma_text_pieces_err(blob, values, i, k, (n - 1) as nat);
    }
}

proof fn lemma_field_pieces_err(blob: Seq<u8>, values: Seq<LpValue>, i: int, k: nat, n: nat)
    requires
        k <= n,
        field_pieces(blob, values, i, k) is Err,
    ensures
        field_pieces(blob, values, i, n) == field_pieces(blob, values, i, k),
    decreases n,
{
    if k < n {
        lemma_field_pieces_err(blob, values, i, k, (n - 1) as nat);
    }
}

// ---------------------------------------------------------------------------
// Taking pieces
// ---------------------------------------------------------------------------

/// The raw values of a pack, all of them inside it.
pub open spec fn raws_of(blob: Seq<u8>, raws: Seq<RawListpackValue>, values: Seq<LpValue>) -> bool {
    &&& listpack::raws_match(raws, values)
    &&& forall|i: int| 0 <= i < values.len() ==> listpack::value_fits(blob, #[trigger] values[i])
}

fn take_int(raws: &[RawListpackValue], i: usize, Ghost(values): Ghost<Seq<LpValue>>) -> (r: Result<
    i64,
    UpstreamStreamError,
>)
    requires
        listpack::raws_match(raws@, values),
    ensures
        match int_piece(values, i as int) {
            Ok(n) => r matches Ok(v) && v == n && i < raws@.len(),
            Err(e) => r == Err::<i64, UpstreamStreamError>(e),
        },
{
    if i >= raws.len() {
        return Err(UpstreamStreamError::ShortListpackEntries);
    }
    assert(raws@[i as int]@ == values[i as int]);
    match raws[i].kind() {
        RawKind::Integer(n) => Ok(n),
        RawKind::String(_) => Err(UpstreamStreamError::ExpectedListpackInteger),
    }
}

fn take_count(raws: &[RawListpackValue], i: usize, Ghost(values): Ghost<Seq<LpValue>>) -> (r: Result<
    u64,
    UpstreamStreamError,
>)
    requires
        listpack::raws_match(raws@, values),
    ensures
        match count_piece(values, i as int) {
            Ok(n) => r matches Ok(v) && v == n && v <= i64::MAX && i < raws@.len(),
            Err(e) => r == Err::<u64, UpstreamStreamError>(e),
        },
{
    match take_int(raws, i, Ghost(values)) {
        Err(e) => Err(e),
        Ok(n) => if n < 0 {
            Err(UpstreamStreamError::InvalidFieldCount)
        } else {
            Ok(n as u64)
        },
    }
}

fn take_string(
    raws: &[RawListpackValue],
    blob: &[u8],
    i: usize,
    Ghost(values): Ghost<Seq<LpValue>>,
) -> (r: Result<Vec<u8>, UpstreamStreamError>)
    requires
        raws_of(blob@, raws@, values),
    ensures
        match text_piece(blob@, values, i as int) {
            Ok(s) => r matches Ok(v) && v@ == s && i < raws@.len(),
            Err(e) => r == Err::<Vec<u8>, UpstreamStreamError>(e),
        },
{
    if i >= raws.len() {
        return Err(UpstreamStreamError::ShortListpackEntries);
    }
    assert(raws@[i as int]@ == values[i as int]);
    assert(listpack::value_fits(blob@, values[i as int]));
    match raws[i].kind() {
        RawKind::Integer(n) => Ok(decimal_i64_bytes(n)),
        RawKind::String(range) => Ok(copy_window(blob, range.start as usize, range.end as usize)),
    }
}

fn take_strings(
    raws: &[RawListpackValue],
    blob: &[u8],
    i: usize,
    n: u64,
    Ghost(values): Ghost<Seq<LpValue>>,
) -> (r: Result<Vec<Vec<u8>>, UpstreamStreamError>)
    requires
        raws_of(blob@, raws@, values),
        i <= raws@.len(),
    ensures
        match text_pieces(blob@, values, i as int, n as nat) {
            Ok(found) => r matches Ok(out) && bytes::views(out@) == found && i + n <= raws@.len(),
            Err(e) => r == Err::<Vec<Vec<u8>>, UpstreamStreamError>(e),
        },
{
    let mut out: Vec<Vec<u8>> = Vec::new();
    let len: usize = raws.len();
    let mut k: u64 = 0;
    assert(bytes::views(out@) =~= Seq::empty());
    while k < n
        invariant
            k <= n,
            i + k <= raws@.len() == len,
            raws_of(blob@, raws@, values),
            text_pieces(blob@, values, i as int, k as nat) == Ok::<
                Seq<Seq<u8>>,
                UpstreamStreamError,
            >(bytes::views(out@)),
        decreases n - k,
    {
        match take_string(raws, blob, i + k as usize, Ghost(values)) {
            Err(e) => {
                proof {
                    lemma_text_pieces_err(blob@, values, i as int, (k + 1) as nat, n as nat);
                }
                return Err(e);
            },
            Ok(s) => {
                assert(bytes::views(out@.push(s)) =~= bytes::views(out@).push(s@));
                out.push(s);
            },
        }
        k = k + 1;
    }
    Ok(out)
}

fn take_fields(
    raws: &[RawListpackValue],
    blob: &[u8],
    i: usize,
    n: u64,
    Ghost(values): Ghost<Seq<LpValue>>,
) -> (r: Result<Vec<(Vec<u8>, Vec<u8>)>, UpstreamStreamError>)
    requires
        raws_of(blob@, raws@, values),
        i <= raws@.len(),
    ensures
        match field_pieces(blob@, values, i as int, n as nat) {
            Ok(found) => r matches Ok(out) && rdb_types::field_views(out@) == found && i + 2 * n
                <= raws@.len(),
            Err(e) => r == Err::<Vec<(Vec<u8>, Vec<u8>)>, UpstreamStreamError>(e),
        },
{
    let mut out: Vec<(Vec<u8>, Vec<u8>)> = Vec::new();
    let len: usize = raws.len();
    let mut k: u64 = 0;
    assert(rdb_types::field_views(out@) =~= Seq::empty());
    while k < n
        invariant
            k <= n,
            i + 2 * k <= raws@.len() == len,
            raws_of(blob@, raws@, values),
            field_pieces(blob@, values, i as int, k as nat) == Ok::<
                Seq<FieldView>,
                UpstreamStreamError,
            >(rdb_types::field_views(out@)),
        decreases n - k,
    {
        let at: usize = i + 2 * k as usize;
        let name: Vec<u8> = match take_string(raws, blob, at, Ghost(values)) {
            Err(e) => {
                proof {
                    lemma_field_pieces_err(blob@, values, i as int, (k + 1) as nat, n as nat);
                }
                return Err(e);
            },
            Ok(s) => s,
        };
        match take_string(raws, blob, at + 1, Ghost(values)) {
            Err(e) => {
                proof {
                    lemma_field_pieces_err(blob@, values, i as int, (k + 1) as nat, n as nat);
                }
                return Err(e);
            },
            Ok(value) => {
                proof {
                    let f = (name, value);
                    assert(rdb_types::field_views(out@.push(f)) =~= rdb_types::field_views(
                        out@,
                    ).push((f.0@, f.1@)));
                }
                out.push((name, value));
            },
        }
        k = k + 1;
    }
    Ok(out)
}

/// Applies a signed difference to an id half, wrapping around.
pub fn combine_u64_i64(base: u64, delta: i64) -> (r: u64)
    ensures
        r == moved(base, delta as int),
{
    if delta >= 0 {
        base.wrapping_add(delta as u64)
    } else {
        base.wrapping_sub(magnitude(delta))
    }
}

/// How many pieces an entry of `n` fields takes before its trailer.
fn expected_entry_lp_count(n: u64, same_fields: bool) -> (r: u128)
    ensures
        r == if same_fields {
            n + 3
        } else {
            2 * n + 4
        },
{
    if same_fields {
        n as u128 + 3
    } else {
        2 * n as u128 + 4
    }
}

/// The two low bits of a flag word.
fn flag_bits(flags: i64) -> (r: u64)
    ensures
        r == flags as int % 4,
{
    if flags >= 0 {
        flags as u64 % 4
    } else {
        (4 - magnitude(flags) % 4) % 4
    }
}

fn zip_fields(names: &Vec<Vec<u8>>, found: Vec<Vec<u8>>) -> (out: Vec<(Vec<u8>, Vec<u8>)>)
    requires
        names@.len() == found@.len(),
    ensures
        rdb_types::field_views(out@) == zipped(bytes::views(names@), bytes::views(found@)),
{
    let mut out: Vec<(Vec<u8>, Vec<u8>)> = Vec::new();
    let mut k: usize = 0;
    while k < found.len()
        invariant
            k <= found@.len() == names@.len(),
            out@.len() == k,
            forall|j: int|
                0 <= j < k ==> (#[trigger] out@[j]).0@ == names@[j]@ && out@[j].1@ == found@[j]@,
        decreases found@.len() - k,
    {
        out.push((copy_bytes(&names[k]), copy_bytes(&found[k])));
        k = k + 1;
    }
    assert(rdb_types::field_views(out@) =~= zipped(bytes::views(names@), bytes::views(found@)));
    out
}

fn take_body(
    raws: &[RawListpackValue],
    blob: &[u8],
    i: usize,
    same: bool,
    names: &Vec<Vec<u8>>,
    Ghost(values): Ghost<Seq<LpValue>>,
) -> (r: Result<(Vec<(Vec<u8>, Vec<u8>)>, usize, u128), UpstreamStreamError>)
    requires
        raws_of(blob@, raws@, values),
        i <= raws@.len(),
        names@.len() <= raws@.len(),
    ensures
        match body_piece(blob@, values, i as int, same, bytes::views(names@)) {
            Ok((fields, after, pieces)) => r matches Ok((out, next, n)) && rdb_types::field_views(
                out@,
            ) == fields && next == after && n == pieces && next <= raws@.len(),
            Err(e) => r == Err::<(Vec<(Vec<u8>, Vec<u8>)>, usize, u128), UpstreamStreamError>(e),
        },
{
    let len: usize = raws.len();
    if same {
        let n: u64 = names.len() as u64;
        match take_strings(raws, blob, i, n, Ghost(values)) {
            Err(e) => Err(e),
            Ok(found) => {
                proof {
                    lemma_text_pieces(blob@, values, i as int, n as nat);
                }
                assert(found@.len() == bytes::views(found@).len());
                let after: usize = i + names.len();
                Ok((zip_fields(names, found), after, expected_entry_lp_count(n, true)))
            },
        }
    } else {
        match take_count(raws, i, Ghost(values)) {
            Err(e) => Err(e),
            Ok(n) => match take_fields(raws, blob, i + 1, n, Ghost(values)) {
                Err(e) => Err(e),
                Ok(out) => {
                    let after: usize = i + 1 + 2 * n as usize;
                    Ok((out, after, expected_entry_lp_count(n, false)))
                },
            },
        }
    }
}

fn take_entry(
    raws: &[RawListpackValue],
    blob: &[u8],
    i: usize,
    master: (u64, u64),
    names: &Vec<Vec<u8>>,
    Ghost(values): Ghost<Seq<LpValue>>,
) -> (r: Result<(bool, StreamEntry, usize), UpstreamStreamError>)
    requires
        raws_of(blob@, raws@, values),
        i <= raws@.len(),
        names@.len() <= raws@.len(),
    ensures
        match entry_piece(blob@, values, i as int, master, bytes::views(names@)) {
            Ok((deleted, e, next)) => r matches Ok((d, entry, after)) && d == deleted
                && rdb_types::entry_view(entry) == e && after == next,
            Err(e) => r == Err::<(bool, StreamEntry, usize), UpstreamStreamError>(e),
        },
{
    let len: usize = raws.len();
    let flags: i64 = match take_int(raws, i, Ghost(values)) {
        Err(e) => {
            return Err(e);
        },
        Ok(n) => n,
    };
    let ms: i64 = match take_int(raws, i + 1, Ghost(values)) {
        Err(e) => {
            return Err(e);
        },
        Ok(n) => n,
    };
    let seq: i64 = match take_int(raws, i + 2, Ghost(values)) {
        Err(e) => {
            return Err(e);
        },
        Ok(n) => n,
    };
    let bits: u64 = flag_bits(flags);
    let (fields, after, pieces) = match take_body(
        raws,
        blob,
        i + 3,
        bits >= 2,
        names,
        Ghost(values),
    ) {
        Err(e) => {
            return Err(e);
        },
        Ok(found) => found,
    };
    let said: i64 = match take_int(raws, after, Ghost(values)) {
        Err(e) => {
            return Err(e);
        },
        Ok(n) => n,
    };
    if said < 0 || said as u128 != pieces {
        return Err(UpstreamStreamError::InconsistentEntryTrailer);
    }
    Ok(
        (
            bits % 2 == 1,
            (combine_u64_i64(master.0, ms), combine_u64_i64(master.1, seq), fields),
            after + 1,
        ),
    )
}

fn take_opening(raws: &[RawListpackValue], blob: &[u8], Ghost(values): Ghost<Seq<LpValue>>) -> (r:
    Result<(u64, u64, Vec<Vec<u8>>, usize), UpstreamStreamError>)
    requires
        raws_of(blob@, raws@, values),
    ensures
        match opening(blob@, values) {
            Ok((live, deleted, names, start)) => r matches Ok((l, d, n, s)) && l == live && d
                == deleted && bytes::views(n@) == names && s == start && s <= raws@.len() && l
                <= i64::MAX && d <= i64::MAX && n@.len() <= raws@.len(),
            Err(e) => r == Err::<(u64, u64, Vec<Vec<u8>>, usize), UpstreamStreamError>(e),
        },
{
    let live: u64 = match take_count(raws, 0, Ghost(values)) {
        Err(e) => {
            return Err(e);
        },
        Ok(n) => n,
    };
    let deleted: u64 = match take_count(raws, 1, Ghost(values)) {
        Err(e) => {
            return Err(e);
        },
        Ok(n) => n,
    };
    let n: u64 = match take_count(raws, 2, Ghost(values)) {
        Err(e) => {
            return Err(e);
        },
        Ok(n) => n,
    };
    let names: Vec<Vec<u8>> = match take_strings(raws, blob, 3, n, Ghost(values)) {
        Err(e) => {
            return Err(e);
        },
        Ok(found) => found,
    };
    proof {
        lemma_text_pieces(blob@, values, 3, n as nat);
        assert(names@.len() == bytes::views(names@).len());
    }
    let len: usize = raws.len();
    let at: usize = 3 + n as usize;
    match take_int(raws, at, Ghost(values)) {
        Err(e) => Err(e),
        Ok(zero) => if zero != 0 {
            Err(UpstreamStreamError::InconsistentEntryTrailer)
        } else {
            Ok((live, deleted, names, at + 1))
        },
    }
}

// ---------------------------------------------------------------------------
// Whole nodes
// ---------------------------------------------------------------------------

/// Where an unpacking stands.
pub struct Unpacking {
    pub entries: Vec<StreamEntry>,
    pub fields: u64,
    pub value_bytes: usize,
}

/// A number, or the greatest that fits.
pub open spec fn capped(n: nat, most: int) -> int {
    if n > most {
        most
    } else {
        n as int
    }
}

/// The ids of entries.
pub open spec fn entry_ids(entries: Seq<EntryView>) -> Seq<(u64, u64)> {
    entries.map_values(|e: EntryView| (e.ms, e.seq))
}

impl Unpacking {
    /// What it holds of `u`: the entries with or without their fields, and the sums.
    pub open spec fn stands_for(self, u: Unpacked, keep: bool) -> bool {
        &&& keep ==> rdb_types::entry_views(self.entries@) == u.entries
        &&& entry_ids(rdb_types::entry_views(self.entries@)) == entry_ids(u.entries)
        &&& self.fields == capped(u.fields, u64::MAX as int)
        &&& self.value_bytes == capped(u.value_bytes, usize::MAX as int)
    }

    pub fn new() -> (out: Self)
        ensures
            out.stands_for(Unpacked { entries: Seq::empty(), fields: 0, value_bytes: 0 }, true),
            out.stands_for(Unpacked { entries: Seq::empty(), fields: 0, value_bytes: 0 }, false),
    {
        let out = Unpacking { entries: Vec::new(), fields: 0, value_bytes: 0 };
        assert(rdb_types::entry_views(out.entries@) =~= Seq::empty());
        out
    }
}

fn value_len_of(fields: &Vec<(Vec<u8>, Vec<u8>)>) -> (n: usize)
    ensures
        n == capped(value_len(rdb_types::field_views(fields@)), usize::MAX as int),
{
    let mut n: usize = 0;
    let mut k: usize = 0;
    let ghost all = rdb_types::field_views(fields@);
    assert(all.take(0) =~= Seq::empty());
    while k < fields.len()
        invariant
            k <= fields@.len(),
            all == rdb_types::field_views(fields@),
            n == capped(value_len(all.take(k as int)), usize::MAX as int),
        decreases fields@.len() - k,
    {
        assert(all.take(k as int + 1).drop_last() =~= all.take(k as int));
        n = n.saturating_add(fields[k].1.len());
        k = k + 1;
    }
    assert(all.take(k as int) =~= all);
    n
}

/// Puts one read entry into an unpacking.
fn absorb<const KEEP: bool>(
    out: &mut Unpacking,
    deleted: bool,
    entry: StreamEntry,
    Ghost(u): Ghost<Unpacked>,
)
    requires
        old(out).stands_for(u, KEEP),
    ensures
        final(out).stands_for(unpacked_more(u, deleted, rdb_types::entry_view(entry)), KEEP),
{
    let ghost before = out.entries@;
    let more: usize = value_len_of(&entry.2);
    out.value_bytes = out.value_bytes.saturating_add(more);
    if !deleted {
        out.fields = out.fields.saturating_add(entry.2.len() as u64);
        let ghost e = rdb_types::entry_view(entry);
        if KEEP {
            out.entries.push(entry);
        } else {
            out.entries.push((entry.0, entry.1, Vec::new()));
        }
        proof {
            let now = rdb_types::entry_views(out.entries@);
            assert(now.drop_last() =~= rdb_types::entry_views(before));
            assert(entry_ids(now) =~= entry_ids(rdb_types::entry_views(before)).push(
                (e.ms, e.seq),
            ));
            assert(entry_ids(u.entries.push(e)) =~= entry_ids(u.entries).push((e.ms, e.seq)));
            if KEEP {
                assert(now =~= rdb_types::entry_views(before).push(e));
            }
        }
    }
}

/// Unpacks one node's values behind what is already unpacked. Without `KEEP` the
/// entries are checked as closely, and only their ids are kept.
fn decode_stream_listpack<const KEEP: bool>(
    raws: &[RawListpackValue],
    blob: &[u8],
    master: (u64, u64),
    flat: bool,
    out: &mut Unpacking,
    Ghost(values): Ghost<Seq<LpValue>>,
    Ghost(u): Ghost<Unpacked>,
) -> (r: Result<(), UpstreamStreamError>)
    requires
        raws_of(blob@, raws@, values),
        old(out).stands_for(u, KEEP),
    ensures
        match unpack_values(blob@, values, master, flat, u) {
            Ok(v) => r is Ok && final(out).stands_for(v, KEEP),
            Err(e) => r == Err::<(), UpstreamStreamError>(e),
        },
{
    let (live, deleted_count, names, start) = match take_opening(raws, blob, Ghost(values)) {
        Err(e) => {
            return Err(e);
        },
        Ok(found) => found,
    };
    let ghost name_views = bytes::views(names@);
    let len: usize = raws.len();
    let mut i: usize = start;
    let mut total: u64 = 0;
    let mut alive: u64 = 0;
    let ghost mut cur = u;
    while i < len
        invariant
            raws_of(blob@, raws@, values),
            len == raws@.len() == values.len(),
            i <= len,
            total <= i,
            alive <= total,
            names@.len() <= raws@.len(),
            name_views == bytes::views(names@),
            out.stands_for(cur, KEEP),
            entries_from(
                blob@,
                values,
                start as int,
                master,
                name_views,
                flat,
                u,
                0,
                0,
            ) == entries_from(
                blob@,
                values,
                i as int,
                master,
                name_views,
                flat,
                cur,
                total as nat,
                alive as nat,
            ),
            opening(blob@, values) == Ok::<(nat, nat, Seq<Seq<u8>>, int), UpstreamStreamError>(
                (live as nat, deleted_count as nat, name_views, start as int),
            ),
        decreases len - i,
    {
        proof {
            lemma_entry_piece(blob@, values, i as int, master, name_views);
        }
        let (deleted, entry, next) = match take_entry(
            raws,
            blob,
            i,
            master,
            &names,
            Ghost(values),
        ) {
            Err(e) => {
                return Err(e);
            },
            Ok(found) => found,
        };
        if !deleted && flat && (entry.2.len() as u64 > u32::MAX as u64 || out.fields
            > u32::MAX as u64) {
            return Err(UpstreamStreamError::InvalidFieldCount);
        }
        let ghost e = rdb_types::entry_view(entry);
        absorb::<KEEP>(out, deleted, entry, Ghost(cur));
        proof {
            cur = unpacked_more(cur, deleted, e);
        }
        total = total + 1;
        if !deleted {
            alive = alive + 1;
        }
        i = next;
    }
    if total != live + deleted_count || alive != live {
        return Err(UpstreamStreamError::InconsistentEntryCount);
    }
    Ok(())
}

/// Unpacks nodes one after the other.
pub fn unpack_nodes<const KEEP: bool>(nodes: &Vec<(u64, u64, Vec<u8>)>, flat: bool) -> (r: Result<
    Unpacking,
    UpstreamStreamError,
>)
    ensures
        match unpack_all(rdb_stream::node_views(nodes@), flat) {
            Ok(u) => r matches Ok(out) && out.stands_for(u, KEEP),
            Err(e) => r == Err::<Unpacking, UpstreamStreamError>(e),
        },
{
    let ghost all = rdb_stream::node_views(nodes@);
    let mut out = Unpacking::new();
    let ghost mut u = Unpacked { entries: Seq::empty(), fields: 0, value_bytes: 0 };
    let mut k: usize = 0;
    while k < nodes.len()
        invariant
            k <= nodes@.len(),
            all == rdb_stream::node_views(nodes@),
            unpack_upto(all, k as nat, flat) == Ok::<Unpacked, UpstreamStreamError>(u),
            out.stands_for(u, KEEP),
        decreases nodes@.len() - k,
    {
        let node = &nodes[k];
        let blob: &[u8] = node.2.as_slice();
        assert(all[k as int] == (node.0, node.1, node.2@));
        proof {
            if unpack_upto(all, (k + 1) as nat, flat) is Err {
                lemma_unpack_err(all, (k + 1) as nat, all.len(), flat);
            }
        }
        let raws: Vec<RawListpackValue> = match decode_raw_values(blob) {
            Err(e) => {
                return Err(UpstreamStreamError::InvalidListpack(e));
            },
            Ok(raws) => raws,
        };
        let ghost values = listpack::values_of(blob@)->Ok_0;
        proof {
            listpack::law_values_fit(blob@);
        }
        match decode_stream_listpack::<KEEP>(
            raws.as_slice(),
            blob,
            (node.0, node.1),
            flat,
            &mut out,
            Ghost(values),
            Ghost(u),
        ) {
            Err(e) => {
                return Err(e);
            },
            Ok(()) => {},
        }
        proof {
            u = unpack_upto(all, (k + 1) as nat, flat)->Ok_0;
        }
        k = k + 1;
    }
    Ok(out)
}

// ---------------------------------------------------------------------------
// Indexed entries
// ---------------------------------------------------------------------------

/// The number of fields of all entries together.
pub open spec fn total_fields(entries: Seq<EntryView>) -> nat
    decreases entries.len(),
{
    if entries.len() == 0 {
        0
    } else {
        total_fields(entries.drop_last()) + entries.last().fields.len()
    }
}

/// Where each entry's fields start, and how many they are, fits in 32 bits.
pub open spec fn indexable(entries: Seq<EntryView>) -> bool {
    forall|i: int|
        0 <= i < entries.len() ==> total_fields(#[trigger] entries.take(i)) <= u32::MAX
            && entries[i].fields.len() <= u32::MAX
}

/// The field count is that of the entries, which can be indexed where they have to be.
pub open spec fn tallied(u: Unpacked, flat: bool) -> bool {
    u.fields == total_fields(u.entries) && (flat ==> indexable(u.entries))
}

proof fn lemma_entries_tallied(
    blob: Seq<u8>,
    values: Seq<LpValue>,
    i: int,
    master: (u64, u64),
    names: Seq<Seq<u8>>,
    flat: bool,
    u: Unpacked,
    total: nat,
    live: nat,
)
    requires
        tallied(u, flat),
    ensures
        entries_from(blob, values, i, master, names, flat, u, total, live) matches Ok((v, _, _))
            ==> tallied(v, flat),
    decreases values.len() - i,
{
    if 0 <= i < values.len() {
        lemma_entry_piece(blob, values, i, master, names);
        if let Ok((deleted, e, next)) = entry_piece(blob, values, i, master, names) {
            let ok = deleted || !flat || (e.fields.len() <= u32::MAX && u.fields <= u32::MAX);
            if ok {
                let v = unpacked_more(u, deleted, e);
                if !deleted {
                    assert(v.entries.drop_last() =~= u.entries);
                    if flat {
                        assert forall|j: int| 0 <= j < v.entries.len() implies total_fields(
                            #[trigger] v.entries.take(j),
                        ) <= u32::MAX && v.entries[j].fields.len() <= u32::MAX by {
                            assert(v.entries.take(j) =~= u.entries.take(j));
                            assert(u.entries.take(u.entries.len() as int) =~= u.entries);
                        }
                    }
                }
                lemma_entries_tallied(
                    blob,
                    values,
                    next,
                    master,
                    names,
                    flat,
                    v,
                    total + 1,
                    if deleted {
                        live
                    } else {
                        live + 1
                    },
                );
            }
        }
    }
}

/// What is unpacked to be indexed can be indexed.
pub proof fn lemma_unpack_tallied(nodes: Seq<(u64, u64, Seq<u8>)>, k: nat, flat: bool)
    ensures
        unpack_upto(nodes, k, flat) matches Ok(u) ==> tallied(u, flat),
    decreases k,
{
    if k > 0 {
        lemma_unpack_tallied(nodes, (k - 1) as nat, flat);
        if let Ok(u) = unpack_upto(nodes, (k - 1) as nat, flat) {
            let node = nodes[k - 1];
            if let Ok(values) = listpack::values_of(node.2) {
                if let Ok((_, _, names, start)) = opening(node.2, values) {
                    lemma_entries_tallied(
                        node.2,
                        values,
                        start,
                        (node.0, node.1),
                        names,
                        flat,
                        u,
                        0,
                        0,
                    );
                }
            }
        }
    }
}

/// The entries of a stream, their fields end to end.
pub struct StreamOut {
    fields: Vec<(Vec<u8>, Vec<u8>)>,
    index: Vec<(u64, u64, u32, u32)>,
    value_bytes: usize,
}

spec fn indexed(fields: Seq<(Vec<u8>, Vec<u8>)>, at: (u64, u64, u32, u32)) -> EntryView {
    EntryView {
        ms: at.0,
        seq: at.1,
        fields: rdb_types::field_views(fields).subrange(at.2 as int, at.2 + at.3),
    }
}

impl View for StreamOut {
    type V = Seq<EntryView>;

    closed spec fn view(&self) -> Seq<EntryView> {
        self.index@.map_values(|at: (u64, u64, u32, u32)| indexed(self.fields@, at))
    }
}

impl Default for StreamOut {
    fn default() -> (out: Self)
        ensures
            out@ == Seq::<EntryView>::empty(),
            out.value_bytes() == 0,
    {
        let fields: Vec<(Vec<u8>, Vec<u8>)> = Vec::new();
        let index: Vec<(u64, u64, u32, u32)> = Vec::new();
        assert(index@.map_values(|at: (u64, u64, u32, u32)| indexed(fields@, at)) =~= Seq::empty());
        StreamOut { fields, index, value_bytes: 0 }
    }
}

impl StreamOut {
    #[verifier::type_invariant]
    spec fn wf(&self) -> bool {
        &&& self.fields@.len() == total_fields(self@)
        &&& forall|i: int|
            0 <= i < self.index@.len() ==> (#[trigger] self.index@[i]).2 + self.index@[i].3
                <= self.fields@.len()
    }

    /// The bytes of all values that were read, those of deleted entries too.
    pub closed spec fn value_bytes(&self) -> int {
        self.value_bytes as int
    }

    fn index_entries(entries: &Vec<StreamEntry>, value_bytes: usize) -> (out: StreamOut)
        requires
            indexable(rdb_types::entry_views(entries@)),
        ensures
            out@ == rdb_types::entry_views(entries@),
            out.value_bytes() == value_bytes,
    {
        let ghost all = rdb_types::entry_views(entries@);
        let mut fields: Vec<(Vec<u8>, Vec<u8>)> = Vec::new();
        let mut index: Vec<(u64, u64, u32, u32)> = Vec::new();
        let mut k: usize = 0;
        assert(all.take(0) =~= Seq::empty());
        while k < entries.len()
            invariant
                k <= entries@.len(),
                all == rdb_types::entry_views(entries@),
                indexable(all),
                fields@.len() == total_fields(all.take(k as int)),
                index@.len() == k,
                forall|i: int|
                    0 <= i < k ==> (#[trigger] index@[i]).2 + index@[i].3 <= fields@.len()
                        && indexed(fields@, index@[i]) == all[i],
            decreases entries@.len() - k,
        {
            let entry = &entries[k];
            assert(all.take(k as int).len() == k);
            assert(all[k as int] == rdb_types::entry_view(*entry));
            let off: usize = fields.len();
            let n: usize = entry.2.len();
            let ghost before = fields@;
            let mut j: usize = 0;
            while j < n
                invariant
                    j <= n == entry.2@.len(),
                    fields@.len() == before.len() + j,
                    fields@.take(before.len() as int) == before,
                    forall|i: int|
                        0 <= i < j ==> (#[trigger] fields@[before.len() + i]).0@ == entry.2@[i].0@
                            && fields@[before.len() + i].1@ == entry.2@[i].1@,
                decreases n - j,
            {
                let ghost prior = fields@;
                fields.push((copy_bytes(&entry.2[j].0), copy_bytes(&entry.2[j].1)));
                assert(fields@.take(before.len() as int) =~= prior.take(before.len() as int));
                j = j + 1;
            }
            index.push((entry.0, entry.1, off as u32, n as u32));
            proof {
                let at = index@[k as int];
                let part = rdb_types::field_views(fields@).subrange(off as int, off + n);
                assert forall|q: int| 0 <= q < n implies part[q] == rdb_types::field_views(
                    entry.2@,
                )[q] by {
                    assert(fields@[before.len() + q].0@ == entry.2@[q].0@);
                }
                assert(rdb_types::field_views(fields@).subrange(off as int, off + n)
                    =~= rdb_types::field_views(entry.2@));
                assert(indexed(fields@, at) == all[k as int]);
                assert forall|i: int| 0 <= i < k implies indexed(fields@, #[trigger] index@[i])
                    == all[i] by {
                    let a = index@[i];
                    assert(rdb_types::field_views(fields@).subrange(a.2 as int, a.2 + a.3)
                        =~= rdb_types::field_views(before).subrange(a.2 as int, a.2 + a.3)) by {
                        assert forall|q: int| 0 <= q < before.len() implies fields@[q]
                            == before[q] by {
                            assert(fields@.take(before.len() as int)[q] == before[q]);
                        }
                    }
                }
                assert(all.take(k as int + 1).drop_last() =~= all.take(k as int));
            }
            k = k + 1;
        }
        assert(all.take(k as int) =~= all);
        assert(index@.map_values(|at: (u64, u64, u32, u32)| indexed(fields@, at)) =~= all);
        StreamOut { fields, index, value_bytes }
    }

    /// Indexes what was unpacked.
    pub(crate) fn from_unpacking(unpacked: Unpacking, Ghost(u): Ghost<Unpacked>) -> (out: StreamOut)
        requires
            unpacked.stands_for(u, true),
            indexable(u.entries),
        ensures
            out@ == u.entries,
            out.value_bytes() == capped(u.value_bytes, usize::MAX as int),
    {
        StreamOut::index_entries(&unpacked.entries, unpacked.value_bytes)
    }

    /// The number of fields of all entries together.
    pub fn field_count(&self) -> (n: usize)
        ensures
            n == total_fields(self@),
    {
        proof {
            use_type_invariant(self);
        }
        self.fields.len()
    }

    /// The number of entries.
    pub fn len(&self) -> (n: usize)
        ensures
            n == self@.len(),
    {
        self.index.len()
    }

    /// The bytes to put aside for the values, and two for each field.
    pub fn arena_hint(&self) -> (n: usize)
        ensures
            n == capped(
                (self.value_bytes() + 2 * total_fields(self@)) as nat,
                usize::MAX as int,
            ),
    {
        proof {
            use_type_invariant(self);
        }
        let n: usize = self.fields.len();
        self.value_bytes.saturating_add(n).saturating_add(n)
    }

    /// The ids, in the order of the entries.
    pub fn ids(&self) -> (out: Vec<(u64, u64)>)
        ensures
            out@ == entry_ids(self@),
    {
        let mut out: Vec<(u64, u64)> = Vec::new();
        let mut k: usize = 0;
        while k < self.index.len()
            invariant
                k <= self.index@.len(),
                out@ == entry_ids(self@).take(k as int),
            decreases self.index@.len() - k,
        {
            let at = self.index[k];
            out.push((at.0, at.1));
            assert(out@ =~= entry_ids(self@).take(k as int + 1));
            k = k + 1;
        }
        assert(entry_ids(self@).take(k as int) =~= entry_ids(self@));
        out
    }

    /// The ids with their fields, in order.
    pub fn iter(&self) -> (out: Vec<((u64, u64), &[(Vec<u8>, Vec<u8>)])>)
        ensures
            out@.len() == self@.len(),
            forall|i: int|
                0 <= i < out@.len() ==> (#[trigger] out@[i]).0 == (self@[i].ms, self@[i].seq)
                    && rdb_types::field_views(out@[i].1@) == self@[i].fields,
    {
        proof {
            use_type_invariant(self);
        }
        let mut out: Vec<((u64, u64), &[(Vec<u8>, Vec<u8>)])> = Vec::new();
        let mut k: usize = 0;
        while k < self.index.len()
            invariant
                k <= self.index@.len(),
                self.wf(),
                out@.len() == k,
                forall|i: int|
                    0 <= i < out@.len() ==> (#[trigger] out@[i]).0 == (self@[i].ms, self@[i].seq)
                        && rdb_types::field_views(out@[i].1@) == self@[i].fields,
            decreases self.index@.len() - k,
        {
            let at = self.index[k];
            let total: usize = self.fields.len();
            let start: usize = at.2 as usize;
            let end: usize = start + at.3 as usize;
            let window: &[(Vec<u8>, Vec<u8>)] = slice_subrange(self.fields.as_slice(), start, end);
            proof {
                assert(self@[k as int] == indexed(self.fields@, at));
                assert(rdb_types::field_views(window@) =~= self@[k as int].fields);
            }
            out.push(((at.0, at.1), window));
            k = k + 1;
        }
        out
    }
}

} // verus!
