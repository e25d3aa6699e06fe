//! Sets of integers: a width, a count, and the values in ascending order.

use vstd::prelude::*;

use crate::bytes;
use crate::bytes::{push_le, read_le, read_le_signed};
use crate::decimal;
use crate::decimal::decimal_i64_bytes;
use crate::order;
use crate::order::{order_of, KeyView, SortKey};

verus! {

// ---------------------------------------------------------------------------
// What is stored
// ---------------------------------------------------------------------------

/// The value fits in `width` bytes.
pub open spec fn fits_width(v: int, width: nat) -> bool {
    -(bytes::pow256(width) as int) <= 2 * v < bytes::pow256(width)
}

/// Every value fits in `width` bytes.
pub open spec fn all_fit(values: Seq<int>, width: nat) -> bool {
    forall|i: int| 0 <= i < values.len() ==> fits_width(#[trigger] values[i], width)
}

/// The least of the widths 2, 4 and 8 that every value fits in.
pub open spec fn least_width(values: Seq<int>) -> nat {
    if all_fit(values, 2) {
        2
    } else if all_fit(values, 4) {
        4
    } else {
        8
    }
}

/// The key that orders integers.
pub open spec fn int_key() -> spec_fn(int) -> KeyView {
    |v: int|
        KeyView {
            major: (v + 0x8000_0000_0000_0000) as nat,
            minor: 0,
            bytes: Seq::empty(),
        }
}

/// One value in `width` bytes.
pub open spec fn value_encoder(width: nat) -> spec_fn(int) -> Seq<u8> {
    |v: int| bytes::le_bytes(bytes::unsigned(v, width), width)
}

/// The values in ascending order.
pub open spec fn ascending_values(values: Seq<int>) -> Seq<int> {
    order::sorted_by(values, int_key())
}

/// The set of the values, at `width` bytes each, if they fit and the count fits the header.
pub open spec fn intset_bytes(values: Seq<int>, width: nat) -> Option<Seq<u8>> {
    if values.len() > u32::MAX || !all_fit(values, width) {
        None
    } else {
        Some(
            bytes::le_bytes(width, 4) + bytes::le_bytes(values.len(), 4) + bytes::concat_all(
                value_encoder(width),
                ascending_values(values),
            ),
        )
    }
}

/// The width that a stored set gives is one of 2, 4 and 8.
pub open spec fn known_width(width: nat) -> bool {
    width == 2 || width == 4 || width == 8
}

/// The values that a stored set holds, in the order in which they stand.
pub open spec fn intset_values(data: Seq<u8>) -> Option<Seq<int>> {
    if data.len() < 8 {
        None
    } else {
        let width = bytes::le_at(data, 0, 4);
        let n = bytes::le_at(data, 4, 4);
        if !known_width(width) || data.len() != 8 + n * width {
            None
        } else {
            Some(Seq::new(n, |k: int| bytes::signed(bytes::le_at(data, 8 + k * width, width), width)))
        }
    }
}

/// The decimal texts of integers.
pub open spec fn texts(values: Seq<int>) -> Seq<Seq<u8>> {
    values.map_values(|v: int| decimal::dec_int(v))
}

pub proof fn lemma_concat_at(width: nat, items: Seq<int>, data: Seq<u8>, pos: int, k: int)
    requires
        0 <= k < items.len(),
        bytes::has_at(data, pos, bytes::concat_all(value_encoder(width), items)),
    ensures
        bytes::concat_all(value_encoder(width), items).len() == items.len() * width,
        bytes::has_at(data, pos + k * width, value_encoder(width)(items[k])),
    decreases items.len(),
{
    let front = items.drop_last();
    let e = value_encoder(width);
    lemma_concat_len(width, items);
    lemma_concat_len(width, front);
    bytes::lemma_has_at_concat(data, pos, bytes::concat_all(e, front), e(items.last()));
    if k < front.len() {
        lemma_concat_at(width, front, data, pos, k);
    }
}

pub proof fn lemma_concat_len(width: nat, items: Seq<int>)
    ensures
        bytes::concat_all(value_encoder(width), items).len() == items.len() * width,
    decreases items.len(),
{
    if items.len() > 0 {
        lemma_concat_len(width, items.drop_last());
        bytes::lemma_le_bytes_len(bytes::unsigned(items.last(), width), width);
        assert((items.len() - 1) * width + width == items.len() * width) by (nonlinear_arith);
    } else {
        assert(0 * width == 0) by (nonlinear_arith);
    }
}

/// A set reads back as its values in ascending order.
pub proof fn law_intset_round_trip(values: Seq<int>, width: nat)
    requires
        known_width(width),
    ensures
        intset_bytes(values, width) matches Some(data) ==> intset_values(data) == Some(
            ascending_values(values),
        ),
{
    if let Some(data) = intset_bytes(values, width) {
        let sorted = ascending_values(values);
        let a = bytes::le_bytes(width, 4);
        let b = bytes::le_bytes(values.len(), 4);
        let c = bytes::concat_all(value_encoder(width), sorted);
        order::lemma_sorted_by_len(values, int_key());
        lemma_concat_len(width, sorted);
        bytes::lemma_le_bytes_len(width, 4);
        bytes::lemma_le_bytes_len(values.len(), 4);
        bytes::lemma_pow256_values();
        bytes::lemma_has_at_whole(data);
        bytes::lemma_has_at_concat(data, 0, a + b, c);
        bytes::lemma_has_at_concat(data, 0, a, b);
        bytes::lemma_le_at(data, 0, width, 4);
        bytes::lemma_le_at(data, 4, values.len(), 4);
        let found = intset_values(data)->Some_0;
        assert(found.len() == sorted.len());
        assert forall|k: int| 0 <= k < sorted.len() implies found[k] == sorted[k] by {
            lemma_concat_at(width, sorted, data, 8, k);
            assert(values.contains(sorted[k]));
            let i = choose|i: int| 0 <= i < values.len() && values[i] == sorted[k];
            assert(fits_width(values[i], width));
            bytes::lemma_signed_unsigned(sorted[k], width);
            bytes::lemma_le_at(data, 8 + k * width, bytes::unsigned(sorted[k], width), width);
        }
        assert(found =~= sorted);
    }
}

// ---------------------------------------------------------------------------
// Writing and reading
// ---------------------------------------------------------------------------

/// The integers of a sequence.
pub open spec fn ints(values: Seq<i64>) -> Seq<int> {
    values.map_values(|v: i64| v as int)
}

fn push_value(out: &mut Vec<u8>, v: i64, width: usize)
    requires
        known_width(width as nat),
        fits_width(v as int, width as nat),
    ensures
        final(out)@ == old(out)@ + value_encoder(width as nat)(v as int),
{
    proof {
        bytes::lemma_pow256_values();
    }
    let n: u64 = if v >= 0 {
        v as u64
    } else if width == 2 {
        (v + 0x1_0000) as u64
    } else if width == 4 {
        (v + 0x1_0000_0000) as u64
    } else {
        bytes::to_unsigned(v)
    };
    push_le(out, n, width);
}

fn value_fits(v: i64, width: usize) -> (r: bool)
    requires
        known_width(width as nat),
    ensures
        r == fits_width(v as int, width as nat),
{
    proof {
        bytes::lemma_pow256_values();
    }
    if width == 2 {
        -0x8000 <= v && v <= 0x7fff
    } else if width == 4 {
        -0x8000_0000 <= v && v <= 0x7fff_ffff
    } else {
        true
    }
}

/// The set of the values, at `width` bytes each, if they fit and the count fits the header.
pub fn encode_intset_blob(values: &Vec<i64>, width: usize) -> (r: Option<Vec<u8>>)
    requires
        known_width(width as nat),
    ensures
        match r {
            Some(data) => intset_bytes(ints(values@), width as nat) == Some(data@),
            None => intset_bytes(ints(values@), width as nat) is None,
        },
{
    if values.len() as u64 > u32::MAX as u64 {
        return None;
    }
    let ghost all = ints(values@);
    let ghost sorted = ascending_values(all);
    let ghost e = value_encoder(width as nat);
    let none: Vec<u8> = Vec::new();
    let mut keys: Vec<SortKey> = Vec::new();
    let mut i: usize = 0;
    while i < values.len()
        invariant
            i <= values@.len(),
            keys@.len() == i,
            none@.len() == 0,
            all == ints(values@),
            known_width(width as nat),
            forall|j: int| 0 <= j < i ==> (#[trigger] keys@[j])@ == int_key()(all[j]),
            forall|j: int| 0 <= j < i ==> fits_width(#[trigger] all[j], width as nat),
        decreases values@.len() - i,
    {
        let v: i64 = values[i];
        assert(all[i as int] == v);
        if !value_fits(v, width) {
            return None;
        }
        let major: u64 = if v >= 0 {
            v as u64 + 0x8000_0000_0000_0000
        } else {
            (v + 0x7fff_ffff_ffff_ffff + 1) as u64
        };
        keys.push(SortKey { major, minor: 0, bytes: none.as_slice() });
        assert(keys@[i as int]@ =~= int_key()(all[i as int]));
        i = i + 1;
    }
    let sequence: Vec<usize> = order_of(keys.as_slice());
    proof {
        assert(order::key_views(keys@) =~= all.map_values(int_key()));
        order::lemma_sorted_by_len(all, int_key());
    }
    let mut out: Vec<u8> = Vec::new();
    push_le(&mut out, width as u64, 4);
    push_le(&mut out, values.len() as u64, 4);
    let ghost head = out@;
    proof {
        assert(head =~= bytes::le_bytes(width as nat, 4) + bytes::le_bytes(values@.len(), 4));
        assert(sorted.take(0) =~= Seq::empty());
        assert(head + bytes::concat_all(e, sorted.take(0)) =~= head);
    }
    let mut k: usize = 0;
    while k < sequence.len()
        invariant
            k <= sequence@.len() == values@.len() == sorted.len(),
            forall|a: int| 0 <= a < sequence@.len() ==> (#[trigger] sequence@[a]) < values@.len(),
            sequence@.map_values(|i: usize| i as int) == order::stable_order(
                all.map_values(int_key()),
            ),
            sorted == ascending_values(all),
            all == ints(values@),
            known_width(width as nat),
            all_fit(all, width as nat),
            e == value_encoder(width as nat),
            out@ == head + bytes::concat_all(e, sorted.take(k as int)),
        decreases sequence@.len() - k,
    {
        let at: usize = sequence[k];
        let ghost before = out@;
        proof {
            let o = order::stable_order(all.map_values(int_key()));
            assert(o[k as int] == sequence@.map_values(|i: usize| i as int)[k as int]);
            assert(sorted[k as int] == all[at as int]);
            assert(fits_width(all[at as int], width as nat));
        }
        push_value(&mut out, values[at], width);
        proof {
            bytes::lemma_concat_take(e, sorted, k as int);
            bytes::lemma_add_assoc(head, bytes::concat_all(e, sorted.take(k as int)), e(sorted[k as int]));
        }
        k = k + 1;
    }
    assert(sorted.take(k as int) =~= sorted);
    Some(out)
}

/// The members of a stored set, as decimal text.
pub fn decode_intset_members(data: &[u8]) -> (r: Option<Vec<Vec<u8>>>)
    ensures
        match r {
            Some(members) => intset_values(data@) matches Some(values) && bytes::views(members@)
                == texts(values),
            None => intset_values(data@) is None,
        },
{
    let len: usize = data.len();
    if len < 8 {
        return None;
    }
    let width: u64 = read_le(data, 0, 4);
    let n: u64 = read_le(data, 4, 4);
    if width != 2 && width != 4 && width != 8 {
        return None;
    }
    proof {
        bytes::lemma_pow256_values();
        assert(n * width <= 0xffff_ffff * 8) by (nonlinear_arith)
            requires
                n <= 0xffff_ffff,
                width <= 8,
        ;
    }
    if len as u64 != 8 + n * width {
        return None;
    }
    let ghost values = intset_values(data@)->Some_0;
    let mut members: Vec<Vec<u8>> = Vec::new();
    let mut k: u64 = 0;
    let mut at: usize = 8;
    while k < n
        invariant
            k <= n,
            len == data@.len(),
            known_width(width as nat),
            width == bytes::le_at(data@, 0, 4),
            n == bytes::le_at(data@, 4, 4),
            len == 8 + n * width,
            at == 8 + k * width,
            intset_values(data@) == Some(values),
            bytes::views(members@) == texts(values).take(k as int),
        decreases n - k,
    {
        proof {
            assert(k * width + width <= n * width) by (nonlinear_arith)
                requires
                    k < n,
            ;
            assert((k + 1) * width == k * width + width) by (nonlinear_arith);
        }
        let v: i64 = read_le_signed(data, at, width as usize);
        let text: Vec<u8> = decimal_i64_bytes(v);
        let ghost before = members@;
        members.push(text);
        proof {
            assert(values[k as int] == v);
            assert(bytes::views(members@) =~= bytes::views(before).push(decimal::dec_int(v as int)));
            assert(texts(values).take(k as int + 1) =~= texts(values).take(k as int).push(
                texts(values)[k as int],
            ));
        }
        at = at + width as usize;
        k = k + 1;
    }
    assert(texts(values).take(k as int) =~= texts(values));
    Some(members)
}

} // verus!
