//! Strings, lists and hashes come back from a snapshot as they are.

use vstd::prelude::*;

use crate::bytes;
use crate::listpack;
use crate::listpack_encode;
use crate::listpack_encode::LISTPACK_BLOB_OVERHEAD;
use crate::lzf::LZF_MAX_EXPANDED;
use crate::order;
use crate::rdb_compact;
use crate::rdb_compact::{CompactRdbThresholds, ListSplit};
use crate::rdb_load;
use crate::rdb_save;
use crate::rdb_types::{FieldView, RdbEntryView, ValueView};
use crate::rdb_wire;
use crate::records;
use crate::snapshot_laws;
use crate::text;
use crate::value_laws;

verus! {

/// A string that can be read back, by itself or as the only item of a pack.
pub open spec fn is_short(s: Seq<u8>) -> bool {
    s.len() + 32 <= LZF_MAX_EXPANDED
}

/// The packs of lists and hashes can be read back.
pub open spec fn is_mild(compact: Option<CompactRdbThresholds>) -> bool {
    compact matches Some(t) ==> t.list_max_listpack_size <= LZF_MAX_EXPANDED && 2
        * t.hash_max_listpack_entries * (t.hash_max_listpack_value + 14) + LISTPACK_BLOB_OVERHEAD
        <= LZF_MAX_EXPANDED
}

/// A string, a list or a hash of short strings. No field expires at the time that stands
/// for never.
pub open spec fn is_plain(v: ValueView) -> bool {
    match v {
        ValueView::String(s) => is_short(s),
        ValueView::List(items) => items.len() <= u64::MAX && forall|i: int|
            0 <= i < items.len() ==> is_short(#[trigger] items[i]),
        ValueView::Hash(fields) => fields.len() <= u64::MAX && forall|i: int|
            0 <= i < fields.len() ==> is_short((#[trigger] fields[i]).0) && is_short(fields[i].1),
        ValueView::HashWithTtls(fields) => fields.len() <= u64::MAX && forall|i: int|
            0 <= i < fields.len() ==> is_short((#[trigger] fields[i]).0) && is_short(fields[i].1)
                && fields[i].2 != Some(u64::MAX),
        _ => false,
    }
}

/// The default sizes of compact forms are mild, and so is the lack of compact forms.
pub proof fn law_default_is_mild()
    ensures
        is_mild(None),
        is_mild(Some(rdb_compact::default_thresholds())),
{
    assert(2 * 512 * (64 + 14) + 7 <= 536_870_912) by (nonlinear_arith);
}

// ---------------------------------------------------------------------------
// Packs
// ---------------------------------------------------------------------------

proof fn lemma_entry_len(s: Seq<u8>)
    ensures
        listpack_encode::packed_entry(s).len() <= s.len() + 14,
{
    listpack_encode::lemma_integer_data_len(listpack_encode::integer_of(s));
    listpack_encode::lemma_text_data_len(s);
    listpack::lemma_backlen_len(listpack_encode::entry_data(s).len() as int);
}

proof fn lemma_body_len(items: Seq<Seq<u8>>, most: int)
    requires
        0 <= most,
        rdb_compact::all_within(items, most),
    ensures
        bytes::concat_all(listpack_encode::entry_encoder(), items).len() <= items.len() * (most
            + 14),
    decreases items.len(),
{
    if items.len() > 0 {
        let front = items.drop_last();
        assert forall|i: int| 0 <= i < front.len() implies (#[trigger] front[i]).len() <= most by {
            assert(front[i] == items[i]);
        }
        lemma_body_len(front, most);
        lemma_entry_len(items.last());
        let n = items.len() as int;
        assert(n * (most + 14) == (n - 1) * (most + 14) + (most + 14)) by (nonlinear_arith);
    }
}

proof fn lemma_pack_storable(items: Seq<Seq<u8>>)
    requires
        bytes::concat_all(listpack_encode::entry_encoder(), items).len() + LISTPACK_BLOB_OVERHEAD
            <= LZF_MAX_EXPANDED,
    ensures
        value_laws::pack_lasting(items),
        rdb_wire::storable(listpack_encode::pack_of(items)->Some_0),
{
    let body = bytes::concat_all(listpack_encode::entry_encoder(), items);
    let pack = listpack_encode::pack_of(items)->Some_0;
    listpack_encode::lemma_framed_parts(body, items.len(), pack);
}

/// A split whose packs can be read back, with no more nodes than items.
spec fn split_lasts(s: ListSplit, k: nat) -> bool {
    &&& s.size == bytes::concat_all(listpack_encode::entry_encoder(), s.items).len()
        + LISTPACK_BLOB_OVERHEAD
    &&& s.size <= LZF_MAX_EXPANDED
    &&& forall|i: int| 0 <= i < s.nodes.len() ==> value_laws::node_lasting(#[trigger] s.nodes[i])
    &&& s.nodes.len() + (if s.items.len() > 0 {
        1int
    } else {
        0
    }) <= k
}

proof fn lemma_closed_lasts(s: ListSplit, k: nat)
    requires
        split_lasts(s, k),
    ensures
        split_lasts(rdb_compact::split_closed(s), k),
{
    if s.items.len() > 0 {
        lemma_pack_storable(s.items);
    }
}

proof fn lemma_split_lasts(items: Seq<Seq<u8>>, k: nat, budget: nat)
    requires
        k <= items.len(),
        budget <= LZF_MAX_EXPANDED,
        forall|i: int| 0 <= i < items.len() ==> is_short(#[trigger] items[i]),
    ensures
        split_lasts(rdb_compact::split_upto(items, k, budget), k),
    decreases k,
{
    if k > 0 {
        let before = rdb_compact::split_upto(items, (k - 1) as nat, budget);
        let item = items[k - 1];
        let closed = rdb_compact::split_closed(before);
        let encode = listpack_encode::entry_encoder();
        lemma_split_lasts(items, (k - 1) as nat, budget);
        lemma_closed_lasts(before, (k - 1) as nat);
        lemma_entry_len(item);
        assert(is_short(item));
        bytes::lemma_concat_push(encode, before.items, item);
        bytes::lemma_concat_push(encode, closed.items, item);
    }
}

proof fn lemma_nodes_last(items: Seq<Seq<u8>>, budget: nat)
    requires
        items.len() <= u64::MAX,
        budget <= LZF_MAX_EXPANDED,
        forall|i: int| 0 <= i < items.len() ==> is_short(#[trigger] items[i]),
    ensures
        value_laws::nodes_last(rdb_compact::list_nodes(items, budget)),
{
    lemma_split_lasts(items, items.len(), budget);
    lemma_closed_lasts(rdb_compact::split_upto(items, items.len(), budget), items.len());
}

proof fn lemma_hash_lasts(fields: Seq<FieldView>, t: CompactRdbThresholds)
    requires
        is_mild(Some(t)),
        rdb_compact::hash_payload(fields, t) is Some,
    ensures
        value_laws::pack_lasting(rdb_compact::interleaved(fields)),
{
    let items = rdb_compact::interleaved(fields);
    let most = t.hash_max_listpack_value as int;
    rdb_compact::lemma_interleaved(fields);
    lemma_body_len(items, most);
    let n = items.len() as int;
    let m = 2 * t.hash_max_listpack_entries;
    assert(n * (most + 14) <= m * (most + 14)) by (nonlinear_arith)
        requires
            0 <= n <= m,
            0 <= most,
    ;
    lemma_pack_storable(items);
}

// ---------------------------------------------------------------------------
// Values and snapshots
// ---------------------------------------------------------------------------

/// Plain values can be read back, as what they are.
pub proof fn law_plain_value_lasts(v: ValueView, compact: Option<CompactRdbThresholds>)
    requires
        is_plain(v),
        is_mild(compact),
    ensures
        value_laws::value_lasting(v, compact),
        value_laws::loaded_value(v, compact) == v,
{
    reveal(value_laws::value_lasting);
    reveal(value_laws::loaded_value);
    match v {
        ValueView::List(items) => {
            if let Some(t) = compact {
                lemma_nodes_last(items, t.list_max_listpack_size as nat);
            }
            assert(records::all_lasting::<Vec<u8>>(items));
        },
        ValueView::Hash(fields) => {
            if let Some(t) = compact {
                if rdb_compact::hash_payload(fields, t) is Some {
                    lemma_hash_lasts(fields, t);
                }
            }
            assert(records::all_lasting::<(Vec<u8>, Vec<u8>)>(fields));
        },
        ValueView::HashWithTtls(fields) => {
            assert(records::all_lasting::<(Vec<u8>, Vec<u8>, Option<u64>)>(fields));
        },
        _ => {},
    }
}

/// The bytes of names with their values.
pub open spec fn aux_fields(aux: Seq<(Seq<char>, Seq<char>)>) -> Seq<FieldView> {
    aux.map_values(
        |a: (Seq<char>, Seq<char>)|
            (vstd::utf8::encode_utf8(a.0), vstd::utf8::encode_utf8(a.1)),
    )
}

/// No two names are the same.
pub open spec fn names_differ(aux: Seq<(Seq<char>, Seq<char>)>) -> bool {
    forall|a: int, b: int|
        0 <= a < b < aux.len() ==> (#[trigger] aux[a]).0 != (#[trigger] aux[b]).0
}

/// The map holds each name with its value, and nothing else.
pub open spec fn is_map_of(
    m: Map<Seq<char>, Seq<char>>,
    aux: Seq<(Seq<char>, Seq<char>)>,
) -> bool {
    &&& forall|i: int|
        0 <= i < aux.len() ==> m.contains_key((#[trigger] aux[i]).0) && m[aux[i].0] == aux[i].1
    &&& forall|name: Seq<char>| #[trigger]
        m.contains_key(name) ==> exists|i: int| 0 <= i < aux.len() && (#[trigger] aux[i]).0 == name
}

/// Names that differ are read back with their values.
pub proof fn law_names_read_back(aux: Seq<(Seq<char>, Seq<char>)>)
    requires
        names_differ(aux),
    ensures
        is_map_of(snapshot_laws::with_aux(Map::empty(), aux_fields(aux)), aux),
    decreases aux.len(),
{
    let fields = aux_fields(aux);
    let m = snapshot_laws::with_aux(Map::empty(), fields);
    if aux.len() > 0 {
        let front = aux.drop_last();
        let last = aux.last();
        assert forall|a: int, b: int| 0 <= a < b < front.len() implies (#[trigger] front[a]).0 != (
        #[trigger] front[b]).0 by {
            assert(front[a] == aux[a] && front[b] == aux[b]);
        }
        law_names_read_back(front);
        assert(fields.drop_last() =~= aux_fields(front));
        text::law_text_round_trip(last.0);
        text::law_text_round_trip(last.1);
        let before = snapshot_laws::with_aux(Map::empty(), aux_fields(front));
        assert(m == before.insert(last.0, last.1));
        assert forall|i: int| 0 <= i < aux.len() implies m.contains_key((#[trigger] aux[i]).0)
            && m[aux[i].0] == aux[i].1 by {
            if i < front.len() {
                assert(front[i] == aux[i]);
                assert(aux[i].0 != aux[aux.len() - 1].0);
            }
        }
        assert forall|name: Seq<char>| #[trigger] m.contains_key(name) implies exists|i: int|
            0 <= i < aux.len() && (#[trigger] aux[i]).0 == name by {
            if name == last.0 {
                assert(aux[aux.len() - 1].0 == name);
            } else {
                assert(before.contains_key(name));
                let i = choose|i: int| 0 <= i < front.len() && (#[trigger] front[i]).0 == name;
                assert(aux[i].0 == name);
            }
        }
    }
}

/// A snapshot of plain values under keys in order, of names that differ and of libraries of
/// functions is read back as what it was made of.
pub proof fn law_plain_snapshot_round_trip(
    entries: Seq<RdbEntryView>,
    aux: Seq<(Seq<char>, Seq<char>)>,
    functions: Seq<Seq<u8>>,
    compact: Option<CompactRdbThresholds>,
)
    requires
        entries.len() <= u64::MAX,
        rdb_save::in_key_order(entries),
        forall|i: int|
            0 <= i < entries.len() ==> (#[trigger] entries[i]).db <= usize::MAX && is_short(
                entries[i].key,
            ) && is_plain(entries[i].value),
        names_differ(aux),
        forall|i: int|
            0 <= i < aux.len() ==> is_short(vstd::utf8::encode_utf8((#[trigger] aux[i]).0))
                && is_short(vstd::utf8::encode_utf8(aux[i].1)),
        forall|i: int| 0 <= i < functions.len() ==> is_short(#[trigger] functions[i]),
        is_mild(compact),
    ensures
        ({
            let data = rdb_save::snapshot_bytes(entries, aux_fields(aux), functions, compact);
            rdb_load::snapshot_prefix(data) matches Some((st, end)) && end == data.len()
                && st.entries == entries && st.functions == functions && is_map_of(st.aux, aux)
        }),
{
    let fields = aux_fields(aux);
    let data = rdb_save::snapshot_bytes(entries, fields, functions, compact);
    assert forall|i: int| 0 <= i < entries.len() implies snapshot_laws::entry_lasting(
        #[trigger] entries[i],
        compact,
    ) by {
        law_plain_value_lasts(entries[i].value, compact);
    }
    assert forall|i: int| 0 <= i < fields.len() implies rdb_wire::storable((#[trigger] fields[i]).0)
        && rdb_wire::storable(fields[i].1) by {
        assert(is_short(vstd::utf8::encode_utf8(aux[i].0)));
    }
    assert forall|i: int| 0 <= i < functions.len() implies rdb_wire::storable(
        #[trigger] functions[i],
    ) by {
        assert(is_short(functions[i]));
    }
    bytes::lemma_has_at_whole(data);
    snapshot_laws::law_snapshot_round_trip(data, entries, fields, functions, compact);
    order::law_sorted_is_kept(entries, rdb_save::entry_key());
    assert(snapshot_laws::loaded_entries(entries, compact) =~= entries) by {
        assert forall|i: int| 0 <= i < entries.len() implies snapshot_laws::loaded_entry(
            #[trigger] entries[i],
            compact,
        ) == entries[i] by {
            law_plain_value_lasts(entries[i].value, compact);
        }
    }
    law_names_read_back(aux);
}

} // verus!
