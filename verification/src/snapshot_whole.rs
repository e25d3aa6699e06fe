//! A written snapshot that is accepted is taken whole.

use vstd::prelude::*;

use crate::bytes;
use crate::crc64;
use crate::listpack_encode;
use crate::order;
use crate::rdb_compact;
use crate::rdb_compact::{CompactRdbThresholds, ListNode};
use crate::rdb_load;
use crate::rdb_load::{LoadStep, Loading};
use crate::rdb_save;
use crate::rdb_save::{
    RDB_OPCODE_AUX, RDB_OPCODE_EOF, RDB_OPCODE_EXPIRETIME_MS, RDB_OPCODE_FUNCTION2,
    RDB_OPCODE_RESIZEDB, RDB_OPCODE_SELECTDB, RDB_TYPE_SET_INTSET, RDB_TYPE_STREAM,
};
use crate::rdb_stream;
use crate::rdb_types::{
    FieldView, GroupView, RdbEntryView, RdbStreamConsumer, RdbStreamConsumerGroup, StreamEntry,
    StreamView, ValueView,
};
use crate::rdb_values;
use crate::rdb_wire;
use crate::records;
use crate::score::{RdbScore, ScoreView};
use crate::snapshot_laws;
use crate::snapshot_local;
use crate::stream_encode;
use crate::stream_laws;
use crate::stream_local;
use crate::stream_private;
use crate::value_laws;

verus! {

// ---------------------------------------------------------------------------
// Values
// ---------------------------------------------------------------------------

/// The bytes that a stream keeps, if any, are those of one stream, and its numbers fit in 64
/// bits.
pub open spec fn stream_framed(s: StreamView) -> bool {
    match s.metadata {
        Some(m) => m.0 != RDB_TYPE_STREAM && (rdb_stream::stream_of(m.0, m.1) matches Ok((_, end))
            && end == m.1.len()),
        None => records::all_sized::<StreamEntry>(s.entries) && records::all_sized::<
            RdbStreamConsumerGroup,
        >(s.groups),
    }
}

/// The numbers of the parts of a value fit in 64 bits, and a stream keeps the bytes of one
/// stream.
#[verifier::opaque]
pub open spec fn value_framed(v: ValueView) -> bool {
    match v {
        ValueView::String(s) => s.len() <= u64::MAX,
        ValueView::List(items) => records::all_sized::<Vec<u8>>(items),
        ValueView::ListPacked(packs) => records::all_sized::<Vec<u8>>(packs),
        ValueView::MemberSet(members) => records::all_sized::<Vec<u8>>(members),
        ValueView::SetHashtable(members) => records::all_sized::<Vec<u8>>(members),
        ValueView::Hash(fields) => records::all_sized::<(Vec<u8>, Vec<u8>)>(fields),
        ValueView::HashWithTtls(fields) => records::all_sized::<
            (Vec<u8>, Vec<u8>, Option<u64>),
        >(fields),
        ValueView::SortedSet(members) => records::all_sized::<(Vec<u8>, RdbScore)>(members),
        ValueView::Stream(s) => stream_framed(s),
    }
}

/// Reading what is stored of a value fails or ends behind it.
#[verifier::opaque]
spec fn taken_whole(stored: (u8, Seq<u8>), data: Seq<u8>, pos: int) -> bool {
    rdb_values::value_at(stored.0, data, pos) matches Some((_, end)) ==> end == pos
        + stored.1.len()
}

proof fn lemma_pack_taken(tag: u8, items: Seq<Seq<u8>>, data: Seq<u8>, pos: int)
    requires
        rdb_values::is_wrapped(tag),
        rdb_compact::pack_payload(items) matches Some(payload) && bytes::has_at(
            data,
            pos,
            payload,
        ),
    ensures
        taken_whole((tag, rdb_compact::pack_payload(items)->Some_0), data, pos),
{
    reveal(taken_whole);
    lemma_pack_len(items);
    rdb_wire::lemma_string_spans(data, pos, listpack_encode::pack_of(items)->Some_0);
}

proof fn lemma_pack_len(items: Seq<Seq<u8>>)
    ensures
        listpack_encode::pack_of(items) matches Some(pack) ==> pack.len() <= u32::MAX,
{
    if let Some(pack) = listpack_encode::pack_of(items) {
        listpack_encode::lemma_framed_parts(
            bytes::concat_all(listpack_encode::entry_encoder(), items),
            items.len(),
            pack,
        );
    }
}

/// A split has no more nodes than items, and large items of a length that fits.
spec fn split_sized(s: rdb_compact::ListSplit, k: nat) -> bool {
    &&& s.nodes.len() + (if s.items.len() > 0 {
        1int
    } else {
        0
    }) <= k
    &&& forall|i: int| 0 <= i < s.nodes.len() ==> node_sized(#[trigger] s.nodes[i])
}

/// A large item has a length that fits in 64 bits.
spec fn node_sized(node: ListNode) -> bool {
    node matches ListNode::Plain(item) ==> item.len() <= u64::MAX
}

proof fn lemma_split_sized(items: Seq<Seq<u8>>, k: nat, budget: nat)
    requires
        k <= items.len(),
        records::all_sized::<Vec<u8>>(items),
    ensures
        split_sized(rdb_compact::split_upto(items, k, budget), k),
        split_sized(rdb_compact::split_closed(rdb_compact::split_upto(items, k, budget)), k),
    decreases k,
{
    if k > 0 {
        lemma_split_sized(items, (k - 1) as nat, budget);
        assert(<Vec<u8> as records::Record>::sized(items[k - 1]));
    }
}

proof fn lemma_list_taken(
    items: Seq<Seq<u8>>,
    compact: Option<CompactRdbThresholds>,
    data: Seq<u8>,
    pos: int,
)
    requires
        records::all_sized::<Vec<u8>>(items),
        bytes::has_at(data, pos, rdb_save::list_stored(items, compact).1),
    ensures
        taken_whole(rdb_save::list_stored(items, compact), data, pos),
{
    reveal(taken_whole);
    if let Some(payload) = rdb_save::list_compact(items, compact) {
        let budget = compact->Some_0.list_max_listpack_size as nat;
        let nodes = rdb_compact::list_nodes(items, budget);
        let head = rdb_wire::length_bytes(nodes.len());
        let encode = rdb_compact::list_node_encoder();
        let parse = rdb_values::list_node_parser(false);
        lemma_split_sized(items, items.len(), budget);
        bytes::lemma_has_at_concat(data, pos, head, bytes::concat_all(encode, nodes));
        rdb_wire::law_length_round_trip(data, pos, nodes.len());
        assert forall|k: int| 0 <= k < nodes.len() implies bytes::spans(
            parse,
            encode(#[trigger] nodes[k]),
        ) by {
            assert(rdb_compact::node_packs(nodes[k]));
            assert(node_sized(nodes[k]));
            lemma_node_spans(nodes[k]);
        }
        bytes::lemma_repeat_spans(parse, encode, nodes, data, pos + head.len());
    } else {
        records::lemma_counted_spans::<Vec<u8>>(items, data, pos);
    }
}

proof fn lemma_node_spans(node: ListNode)
    requires
        rdb_compact::node_packs(node),
        node_sized(node),
    ensures
        bytes::spans(rdb_values::list_node_parser(false), rdb_compact::list_node_bytes(node)),
{
    let parse = rdb_values::list_node_parser(false);
    let (kind, blob) = match node {
        ListNode::Plain(item) => (1nat, item),
        ListNode::Packed(items) => (2nat, listpack_encode::pack_of(items)->Some_0),
    };
    if let ListNode::Packed(items) = node {
        lemma_pack_len(items);
    }
    let encoding = rdb_compact::list_node_bytes(node);
    let head = rdb_wire::length_bytes(kind);
    assert forall|d: Seq<u8>, q: int| #[trigger] bytes::has_at(d, q, encoding) implies (parse(d, q)
        matches Some((_, end)) ==> end == q + encoding.len()) by {
        bytes::lemma_has_at_concat(d, q, head, rdb_wire::string_bytes(blob));
        rdb_wire::law_length_round_trip(d, q, kind);
        rdb_wire::lemma_string_spans(d, q + head.len(), blob);
    }
}

proof fn lemma_packs_taken(packs: Seq<Seq<u8>>, data: Seq<u8>, pos: int)
    requires
        records::all_sized::<Vec<u8>>(packs),
        bytes::has_at(data, pos, rdb_compact::packed_list_payload(packs)),
    ensures
        taken_whole(
            (rdb_save::RDB_TYPE_LIST_QUICKLIST_2, rdb_compact::packed_list_payload(packs)),
            data,
            pos,
        ),
{
    reveal(taken_whole);
    let head = rdb_wire::length_bytes(packs.len());
    let encode = rdb_compact::packed_node_encoder();
    let parse = rdb_values::list_node_parser(false);
    let mark = rdb_wire::length_bytes(2);
    bytes::lemma_has_at_concat(data, pos, head, bytes::concat_all(encode, packs));
    rdb_wire::law_length_round_trip(data, pos, packs.len());
    assert forall|k: int| 0 <= k < packs.len() implies bytes::spans(
        parse,
        encode(#[trigger] packs[k]),
    ) by {
        let pack = packs[k];
        assert(<Vec<u8> as records::Record>::sized(pack));
        assert forall|d: Seq<u8>, q: int| #[trigger]
            bytes::has_at(d, q, encode(pack)) implies (parse(d, q) matches Some((_, end)) ==> end
            == q + encode(pack).len()) by {
            bytes::lemma_has_at_concat(d, q, mark, rdb_wire::string_bytes(pack));
            rdb_wire::law_length_round_trip(d, q, 2);
            rdb_wire::lemma_string_spans(d, q + mark.len(), pack);
        }
    }
    bytes::lemma_repeat_spans(parse, encode, packs, data, pos + head.len());
}

proof fn lemma_set_taken(
    members: Seq<Seq<u8>>,
    compact: Option<CompactRdbThresholds>,
    data: Seq<u8>,
    pos: int,
)
    requires
        records::all_sized::<Vec<u8>>(members),
        bytes::has_at(data, pos, rdb_save::set_stored(members, compact).1),
    ensures
        taken_whole(rdb_save::set_stored(members, compact), data, pos),
{
    reveal(taken_whole);
    let stored = rdb_save::set_stored(members, compact);
    let v = ValueView::MemberSet(members);
    if stored.0 == RDB_TYPE_SET_INTSET {
        assert(value_laws::value_lasting(v, compact) && rdb_save::value_stored(v, compact)
            == stored) by {
            reveal(value_laws::value_lasting);
            reveal(rdb_save::value_stored);
        }
        value_laws::law_value_round_trip(v, compact, data, pos);
    } else if stored.0 == rdb_save::RDB_TYPE_SET_LISTPACK {
        lemma_pack_taken(stored.0, members, data, pos);
    } else {
        records::lemma_counted_spans::<Vec<u8>>(members, data, pos);
    }
}

proof fn lemma_zset_taken(
    members: Seq<(Seq<u8>, ScoreView)>,
    compact: Option<CompactRdbThresholds>,
    data: Seq<u8>,
    pos: int,
)
    requires
        records::all_sized::<(Vec<u8>, RdbScore)>(members),
        bytes::has_at(data, pos, rdb_save::zset_stored(members, compact).1),
    ensures
        taken_whole(rdb_save::zset_stored(members, compact), data, pos),
{
    reveal(taken_whole);
    let stored = rdb_save::zset_stored(members, compact);
    if stored.0 == rdb_save::RDB_TYPE_ZSET_LISTPACK {
        lemma_pack_taken(
            stored.0,
            rdb_compact::interleaved(value_laws::ranked(members)),
            data,
            pos,
        );
    } else {
        records::lemma_counted_spans::<(Vec<u8>, RdbScore)>(members, data, pos);
    }
}

proof fn lemma_stream_taken(s: StreamView, data: Seq<u8>, pos: int)
    requires
        stream_framed(s),
        bytes::has_at(data, pos, rdb_save::stream_stored(s).1),
    ensures
        taken_whole(rdb_save::stream_stored(s), data, pos),
{
    reveal(taken_whole);
    let stored = rdb_save::stream_stored(s);
    if let Some(m) = s.metadata {
        let tail = data.skip(pos + m.1.len());
        value_laws::lemma_skip_split(data, pos, m.1);
        stream_local::law_stream_is_local(m.0, m.1, tail);
        assert(m.1.take(m.1.len() as int) =~= m.1);
        lemma_kept_tag(m.0, m.1);
    } else if rdb_save::stream_lossless(s) && stream_encode::stream_packable(s) {
        assert(stream_laws::stream_sized(s)) by {
            assert forall|i: int| 0 <= i < s.groups.len() implies stream_laws::group_sized(
                #[trigger] s.groups[i],
            ) by {
                assert(<RdbStreamConsumerGroup as records::Record>::sized(s.groups[i]));
                lemma_consumers_sized(s.groups[i]);
            }
        }
        let rest = data.skip(pos);
        value_laws::lemma_skip_split(data, pos, stored.1);
        bytes::lemma_has_at_whole(rest);
        bytes::lemma_has_at_concat(rest, 0, stored.1, data.skip(pos + stored.1.len()));
        stream_laws::law_accepted_stream_round_trip(s, rest);
    } else {
        stream_private::lemma_private_stream_spans(s, data, pos);
    }
}

proof fn lemma_consumers_sized(g: GroupView)
    requires
        <RdbStreamConsumerGroup as records::Record>::sized(g),
    ensures
        stream_laws::group_sized(g),
{
    assert forall|i: int| 0 <= i < g.consumers.len() implies (#[trigger] g.consumers[i]).name.len()
        <= u64::MAX by {
        assert(<RdbStreamConsumer as records::Record>::sized(g.consumers[i]));
    }
}

/// A stream is read from packs under the type bytes of these alone.
proof fn lemma_kept_tag(tag: u8, payload: Seq<u8>)
    requires
        rdb_stream::stream_of(tag, payload) is Ok,
    ensures
        rdb_stream::layout_of(tag) > 0,
{
}

/// Reading what is stored of a value fails or ends behind it.
proof fn lemma_value_taken(
    v: ValueView,
    compact: Option<CompactRdbThresholds>,
    data: Seq<u8>,
    pos: int,
)
    requires
        value_framed(v),
        bytes::has_at(data, pos, rdb_save::value_stored(v, compact).1),
    ensures
        taken_whole(rdb_save::value_stored(v, compact), data, pos),
{
    reveal(taken_whole);
    reveal(value_framed);
    reveal(rdb_save::value_stored);
    match v {
        ValueView::String(s) => rdb_wire::lemma_string_spans(data, pos, s),
        ValueView::List(items) => lemma_list_taken(items, compact, data, pos),
        ValueView::ListPacked(packs) => lemma_packs_taken(packs, data, pos),
        ValueView::MemberSet(members) => lemma_set_taken(members, compact, data, pos),
        ValueView::SetHashtable(members) => records::lemma_counted_spans::<Vec<u8>>(
            members,
            data,
            pos,
        ),
        ValueView::Hash(fields) => {
            let stored = rdb_save::hash_stored(fields, compact);
            if stored.0 == rdb_save::RDB_TYPE_HASH_LISTPACK {
                lemma_pack_taken(stored.0, rdb_compact::interleaved(fields), data, pos);
            } else {
                records::lemma_counted_spans::<(Vec<u8>, Vec<u8>)>(fields, data, pos);
            }
        },
        ValueView::HashWithTtls(fields) => records::lemma_counted_spans::<
            (Vec<u8>, Vec<u8>, Option<u64>),
        >(fields, data, pos),
        ValueView::SortedSet(members) => lemma_zset_taken(members, compact, data, pos),
        ValueView::Stream(s) => lemma_stream_taken(s, data, pos),
    }
}

// ---------------------------------------------------------------------------
// Snapshots
// ---------------------------------------------------------------------------

/// The numbers of the parts of an entry fit in 64 bits, and a stream keeps the bytes of one
/// stream.
pub open spec fn entry_framed(e: RdbEntryView) -> bool {
    &&& e.db <= u64::MAX
    &&& e.key.len() <= u64::MAX
    &&& value_framed(e.value)
}

/// The numbers of the parts of a snapshot fit in 64 bits, and streams keep the bytes of one
/// stream each.
pub open spec fn snapshot_framed(
    entries: Seq<RdbEntryView>,
    aux: Seq<FieldView>,
    functions: Seq<Seq<u8>>,
) -> bool {
    &&& entries.len() <= u64::MAX
    &&& forall|i: int| 0 <= i < entries.len() ==> entry_framed(#[trigger] entries[i])
    &&& forall|i: int|
        0 <= i < aux.len() ==> (#[trigger] aux[i]).0.len() <= u64::MAX && aux[i].1.len()
            <= u64::MAX
    &&& forall|i: int| 0 <= i < functions.len() ==> (#[trigger] functions[i]).len() <= u64::MAX
}

/// Where reading from an offset on ends.
spec fn ends_at(data: Seq<u8>, pos: int, st: Loading) -> Option<int> {
    match rdb_load::load_from(11, data, pos, st) {
        None => None,
        Some((_, end)) => Some(end),
    }
}

/// Reading from one offset on fails, or is reading on from another with no expiry waiting.
#[verifier::opaque]
spec fn goes(data: Seq<u8>, pos: int, st: Loading, end: int) -> bool {
    ends_at(data, pos, st) is Some ==> exists|next: Loading|
        next.expire_ms is None && #[trigger] ends_at(data, end, next) == ends_at(data, pos, st)
}

/// Reading from one offset on with no expiry waiting fails, or is reading on from another.
#[verifier::opaque]
spec fn crosses(data: Seq<u8>, pos: int, end: int) -> bool {
    forall|st: Loading| st.expire_ms is None ==> #[trigger] goes(data, pos, st, end)
}

/// A step fails or leads to an offset with no expiry waiting.
spec fn steps_to(step: LoadStep, end: int) -> bool {
    match step {
        LoadStep::Fail => true,
        LoadStep::Done(_) => false,
        LoadStep::More(next, e) => e == end && next.expire_ms is None,
    }
}

proof fn lemma_steps_go(data: Seq<u8>, pos: int, st: Loading, end: int)
    requires
        steps_to(rdb_load::load_step(11, data, pos, st), end),
    ensures
        goes(data, pos, st, end),
{
    reveal(goes);
    if let LoadStep::More(next, e) = rdb_load::load_step(11, data, pos, st) {
        if ends_at(data, pos, st) is Some {
            assert(ends_at(data, end, next) == ends_at(data, pos, st));
        }
    }
}

proof fn lemma_cross_here(data: Seq<u8>, pos: int)
    ensures
        crosses(data, pos, pos),
{
    reveal(goes);
    reveal(crosses);
    assert forall|st: Loading| st.expire_ms is None implies #[trigger] goes(data, pos, st, pos) by {
        assert(ends_at(data, pos, st) == ends_at(data, pos, st));
    }
}

proof fn lemma_cross_on(data: Seq<u8>, pos: int, mid: int, end: int)
    requires
        crosses(data, pos, mid),
        crosses(data, mid, end),
    ensures
        crosses(data, pos, end),
{
    reveal(goes);
    reveal(crosses);
    assert forall|st: Loading| st.expire_ms is None implies #[trigger] goes(data, pos, st, end) by {
        assert(goes(data, pos, st, mid));
        if ends_at(data, pos, st) is Some {
            let next = choose|next: Loading|
                next.expire_ms is None && #[trigger] ends_at(data, mid, next) == ends_at(
                    data,
                    pos,
                    st,
                );
            assert(goes(data, mid, next, end));
        }
    }
}

proof fn lemma_aux_crosses(data: Seq<u8>, pos: int, a: FieldView)
    requires
        a.0.len() <= u64::MAX,
        a.1.len() <= u64::MAX,
        bytes::has_at(data, pos, rdb_save::aux_encoder()(a)),
    ensures
        crosses(data, pos, pos + rdb_save::aux_encoder()(a).len()),
{
    reveal(crosses);
    let head = seq![RDB_OPCODE_AUX];
    let end = pos + rdb_save::aux_encoder()(a).len();
    bytes::lemma_has_at_concat(data, pos, head, records::pair_bytes(a));
    assert(data[pos + 0] == head[0]);
    <(Vec<u8>, Vec<u8>) as records::Record>::spans(a, data, pos + 1);
    assert forall|st: Loading| st.expire_ms is None implies #[trigger] goes(data, pos, st, end) by {
        lemma_aux_goes(data, pos, st, end);
    }
}

proof fn lemma_aux_goes(data: Seq<u8>, pos: int, st: Loading, end: int)
    requires
        st.expire_ms is None,
        0 <= pos < data.len(),
        data[pos] == RDB_OPCODE_AUX,
        records::pair_at(data, pos + 1) matches Some((_, e)) ==> e == end,
    ensures
        goes(data, pos, st, end),
{
    reveal(rdb_load::load_step);
    lemma_steps_go(data, pos, st, end);
}

proof fn lemma_function_crosses(data: Seq<u8>, pos: int, code: Seq<u8>)
    requires
        code.len() <= u64::MAX,
        bytes::has_at(data, pos, rdb_save::function_encoder()(code)),
    ensures
        crosses(data, pos, pos + rdb_save::function_encoder()(code).len()),
{
    reveal(crosses);
    let head = seq![RDB_OPCODE_FUNCTION2];
    let end = pos + rdb_save::function_encoder()(code).len();
    bytes::lemma_has_at_concat(data, pos, head, rdb_wire::string_bytes(code));
    assert(data[pos + 0] == head[0]);
    rdb_wire::lemma_string_spans(data, pos + 1, code);
    assert forall|st: Loading| st.expire_ms is None implies #[trigger] goes(data, pos, st, end) by {
        lemma_function_goes(data, pos, st, end);
    }
}

proof fn lemma_function_goes(data: Seq<u8>, pos: int, st: Loading, end: int)
    requires
        st.expire_ms is None,
        0 <= pos < data.len(),
        data[pos] == RDB_OPCODE_FUNCTION2,
        rdb_wire::string_at(data, pos + 1) matches Some((_, e)) ==> e == end,
    ensures
        goes(data, pos, st, end),
{
    reveal(rdb_load::load_step);
    lemma_steps_go(data, pos, st, end);
}

proof fn lemma_value_goes(
    data: Seq<u8>,
    pos: int,
    st: Loading,
    e: RdbEntryView,
    compact: Option<CompactRdbThresholds>,
)
    requires
        entry_framed(e),
        bytes::has_at(
            data,
            pos,
            rdb_save::tagged(e.key, rdb_save::value_stored(e.value, compact)),
        ),
    ensures
        goes(
            data,
            pos,
            st,
            pos + rdb_save::tagged(e.key, rdb_save::value_stored(e.value, compact)).len(),
        ),
{
    let stored = rdb_save::value_stored(e.value, compact);
    let head = seq![stored.0];
    let key = rdb_wire::string_bytes(e.key);
    bytes::lemma_has_at_concat(data, pos, head + key, stored.1);
    bytes::lemma_has_at_concat(data, pos, head, key);
    assert(data[pos + 0] == head[0]);
    rdb_wire::lemma_string_spans(data, pos + 1, e.key);
    lemma_value_taken(e.value, compact, data, pos + 1 + key.len());
    lemma_stored_tag(e.value, compact);
    lemma_entry_goes(data, pos, st, pos + 1 + key.len(), stored);
}

proof fn lemma_stored_tag(v: ValueView, compact: Option<CompactRdbThresholds>)
    requires
        value_framed(v),
    ensures
        rdb_values::is_type_byte(rdb_save::value_stored(v, compact).0),
{
    reveal(value_framed);
    reveal(rdb_save::value_stored);
    if let ValueView::Stream(s) = v {
        if let Some(m) = s.metadata {
            lemma_kept_tag(m.0, m.1);
        }
    }
}

proof fn lemma_entry_goes(
    data: Seq<u8>,
    pos: int,
    st: Loading,
    mid: int,
    stored: (u8, Seq<u8>),
)
    requires
        0 <= pos < data.len(),
        data[pos] == stored.0,
        rdb_values::is_type_byte(stored.0),
        rdb_wire::string_at(data, pos + 1) matches Some((_, e)) ==> e == mid,
        taken_whole(stored, data, mid),
    ensures
        goes(data, pos, st, mid + stored.1.len()),
{
    reveal(rdb_load::load_step);
    reveal(taken_whole);
    lemma_steps_go(data, pos, st, mid + stored.1.len());
}

proof fn lemma_entry_crosses(
    data: Seq<u8>,
    pos: int,
    e: RdbEntryView,
    compact: Option<CompactRdbThresholds>,
)
    requires
        entry_framed(e),
        bytes::has_at(data, pos, rdb_save::entry_encoder(compact)(e)),
    ensures
        crosses(data, pos, pos + rdb_save::entry_encoder(compact)(e).len()),
{
    reveal(crosses);
    let a = rdb_save::expiry_bytes(e.expire_ms);
    let b = rdb_save::tagged(e.key, rdb_save::value_stored(e.value, compact));
    let end = pos + (a + b).len();
    bytes::lemma_has_at_concat(data, pos, a, b);
    assert forall|st: Loading| st.expire_ms is None implies #[trigger] goes(data, pos, st, end) by {
        if let Some(ms) = e.expire_ms {
            let head = seq![RDB_OPCODE_EXPIRETIME_MS];
            bytes::lemma_has_at_concat(data, pos, head, records::number_bytes(ms));
            assert(data[pos + 0] == head[0]);
            records::lemma_number_reads(ms, data, pos + 1);
            let timed = Loading { expire_ms: e.expire_ms, ..st };
            lemma_value_goes(data, pos + a.len(), timed, e, compact);
            lemma_timed_goes(data, pos, st, ms, end);
        } else {
            lemma_value_goes(data, pos, st, e, compact);
        }
    }
}

proof fn lemma_timed_goes(data: Seq<u8>, pos: int, st: Loading, ms: u64, end: int)
    requires
        st.expire_ms is None,
        0 <= pos < data.len(),
        data[pos] == RDB_OPCODE_EXPIRETIME_MS,
        records::number_at(data, pos + 1) == Some((ms, pos + 9)),
        goes(data, pos + 9, Loading { expire_ms: Some(ms), ..st }, end),
    ensures
        goes(data, pos, st, end),
{
    reveal(goes);
    let timed = Loading { expire_ms: Some(ms), ..st };
    assert(rdb_load::load_step(11, data, pos, st) == LoadStep::More(timed, pos + 9)) by {
        reveal(rdb_load::load_step);
    }
    if ends_at(data, pos, st) is Some {
        assert(ends_at(data, pos, st) == ends_at(data, pos + 9, timed));
    }
}

/// Items that are crossed one by one are crossed.
proof fn lemma_crosses_all<X>(
    encode: spec_fn(X) -> Seq<u8>,
    items: Seq<X>,
    data: Seq<u8>,
    pos: int,
)
    requires
        bytes::has_at(data, pos, bytes::concat_all(encode, items)),
        forall|i: int, p: int|
            0 <= i < items.len() && #[trigger] bytes::has_at(
                data,
                p,
                encode(#[trigger] items[i]),
            ) ==> crosses(data, p, p + encode(items[i]).len()),
    ensures
        crosses(data, pos, pos + bytes::concat_all(encode, items).len()),
    decreases items.len(),
{
    if items.len() > 0 {
        let front = items.drop_last();
        let mid = pos + bytes::concat_all(encode, front).len();
        bytes::lemma_has_at_concat(
            data,
            pos,
            bytes::concat_all(encode, front),
            encode(items.last()),
        );
        assert forall|i: int, p: int|
            0 <= i < front.len() && #[trigger] bytes::has_at(
                data,
                p,
                encode(#[trigger] front[i]),
            ) implies crosses(data, p, p + encode(front[i]).len()) by {
            assert(front[i] == items[i]);
        }
        lemma_crosses_all(encode, front, data, pos);
        assert(bytes::has_at(data, mid, encode(items[items.len() - 1])));
        lemma_cross_on(data, pos, mid, pos + bytes::concat_all(encode, items).len());
    } else {
        lemma_cross_here(data, pos);
    }
}

proof fn lemma_db_head_crosses(data: Seq<u8>, pos: int, entries: Seq<RdbEntryView>)
    requires
        0 < entries.len() <= u64::MAX,
        entries[0].db <= u64::MAX,
        bytes::has_at(data, pos, rdb_save::db_head_bytes(entries)),
    ensures
        crosses(data, pos, pos + rdb_save::db_head_bytes(entries).len()),
{
    reveal(crosses);
    let a = seq![RDB_OPCODE_SELECTDB];
    let b = rdb_wire::length_bytes(entries[0].db);
    let c = seq![RDB_OPCODE_RESIZEDB];
    let d = rdb_wire::length_bytes(entries.len());
    let e = rdb_wire::length_bytes(rdb_save::expiring(entries));
    snapshot_laws::lemma_expiring(entries);
    bytes::lemma_has_at_concat(data, pos, a + b + c + d, e);
    bytes::lemma_has_at_concat(data, pos, a + b + c, d);
    bytes::lemma_has_at_concat(data, pos, a + b, c);
    bytes::lemma_has_at_concat(data, pos, a, b);
    assert(data[pos + 0] == a[0]);
    let second = pos + 1 + b.len();
    let end = second + 1 + d.len() + e.len();
    assert(data[second + 0] == c[0]);
    rdb_wire::law_length_round_trip(data, pos + 1, entries[0].db);
    rdb_wire::law_length_round_trip(data, second + 1, entries.len());
    rdb_wire::law_length_round_trip(data, second + 1 + d.len(), rdb_save::expiring(entries));
    assert forall|st: Loading| st.expire_ms is None implies #[trigger] goes(
        data,
        pos,
        st,
        second,
    ) by {
        assert(steps_to(rdb_load::load_step(11, data, pos, st), second)) by {
            reveal(rdb_load::load_step);
        }
        lemma_steps_go(data, pos, st, second);
    }
    assert forall|st: Loading| st.expire_ms is None implies #[trigger] goes(
        data,
        second,
        st,
        end,
    ) by {
        assert(steps_to(rdb_load::load_step(11, data, second, st), end)) by {
            reveal(rdb_load::load_step);
        }
        lemma_steps_go(data, second, st, end);
    }
    lemma_cross_on(data, pos, second, end);
}

proof fn lemma_keyspace_crosses(
    data: Seq<u8>,
    pos: int,
    entries: Seq<RdbEntryView>,
    i: int,
    compact: Option<CompactRdbThresholds>,
)
    requires
        0 <= i <= entries.len() <= u64::MAX,
        forall|k: int| 0 <= k < entries.len() ==> entry_framed(#[trigger] entries[k]),
        bytes::has_at(data, pos, rdb_save::keyspace_from(entries, i, compact)),
    ensures
        crosses(data, pos, pos + rdb_save::keyspace_from(entries, i, compact).len()),
    decreases entries.len() - i,
{
    if i < entries.len() {
        let db = entries[i].db;
        let j = rdb_save::db_end(entries, i, db);
        rdb_save::lemma_db_end(entries, i, db);
        let run = entries.subrange(i, j);
        let rest = rdb_save::keyspace_from(entries, j, compact);
        let head = rdb_save::db_head_bytes(run);
        let encode = rdb_save::entry_encoder(compact);
        let body = bytes::concat_all(encode, run);
        bytes::lemma_has_at_concat(data, pos, head + body, rest);
        bytes::lemma_has_at_concat(data, pos, head, body);
        assert(entry_framed(entries[i]));
        lemma_db_head_crosses(data, pos, run);
        assert forall|k: int, p: int|
            0 <= k < run.len() && #[trigger] bytes::has_at(
                data,
                p,
                encode(#[trigger] run[k]),
            ) implies crosses(data, p, p + encode(run[k]).len()) by {
            assert(run[k] == entries[i + k]);
            lemma_entry_crosses(data, p, run[k], compact);
        }
        lemma_crosses_all(encode, run, data, pos + head.len());
        let behind = pos + (head + body).len();
        lemma_keyspace_crosses(data, behind, entries, j, compact);
        lemma_cross_on(data, pos, pos + head.len(), behind);
        lemma_cross_on(data, pos, behind, behind + rest.len());
    } else {
        lemma_cross_here(data, pos);
    }
}

proof fn lemma_body_crosses(
    data: Seq<u8>,
    entries: Seq<RdbEntryView>,
    aux: Seq<FieldView>,
    functions: Seq<Seq<u8>>,
    compact: Option<CompactRdbThresholds>,
)
    requires
        snapshot_framed(entries, aux, functions),
        bytes::has_at(data, 0, rdb_save::unchecked_bytes(entries, aux, functions, compact)),
    ensures
        crosses(data, 9, rdb_save::unchecked_bytes(entries, aux, functions, compact).len() - 1),
{
    snapshot_laws::lemma_body_layout(data, entries, aux, functions, compact);
    let name = rdb_save::aux_encoder();
    let code = rdb_save::function_encoder();
    let p1 = 9 + bytes::concat_all(name, aux).len() as int;
    let p2 = p1 + bytes::concat_all(code, functions).len();
    let p3 = p2 + rdb_save::keyspace_from(entries, 0, compact).len();
    assert forall|i: int, p: int|
        0 <= i < aux.len() && #[trigger] bytes::has_at(
            data,
            p,
            name(#[trigger] aux[i]),
        ) implies crosses(data, p, p + name(aux[i]).len()) by {
        lemma_aux_crosses(data, p, aux[i]);
    }
    lemma_crosses_all(name, aux, data, 9);
    assert forall|i: int, p: int|
        0 <= i < functions.len() && #[trigger] bytes::has_at(
            data,
            p,
            code(#[trigger] functions[i]),
        ) implies crosses(data, p, p + code(functions[i]).len()) by {
        lemma_function_crosses(data, p, functions[i]);
    }
    lemma_crosses_all(code, functions, data, p1);
    lemma_keyspace_crosses(data, p2, entries, 0, compact);
    lemma_cross_on(data, 9, p1, p2);
    lemma_cross_on(data, 9, p2, p3);
}

proof fn lemma_end(data: Seq<u8>, pos: int, st: Loading)
    requires
        0 <= pos < data.len(),
        data[pos] == RDB_OPCODE_EOF,
    ensures
        ends_at(data, pos, st) matches Some(end) ==> end == pos + 9,
{
    reveal(rdb_load::load_step);
}

/// A written snapshot that is accepted is taken whole, whatever follows it, and what follows
/// it changes nothing.
pub proof fn law_accepted_snapshot_is_whole(
    entries: Seq<RdbEntryView>,
    aux: Seq<FieldView>,
    functions: Seq<Seq<u8>>,
    compact: Option<CompactRdbThresholds>,
    tail: Seq<u8>,
)
    requires
        snapshot_framed(entries, aux, functions),
    ensures
        ({
            let snapshot = rdb_save::snapshot_bytes(entries, aux, functions, compact);
            &&& rdb_load::snapshot_prefix(snapshot) matches Some((_, end)) ==> end
                == snapshot.len()
            &&& rdb_load::snapshot_prefix(snapshot + tail) == rdb_load::snapshot_prefix(snapshot)
        }),
{
    let snapshot = rdb_save::snapshot_bytes(entries, aux, functions, compact);
    lemma_taken_whole(entries, aux, functions, compact, Seq::empty());
    lemma_taken_whole(entries, aux, functions, compact, tail);
    assert(snapshot + Seq::<u8>::empty() =~= snapshot);
    snapshot_local::law_tail_changes_nothing(snapshot, tail);
    if rdb_load::snapshot_prefix(snapshot + tail) is Some {
        snapshot_laws::law_snapshot_frame(entries, aux, functions, compact);
        snapshot_local::law_snapshot_is_local(snapshot + tail, Seq::empty());
        assert((snapshot + tail).take(snapshot.len() as int) + Seq::<u8>::empty() =~= snapshot);
    }
}

proof fn lemma_taken_whole(
    entries: Seq<RdbEntryView>,
    aux: Seq<FieldView>,
    functions: Seq<Seq<u8>>,
    compact: Option<CompactRdbThresholds>,
    tail: Seq<u8>,
)
    requires
        snapshot_framed(entries, aux, functions),
    ensures
        ({
            let snapshot = rdb_save::snapshot_bytes(entries, aux, functions, compact);
            rdb_load::snapshot_prefix(snapshot + tail) matches Some((_, end)) ==> end
                == snapshot.len()
        }),
{
    let sorted = order::sorted_by(entries, rdb_save::entry_key());
    let body = rdb_save::unchecked_bytes(sorted, aux, functions, compact);
    let sum = records::number_bytes(crc64::crc64(body));
    let data = body + sum + tail;
    let n = body.len() as int;
    order::lemma_sorted_by_len(entries, rdb_save::entry_key());
    assert forall|i: int| 0 <= i < sorted.len() implies entry_framed(#[trigger] sorted[i]) by {
        assert(entries.contains(sorted[i]));
    }
    bytes::lemma_has_at_whole(data);
    bytes::lemma_has_at_concat(data, 0, body + sum, tail);
    bytes::lemma_has_at_concat(data, 0, body, sum);
    records::lemma_number_reads(crc64::crc64(body), data, n);
    lemma_body_crosses(data, sorted, aux, functions, compact);
    snapshot_laws::lemma_body_layout(data, sorted, aux, functions, compact);
    snapshot_laws::lemma_header(data);
    let st = rdb_load::nothing_loaded();
    reveal(crosses);
    assert(goes(data, 9, st, n - 1));
    reveal(goes);
    if ends_at(data, 9, st) is Some {
        let next = choose|next: Loading|
            next.expire_ms is None && #[trigger] ends_at(data, n - 1, next) == ends_at(
                data,
                9,
                st,
            );
        lemma_end(data, n - 1, next);
    }
}

} // verus!
