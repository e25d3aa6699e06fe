//! The ways of reading the entries of a stored stream agree.

use vstd::prelude::*;

use crate::listpack;
use crate::listpack::LpValue;
use crate::rdb_stream;
use crate::rdb_stream::{NodeView, SkeletonView, UpstreamStreamError};
use crate::rdb_types::EntryView;
use crate::stream_unpack;
use crate::stream_unpack::Unpacked;

verus! {

/// One sequence of entries starts with the other.
pub open spec fn starts_with(all: Seq<EntryView>, front: Seq<EntryView>) -> bool {
    front.len() <= all.len() && all.take(front.len() as int) == front
}

proof fn lemma_not_indexable(all: Seq<EntryView>, front: Seq<EntryView>)
    requires
        starts_with(all, front),
        !stream_unpack::indexable(front),
    ensures
        !stream_unpack::indexable(all),
{
    let i = choose|i: int|
        0 <= i < front.len() && !(stream_unpack::total_fields(#[trigger] front.take(i)) <= u32::MAX
            && front[i].fields.len() <= u32::MAX);
    assert(front.take(i) =~= all.take(i));
    assert(all.take(front.len() as int)[i] == all[i]);
}

/// What reading entries with their fields indexed gives, by what reading them gives.
spec fn entries_agree(
    plain: Result<(Unpacked, nat, nat), UpstreamStreamError>,
    flat: Result<(Unpacked, nat, nat), UpstreamStreamError>,
) -> bool {
    match plain {
        Ok((u, total, live)) => flat == (if stream_unpack::indexable(u.entries) {
            plain
        } else {
            Err(UpstreamStreamError::InvalidFieldCount)
        }),
        Err(e) => flat == plain || flat == Err::<(Unpacked, nat, nat), UpstreamStreamError>(
            UpstreamStreamError::InvalidFieldCount,
        ),
    }
}

proof fn lemma_entries_extend(
    blob: Seq<u8>,
    values: Seq<LpValue>,
    i: int,
    master: (u64, u64),
    names: Seq<Seq<u8>>,
    flat: bool,
    u: Unpacked,
    total: nat,
    live: nat,
)
    ensures
        stream_unpack::entries_from(blob, values, i, master, names, flat, u, total, live)
            matches Ok((v, _, _)) ==> starts_with(v.entries, u.entries),
    decreases values.len() - i,
{
    if 0 <= i < values.len() {
        stream_unpack::lemma_entry_piece(blob, values, i, master, names);
        if let Ok((deleted, e, next)) = stream_unpack::entry_piece(blob, values, i, master, names) {
            let more = stream_unpack::unpacked_more(u, deleted, e);
            let n = if deleted {
                live
            } else {
                live + 1
            };
            lemma_entries_extend(blob, values, next, master, names, flat, more, total + 1, n);
            if let Ok((v, _, _)) = stream_unpack::entries_from(
                blob,
                values,
                next,
                master,
                names,
                flat,
                more,
                total + 1,
                n,
            ) {
                if !deleted {
                    assert(more.entries.take(u.entries.len() as int) =~= u.entries);
                    assert(v.entries.take(u.entries.len() as int) =~= v.entries.take(
                        more.entries.len() as int,
                    ).take(u.entries.len() as int));
                }
            }
        }
    } else {
        assert(u.entries.take(u.entries.len() as int) =~= u.entries);
    }
}

proof fn lemma_indexable_push(entries: Seq<EntryView>, e: EntryView)
    requires
        stream_unpack::indexable(entries),
        stream_unpack::total_fields(entries) <= u32::MAX,
        e.fields.len() <= u32::MAX,
    ensures
        stream_unpack::indexable(entries.push(e)),
{
    let all = entries.push(e);
    assert forall|j: int| 0 <= j < all.len() implies stream_unpack::total_fields(
        #[trigger] all.take(j),
    ) <= u32::MAX && all[j].fields.len() <= u32::MAX by {
        assert(all.take(j) =~= entries.take(j));
        assert(entries.take(entries.len() as int) =~= entries);
    }
}

proof fn lemma_entries_agree(
    blob: Seq<u8>,
    values: Seq<LpValue>,
    i: int,
    master: (u64, u64),
    names: Seq<Seq<u8>>,
    u: Unpacked,
    total: nat,
    live: nat,
)
    requires
        stream_unpack::tallied(u, true),
    ensures
        entries_agree(
            stream_unpack::entries_from(blob, values, i, master, names, false, u, total, live),
            stream_unpack::entries_from(blob, values, i, master, names, true, u, total, live),
        ),
    decreases values.len() - i,
{
    if 0 <= i < values.len() {
        stream_unpack::lemma_entry_piece(blob, values, i, master, names);
        if let Ok((deleted, e, next)) = stream_unpack::entry_piece(blob, values, i, master, names) {
            let more = stream_unpack::unpacked_more(u, deleted, e);
            let n = if deleted {
                live
            } else {
                live + 1
            };
            if deleted || (e.fields.len() <= u32::MAX && u.fields <= u32::MAX) {
                if !deleted {
                    lemma_indexable_push(u.entries, e);
                    assert(more.entries.drop_last() =~= u.entries);
                }
                lemma_entries_agree(blob, values, next, master, names, more, total + 1, n);
            } else {
                assert(!stream_unpack::indexable(more.entries)) by {
                    assert(more.entries.take(u.entries.len() as int) =~= u.entries);
                    assert(more.entries[u.entries.len() as int] == e);
                }
                lemma_entries_extend(blob, values, next, master, names, false, more, total + 1, n);
                if let Ok((v, _, _)) = stream_unpack::entries_from(
                    blob,
                    values,
                    next,
                    master,
                    names,
                    false,
                    more,
                    total + 1,
                    n,
                ) {
                    lemma_not_indexable(v.entries, more.entries);
                }
            }
        }
    }
}

/// What reading nodes with their fields indexed gives, by what reading them gives.
pub open spec fn nodes_agree(
    plain: Result<Unpacked, UpstreamStreamError>,
    flat: Result<Unpacked, UpstreamStreamError>,
) -> bool {
    match plain {
        Ok(u) => flat == (if stream_unpack::indexable(u.entries) {
            plain
        } else {
            Err(UpstreamStreamError::InvalidFieldCount)
        }),
        Err(e) => flat == plain || flat == Err::<Unpacked, UpstreamStreamError>(
            UpstreamStreamError::InvalidFieldCount,
        ),
    }
}

proof fn lemma_node_extends(node: NodeView, flat: bool, u: Unpacked)
    ensures
        stream_unpack::unpack_node(node, flat, u) matches Ok(v) ==> starts_with(
            v.entries,
            u.entries,
        ),
{
    if let Ok(values) = listpack::values_of(node.2) {
        if let Ok((_, _, names, start)) = stream_unpack::opening(node.2, values) {
            lemma_entries_extend(
                node.2,
                values,
                start,
                (node.0, node.1),
                names,
                flat,
                u,
                0,
                0,
            );
        }
    }
}

proof fn lemma_nodes_agree(nodes: Seq<NodeView>, k: nat)
    ensures
        nodes_agree(
            stream_unpack::unpack_upto(nodes, k, false),
            stream_unpack::unpack_upto(nodes, k, true),
        ),
    decreases k,
{
    if k > 0 {
        let j = (k - 1) as nat;
        lemma_nodes_agree(nodes, j);
        if let Ok(u) = stream_unpack::unpack_upto(nodes, j, false) {
            let node = nodes[k - 1];
            if stream_unpack::indexable(u.entries) {
                stream_unpack::lemma_unpack_tallied(nodes, j, true);
                if let Ok(values) = listpack::values_of(node.2) {
                    if let Ok((_, _, names, start)) = stream_unpack::opening(node.2, values) {
                        lemma_entries_agree(
                            node.2,
                            values,
                            start,
                            (node.0, node.1),
                            names,
                            u,
                            0,
                            0,
                        );
                    }
                }
            } else {
                lemma_node_extends(node, false, u);
                if let Ok(v) = stream_unpack::unpack_node(node, false, u) {
                    lemma_not_indexable(v.entries, u.entries);
                }
            }
        }
    }
}

/// The bytes of the packs of nodes.
pub open spec fn pack_bytes(nodes: Seq<NodeView>, k: nat) -> nat
    decreases k,
{
    if k == 0 {
        0
    } else {
        pack_bytes(nodes, (k - 1) as nat) + nodes[k - 1].2.len()
    }
}

proof fn lemma_entries_same(
    blob: Seq<u8>,
    values: Seq<LpValue>,
    i: int,
    master: (u64, u64),
    names: Seq<Seq<u8>>,
    u: Unpacked,
    total: nat,
    live: nat,
)
    requires
        0 <= i,
        u.fields + values.len() <= u32::MAX + i,
        u.fields <= u32::MAX,
    ensures
        stream_unpack::entries_from(blob, values, i, master, names, true, u, total, live)
            == stream_unpack::entries_from(blob, values, i, master, names, false, u, total, live),
        stream_unpack::entries_from(blob, values, i, master, names, false, u, total, live)
            matches Ok((v, _, _)) ==> v.fields <= u.fields + (if i < values.len() {
            values.len() - i
        } else {
            0
        }),
    decreases values.len() - i,
{
    if i < values.len() {
        stream_unpack::lemma_entry_piece(blob, values, i, master, names);
        if let Ok((deleted, e, next)) = stream_unpack::entry_piece(blob, values, i, master, names) {
            let more = stream_unpack::unpacked_more(u, deleted, e);
            let n = if deleted {
                live
            } else {
                live + 1
            };
            lemma_entries_same(blob, values, next, master, names, more, total + 1, n);
        }
    }
}

proof fn lemma_nodes_same(nodes: Seq<NodeView>, k: nat)
    requires
        pack_bytes(nodes, k) <= u32::MAX,
    ensures
        stream_unpack::unpack_upto(nodes, k, true) == stream_unpack::unpack_upto(nodes, k, false),
        stream_unpack::unpack_upto(nodes, k, false) matches Ok(u) ==> u.fields <= pack_bytes(
            nodes,
            k,
        ),
    decreases k,
{
    if k > 0 {
        let j = (k - 1) as nat;
        lemma_nodes_same(nodes, j);
        if let Ok(u) = stream_unpack::unpack_upto(nodes, j, false) {
            let node = nodes[k - 1];
            listpack::lemma_values_count(node.2);
            if let Ok(values) = listpack::values_of(node.2) {
                if let Ok((_, _, names, start)) = stream_unpack::opening(node.2, values) {
                    lemma_entries_same(node.2, values, start, (node.0, node.1), names, u, 0, 0);
                }
            }
        }
    }
}

/// Reading the entries of nodes with their fields indexed and reading them without give the
/// same entries, up to the index: where the plain entries cannot be indexed with 32 bits, or
/// an error comes behind such, the number of fields is rejected. Packs of no more than
/// 2^32 - 1 bytes are always read the same, and rejected for the same reason.
pub proof fn law_flat_unpacking_agrees(nodes: Seq<NodeView>)
    ensures
        nodes_agree(
            stream_unpack::unpack_all(nodes, false),
            stream_unpack::unpack_all(nodes, true),
        ),
        pack_bytes(nodes, nodes.len()) <= u32::MAX ==> stream_unpack::unpack_all(nodes, true)
            == stream_unpack::unpack_all(nodes, false),
{
    lemma_nodes_agree(nodes, nodes.len());
    if pack_bytes(nodes, nodes.len()) <= u32::MAX {
        lemma_nodes_same(nodes, nodes.len());
    }
}

/// The entries of a stream read with their fields indexed are those that it has, and as many
/// as it declares. What has no more than 2^32 - 1 bytes of packs and declares its number of
/// entries is read the same in both ways, and rejected for the same reason.
pub proof fn law_flat_entries_agree(s: SkeletonView)
    ensures
        rdb_stream::flattened(s) matches Ok(u) ==> stream_unpack::unpack_all(s.nodes, false) == Ok::<
            Unpacked,
            UpstreamStreamError,
        >(u) && u.entries.len() == s.length,
        pack_bytes(s.nodes, s.nodes.len()) <= u32::MAX && (stream_unpack::unpack_all(
            s.nodes,
            false,
        ) matches Ok(u) ==> u.entries.len() == s.length) ==> rdb_stream::flattened(s)
            == stream_unpack::unpack_all(s.nodes, false),
{
    law_flat_unpacking_agrees(s.nodes);
}

/// The check of the entries accepts exactly the streams whose entries can be read with their
/// fields indexed and whose ids differ.
pub proof fn law_check_agrees_with_unpacking(s: SkeletonView)
    ensures
        rdb_stream::validated(s) is Ok <==> (rdb_stream::flattened(s) matches Ok(u)
            && stream_unpack::entry_ids(u.entries).no_duplicates()),
{
}

/// A stream that passes the check has as many entries as it declares.
pub proof fn law_checked_length_is_declared(s: SkeletonView)
    ensures
        rdb_stream::validated(s) is Ok ==> (rdb_stream::flattened(s) matches Ok(u)
            && u.entries.len() == s.length),
{
}

} // verus!
