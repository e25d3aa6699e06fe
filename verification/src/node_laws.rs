//! What the nodes of a stream are read as, whoever wrote them.

use vstd::prelude::*;

use crate::bytes;
use crate::listpack;
use crate::listpack::LpValue;
use crate::pack_laws;
use crate::pack_laws::PackValue;
use crate::rdb_stream;
use crate::rdb_stream::{SkeletonView, UpstreamStreamError};
use crate::rdb_types::{EntryView, FieldView, ValueView};
use crate::stream_layouts;
use crate::stream_layouts::StoredStream;
use crate::stream_unpack;
use crate::stream_unpack::Unpacked;

verus! {

/// An entry of a node. Its id is told as the difference to the master's. With names of its own
/// it has as many of them as values.
pub struct StoredEntry {
    pub deleted: bool,
    pub ms: int,
    pub seq: int,
    pub own_names: Option<Seq<PackValue>>,
    pub values: Seq<PackValue>,
}

/// Names and values in turn.
pub open spec fn in_turn(names: Seq<PackValue>, values: Seq<PackValue>) -> Seq<PackValue> {
    Seq::new(
        2 * values.len(),
        |i: int|
            if i % 2 == 0 {
                names[i / 2]
            } else {
                values[i / 2]
            },
    )
}

/// The flags of an entry: 1 for a deleted one, and 2 for one with the names of the master.
pub open spec fn flags_of(e: StoredEntry) -> int {
    (if e.deleted {
        1int
    } else {
        0int
    }) + (if e.own_names is None {
        2int
    } else {
        0int
    })
}

/// The pieces of an entry in front of the last.
pub open spec fn front_pieces(e: StoredEntry) -> Seq<PackValue> {
    seq![PackValue::Integer(flags_of(e)), PackValue::Integer(e.ms), PackValue::Integer(e.seq)] + (
    match e.own_names {
        None => e.values,
        Some(names) => seq![PackValue::Integer(e.values.len() as int)] + in_turn(names, e.values),
    })
}

/// The pieces of an entry. The last is the number of those in front of it.
pub open spec fn entry_pieces(e: StoredEntry) -> Seq<PackValue> {
    front_pieces(e).push(PackValue::Integer(front_pieces(e).len() as int))
}

/// The pieces of entries, one behind the other.
pub open spec fn entries_pieces(entries: Seq<StoredEntry>) -> Seq<PackValue>
    decreases entries.len(),
{
    if entries.len() == 0 {
        Seq::empty()
    } else {
        entries_pieces(entries.drop_last()) + entry_pieces(entries.last())
    }
}

/// The pieces of a node: the numbers of live and of deleted entries, the names of the master
/// behind their number and with a zero behind them, and the entries.
pub open spec fn node_pieces(
    live: int,
    deleted: int,
    names: Seq<PackValue>,
    entries: Seq<StoredEntry>,
) -> Seq<PackValue> {
    (seq![
        PackValue::Integer(live),
        PackValue::Integer(deleted),
        PackValue::Integer(names.len() as int),
    ] + names).push(PackValue::Integer(0)) + entries_pieces(entries)
}

/// There are as many names as values.
pub open spec fn entry_right(names: Seq<PackValue>, e: StoredEntry) -> bool {
    match e.own_names {
        None => e.values.len() == names.len(),
        Some(own) => e.values.len() == own.len(),
    }
}

/// The number of 64 bits that is `delta` behind another, all around.
pub open spec fn half_of(base: u64, delta: int, half: u64) -> bool {
    exists|turns: int| #[trigger] (turns * 0x1_0000_0000_0000_0000) + base + delta == half
}

/// The entry is what is stored of it.
pub open spec fn is_read_entry(
    master: (u64, u64),
    names: Seq<PackValue>,
    e: StoredEntry,
    v: EntryView,
) -> bool {
    let own = match e.own_names {
        None => names,
        Some(own) => own,
    };
    &&& half_of(master.0, e.ms, v.ms)
    &&& half_of(master.1, e.seq, v.seq)
    &&& v.fields.len() == e.values.len()
    &&& forall|i: int|
        0 <= i < v.fields.len() ==> (#[trigger] v.fields[i]).0 == pack_laws::value_text(own[i])
            && v.fields[i].1 == pack_laws::value_text(e.values[i])
}

/// The entries that are not deleted, in order.
pub open spec fn live_of(entries: Seq<StoredEntry>) -> Seq<StoredEntry>
    decreases entries.len(),
{
    if entries.len() == 0 {
        Seq::empty()
    } else if entries.last().deleted {
        live_of(entries.drop_last())
    } else {
        live_of(entries.drop_last()).push(entries.last())
    }
}

/// The values from `i` on are the pieces.
pub open spec fn stand(
    blob: Seq<u8>,
    found: Seq<LpValue>,
    i: int,
    pieces: Seq<PackValue>,
) -> bool {
    &&& 0 <= i
    &&& i + pieces.len() <= found.len()
    &&& forall|p: int|
        0 <= p < pieces.len() ==> pack_laws::is_read_value(blob, found[i + p], #[trigger] pieces[p])
}

proof fn lemma_stand(
    blob: Seq<u8>,
    found: Seq<LpValue>,
    i: int,
    a: Seq<PackValue>,
    b: Seq<PackValue>,
)
    requires
        stand(blob, found, i, a + b),
    ensures
        stand(blob, found, i, a),
        stand(blob, found, i + a.len(), b),
{
    assert forall|p: int| 0 <= p < a.len() implies pack_laws::is_read_value(
        blob,
        found[i + p],
        #[trigger] a[p],
    ) by {
        assert((a + b)[p] == a[p]);
    }
    assert forall|p: int| 0 <= p < b.len() implies pack_laws::is_read_value(
        blob,
        found[i + a.len() + p],
        #[trigger] b[p],
    ) by {
        assert((a + b)[a.len() + p] == b[p]);
    }
}

proof fn lemma_integer(blob: Seq<u8>, found: Seq<LpValue>, i: int, n: int)
    requires
        stand(blob, found, i, seq![PackValue::Integer(n)]),
    ensures
        stream_unpack::int_piece(found, i) == Ok::<int, UpstreamStreamError>(n),
{
    assert(pack_laws::is_read_value(blob, found[i + 0], seq![PackValue::Integer(n)][0]));
}

/// The strings of values.
pub open spec fn texts_of(values: Seq<PackValue>) -> Seq<Seq<u8>> {
    Seq::new(values.len(), |i: int| pack_laws::value_text(values[i]))
}

proof fn lemma_texts(
    blob: Seq<u8>,
    found: Seq<LpValue>,
    i: int,
    pieces: Seq<PackValue>,
    n: nat,
)
    requires
        stand(blob, found, i, pieces),
        n <= pieces.len(),
    ensures
        stream_unpack::text_pieces(blob, found, i, n) == Ok::<Seq<Seq<u8>>, UpstreamStreamError>(
            texts_of(pieces).take(n as int),
        ),
    decreases n,
{
    if n == 0 {
        assert(texts_of(pieces).take(0) =~= Seq::empty());
    } else {
        lemma_texts(blob, found, i, pieces, (n - 1) as nat);
        assert(pack_laws::is_read_value(blob, found[i + (n - 1)], pieces[n - 1]));
        assert(texts_of(pieces).take(n as int) =~= texts_of(pieces).take(n - 1).push(
            texts_of(pieces)[n - 1],
        ));
    }
}

/// The fields of names and values.
pub open spec fn fields_of(names: Seq<PackValue>, values: Seq<PackValue>) -> Seq<FieldView> {
    Seq::new(
        values.len(),
        |i: int| (pack_laws::value_text(names[i]), pack_laws::value_text(values[i])),
    )
}

proof fn lemma_fields(
    blob: Seq<u8>,
    found: Seq<LpValue>,
    i: int,
    names: Seq<PackValue>,
    values: Seq<PackValue>,
    n: nat,
)
    requires
        stand(blob, found, i, in_turn(names, values)),
        names.len() == values.len(),
        n <= values.len(),
    ensures
        stream_unpack::field_pieces(blob, found, i, n) == Ok::<
            Seq<FieldView>,
            UpstreamStreamError,
        >(fields_of(names, values).take(n as int)),
    decreases n,
{
    let all = fields_of(names, values);
    if n == 0 {
        assert(all.take(0) =~= Seq::empty());
    } else {
        lemma_fields(blob, found, i, names, values, (n - 1) as nat);
        let pieces = in_turn(names, values);
        let a = 2 * (n - 1);
        assert(pieces[a] == names[n - 1]);
        assert(pieces[a + 1] == values[n - 1]);
        assert(pack_laws::is_read_value(blob, found[i + a], pieces[a]));
        assert(pack_laws::is_read_value(blob, found[i + (a + 1)], pieces[a + 1]));
        assert(all.take(n as int) =~= all.take(n - 1).push(all[n - 1]));
    }
}

/// The entry that is read.
pub open spec fn view_of(
    master: (u64, u64),
    names: Seq<PackValue>,
    e: StoredEntry,
) -> EntryView {
    EntryView {
        ms: stream_unpack::moved(master.0, e.ms),
        seq: stream_unpack::moved(master.1, e.seq),
        fields: fields_of(
            match e.own_names {
                None => names,
                Some(own) => own,
            },
            e.values,
        ),
    }
}

proof fn lemma_half(base: u64, delta: int)
    ensures
        half_of(base, delta, stream_unpack::moved(base, delta)),
{
    let m = 0x1_0000_0000_0000_0000int;
    let turns = -((base + delta) / m);
    assert((turns * 0x1_0000_0000_0000_0000) + base + delta == stream_unpack::moved(base, delta));
}

proof fn lemma_front(
    blob: Seq<u8>,
    found: Seq<LpValue>,
    i: int,
    master: (u64, u64),
    names: Seq<PackValue>,
    e: StoredEntry,
)
    requires
        stand(blob, found, i, front_pieces(e)),
        entry_right(names, e),
    ensures
        stream_unpack::int_piece(found, i) == Ok::<int, UpstreamStreamError>(flags_of(e)),
        stream_unpack::int_piece(found, i + 1) == Ok::<int, UpstreamStreamError>(e.ms),
        stream_unpack::int_piece(found, i + 2) == Ok::<int, UpstreamStreamError>(e.seq),
        stream_unpack::body_piece(
            blob,
            found,
            i + 3,
            flags_of(e) % 4 >= 2,
            texts_of(names),
        ) == Ok::<(Seq<FieldView>, int, int), UpstreamStreamError>(
            (
                view_of(master, names, e).fields,
                i + front_pieces(e).len(),
                front_pieces(e).len() as int,
            ),
        ),
{
    let flags = flags_of(e);
    let head = seq![PackValue::Integer(flags), PackValue::Integer(e.ms), PackValue::Integer(e.seq)];
    assert(head =~= seq![PackValue::Integer(flags)] + (seq![PackValue::Integer(e.ms)] + seq![
        PackValue::Integer(e.seq),
    ]));
    match e.own_names {
        None => {
            lemma_stand(blob, found, i, head, e.values);
            lemma_texts(blob, found, i + 3, e.values, e.values.len());
            assert(texts_of(e.values).take(e.values.len() as int) =~= texts_of(e.values));
            assert(stream_unpack::zipped(texts_of(names), texts_of(e.values)) =~= fields_of(
                names,
                e.values,
            ));
        },
        Some(own) => {
            let count = seq![PackValue::Integer(e.values.len() as int)];
            lemma_stand(blob, found, i, head, count + in_turn(own, e.values));
            lemma_stand(blob, found, i + 3, count, in_turn(own, e.values));
            lemma_integer(blob, found, i + 3, e.values.len() as int);
            lemma_fields(blob, found, i + 4, own, e.values, e.values.len());
            assert(fields_of(own, e.values).take(e.values.len() as int) =~= fields_of(
                own,
                e.values,
            ));
        },
    }
    lemma_stand(
        blob,
        found,
        i,
        seq![PackValue::Integer(flags)],
        seq![PackValue::Integer(e.ms)] + seq![PackValue::Integer(e.seq)],
    );
    lemma_stand(
        blob,
        found,
        i + 1,
        seq![PackValue::Integer(e.ms)],
        seq![PackValue::Integer(e.seq)],
    );
    lemma_integer(blob, found, i, flags);
    lemma_integer(blob, found, i + 1, e.ms);
    lemma_integer(blob, found, i + 2, e.seq);
}

proof fn lemma_entry(
    blob: Seq<u8>,
    found: Seq<LpValue>,
    i: int,
    master: (u64, u64),
    names: Seq<PackValue>,
    e: StoredEntry,
)
    requires
        stand(blob, found, i, entry_pieces(e)),
        entry_right(names, e),
    ensures
        stream_unpack::entry_piece(blob, found, i, master, texts_of(names)) == Ok::<
            (bool, EntryView, int),
            UpstreamStreamError,
        >((e.deleted, view_of(master, names, e), i + entry_pieces(e).len())),
{
    let front = front_pieces(e);
    let n = front.len() as int;
    assert(entry_pieces(e) =~= front + seq![PackValue::Integer(n)]);
    lemma_stand(blob, found, i, front, seq![PackValue::Integer(n)]);
    lemma_integer(blob, found, i + n, n);
    lemma_front(blob, found, i, master, names, e);
}

/// What is unpacked once the entries are read.
pub open spec fn unpacked_with(
    u: Unpacked,
    master: (u64, u64),
    names: Seq<PackValue>,
    entries: Seq<StoredEntry>,
) -> Unpacked
    decreases entries.len(),
{
    if entries.len() == 0 {
        u
    } else {
        stream_unpack::unpacked_more(
            unpacked_with(u, master, names, entries.drop_last()),
            entries.last().deleted,
            view_of(master, names, entries.last()),
        )
    }
}

proof fn lemma_unpacked_with(
    u: Unpacked,
    master: (u64, u64),
    names: Seq<PackValue>,
    entries: Seq<StoredEntry>,
)
    ensures
        unpacked_with(u, master, names, entries).entries == u.entries + live_of(
            entries,
        ).map_values(|e: StoredEntry| view_of(master, names, e)),
    decreases entries.len(),
{
    let f = |e: StoredEntry| view_of(master, names, e);
    if entries.len() == 0 {
        assert(u.entries + live_of(entries).map_values(f) =~= u.entries);
    } else {
        let front = entries.drop_last();
        lemma_unpacked_with(u, master, names, front);
        if !entries.last().deleted {
            assert(u.entries + live_of(entries).map_values(f) =~= (u.entries + live_of(
                front,
            ).map_values(f)).push(view_of(master, names, entries.last())));
        }
    }
}

proof fn lemma_pieces_prefix(entries: Seq<StoredEntry>, k: int)
    requires
        0 <= k <= entries.len(),
    ensures
        entries_pieces(entries.take(k)).len() <= entries_pieces(entries).len(),
        entries_pieces(entries) == entries_pieces(entries.take(k)) + entries_pieces(entries).skip(
            entries_pieces(entries.take(k)).len() as int,
        ),
        k < entries.len() ==> entries_pieces(entries.take(k + 1)) == entries_pieces(entries.take(k))
            + entry_pieces(entries[k]),
    decreases entries.len(),
{
    if k < entries.len() {
        assert(entries.take(k + 1).drop_last() =~= entries.take(k));
        let front = entries.drop_last();
        lemma_pieces_prefix(front, k);
        assert(front.take(k) =~= entries.take(k));
        let p = entries_pieces(entries.take(k));
        assert(entries_pieces(entries) =~= p + entries_pieces(entries).skip(p.len() as int)) by {
            assert(entries_pieces(front) == p + entries_pieces(front).skip(p.len() as int));
            assert forall|i: int| 0 <= i < p.len() implies entries_pieces(entries)[i] == p[i] by {
                assert(entries_pieces(front)[i] == p[i]);
            }
        }
    } else {
        assert(entries.take(k) =~= entries);
        assert(entries_pieces(entries) =~= entries_pieces(entries) + entries_pieces(entries).skip(
            entries_pieces(entries).len() as int,
        ));
    }
}

proof fn lemma_entries(
    blob: Seq<u8>,
    found: Seq<LpValue>,
    start: int,
    master: (u64, u64),
    names: Seq<PackValue>,
    entries: Seq<StoredEntry>,
    k: int,
    u: Unpacked,
)
    requires
        0 <= k <= entries.len(),
        stand(blob, found, start, entries_pieces(entries)),
        start + entries_pieces(entries).len() == found.len(),
        forall|i: int| 0 <= i < entries.len() ==> entry_right(names, #[trigger] entries[i]),
    ensures
        stream_unpack::entries_from(
            blob,
            found,
            start + entries_pieces(entries.take(k)).len(),
            master,
            texts_of(names),
            false,
            unpacked_with(u, master, names, entries.take(k)),
            k as nat,
            live_of(entries.take(k)).len(),
        ) == Ok::<(Unpacked, nat, nat), UpstreamStreamError>(
            (unpacked_with(u, master, names, entries), entries.len(), live_of(entries).len()),
        ),
    decreases entries.len() - k,
{
    let before = entries_pieces(entries.take(k));
    if k < entries.len() {
        let e = entries[k];
        let here = entry_pieces(e);
        lemma_pieces_prefix(entries, k);
        lemma_pieces_prefix(entries, k + 1);
        let rest = entries_pieces(entries).skip((before + here).len() as int);
        lemma_stand(blob, found, start, before + here, rest);
        lemma_stand(blob, found, start, before, here);
        lemma_entry(blob, found, start + before.len(), master, names, e);
        assert(entries.take(k + 1).drop_last() =~= entries.take(k));
        assert(entries.take(k + 1).last() == e);
        lemma_entries(blob, found, start, master, names, entries, k + 1, u);
    } else {
        assert(entries.take(k) =~= entries);
    }
}

proof fn lemma_opening(
    blob: Seq<u8>,
    found: Seq<LpValue>,
    live: int,
    deleted: int,
    names: Seq<PackValue>,
    rest: Seq<PackValue>,
)
    requires
        live >= 0,
        deleted >= 0,
        stand(
            blob,
            found,
            0,
            (seq![
                PackValue::Integer(live),
                PackValue::Integer(deleted),
                PackValue::Integer(names.len() as int),
            ] + names).push(PackValue::Integer(0)) + rest,
        ),
    ensures
        stream_unpack::opening(blob, found) == Ok::<
            (nat, nat, Seq<Seq<u8>>, int),
            UpstreamStreamError,
        >((live as nat, deleted as nat, texts_of(names), 4 + names.len() as int)),
        stand(blob, found, 4 + names.len() as int, rest),
{
    let n = names.len() as int;
    let (a, b, c, d) = (
        seq![PackValue::Integer(live)],
        seq![PackValue::Integer(deleted)],
        seq![PackValue::Integer(n)],
        seq![PackValue::Integer(0)],
    );
    let all = (seq![
        PackValue::Integer(live),
        PackValue::Integer(deleted),
        PackValue::Integer(n),
    ] + names).push(PackValue::Integer(0)) + rest;
    assert(all =~= a + (b + (c + (names + (d + rest)))));
    lemma_stand(blob, found, 0, a, b + (c + (names + (d + rest))));
    lemma_stand(blob, found, 1, b, c + (names + (d + rest)));
    lemma_stand(blob, found, 2, c, names + (d + rest));
    lemma_stand(blob, found, 3, names, d + rest);
    lemma_stand(blob, found, 3 + n, d, rest);
    lemma_integer(blob, found, 0, live);
    lemma_integer(blob, found, 1, deleted);
    lemma_integer(blob, found, 2, n);
    lemma_integer(blob, found, 3 + n, 0);
    lemma_texts(blob, found, 3, names, names.len());
    assert(texts_of(names).take(n) =~= texts_of(names));
}

/// A node whose pack holds its pieces is read as the entries that are not deleted, in order and
/// behind those of the nodes in front of it, if both its numbers are right. If one is wrong, it
/// is refused.
pub proof fn law_stored_node_is_read(
    blob: Seq<u8>,
    master: (u64, u64),
    live: int,
    deleted: int,
    names: Seq<PackValue>,
    entries: Seq<StoredEntry>,
    u: Unpacked,
)
    requires
        live >= 0,
        deleted >= 0,
        listpack::values_of(blob) matches Ok(found) && stand(
            blob,
            found,
            0,
            node_pieces(live, deleted, names, entries),
        ) && found.len() == node_pieces(live, deleted, names, entries).len(),
        forall|i: int| 0 <= i < entries.len() ==> entry_right(names, #[trigger] entries[i]),
    ensures
        live == live_of(entries).len() && live + deleted == entries.len() ==> (
        stream_unpack::unpack_node((master.0, master.1, blob), false, u) matches Ok(v)
            && v.entries.len() == u.entries.len() + live_of(entries).len() && v.entries.take(
            u.entries.len() as int,
        ) == u.entries && forall|i: int|
            0 <= i < live_of(entries).len() ==> is_read_entry(
                master,
                names,
                #[trigger] live_of(entries)[i],
                v.entries[u.entries.len() + i],
            )),
        !(live == live_of(entries).len() && live + deleted == entries.len()) ==> (
        stream_unpack::unpack_node((master.0, master.1, blob), false, u) matches Err(e) && e
            == UpstreamStreamError::InconsistentEntryCount),
{
    let found = listpack::values_of(blob)->Ok_0;
    let start = 4 + names.len() as int;
    let pieces = entries_pieces(entries);
    lemma_opening(blob, found, live, deleted, names, pieces);
    assert(entries.take(0) =~= Seq::empty());
    lemma_entries(blob, found, start, master, names, entries, 0, u);
    lemma_unpacked_with(u, master, names, entries);
    let v = unpacked_with(u, master, names, entries);
    let n = u.entries.len() as int;
    assert(v.entries.take(n) =~= u.entries);
    assert forall|i: int| 0 <= i < live_of(entries).len() implies is_read_entry(
        master,
        names,
        #[trigger] live_of(entries)[i],
        v.entries[n + i],
    ) by {
        let e = live_of(entries)[i];
        assert(v.entries[n + i] == view_of(master, names, e));
        lemma_half(master.0, e.ms);
        lemma_half(master.1, e.seq);
    }
}

/// The bytes of values.
pub open spec fn bytes_of(values: Seq<PackValue>) -> nat
    decreases values.len(),
{
    if values.len() == 0 {
        0
    } else {
        bytes_of(values.drop_last()) + pack_laws::value_text(values.last()).len()
    }
}

/// The bytes of the values of all entries, those of deleted ones too.
pub open spec fn all_bytes(entries: Seq<StoredEntry>) -> nat
    decreases entries.len(),
{
    if entries.len() == 0 {
        0
    } else {
        all_bytes(entries.drop_last()) + bytes_of(entries.last().values)
    }
}

/// The number of fields of entries.
pub open spec fn all_fields(entries: Seq<StoredEntry>) -> nat
    decreases entries.len(),
{
    if entries.len() == 0 {
        0
    } else {
        all_fields(entries.drop_last()) + entries.last().values.len()
    }
}

proof fn lemma_value_len(names: Seq<PackValue>, values: Seq<PackValue>)
    ensures
        stream_unpack::value_len(fields_of(names, values)) == bytes_of(values),
    decreases values.len(),
{
    if values.len() > 0 {
        lemma_value_len(names, values.drop_last());
        assert(fields_of(names, values).drop_last() =~= fields_of(names, values.drop_last()));
    }
}

proof fn lemma_tallies(
    u: Unpacked,
    master: (u64, u64),
    names: Seq<PackValue>,
    entries: Seq<StoredEntry>,
)
    ensures
        unpacked_with(u, master, names, entries).fields == u.fields + all_fields(live_of(entries)),
        unpacked_with(u, master, names, entries).value_bytes == u.value_bytes + all_bytes(entries),
    decreases entries.len(),
{
    if entries.len() > 0 {
        let e = entries.last();
        let front = entries.drop_last();
        lemma_tallies(u, master, names, front);
        lemma_value_len(
            match e.own_names {
                None => names,
                Some(own) => own,
            },
            e.values,
        );
        if !e.deleted {
            assert(live_of(entries).drop_last() =~= live_of(front));
        }
    }
}

/// The fields of the entries that are not deleted are counted, and the bytes of all values.
pub proof fn law_node_is_tallied(
    blob: Seq<u8>,
    master: (u64, u64),
    deleted: int,
    names: Seq<PackValue>,
    entries: Seq<StoredEntry>,
    u: Unpacked,
)
    requires
        deleted >= 0,
        live_of(entries).len() + deleted == entries.len(),
        listpack::values_of(blob) matches Ok(found) && stand(
            blob,
            found,
            0,
            node_pieces(live_of(entries).len() as int, deleted, names, entries),
        ) && found.len() == node_pieces(
            live_of(entries).len() as int,
            deleted,
            names,
            entries,
        ).len(),
        forall|i: int| 0 <= i < entries.len() ==> entry_right(names, #[trigger] entries[i]),
    ensures
        stream_unpack::unpack_node((master.0, master.1, blob), false, u) matches Ok(v) && v.fields
            == u.fields + all_fields(live_of(entries)) && v.value_bytes == u.value_bytes
            + all_bytes(entries),
{
    let live = live_of(entries).len() as int;
    let found = listpack::values_of(blob)->Ok_0;
    let start = 4 + names.len() as int;
    lemma_opening(blob, found, live, deleted, names, entries_pieces(entries));
    assert(entries.take(0) =~= Seq::empty());
    lemma_entries(blob, found, start, master, names, entries, 0, u);
    lemma_tallies(u, master, names, entries);
}

// ---------------------------------------------------------------------------
// Errors
// ---------------------------------------------------------------------------

/// A node that is no pack, that ends within its pieces, or that has a string or a negative number
/// where a count is due is refused, each with an error of its own.
pub proof fn law_node_errors(blob: Seq<u8>, master: (u64, u64), u: Unpacked, k: int)
    ensures
        ({
            let outcome = stream_unpack::unpack_node((master.0, master.1, blob), false, u);
            match listpack::values_of(blob) {
                Err(e) => outcome == Err::<Unpacked, UpstreamStreamError>(
                    UpstreamStreamError::InvalidListpack(e),
                ),
                Ok(found) => 0 <= k <= 2 && k <= found.len() && (forall|i: int|
                    0 <= i < k ==> (#[trigger] found[i] matches LpValue::Integer(n) && n >= 0)) ==> {
                    &&& found.len() == k ==> outcome == Err::<Unpacked, UpstreamStreamError>(
                        UpstreamStreamError::ShortListpackEntries,
                    )
                    &&& k < found.len() && found[k] is Text ==> outcome == Err::<
                        Unpacked,
                        UpstreamStreamError,
                    >(UpstreamStreamError::ExpectedListpackInteger)
                    &&& k < found.len() && (found[k] matches LpValue::Integer(n) && n < 0)
                        ==> outcome == Err::<Unpacked, UpstreamStreamError>(
                        UpstreamStreamError::InvalidFieldCount,
                    )
                },
            }
        }),
{
    if let Ok(found) = listpack::values_of(blob) {
        if 0 <= k <= 2 && k <= found.len() && (forall|i: int|
            0 <= i < k ==> (#[trigger] found[i] matches LpValue::Integer(n) && n >= 0)) {
            assert(k > 0 ==> found[0] is Integer);
            assert(k > 1 ==> found[1] is Integer);
        }
    }
}

/// An entry whose last piece is not the number of those in front of it is refused.
pub proof fn law_wrong_trailer_is_refused(
    blob: Seq<u8>,
    master: (u64, u64),
    live: int,
    deleted: int,
    names: Seq<PackValue>,
    e: StoredEntry,
    said: int,
    rest: Seq<PackValue>,
    u: Unpacked,
)
    requires
        live >= 0,
        deleted >= 0,
        entry_right(names, e),
        said != front_pieces(e).len(),
        listpack::values_of(blob) matches Ok(found) && stand(
            blob,
            found,
            0,
            (seq![
                PackValue::Integer(live),
                PackValue::Integer(deleted),
                PackValue::Integer(names.len() as int),
            ] + names).push(PackValue::Integer(0)) + (front_pieces(e).push(
                PackValue::Integer(said),
            ) + rest),
        ),
    ensures
        stream_unpack::unpack_node((master.0, master.1, blob), false, u) == Err::<
            Unpacked,
            UpstreamStreamError,
        >(UpstreamStreamError::InconsistentEntryTrailer),
{
    let found = listpack::values_of(blob)->Ok_0;
    let front = front_pieces(e);
    let start = 4 + names.len() as int;
    lemma_opening(
        blob,
        found,
        live,
        deleted,
        names,
        front.push(PackValue::Integer(said)) + rest,
    );
    lemma_stand(blob, found, start, front.push(PackValue::Integer(said)), rest);
    assert(front.push(PackValue::Integer(said)) =~= front + seq![PackValue::Integer(said)]);
    lemma_stand(blob, found, start, front, seq![PackValue::Integer(said)]);
    lemma_integer(blob, found, start + front.len(), said);
    lemma_front(blob, found, start, master, names, e);
}

// ---------------------------------------------------------------------------
// Streams
// ---------------------------------------------------------------------------

/// A stored stream is a value with what is stored of it and the entries of its nodes; it keeps
/// its type byte and its own bytes.
pub proof fn law_stored_stream_value(layout: int, s: StoredStream, data: Seq<u8>)
    requires
        1 <= layout <= 3,
        stream_layouts::stream_right(s),
        bytes::has_at(data, 0, stream_layouts::stream_bytes(layout, s)),
    ensures
        match stream_unpack::unpack_all(stream_layouts::read_nodes(s.nodes), false) {
            Err(e) => rdb_stream::stream_of(stream_layouts::type_of_layout(layout), data) == Err::<
                (ValueView, int),
                UpstreamStreamError,
            >(e),
            Ok(u) => rdb_stream::stream_of(stream_layouts::type_of_layout(layout), data) matches Ok(
                (ValueView::Stream(v), end),
            ) && end == stream_layouts::stream_bytes(layout, s).len() && v.entries == u.entries
                && v.watermark == Some(s.last) && v.entries_added == Some(
                if layout >= 2 {
                    s.added
                } else {
                    s.length
                },
            ) && v.max_deleted == (if layout >= 2 && s.deleted != (0u64, 0u64) {
                Some(s.deleted)
            } else {
                None
            }) && v.metadata == Some(
                (
                    stream_layouts::type_of_layout(layout),
                    stream_layouts::stream_bytes(layout, s),
                ),
            ) && v.groups.len() == s.groups.len() && forall|i: int|
                0 <= i < s.groups.len() ==> stream_layouts::is_read_group(
                    layout,
                    s.groups[i],
                    #[trigger] v.groups[i],
                ),
        },
{
    stream_layouts::law_stored_stream_is_read(layout, s, data);
}

/// The id is not behind the other.
pub open spec fn not_behind(a: (u64, u64), b: (u64, u64)) -> bool {
    a.0 < b.0 || (a.0 == b.0 && a.1 <= b.1)
}

proof fn lemma_greatest(ids: Seq<(u64, u64)>)
    ensures
        ids.len() == 0 <==> rdb_stream::greatest_id(ids) is None,
        rdb_stream::greatest_id(ids) matches Some(g) ==> ids.contains(g) && forall|i: int|
            0 <= i < ids.len() ==> not_behind(#[trigger] ids[i], g),
    decreases ids.len(),
{
    if ids.len() > 0 {
        let front = ids.drop_last();
        lemma_greatest(front);
        let g = rdb_stream::greatest_id(ids)->Some_0;
        if g == ids.last() {
            assert(ids[ids.len() - 1] == g);
        } else {
            let k = choose|k: int| 0 <= k < front.len() && front[k] == g;
            assert(ids[k] == g);
        }
        assert forall|i: int| 0 <= i < ids.len() implies not_behind(#[trigger] ids[i], g) by {
            if i < front.len() {
                assert(not_behind(front[i], rdb_stream::greatest_id(front)->Some_0));
            }
        }
    }
}

/// The check of a stream gives the greatest id of its entries, and none only where there are no
/// entries. Two entries with one id, or another number of entries than the stream declares, are
/// refused.
pub proof fn law_checked_id_is_greatest(s: SkeletonView, a: int, b: int)
    requires
        stream_unpack::unpack_all(s.nodes, true) is Ok,
        0 <= a < b < stream_unpack::unpack_all(s.nodes, true)->Ok_0.entries.len() || a == b,
    ensures
        ({
            let entries = stream_unpack::unpack_all(s.nodes, true)->Ok_0.entries;
            &&& entries.len() != s.length ==> rdb_stream::validated(s) is Err
            &&& a < b && entries[a].ms == entries[b].ms && entries[a].seq == entries[b].seq
                ==> rdb_stream::validated(s) is Err
            &&& rdb_stream::validated(s) matches Ok(None) ==> entries.len() == 0
            &&& rdb_stream::validated(s) matches Ok(Some(g)) ==> (exists|i: int|
                0 <= i < entries.len() && (#[trigger] entries[i]).ms == g.0 && entries[i].seq == g.1)
                && forall|i: int|
                0 <= i < entries.len() ==> not_behind(
                    ((#[trigger] entries[i]).ms, entries[i].seq),
                    g,
                )
        }),
{
    let entries = stream_unpack::unpack_all(s.nodes, true)->Ok_0.entries;
    let ids = stream_unpack::entry_ids(entries);
    lemma_greatest(ids);
    if a < b && entries[a].ms == entries[b].ms && entries[a].seq == entries[b].seq {
        assert(ids[a] == ids[b]);
    }
    if let Ok(Some(g)) = rdb_stream::validated(s) {
        let k = choose|k: int| 0 <= k < ids.len() && ids[k] == g;
        assert(entries[k].ms == g.0 && entries[k].seq == g.1);
        assert forall|i: int| 0 <= i < entries.len() implies not_behind(
            ((#[trigger] entries[i]).ms, entries[i].seq),
            g,
        ) by {
            assert(not_behind(ids[i], g));
        }
    }
}

} // verus!
