//! What a snapshot is read back as.

use vstd::prelude::*;

use crate::bytes;
use crate::crc64;
use crate::order;
use crate::rdb_compact::CompactRdbThresholds;
use crate::rdb_load;
use crate::rdb_load::{LoadStep, Loading};
use crate::rdb_save;
use crate::rdb_save::{
    RDB_OPCODE_AUX, RDB_OPCODE_EOF, RDB_OPCODE_EXPIRETIME_MS, RDB_OPCODE_FUNCTION2,
    RDB_OPCODE_RESIZEDB, RDB_OPCODE_SELECTDB,
};
use crate::rdb_types::{FieldView, RdbEntryView};
use crate::rdb_values;
use crate::rdb_wire;
use crate::records;
use crate::text;
use crate::value_laws;

verus! {

/// An entry can be read back.
pub open spec fn entry_lasting(e: RdbEntryView, compact: Option<CompactRdbThresholds>) -> bool {
    &&& e.db <= usize::MAX
    &&& rdb_wire::storable(e.key)
    &&& value_laws::value_lasting(e.value, compact)
}

/// What an entry is read back as.
pub open spec fn loaded_entry(e: RdbEntryView, compact: Option<CompactRdbThresholds>) -> RdbEntryView {
    RdbEntryView { value: value_laws::loaded_value(e.value, compact), ..e }
}

/// What entries are read back as.
pub open spec fn loaded_entries(
    entries: Seq<RdbEntryView>,
    compact: Option<CompactRdbThresholds>,
) -> Seq<RdbEntryView> {
    entries.map_values(|e: RdbEntryView| loaded_entry(e, compact))
}

/// Names with their values, the last value of each name.
pub open spec fn with_aux(
    known: Map<Seq<char>, Seq<char>>,
    aux: Seq<FieldView>,
) -> Map<Seq<char>, Seq<char>>
    decreases aux.len(),
{
    if aux.len() == 0 {
        known
    } else {
        with_aux(known, aux.drop_last()).insert(
            text::text_of(aux.last().0),
            text::text_of(aux.last().1),
        )
    }
}

/// A snapshot of these parts can be read back.
pub open spec fn snapshot_lasting(
    entries: Seq<RdbEntryView>,
    aux: Seq<FieldView>,
    functions: Seq<Seq<u8>>,
    compact: Option<CompactRdbThresholds>,
) -> bool {
    &&& entries.len() <= u64::MAX
    &&& forall|i: int| 0 <= i < entries.len() ==> entry_lasting(#[trigger] entries[i], compact)
    &&& forall|i: int|
        0 <= i < aux.len() ==> rdb_wire::storable((#[trigger] aux[i]).0) && rdb_wire::storable(
            aux[i].1,
        )
    &&& forall|i: int| 0 <= i < functions.len() ==> rdb_wire::storable(#[trigger] functions[i])
}

/// Reading on from one state is reading on from another.
#[verifier::opaque]
pub open spec fn leads(version: nat, data: Seq<u8>, pos: int, st: Loading, end: int, next: Loading) -> bool {
    rdb_load::load_from(version, data, pos, st) == rdb_load::load_from(version, data, end, next)
}

pub proof fn lemma_more(version: nat, data: Seq<u8>, pos: int, st: Loading, next: Loading, end: int)
    requires
        rdb_load::load_step(version, data, pos, st) == LoadStep::More(next, end),
        pos < end <= data.len(),
    ensures
        leads(version, data, pos, st, end, next),
{
    reveal(leads);
}

pub proof fn lemma_leads_on(
    version: nat,
    data: Seq<u8>,
    pos: int,
    st: Loading,
    mid: int,
    more: Loading,
    end: int,
    next: Loading,
)
    requires
        leads(version, data, pos, st, mid, more),
        leads(version, data, mid, more, end, next),
    ensures
        leads(version, data, pos, st, end, next),
{
    reveal(leads);
}

pub proof fn lemma_leads_here(version: nat, data: Seq<u8>, pos: int, st: Loading)
    ensures
        leads(version, data, pos, st, pos, st),
{
    reveal(leads);
}

pub proof fn lemma_aux_load_step(version: nat, data: Seq<u8>, pos: int, st: Loading)
    requires
        st.expire_ms is None,
        0 <= pos < data.len(),
        data[pos] == RDB_OPCODE_AUX,
    ensures
        records::pair_at(data, pos + 1) matches Some((a, end)) ==> rdb_load::load_step(
            version,
            data,
            pos,
            st,
        ) == LoadStep::More(
            Loading { aux: st.aux.insert(text::text_of(a.0), text::text_of(a.1)), ..st },
            end,
        ),
{
    reveal(rdb_load::load_step);
}

pub proof fn lemma_function_load_step(version: nat, data: Seq<u8>, pos: int, st: Loading)
    requires
        st.expire_ms is None,
        0 <= pos < data.len(),
        data[pos] == RDB_OPCODE_FUNCTION2,
    ensures
        rdb_wire::string_at(data, pos + 1) matches Some((code, end)) ==> rdb_load::load_step(
            version,
            data,
            pos,
            st,
        ) == LoadStep::More(Loading { functions: st.functions.push(code), ..st }, end),
{
    reveal(rdb_load::load_step);
}

proof fn lemma_aux_step(version: nat, data: Seq<u8>, pos: int, st: Loading, a: FieldView)
    requires
        st.expire_ms is None,
        rdb_wire::storable(a.0),
        rdb_wire::storable(a.1),
        bytes::has_at(data, pos, rdb_save::aux_encoder()(a)),
    ensures
        leads(
            version,
            data,
            pos,
            st,
            pos + rdb_save::aux_encoder()(a).len(),
            Loading { aux: st.aux.insert(text::text_of(a.0), text::text_of(a.1)), ..st },
        ),
{
    let head = seq![RDB_OPCODE_AUX];
    let part = records::pair_bytes(a);
    bytes::lemma_has_at_concat(data, pos, head, part);
    assert(data[pos + 0] == head[0]);
    <(Vec<u8>, Vec<u8>) as records::Record>::reads(a, data, pos + 1);
    lemma_aux_load_step(version, data, pos, st);
    let next = Loading { aux: st.aux.insert(text::text_of(a.0), text::text_of(a.1)), ..st };
    lemma_more(version, data, pos, st, next, pos + 1 + part.len());
}

proof fn lemma_aux_steps(version: nat, data: Seq<u8>, pos: int, st: Loading, aux: Seq<FieldView>)
    requires
        st.expire_ms is None,
        forall|i: int|
            0 <= i < aux.len() ==> rdb_wire::storable((#[trigger] aux[i]).0)
                && rdb_wire::storable(aux[i].1),
        bytes::has_at(data, pos, bytes::concat_all(rdb_save::aux_encoder(), aux)),
    ensures
        leads(
            version,
            data,
            pos,
            st,
            pos + bytes::concat_all(rdb_save::aux_encoder(), aux).len(),
            Loading { aux: with_aux(st.aux, aux), ..st },
        ),
    decreases aux.len(),
{
    if aux.len() > 0 {
        let encode = rdb_save::aux_encoder();
        let front = bytes::concat_all(encode, aux.drop_last());
        bytes::lemma_has_at_concat(data, pos, front, encode(aux.last()));
        lemma_aux_steps(version, data, pos, st, aux.drop_last());
        let mid = Loading { aux: with_aux(st.aux, aux.drop_last()), ..st };
        lemma_aux_step(version, data, pos + front.len(), mid, aux.last());
        lemma_leads_on(
            version,
            data,
            pos,
            st,
            pos + front.len(),
            mid,
            pos + bytes::concat_all(encode, aux).len(),
            Loading { aux: with_aux(st.aux, aux), ..st },
        );
    } else {
        lemma_leads_here(version, data, pos, st);
    }
}

proof fn lemma_function_step(version: nat, data: Seq<u8>, pos: int, st: Loading, code: Seq<u8>)
    requires
        st.expire_ms is None,
        rdb_wire::storable(code),
        bytes::has_at(data, pos, rdb_save::function_encoder()(code)),
    ensures
        leads(
            version,
            data,
            pos,
            st,
            pos + rdb_save::function_encoder()(code).len(),
            Loading { functions: st.functions.push(code), ..st },
        ),
{
    let head = seq![RDB_OPCODE_FUNCTION2];
    let part = rdb_wire::string_bytes(code);
    bytes::lemma_has_at_concat(data, pos, head, part);
    assert(data[pos + 0] == head[0]);
    rdb_wire::law_string_round_trip(data, pos + 1, code);
    lemma_function_load_step(version, data, pos, st);
    let next = Loading { functions: st.functions.push(code), ..st };
    lemma_more(version, data, pos, st, next, pos + 1 + part.len());
}

proof fn lemma_function_steps(
    version: nat,
    data: Seq<u8>,
    pos: int,
    st: Loading,
    functions: Seq<Seq<u8>>,
)
    requires
        st.expire_ms is None,
        forall|i: int| 0 <= i < functions.len() ==> rdb_wire::storable(#[trigger] functions[i]),
        bytes::has_at(data, pos, bytes::concat_all(rdb_save::function_encoder(), functions)),
    ensures
        leads(
            version,
            data,
            pos,
            st,
            pos + bytes::concat_all(rdb_save::function_encoder(), functions).len(),
            Loading { functions: st.functions + functions, ..st },
        ),
    decreases functions.len(),
{
    if functions.len() > 0 {
        let encode = rdb_save::function_encoder();
        let front = bytes::concat_all(encode, functions.drop_last());
        bytes::lemma_has_at_concat(data, pos, front, encode(functions.last()));
        lemma_function_steps(version, data, pos, st, functions.drop_last());
        let mid = Loading { functions: st.functions + functions.drop_last(), ..st };
        lemma_function_step(version, data, pos + front.len(), mid, functions.last());
        assert((st.functions + functions.drop_last()).push(functions.last()) =~= st.functions
            + functions);
        lemma_leads_on(
            version,
            data,
            pos,
            st,
            pos + front.len(),
            mid,
            pos + bytes::concat_all(encode, functions).len(),
            Loading { functions: st.functions + functions, ..st },
        );
    } else {
        assert(st.functions + functions =~= st.functions);
        lemma_leads_here(version, data, pos, st);
    }
}

proof fn lemma_expiry_step(
    version: nat,
    data: Seq<u8>,
    pos: int,
    st: Loading,
    expire_ms: Option<u64>,
)
    requires
        st.expire_ms is None,
        bytes::has_at(data, pos, rdb_save::expiry_bytes(expire_ms)),
    ensures
        leads(
            version,
            data,
            pos,
            st,
            pos + rdb_save::expiry_bytes(expire_ms).len(),
            Loading { expire_ms, ..st },
        ),
{
    if let Some(ms) = expire_ms {
        let head = seq![RDB_OPCODE_EXPIRETIME_MS];
        let part = records::number_bytes(ms);
        bytes::lemma_has_at_concat(data, pos, head, part);
        assert(data[pos + 0] == head[0]);
        records::lemma_number_reads(ms, data, pos + 1);
        reveal(rdb_load::load_step);
        lemma_more(version, data, pos, st, Loading { expire_ms, ..st }, pos + 9);
    } else {
        assert(Loading { expire_ms, ..st } == st);
        lemma_leads_here(version, data, pos, st);
    }
}

proof fn lemma_value_step(
    version: nat,
    data: Seq<u8>,
    pos: int,
    st: Loading,
    e: RdbEntryView,
    compact: Option<CompactRdbThresholds>,
)
    requires
        st.expire_ms == e.expire_ms,
        st.db == e.db,
        entry_lasting(e, compact),
        bytes::has_at(
            data,
            pos,
            rdb_save::tagged(e.key, rdb_save::value_stored(e.value, compact)),
        ),
    ensures
        leads(
            version,
            data,
            pos,
            st,
            pos + rdb_save::tagged(e.key, rdb_save::value_stored(e.value, compact)).len(),
            Loading {
                entries: st.entries.push(loaded_entry(e, compact)),
                expire_ms: None,
                ..st
            },
        ),
{
    let stored = rdb_save::value_stored(e.value, compact);
    let head = seq![stored.0];
    let key = rdb_wire::string_bytes(e.key);
    bytes::lemma_has_at_concat(data, pos, head + key, stored.1);
    bytes::lemma_has_at_concat(data, pos, head, key);
    assert(data[pos + 0] == head[0]);
    rdb_wire::law_string_round_trip(data, pos + 1, e.key);
    value_laws::law_value_round_trip(e.value, compact, data, pos + 1 + key.len());
    lemma_entry_load_step(version, data, pos, st, e, compact);
    let next = Loading {
        entries: st.entries.push(loaded_entry(e, compact)),
        expire_ms: None,
        ..st
    };
    lemma_more(version, data, pos, st, next, pos + 1 + key.len() + stored.1.len());
}

proof fn lemma_entry_load_step(
    version: nat,
    data: Seq<u8>,
    pos: int,
    st: Loading,
    e: RdbEntryView,
    compact: Option<CompactRdbThresholds>,
)
    requires
        st.expire_ms == e.expire_ms,
        st.db == e.db,
        0 <= pos < data.len(),
        data[pos] == rdb_save::value_stored(e.value, compact).0,
        rdb_values::is_type_byte(data[pos]),
        rdb_wire::string_at(data, pos + 1) matches Some((key, mid)) && (key == e.key && (
        rdb_values::value_at(data[pos], data, mid) matches Some((v, end)) && v
            == value_laws::loaded_value(e.value, compact))),
    ensures
        ({
            let mid = rdb_wire::string_at(data, pos + 1)->Some_0.1;
            let end = rdb_values::value_at(data[pos], data, mid)->Some_0.1;
            rdb_load::load_step(version, data, pos, st) == LoadStep::More(
                Loading {
                    entries: st.entries.push(loaded_entry(e, compact)),
                    expire_ms: None,
                    ..st
                },
                end,
            )
        }),
{
    reveal(rdb_load::load_step);
}

proof fn lemma_entry_step(
    version: nat,
    data: Seq<u8>,
    pos: int,
    st: Loading,
    e: RdbEntryView,
    compact: Option<CompactRdbThresholds>,
)
    requires
        st.expire_ms is None,
        st.db == e.db,
        entry_lasting(e, compact),
        bytes::has_at(data, pos, rdb_save::entry_encoder(compact)(e)),
    ensures
        leads(
            version,
            data,
            pos,
            st,
            pos + rdb_save::entry_encoder(compact)(e).len(),
            Loading { entries: st.entries.push(loaded_entry(e, compact)), ..st },
        ),
{
    let a = rdb_save::expiry_bytes(e.expire_ms);
    let b = rdb_save::tagged(e.key, rdb_save::value_stored(e.value, compact));
    bytes::lemma_has_at_concat(data, pos, a, b);
    lemma_expiry_step(version, data, pos, st, e.expire_ms);
    let timed = Loading { expire_ms: e.expire_ms, ..st };
    lemma_value_step(version, data, pos + a.len(), timed, e, compact);
    lemma_leads_on(
        version,
        data,
        pos,
        st,
        pos + a.len(),
        timed,
        pos + (a + b).len(),
        Loading { entries: st.entries.push(loaded_entry(e, compact)), ..st },
    );
}

proof fn lemma_entry_steps(
    version: nat,
    data: Seq<u8>,
    pos: int,
    st: Loading,
    entries: Seq<RdbEntryView>,
    compact: Option<CompactRdbThresholds>,
)
    requires
        st.expire_ms is None,
        forall|i: int|
            0 <= i < entries.len() ==> (#[trigger] entries[i]).db == st.db && entry_lasting(
                entries[i],
                compact,
            ),
        bytes::has_at(data, pos, bytes::concat_all(rdb_save::entry_encoder(compact), entries)),
    ensures
        leads(
            version,
            data,
            pos,
            st,
            pos + bytes::concat_all(rdb_save::entry_encoder(compact), entries).len(),
            Loading { entries: st.entries + loaded_entries(entries, compact), ..st },
        ),
    decreases entries.len(),
{
    if entries.len() > 0 {
        let encode = rdb_save::entry_encoder(compact);
        let before = entries.drop_last();
        let front = bytes::concat_all(encode, before);
        bytes::lemma_has_at_concat(data, pos, front, encode(entries.last()));
        assert forall|i: int| 0 <= i < before.len() implies (#[trigger] before[i]).db == st.db
            && entry_lasting(before[i], compact) by {
            assert(before[i] == entries[i]);
        }
        lemma_entry_steps(version, data, pos, st, before, compact);
        let mid = Loading { entries: st.entries + loaded_entries(before, compact), ..st };
        lemma_entry_step(version, data, pos + front.len(), mid, entries.last(), compact);
        assert(mid.entries.push(loaded_entry(entries.last(), compact)) =~= st.entries
            + loaded_entries(entries, compact));
        lemma_leads_on(
            version,
            data,
            pos,
            st,
            pos + front.len(),
            mid,
            pos + bytes::concat_all(encode, entries).len(),
            Loading { entries: st.entries + loaded_entries(entries, compact), ..st },
        );
    } else {
        assert(st.entries + loaded_entries(entries, compact) =~= st.entries);
        lemma_leads_here(version, data, pos, st);
    }
}

pub proof fn lemma_expiring(entries: Seq<RdbEntryView>)
    ensures
        rdb_save::expiring(entries) <= entries.len(),
    decreases entries.len(),
{
    if entries.len() > 0 {
        lemma_expiring(entries.drop_last());
    }
}

proof fn lemma_db_head_step(
    version: nat,
    data: Seq<u8>,
    pos: int,
    st: Loading,
    entries: Seq<RdbEntryView>,
)
    requires
        st.expire_ms is None,
        0 < entries.len() <= u64::MAX,
        entries[0].db <= usize::MAX,
        bytes::has_at(data, pos, rdb_save::db_head_bytes(entries)),
    ensures
        leads(
            version,
            data,
            pos,
            st,
            pos + rdb_save::db_head_bytes(entries).len(),
            Loading { db: entries[0].db, ..st },
        ),
{
    let a = seq![RDB_OPCODE_SELECTDB];
    let b = rdb_wire::length_bytes(entries[0].db);
    let c = seq![RDB_OPCODE_RESIZEDB];
    let d = rdb_wire::length_bytes(entries.len());
    let e = rdb_wire::length_bytes(rdb_save::expiring(entries));
    lemma_expiring(entries);
    bytes::lemma_has_at_concat(data, pos, a + b + c + d, e);
    bytes::lemma_has_at_concat(data, pos, a + b + c, d);
    bytes::lemma_has_at_concat(data, pos, a + b, c);
    bytes::lemma_has_at_concat(data, pos, a, b);
    assert(data[pos + 0] == a[0]);
    let second = pos + 1 + b.len();
    assert(data[second + 0] == c[0]);
    rdb_wire::law_length_round_trip(data, pos + 1, entries[0].db);
    rdb_wire::law_length_round_trip(data, second + 1, entries.len());
    rdb_wire::law_length_round_trip(data, second + 1 + d.len(), rdb_save::expiring(entries));
    let mid = Loading { db: entries[0].db, ..st };
    assert(rdb_load::load_step(version, data, pos, st) == LoadStep::More(mid, second)) by {
        reveal(rdb_load::load_step);
    }
    let end = second + 1 + d.len() + e.len();
    assert(rdb_load::load_step(version, data, second, mid) == LoadStep::More(mid, end)) by {
        reveal(rdb_load::load_step);
    }
    rdb_wire::lemma_length_len(entries[0].db);
    lemma_more(version, data, pos, st, mid, second);
    lemma_more(version, data, second, mid, mid, end);
    lemma_leads_on(version, data, pos, st, second, mid, end, mid);
}

/// The database that entries from `i` on leave the reader in.
pub open spec fn last_db(entries: Seq<RdbEntryView>, i: int, db: nat) -> nat {
    if i < entries.len() {
        entries.last().db
    } else {
        db
    }
}

proof fn lemma_keyspace_steps(
    version: nat,
    data: Seq<u8>,
    pos: int,
    st: Loading,
    entries: Seq<RdbEntryView>,
    i: int,
    compact: Option<CompactRdbThresholds>,
)
    requires
        st.expire_ms is None,
        0 <= i <= entries.len() <= u64::MAX,
        forall|k: int| 0 <= k < entries.len() ==> entry_lasting(#[trigger] entries[k], compact),
        bytes::has_at(data, pos, rdb_save::keyspace_from(entries, i, compact)),
    ensures
        leads(
            version,
            data,
            pos,
            st,
            pos + rdb_save::keyspace_from(entries, i, compact).len(),
            Loading {
                entries: st.entries + loaded_entries(entries.skip(i), compact),
                db: last_db(entries, i, st.db),
                ..st
            },
        ),
    decreases entries.len() - i,
{
    if i < entries.len() {
        let db = entries[i].db;
        let j = rdb_save::db_end(entries, i, db);
        rdb_save::lemma_db_end(entries, i, db);
        let run = entries.subrange(i, j);
        let rest = rdb_save::keyspace_from(entries, j, compact);
        let head = rdb_save::db_head_bytes(run);
        let body = bytes::concat_all(rdb_save::entry_encoder(compact), run);
        bytes::lemma_has_at_concat(data, pos, head + body, rest);
        bytes::lemma_has_at_concat(data, pos, head, body);
        assert forall|k: int| 0 <= k < run.len() implies (#[trigger] run[k]).db == db
            && entry_lasting(run[k], compact) by {
            assert(run[k] == entries[i + k]);
        }
        lemma_db_head_step(version, data, pos, st, run);
        let opened = Loading { db, ..st };
        lemma_entry_steps(version, data, pos + head.len(), opened, run, compact);
        let filled = Loading { entries: st.entries + loaded_entries(run, compact), ..opened };
        lemma_keyspace_steps(
            version,
            data,
            pos + (head + body).len(),
            filled,
            entries,
            j,
            compact,
        );
        assert(filled.entries + loaded_entries(entries.skip(j), compact) =~= st.entries
            + loaded_entries(entries.skip(i), compact)) by {
            let left = loaded_entries(run, compact);
            let right = loaded_entries(entries.skip(j), compact);
            assert(left + right =~= loaded_entries(entries.skip(i), compact));
        }
        if j == entries.len() {
            assert(entries.last() == entries[j - 1]);
        }
        let done = Loading {
            entries: st.entries + loaded_entries(entries.skip(i), compact),
            db: last_db(entries, i, st.db),
            ..st
        };
        let behind = pos + (head + body).len();
        let end = pos + rdb_save::keyspace_from(entries, i, compact).len();
        lemma_leads_on(version, data, pos, st, pos + head.len(), opened, behind, filled);
        lemma_leads_on(version, data, pos, st, behind, filled, end, done);
    } else {
        assert(st.entries + loaded_entries(entries.skip(i), compact) =~= st.entries);
        lemma_leads_here(version, data, pos, st);
    }
}

/// What is read of a snapshot up to its end.
pub open spec fn loaded_snapshot(
    entries: Seq<RdbEntryView>,
    aux: Seq<FieldView>,
    functions: Seq<Seq<u8>>,
    compact: Option<CompactRdbThresholds>,
) -> Loading {
    Loading {
        entries: loaded_entries(entries, compact),
        aux: with_aux(Map::empty(), aux),
        functions,
        expire_ms: None,
        db: last_db(entries, 0, 0),
    }
}

/// Where the parts of a snapshot stand.
pub proof fn lemma_body_layout(
    data: Seq<u8>,
    entries: Seq<RdbEntryView>,
    aux: Seq<FieldView>,
    functions: Seq<Seq<u8>>,
    compact: Option<CompactRdbThresholds>,
)
    requires
        bytes::has_at(data, 0, rdb_save::unchecked_bytes(entries, aux, functions, compact)),
    ensures
        ({
            let a = bytes::concat_all(rdb_save::aux_encoder(), aux);
            let f = bytes::concat_all(rdb_save::function_encoder(), functions);
            let k = rdb_save::keyspace_from(entries, 0, compact);
            let n = rdb_save::unchecked_bytes(entries, aux, functions, compact).len() as int;
            &&& bytes::has_at(data, 0, rdb_save::header_bytes())
            &&& bytes::has_at(data, 9, a)
            &&& bytes::has_at(data, 9 + a.len() as int, f)
            &&& bytes::has_at(data, 9 + a.len() as int + f.len(), k)
            &&& n == 9 + a.len() + f.len() + k.len() + 1
            &&& data[n - 1] == RDB_OPCODE_EOF
        }),
{
    let head = rdb_save::header_bytes();
    let a = bytes::concat_all(rdb_save::aux_encoder(), aux);
    let f = bytes::concat_all(rdb_save::function_encoder(), functions);
    let k = rdb_save::keyspace_from(entries, 0, compact);
    let end = seq![RDB_OPCODE_EOF];
    bytes::lemma_has_at_concat(data, 0, head + a + f + k, end);
    bytes::lemma_has_at_concat(data, 0, head + a + f, k);
    bytes::lemma_has_at_concat(data, 0, head + a, f);
    bytes::lemma_has_at_concat(data, 0, head, a);
    assert(data[0 + (head + a + f + k).len() as int + 0] == end[0]);
}

/// Reading a snapshot leads to its end.
proof fn lemma_body_steps(
    data: Seq<u8>,
    entries: Seq<RdbEntryView>,
    aux: Seq<FieldView>,
    functions: Seq<Seq<u8>>,
    compact: Option<CompactRdbThresholds>,
)
    requires
        snapshot_lasting(entries, aux, functions, compact),
        bytes::has_at(data, 0, rdb_save::unchecked_bytes(entries, aux, functions, compact)),
    ensures
        leads(
            11,
            data,
            9,
            rdb_load::nothing_loaded(),
            rdb_save::unchecked_bytes(entries, aux, functions, compact).len() - 1,
            loaded_snapshot(entries, aux, functions, compact),
        ),
{
    lemma_body_layout(data, entries, aux, functions, compact);
    let p1 = 9 + bytes::concat_all(rdb_save::aux_encoder(), aux).len() as int;
    let p2 = p1 + bytes::concat_all(rdb_save::function_encoder(), functions).len();
    let p3 = p2 + rdb_save::keyspace_from(entries, 0, compact).len();
    let st = rdb_load::nothing_loaded();
    let st1 = Loading { aux: with_aux(st.aux, aux), ..st };
    let st2 = Loading { functions: st1.functions + functions, ..st1 };
    let st3 = Loading {
        entries: st2.entries + loaded_entries(entries.skip(0), compact),
        db: last_db(entries, 0, st2.db),
        ..st2
    };
    assert(st3 == loaded_snapshot(entries, aux, functions, compact)) by {
        assert(st1.functions + functions =~= functions);
        assert(entries.skip(0) =~= entries);
        assert(st2.entries + loaded_entries(entries, compact) =~= loaded_entries(entries, compact));
    }
    assert(leads(11, data, 9, st, p1, st1)) by {
        lemma_aux_steps(11, data, 9, st, aux);
    }
    assert(leads(11, data, p1, st1, p2, st2)) by {
        lemma_function_steps(11, data, p1, st1, functions);
    }
    assert(leads(11, data, p2, st2, p3, st3)) by {
        lemma_keyspace_steps(11, data, p2, st2, entries, 0, compact);
    }
    lemma_leads_on(11, data, 9, st, p1, st1, p2, st2);
    lemma_leads_on(11, data, 9, st, p2, st2, p3, st3);
}

pub proof fn lemma_header(data: Seq<u8>)
    requires
        data.len() >= 17,
        bytes::has_at(data, 0, rdb_save::header_bytes()),
    ensures
        rdb_load::known_version(data) == Some(11nat),
{
    let head = rdb_save::header_bytes();
    assert forall|i: int| 0 <= i < 9 implies #[trigger] data[i] == head[i] by {
        assert(data[0 + i] == head[i]);
    }
    assert(data.take(5) =~= seq![82u8, 69u8, 68u8, 73u8, 83u8]);
    assert(data[5] == 48 && data[6] == 48 && data[7] == 49 && data[8] == 49);
}

/// A snapshot of entries as they stand is read back, whatever follows it.
pub proof fn law_ordered_snapshot_round_trip(
    data: Seq<u8>,
    entries: Seq<RdbEntryView>,
    aux: Seq<FieldView>,
    functions: Seq<Seq<u8>>,
    compact: Option<CompactRdbThresholds>,
)
    requires
        snapshot_lasting(entries, aux, functions, compact),
        bytes::has_at(
            data,
            0,
            rdb_save::ordered_snapshot_bytes(entries, aux, functions, compact),
        ),
    ensures
        rdb_load::snapshot_prefix(data) == Some(
            (
                loaded_snapshot(entries, aux, functions, compact),
                rdb_save::ordered_snapshot_bytes(entries, aux, functions, compact).len() as int,
            ),
        ),
{
    let body = rdb_save::unchecked_bytes(entries, aux, functions, compact);
    let sum = crc64::crc64(body);
    let n = body.len() as int;
    bytes::lemma_has_at_concat(data, 0, body, records::number_bytes(sum));
    records::lemma_number_reads(sum, data, n);
    lemma_body_steps(data, entries, aux, functions, compact);
    lemma_body_layout(data, entries, aux, functions, compact);
    lemma_header(data);
    bytes::lemma_has_at_subrange(data, 0, body);
    assert(data.take(n) =~= data.subrange(0, n));
    let st = loaded_snapshot(entries, aux, functions, compact);
    assert(rdb_load::load_step(11, data, n - 1, st) == LoadStep::Done(n + 8)) by {
        reveal(rdb_load::load_step);
    }
    reveal(leads);
}

/// A snapshot is read back, its entries in the order of databases and keys, whatever
/// follows it.
pub proof fn law_snapshot_round_trip(
    data: Seq<u8>,
    entries: Seq<RdbEntryView>,
    aux: Seq<FieldView>,
    functions: Seq<Seq<u8>>,
    compact: Option<CompactRdbThresholds>,
)
    requires
        snapshot_lasting(entries, aux, functions, compact),
        bytes::has_at(data, 0, rdb_save::snapshot_bytes(entries, aux, functions, compact)),
    ensures
        rdb_load::snapshot_prefix(data) matches Some((st, end)) && end
            == rdb_save::snapshot_bytes(entries, aux, functions, compact).len() && st.entries
            == loaded_entries(order::sorted_by(entries, rdb_save::entry_key()), compact) && st.aux
            == with_aux(Map::empty(), aux) && st.functions == functions,
{
    let sorted = order::sorted_by(entries, rdb_save::entry_key());
    order::lemma_sorted_by_len(entries, rdb_save::entry_key());
    assert forall|i: int| 0 <= i < sorted.len() implies entry_lasting(
        #[trigger] sorted[i],
        compact,
    ) by {
        assert(entries.contains(sorted[i]));
    }
    law_ordered_snapshot_round_trip(data, sorted, aux, functions, compact);
}

/// A snapshot whose checksum is neither zero nor right is rejected.
pub proof fn law_wrong_checksum_is_rejected(
    data: Seq<u8>,
    entries: Seq<RdbEntryView>,
    aux: Seq<FieldView>,
    functions: Seq<Seq<u8>>,
    compact: Option<CompactRdbThresholds>,
    sum: u64,
)
    requires
        snapshot_lasting(entries, aux, functions, compact),
        ({
            let body = rdb_save::unchecked_bytes(entries, aux, functions, compact);
            sum != 0 && sum != crc64::crc64(body) && data == body + records::number_bytes(sum)
        }),
    ensures
        rdb_load::snapshot_prefix(data) is None,
{
    let body = rdb_save::unchecked_bytes(entries, aux, functions, compact);
    let n = body.len() as int;
    bytes::lemma_has_at_whole(data);
    bytes::lemma_has_at_concat(data, 0, body, records::number_bytes(sum));
    records::lemma_number_reads(sum, data, n);
    lemma_body_steps(data, entries, aux, functions, compact);
    lemma_body_layout(data, entries, aux, functions, compact);
    lemma_header(data);
    assert(data.take(n) =~= body);
    let st = loaded_snapshot(entries, aux, functions, compact);
    assert(rdb_load::load_step(11, data, n - 1, st) is Fail) by {
        reveal(rdb_load::load_step);
    }
    reveal(leads);
}

/// A snapshot that is cut off before its checksum is rejected.
pub proof fn law_cut_snapshot_is_rejected(
    entries: Seq<RdbEntryView>,
    aux: Seq<FieldView>,
    functions: Seq<Seq<u8>>,
    compact: Option<CompactRdbThresholds>,
    tail: Seq<u8>,
)
    requires
        snapshot_lasting(entries, aux, functions, compact),
        tail.len() < 8,
    ensures
        rdb_load::snapshot_prefix(
            rdb_save::unchecked_bytes(entries, aux, functions, compact) + tail,
        ) is None,
{
    let body = rdb_save::unchecked_bytes(entries, aux, functions, compact);
    let data = body + tail;
    let n = body.len() as int;
    bytes::lemma_has_at_whole(data);
    bytes::lemma_has_at_concat(data, 0, body, tail);
    lemma_body_steps(data, entries, aux, functions, compact);
    lemma_body_layout(data, entries, aux, functions, compact);
    if data.len() >= 17 {
        lemma_header(data);
    }
    let st = loaded_snapshot(entries, aux, functions, compact);
    assert(rdb_load::load_step(11, data, n - 1, st) is Fail) by {
        reveal(rdb_load::load_step);
    }
    reveal(leads);
}

/// The last eight bytes of a snapshot are the checksum of all bytes in front of them.
pub proof fn law_snapshot_ends_with_checksum(
    entries: Seq<RdbEntryView>,
    aux: Seq<FieldView>,
    functions: Seq<Seq<u8>>,
    compact: Option<CompactRdbThresholds>,
)
    ensures
        ({
            let data = rdb_save::snapshot_bytes(entries, aux, functions, compact);
            let n = data.len() - 8;
            n >= 0 && data.skip(n) == records::number_bytes(crc64::crc64(data.take(n)))
        }),
{
    let sorted = order::sorted_by(entries, rdb_save::entry_key());
    let body = rdb_save::unchecked_bytes(sorted, aux, functions, compact);
    let sum = records::number_bytes(crc64::crc64(body));
    bytes::lemma_has_at_whole(sum);
    records::lemma_number_reads(crc64::crc64(body), sum, 0);
    let data = body + sum;
    assert(data.take(body.len() as int) =~= body);
    assert(data.skip(body.len() as int) =~= sum);
}

/// A snapshot starts with its signature and version, and has the end mark in front of its
/// checksum. It has at least the bytes that a snapshot of nothing has.
pub proof fn law_snapshot_frame(
    entries: Seq<RdbEntryView>,
    aux: Seq<FieldView>,
    functions: Seq<Seq<u8>>,
    compact: Option<CompactRdbThresholds>,
)
    ensures
        ({
            let data = rdb_save::snapshot_bytes(entries, aux, functions, compact);
            let n = data.len() as int;
            &&& n >= 18
            &&& data.take(9) == seq![82u8, 69u8, 68u8, 73u8, 83u8, 48u8, 48u8, 49u8, 49u8]
            &&& data[n - 9] == 0xFF
            &&& data.skip(n - 8) == records::number_bytes(crc64::crc64(data.take(n - 8)))
            &&& entries.len() == 0 && aux.len() == 0 && functions.len() == 0 ==> n == 18
        }),
{
    let sorted = order::sorted_by(entries, rdb_save::entry_key());
    let body = rdb_save::unchecked_bytes(sorted, aux, functions, compact);
    let data = rdb_save::snapshot_bytes(entries, aux, functions, compact);
    let sum = records::number_bytes(crc64::crc64(body));
    law_snapshot_ends_with_checksum(entries, aux, functions, compact);
    order::lemma_sorted_by_len(entries, rdb_save::entry_key());
    bytes::lemma_has_at_whole(sum);
    records::lemma_number_reads(crc64::crc64(body), sum, 0);
    bytes::lemma_has_at_whole(data);
    bytes::lemma_has_at_concat(data, 0, body, sum);
    lemma_body_layout(data, sorted, aux, functions, compact);
    bytes::lemma_has_at_subrange(data, 0, rdb_save::header_bytes());
    assert(data.take(9) =~= data.subrange(0, 9));
}

/// Names with their values do not change how entries and functions are read.
pub proof fn law_aux_is_independent(
    entries: Seq<RdbEntryView>,
    functions: Seq<Seq<u8>>,
    compact: Option<CompactRdbThresholds>,
    one: Seq<FieldView>,
    other: Seq<FieldView>,
)
    requires
        snapshot_lasting(entries, one, functions, compact),
        snapshot_lasting(entries, other, functions, compact),
    ensures
        rdb_load::snapshot_prefix(rdb_save::snapshot_bytes(entries, one, functions, compact))
            matches Some((a, _)) && (rdb_load::snapshot_prefix(
            rdb_save::snapshot_bytes(entries, other, functions, compact),
        ) matches Some((b, _)) && a.entries == b.entries && a.functions == b.functions),
{
    let x = rdb_save::snapshot_bytes(entries, one, functions, compact);
    let y = rdb_save::snapshot_bytes(entries, other, functions, compact);
    bytes::lemma_has_at_whole(x);
    bytes::lemma_has_at_whole(y);
    law_snapshot_round_trip(x, entries, one, functions, compact);
    law_snapshot_round_trip(y, entries, other, functions, compact);
}

// ---------------------------------------------------------------------------
// The order of entries
// ---------------------------------------------------------------------------

/// No two entries have the same key in the same database.
pub open spec fn keys_differ(entries: Seq<RdbEntryView>) -> bool {
    forall|a: int, b: int|
        0 <= a < b < entries.len() ==> rdb_save::entry_key()(#[trigger] entries[a])
            != rdb_save::entry_key()(#[trigger] entries[b])
}

/// Each key is less than the next ones.
spec fn strictly_ordered(entries: Seq<RdbEntryView>) -> bool {
    forall|a: int, b: int|
        0 <= a < b < entries.len() ==> {
            let x = rdb_save::entry_key()(#[trigger] entries[a]);
            let y = rdb_save::entry_key()(#[trigger] entries[b]);
            order::key_le(x, y) && x != y
        }
}

proof fn lemma_sorted_strictly(entries: Seq<RdbEntryView>)
    requires
        keys_differ(entries),
    ensures
        strictly_ordered(order::sorted_by(entries, rdb_save::entry_key())),
        forall|e: RdbEntryView|
            entries.contains(e) <==> #[trigger] order::sorted_by(
                entries,
                rdb_save::entry_key(),
            ).contains(e),
{
    let key = rdb_save::entry_key();
    let keys = entries.map_values(key);
    let sequence = order::stable_order(keys);
    let sorted = order::sorted_by(entries, key);
    order::law_stable_order(keys);
    order::lemma_sorted_by_len(entries, key);
    assert forall|a: int, b: int| 0 <= a < b < sorted.len() implies ({
        let x = key(#[trigger] sorted[a]);
        let y = key(#[trigger] sorted[b]);
        order::key_le(x, y) && x != y
    }) by {
        assert(order::before(keys, sequence[a], sequence[b]));
        let i = sequence[a];
        let j = sequence[b];
        assert(sorted[a] == entries[i] && sorted[b] == entries[j]);
        if i < j {
            assert(key(entries[i]) != key(entries[j]));
        } else if j < i {
            assert(key(entries[j]) != key(entries[i]));
        }
    }
    assert forall|e: RdbEntryView| entries.contains(e) implies #[trigger] sorted.contains(e) by {
        let i = entries.index_of(e);
        assert(sequence.contains(i));
        let a = sequence.index_of(i);
        assert(sorted[a] == entries[i]);
    }
    assert forall|e: RdbEntryView| #[trigger] sorted.contains(e) implies entries.contains(e) by {
        let a = sorted.index_of(e);
        assert(entries.contains(sorted[a]));
    }
}

proof fn lemma_strictly_unique(p: Seq<RdbEntryView>, q: Seq<RdbEntryView>)
    requires
        strictly_ordered(p),
        strictly_ordered(q),
        forall|e: RdbEntryView| #[trigger] p.contains(e) <==> q.contains(e),
    ensures
        p == q,
    decreases p.len(),
{
    let key = rdb_save::entry_key();
    if p.len() == 0 {
        if q.len() > 0 {
            assert(q.contains(q[0]));
            assert(p.contains(q[0]));
        }
        assert(p =~= q);
    } else {
        let x = p.last();
        assert(p.contains(x));
        let j = q.index_of(x);
        let y = q.last();
        assert(q.contains(y));
        assert(p.contains(y));
        let i = p.index_of(y);
        if j < q.len() - 1 && i < p.len() - 1 {
            assert(order::key_le(key(q[j]), key(q[q.len() - 1])));
            assert(order::key_le(key(p[i]), key(p[p.len() - 1])));
            order::lemma_key_total(key(x), key(y));
        }
        assert(x == y);
        let front = p.drop_last();
        let other = q.drop_last();
        assert forall|e: RdbEntryView| #[trigger] front.contains(e) <==> other.contains(e) by {
            lemma_front_contains(p, e);
            lemma_front_contains(q, e);
            assert(p.contains(e) <==> q.contains(e));
        }
        assert forall|a: int, b: int| 0 <= a < b < front.len() implies ({
            let u = key(#[trigger] front[a]);
            let v = key(#[trigger] front[b]);
            order::key_le(u, v) && u != v
        }) by {
            assert(front[a] == p[a] && front[b] == p[b]);
        }
        assert forall|a: int, b: int| 0 <= a < b < other.len() implies ({
            let u = key(#[trigger] other[a]);
            let v = key(#[trigger] other[b]);
            order::key_le(u, v) && u != v
        }) by {
            assert(other[a] == q[a] && other[b] == q[b]);
        }
        lemma_strictly_unique(front, other);
        assert(p =~= front.push(x));
        assert(q =~= other.push(y));
    }
}

proof fn lemma_front_contains(p: Seq<RdbEntryView>, e: RdbEntryView)
    requires
        p.len() > 0,
        strictly_ordered(p),
    ensures
        p.drop_last().contains(e) <==> p.contains(e) && e != p.last(),
{
    if p.drop_last().contains(e) {
        let a = p.drop_last().index_of(e);
        assert(p[a] == e);
        assert(rdb_save::entry_key()(p[a]) != rdb_save::entry_key()(p[p.len() - 1]));
    }
    if p.contains(e) && e != p.last() {
        let a = p.index_of(e);
        assert(p.drop_last()[a] == e);
    }
}

/// The order in which entries are given does not matter to a snapshot, as long as no two
/// have the same key in the same database.
pub proof fn law_entry_order_does_not_matter(
    one: Seq<RdbEntryView>,
    other: Seq<RdbEntryView>,
    aux: Seq<FieldView>,
    functions: Seq<Seq<u8>>,
    compact: Option<CompactRdbThresholds>,
)
    requires
        keys_differ(one),
        keys_differ(other),
        forall|e: RdbEntryView| #[trigger] one.contains(e) <==> other.contains(e),
    ensures
        rdb_save::snapshot_bytes(one, aux, functions, compact) == rdb_save::snapshot_bytes(
            other,
            aux,
            functions,
            compact,
        ),
{
    lemma_sorted_strictly(one);
    lemma_sorted_strictly(other);
    let p = order::sorted_by(one, rdb_save::entry_key());
    let q = order::sorted_by(other, rdb_save::entry_key());
    assert forall|e: RdbEntryView| #[trigger] p.contains(e) <==> q.contains(e) by {
        assert(one.contains(e) <==> other.contains(e));
    }
    lemma_strictly_unique(p, q);
}

} // verus!
