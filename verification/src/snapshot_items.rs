//! What a snapshot that is made of items is loaded as, whoever wrote it.

use vstd::prelude::*;

use crate::bytes;
use crate::crc64;
use crate::rdb_load;
use crate::rdb_load::{LoadStep, Loading};
use crate::rdb_types::{RdbEntryView, ValueView};
use crate::rdb_values;
use crate::rdb_wire;
use crate::snapshot_laws;
use crate::text;

verus! {

// ---------------------------------------------------------------------------
// Items
// ---------------------------------------------------------------------------

/// The bytes are read as the string wherever they stand.
pub open spec fn is_string(encoding: Seq<u8>, s: Seq<u8>) -> bool {
    forall|data: Seq<u8>, pos: int| #[trigger]
        bytes::has_at(data, pos, encoding) ==> rdb_wire::string_at(data, pos) == Some(
            (s, pos + encoding.len()),
        )
}

/// The bytes are read as the number wherever they stand.
pub open spec fn is_length(encoding: Seq<u8>, n: nat) -> bool {
    forall|data: Seq<u8>, pos: int| #[trigger]
        bytes::has_at(data, pos, encoding) ==> rdb_wire::length_at(data, pos) == Some(
            (n, pos + encoding.len()),
        )
}

/// The bytes are read as the value under a type byte wherever they stand.
pub open spec fn is_value(tag: u8, encoding: Seq<u8>, v: ValueView) -> bool {
    &&& rdb_values::is_type_byte(tag)
    &&& forall|data: Seq<u8>, pos: int| #[trigger]
        bytes::has_at(data, pos, encoding) ==> rdb_values::value_at(tag, data, pos) == Some(
            (v, pos + encoding.len()),
        )
}

/// A string with its encoding.
pub struct Text {
    pub encoding: Seq<u8>,
    pub text: Seq<u8>,
}

/// A number with its encoding.
pub struct Number {
    pub encoding: Seq<u8>,
    pub number: nat,
}

/// What may stand in front of an entry: the time at which it expires, or how it was used.
pub enum Hint {
    ExpiresMillis(u64),
    ExpiresSeconds(u32),
    Idle(Number),
    Frequency(u8),
}

/// An item of a snapshot.
pub enum Item {
    Aux(Text, Text),
    Function(Text),
    Select(Number),
    Resize(Number, Number),
    Entry { hints: Seq<Hint>, tag: u8, key: Text, payload: Seq<u8>, value: ValueView },
}

/// The bytes of a hint.
pub open spec fn hint_bytes(h: Hint) -> Seq<u8> {
    match h {
        Hint::ExpiresMillis(ms) => seq![0xFCu8] + bytes::le_bytes(ms as nat, 8),
        Hint::ExpiresSeconds(s) => seq![0xFDu8] + bytes::le_bytes(s as nat, 4),
        Hint::Idle(n) => seq![0xF8u8] + n.encoding,
        Hint::Frequency(b) => seq![0xF9u8, b],
    }
}

/// The bytes of a hint, as a function value.
pub open spec fn hint_encoder() -> spec_fn(Hint) -> Seq<u8> {
    |h: Hint| hint_bytes(h)
}

/// The bytes of an item.
pub open spec fn item_bytes(item: Item) -> Seq<u8> {
    match item {
        Item::Aux(name, value) => seq![0xFAu8] + (name.encoding + value.encoding),
        Item::Function(code) => seq![0xF5u8] + code.encoding,
        Item::Select(db) => seq![0xFEu8] + db.encoding,
        Item::Resize(entries, expiring) => seq![0xFBu8] + (entries.encoding + expiring.encoding),
        Item::Entry { hints, tag, key, payload, value } => bytes::concat_all(
            hint_encoder(),
            hints,
        ) + (seq![tag] + (key.encoding + payload)),
    }
}

/// The bytes of an item, as a function value.
pub open spec fn item_encoder() -> spec_fn(Item) -> Seq<u8> {
    |item: Item| item_bytes(item)
}

/// The time that hints give an entry: the last one among them, if there is any.
pub open spec fn expiry_of(hints: Seq<Hint>, before: Option<u64>) -> Option<u64>
    decreases hints.len(),
{
    if hints.len() == 0 {
        before
    } else {
        match hints.last() {
            Hint::ExpiresMillis(ms) => Some(ms),
            Hint::ExpiresSeconds(s) => Some((s * 1000) as u64),
            _ => expiry_of(hints.drop_last(), before),
        }
    }
}

/// The number is read from its encoding.
pub open spec fn hint_right(h: Hint) -> bool {
    h matches Hint::Idle(n) ==> is_length(n.encoding, n.number)
}

/// The parts of an item are read from their encodings, and the number of a database fits.
pub open spec fn item_right(item: Item) -> bool {
    match item {
        Item::Aux(name, value) => is_string(name.encoding, name.text) && is_string(
            value.encoding,
            value.text,
        ),
        Item::Function(code) => is_string(code.encoding, code.text),
        Item::Select(db) => is_length(db.encoding, db.number) && db.number <= usize::MAX,
        Item::Resize(entries, expiring) => is_length(entries.encoding, entries.number)
            && is_length(expiring.encoding, expiring.number),
        Item::Entry { hints, tag, key, payload, value } => {
            &&& forall|i: int| 0 <= i < hints.len() ==> hint_right(#[trigger] hints[i])
            &&& is_string(key.encoding, key.text)
            &&& is_value(tag, payload, value)
        },
    }
}

/// What is loaded with one more item.
pub open spec fn with_item(st: Loading, item: Item) -> Loading {
    match item {
        Item::Aux(name, value) => Loading {
            aux: st.aux.insert(text::text_of(name.text), text::text_of(value.text)),
            ..st
        },
        Item::Function(code) => Loading { functions: st.functions.push(code.text), ..st },
        Item::Select(db) => Loading { db: db.number, ..st },
        Item::Resize(_, _) => st,
        Item::Entry { hints, tag, key, payload, value } => Loading {
            entries: st.entries.push(
                RdbEntryView {
                    db: st.db,
                    key: key.text,
                    value,
                    expire_ms: expiry_of(hints, None),
                },
            ),
            ..st
        },
    }
}

/// What is loaded with more items.
pub open spec fn with_items(st: Loading, items: Seq<Item>) -> Loading
    decreases items.len(),
{
    if items.len() == 0 {
        st
    } else {
        with_item(with_items(st, items.drop_last()), items.last())
    }
}

// ---------------------------------------------------------------------------
// Steps
// ---------------------------------------------------------------------------

proof fn lemma_head(data: Seq<u8>, pos: int, mark: u8, rest: Seq<u8>)
    requires
        bytes::has_at(data, pos, seq![mark] + rest),
    ensures
        0 <= pos < data.len(),
        data[pos] == mark,
        bytes::has_at(data, pos + 1, rest),
        pos + 1 + rest.len() <= data.len(),
{
    bytes::lemma_has_at_concat(data, pos, seq![mark], rest);
    assert(data[pos + 0] == seq![mark][0]);
}

proof fn lemma_select_step(version: nat, data: Seq<u8>, pos: int, st: Loading)
    requires
        st.expire_ms is None,
        0 <= pos < data.len(),
        data[pos] == 0xFE,
    ensures
        rdb_wire::length_at(data, pos + 1) matches Some((n, end)) ==> n <= usize::MAX
            ==> rdb_load::load_step(version, data, pos, st) == LoadStep::More(
            Loading { db: n, ..st },
            end,
        ),
{
    reveal(rdb_load::load_step);
}

proof fn lemma_resize_step(version: nat, data: Seq<u8>, pos: int, st: Loading)
    requires
        st.expire_ms is None,
        0 <= pos < data.len(),
        data[pos] == 0xFB,
    ensures
        rdb_wire::length_at(data, pos + 1) matches Some((_, mid)) ==> (rdb_wire::length_at(data, mid)
            matches Some((_, end)) ==> rdb_load::load_step(version, data, pos, st)
            == LoadStep::More(st, end)),
{
    reveal(rdb_load::load_step);
}

proof fn lemma_millis_step(version: nat, data: Seq<u8>, pos: int, st: Loading, ms: u64)
    requires
        bytes::has_at(data, pos, seq![0xFCu8] + bytes::le_bytes(ms as nat, 8)),
    ensures
        pos + 9 <= data.len(),
        bytes::le_bytes(ms as nat, 8).len() == 8,
        rdb_load::load_step(version, data, pos, st) == LoadStep::More(
            Loading { expire_ms: Some(ms), ..st },
            pos + 9,
        ),
{
    bytes::lemma_pow256_values();
    bytes::lemma_le_bytes_len(ms as nat, 8);
    lemma_head(data, pos, 0xFC, bytes::le_bytes(ms as nat, 8));
    bytes::lemma_le_at(data, pos + 1, ms as nat, 8);
    reveal(rdb_load::load_step);
}

proof fn lemma_seconds_step(version: nat, data: Seq<u8>, pos: int, st: Loading, s: u32)
    requires
        bytes::has_at(data, pos, seq![0xFDu8] + bytes::le_bytes(s as nat, 4)),
    ensures
        pos + 5 <= data.len(),
        bytes::le_bytes(s as nat, 4).len() == 4,
        rdb_load::load_step(version, data, pos, st) == LoadStep::More(
            Loading { expire_ms: Some((s * 1000) as u64), ..st },
            pos + 5,
        ),
{
    bytes::lemma_pow256_values();
    bytes::lemma_le_bytes_len(s as nat, 4);
    lemma_head(data, pos, 0xFD, bytes::le_bytes(s as nat, 4));
    bytes::lemma_le_at(data, pos + 1, s as nat, 4);
    reveal(rdb_load::load_step);
}

proof fn lemma_idle_step(version: nat, data: Seq<u8>, pos: int, st: Loading)
    requires
        0 <= pos < data.len(),
        data[pos] == 0xF8,
    ensures
        rdb_wire::length_at(data, pos + 1) matches Some((_, end)) ==> rdb_load::load_step(
            version,
            data,
            pos,
            st,
        ) == LoadStep::More(st, end),
{
    reveal(rdb_load::load_step);
}

proof fn lemma_frequency_step(version: nat, data: Seq<u8>, pos: int, st: Loading)
    requires
        0 <= pos,
        pos + 2 <= data.len(),
        data[pos] == 0xF9,
    ensures
        rdb_load::load_step(version, data, pos, st) == LoadStep::More(st, pos + 2),
{
    reveal(rdb_load::load_step);
}

proof fn lemma_key_step(version: nat, data: Seq<u8>, pos: int, st: Loading)
    requires
        0 <= pos < data.len(),
        rdb_values::is_type_byte(data[pos]),
    ensures
        rdb_wire::string_at(data, pos + 1) matches Some((key, mid)) ==> (rdb_values::value_at(
            data[pos],
            data,
            mid,
        ) matches Some((value, end)) ==> rdb_load::load_step(version, data, pos, st)
            == LoadStep::More(
            Loading {
                entries: st.entries.push(
                    RdbEntryView { db: st.db, key, value, expire_ms: st.expire_ms },
                ),
                expire_ms: None,
                ..st
            },
            end,
        )),
{
    reveal(rdb_load::load_step);
}

proof fn lemma_hint_leads(version: nat, data: Seq<u8>, pos: int, st: Loading, h: Hint)
    requires
        hint_right(h),
        bytes::has_at(data, pos, hint_bytes(h)),
    ensures
        snapshot_laws::leads(
            version,
            data,
            pos,
            st,
            pos + hint_bytes(h).len(),
            Loading { expire_ms: expiry_of(seq![h], st.expire_ms), ..st },
        ),
{
    let end = pos + hint_bytes(h).len();
    let next = Loading { expire_ms: expiry_of(seq![h], st.expire_ms), ..st };
    assert(seq![h].drop_last() =~= Seq::empty());
    match h {
        Hint::ExpiresMillis(ms) => {
            lemma_millis_step(version, data, pos, st, ms);
        },
        Hint::ExpiresSeconds(s) => {
            lemma_seconds_step(version, data, pos, st, s);
        },
        Hint::Idle(n) => {
            lemma_head(data, pos, 0xF8, n.encoding);
            lemma_idle_step(version, data, pos, st);
            assert(expiry_of(Seq::empty(), st.expire_ms) == st.expire_ms);
            assert(next == st);
        },
        Hint::Frequency(b) => {
            assert(seq![0xF9u8, b] =~= seq![0xF9u8] + seq![b]);
            lemma_head(data, pos, 0xF9, seq![b]);
            lemma_frequency_step(version, data, pos, st);
            assert(expiry_of(Seq::empty(), st.expire_ms) == st.expire_ms);
            assert(next == st);
        },
    }
    snapshot_laws::lemma_more(version, data, pos, st, next, end);
}

proof fn lemma_hints_lead(version: nat, data: Seq<u8>, pos: int, st: Loading, hints: Seq<Hint>)
    requires
        forall|i: int| 0 <= i < hints.len() ==> hint_right(#[trigger] hints[i]),
        bytes::has_at(data, pos, bytes::concat_all(hint_encoder(), hints)),
    ensures
        snapshot_laws::leads(
            version,
            data,
            pos,
            st,
            pos + bytes::concat_all(hint_encoder(), hints).len(),
            Loading { expire_ms: expiry_of(hints, st.expire_ms), ..st },
        ),
    decreases hints.len(),
{
    if hints.len() == 0 {
        assert(Loading { expire_ms: expiry_of(hints, st.expire_ms), ..st } == st);
        snapshot_laws::lemma_leads_here(version, data, pos, st);
    } else {
        let encode = hint_encoder();
        let before = hints.drop_last();
        let last = hints[hints.len() - 1];
        let front = bytes::concat_all(encode, before);
        bytes::lemma_has_at_concat(data, pos, front, encode(last));
        assert forall|i: int| 0 <= i < before.len() implies hint_right(#[trigger] before[i]) by {
            assert(before[i] == hints[i]);
        }
        lemma_hints_lead(version, data, pos, st, before);
        let mid = Loading { expire_ms: expiry_of(before, st.expire_ms), ..st };
        assert(hint_right(last));
        lemma_hint_leads(version, data, pos + front.len(), mid, last);
        assert(seq![last].drop_last() =~= Seq::empty());
        assert(expiry_of(Seq::empty(), mid.expire_ms) == mid.expire_ms);
        assert(expiry_of(seq![last], mid.expire_ms) == expiry_of(hints, st.expire_ms));
        snapshot_laws::lemma_leads_on(
            version,
            data,
            pos,
            st,
            pos + front.len(),
            mid,
            pos + bytes::concat_all(encode, hints).len(),
            Loading { expire_ms: expiry_of(hints, st.expire_ms), ..st },
        );
    }
}

proof fn lemma_entry_leads(
    version: nat,
    data: Seq<u8>,
    pos: int,
    st: Loading,
    hints: Seq<Hint>,
    tag: u8,
    key: Text,
    payload: Seq<u8>,
    value: ValueView,
)
    requires
        st.expire_ms is None,
        item_right(Item::Entry { hints, tag, key, payload, value }),
        bytes::has_at(data, pos, item_bytes(Item::Entry { hints, tag, key, payload, value })),
    ensures
        ({
            let item = Item::Entry { hints, tag, key, payload, value };
            snapshot_laws::leads(
                version,
                data,
                pos,
                st,
                pos + item_bytes(item).len(),
                with_item(st, item),
            )
        }),
{
    let item = Item::Entry { hints, tag, key, payload, value };
    let front = bytes::concat_all(hint_encoder(), hints);
    let rest = seq![tag] + (key.encoding + payload);
    bytes::lemma_has_at_concat(data, pos, front, rest);
    lemma_hints_lead(version, data, pos, st, hints);
    let at = pos + front.len();
    let timed = Loading { expire_ms: expiry_of(hints, st.expire_ms), ..st };
    lemma_head(data, at, tag, key.encoding + payload);
    bytes::lemma_has_at_concat(data, at + 1, key.encoding, payload);
    lemma_key_step(version, data, at, timed);
    let end = pos + item_bytes(item).len();
    snapshot_laws::lemma_more(version, data, at, timed, with_item(st, item), end);
    snapshot_laws::lemma_leads_on(version, data, pos, st, at, timed, end, with_item(st, item));
}

proof fn lemma_item_leads(version: nat, data: Seq<u8>, pos: int, st: Loading, item: Item)
    requires
        st.expire_ms is None,
        item_right(item),
        bytes::has_at(data, pos, item_bytes(item)),
    ensures
        snapshot_laws::leads(
            version,
            data,
            pos,
            st,
            pos + item_bytes(item).len(),
            with_item(st, item),
        ),
{
    let end = pos + item_bytes(item).len();
    let next = with_item(st, item);
    match item {
        Item::Aux(name, value) => {
            lemma_head(data, pos, 0xFA, name.encoding + value.encoding);
            bytes::lemma_has_at_concat(data, pos + 1, name.encoding, value.encoding);
            snapshot_laws::lemma_aux_load_step(version, data, pos, st);
            snapshot_laws::lemma_more(version, data, pos, st, next, end);
        },
        Item::Function(code) => {
            lemma_head(data, pos, 0xF5, code.encoding);
            snapshot_laws::lemma_function_load_step(version, data, pos, st);
            snapshot_laws::lemma_more(version, data, pos, st, next, end);
        },
        Item::Select(db) => {
            lemma_head(data, pos, 0xFE, db.encoding);
            lemma_select_step(version, data, pos, st);
            snapshot_laws::lemma_more(version, data, pos, st, next, end);
        },
        Item::Resize(entries, expiring) => {
            lemma_head(data, pos, 0xFB, entries.encoding + expiring.encoding);
            bytes::lemma_has_at_concat(data, pos + 1, entries.encoding, expiring.encoding);
            lemma_resize_step(version, data, pos, st);
            snapshot_laws::lemma_more(version, data, pos, st, next, end);
        },
        Item::Entry { hints, tag, key, payload, value } => {
            lemma_entry_leads(version, data, pos, st, hints, tag, key, payload, value);
        },
    }
}

proof fn lemma_items_lead(version: nat, data: Seq<u8>, pos: int, st: Loading, items: Seq<Item>)
    requires
        st.expire_ms is None,
        forall|i: int| 0 <= i < items.len() ==> item_right(#[trigger] items[i]),
        bytes::has_at(data, pos, bytes::concat_all(item_encoder(), items)),
    ensures
        with_items(st, items).expire_ms is None,
        snapshot_laws::leads(
            version,
            data,
            pos,
            st,
            pos + bytes::concat_all(item_encoder(), items).len(),
            with_items(st, items),
        ),
    decreases items.len(),
{
    if items.len() == 0 {
        snapshot_laws::lemma_leads_here(version, data, pos, st);
    } else {
        let encode = item_encoder();
        let before = items.drop_last();
        let last = items[items.len() - 1];
        let front = bytes::concat_all(encode, before);
        bytes::lemma_has_at_concat(data, pos, front, encode(last));
        assert forall|i: int| 0 <= i < before.len() implies item_right(#[trigger] before[i]) by {
            assert(before[i] == items[i]);
        }
        lemma_items_lead(version, data, pos, st, before);
        assert(item_right(last));
        let mid = with_items(st, before);
        lemma_item_leads(version, data, pos + front.len(), mid, last);
        snapshot_laws::lemma_leads_on(
            version,
            data,
            pos,
            st,
            pos + front.len(),
            mid,
            pos + bytes::concat_all(encode, items).len(),
            with_items(st, items),
        );
    }
}

// ---------------------------------------------------------------------------
// Snapshots
// ---------------------------------------------------------------------------

/// The signature and four digits of a version.
pub open spec fn signature(version: nat) -> Seq<u8> {
    seq![
        82u8,
        69u8,
        68u8,
        73u8,
        83u8,
        (48 + version / 1000 % 10) as u8,
        (48 + version / 100 % 10) as u8,
        (48 + version / 10 % 10) as u8,
        (48 + version % 10) as u8,
    ]
}

/// A snapshot up to its checksum.
pub open spec fn snapshot_body(version: nat, items: Seq<Item>) -> Seq<u8> {
    signature(version) + bytes::concat_all(item_encoder(), items) + seq![0xFFu8]
}

proof fn lemma_signature(data: Seq<u8>, version: nat)
    requires
        1 <= version <= 11,
        data.len() >= 17,
        bytes::has_at(data, 0, signature(version)),
    ensures
        rdb_load::known_version(data) == Some(version),
{
    let head = signature(version);
    assert forall|i: int| 0 <= i < 9 implies #[trigger] data[i] == head[i] by {
        assert(data[0 + i] == head[i]);
    }
    assert(data.take(5) =~= seq![82u8, 69u8, 68u8, 73u8, 83u8]);
    assert(data[5] == head[5] && data[6] == head[6] && data[7] == head[7] && data[8] == head[8]);
}

proof fn lemma_end_step(version: nat, data: Seq<u8>, pos: int, st: Loading, sum: u64)
    requires
        st.expire_ms is None,
        0 <= pos < data.len(),
        data[pos] == 0xFF,
        bytes::has_at(data, pos + 1, bytes::le_bytes(sum as nat, 8)),
        sum == 0 || sum == crc64::crc64(data.take(pos + 1)),
    ensures
        rdb_load::load_step(version, data, pos, st) == LoadStep::Done(
            pos + 1 + (if version < 5 {
                0int
            } else {
                8
            }),
        ),
{
    bytes::lemma_pow256_values();
    bytes::lemma_le_bytes_len(sum as nat, 8);
    bytes::lemma_le_at(data, pos + 1, sum as nat, 8);
    reveal(rdb_load::load_step);
}

/// A snapshot of any version that is made of items is loaded as what these say one behind the
/// other, whatever follows it: each entry in the database that was chosen last, with the time
/// that the hints in front of it give. The checksum of the later versions may be zero. In the
/// older versions what stands in its place follows the snapshot.
pub proof fn law_items_are_loaded(
    version: nat,
    items: Seq<Item>,
    sum: u64,
    tail: Seq<u8>,
)
    requires
        1 <= version <= 11,
        forall|i: int| 0 <= i < items.len() ==> item_right(#[trigger] items[i]),
        sum == 0 || sum == crc64::crc64(snapshot_body(version, items)),
    ensures
        ({
            let body = snapshot_body(version, items);
            rdb_load::snapshot_prefix(body + bytes::le_bytes(sum as nat, 8) + tail) == Some(
                (
                    with_items(rdb_load::nothing_loaded(), items),
                    body.len() + (if version < 5 {
                        0int
                    } else {
                        8
                    }),
                ),
            )
        }),
{
    let head = signature(version);
    let middle = bytes::concat_all(item_encoder(), items);
    let end = seq![0xFFu8];
    let body = snapshot_body(version, items);
    let check = bytes::le_bytes(sum as nat, 8);
    let data = body + check + tail;
    let n = body.len() as int;
    let st = rdb_load::nothing_loaded();
    let done = with_items(st, items);
    bytes::lemma_le_bytes_len(sum as nat, 8);
    bytes::lemma_has_at_whole(data);
    bytes::lemma_has_at_concat(data, 0, body + check, tail);
    bytes::lemma_has_at_concat(data, 0, body, check);
    bytes::lemma_has_at_concat(data, 0, head + middle, end);
    bytes::lemma_has_at_concat(data, 0, head, middle);
    assert(data[0 + (head + middle).len() as int + 0] == end[0]);
    lemma_signature(data, version);
    lemma_items_lead(version, data, 9, st, items);
    assert(data.take(n) =~= body);
    lemma_end_step(version, data, n - 1, done, sum);
    reveal(snapshot_laws::leads);
}

/// Hints that give no time change nothing of what is loaded, wherever they stand in front of
/// an entry.
pub proof fn law_usage_hints_change_nothing(
    st: Loading,
    left: Seq<Hint>,
    hint: Hint,
    right: Seq<Hint>,
    tag: u8,
    key: Text,
    payload: Seq<u8>,
    value: ValueView,
)
    requires
        hint is Idle || hint is Frequency,
    ensures
        with_item(
            st,
            Item::Entry { hints: left + seq![hint] + right, tag, key, payload, value },
        ) == with_item(st, Item::Entry { hints: left + right, tag, key, payload, value }),
{
    lemma_usage_hint(left, hint, right);
}

proof fn lemma_usage_hint(left: Seq<Hint>, hint: Hint, right: Seq<Hint>)
    requires
        hint is Idle || hint is Frequency,
    ensures
        expiry_of(left + seq![hint] + right, None) == expiry_of(left + right, None),
    decreases right.len(),
{
    let with = left + seq![hint] + right;
    let without = left + right;
    if right.len() == 0 {
        assert(with.drop_last() =~= left);
        assert(without =~= left);
    } else {
        assert(with.drop_last() =~= left + seq![hint] + right.drop_last());
        assert(without.drop_last() =~= left + right.drop_last());
        lemma_usage_hint(left, hint, right.drop_last());
    }
}

// ---------------------------------------------------------------------------
// What is rejected
// ---------------------------------------------------------------------------

/// A time must be followed by its entry: a name, a function, a database, its sizes or the end
/// of the snapshot behind a time is rejected.
pub proof fn law_time_needs_its_entry(version: nat, data: Seq<u8>, pos: int, st: Loading)
    requires
        st.expire_ms is Some,
        0 <= pos < data.len(),
        data[pos] == 0xFA || data[pos] == 0xF5 || data[pos] == 0xFE || data[pos] == 0xFB
            || data[pos] == 0xFF,
    ensures
        rdb_load::load_from(version, data, pos, st) is None,
{
    reveal(rdb_load::load_step);
}

/// A byte that neither marks an item nor is the type of a value is rejected: these are 6 to 8,
/// 22 to 244 but for 100, the type of hashes with times, 246 and 247.
pub proof fn law_unknown_marks_are_rejected(version: nat, data: Seq<u8>, pos: int, st: Loading)
    requires
        0 <= pos < data.len(),
        6 <= data[pos] <= 8 || (22 <= data[pos] <= 244 && data[pos] != 100) || data[pos] == 246
            || data[pos] == 247,
    ensures
        rdb_load::load_from(version, data, pos, st) is None,
{
    reveal(rdb_load::load_step);
}

/// A snapshot that ends where an item should stand is rejected.
pub proof fn law_missing_end_is_rejected(version: nat, data: Seq<u8>, st: Loading)
    ensures
        rdb_load::load_from(version, data, data.len() as int, st) is None,
{
    reveal(rdb_load::load_step);
}

/// A checksum that is neither zero nor right is rejected.
pub proof fn law_bad_checksum_is_rejected(version: nat, items: Seq<Item>, sum: u64, tail: Seq<u8>)
    requires
        5 <= version <= 11,
        forall|i: int| 0 <= i < items.len() ==> item_right(#[trigger] items[i]),
        sum != 0,
        sum != crc64::crc64(snapshot_body(version, items)),
    ensures
        rdb_load::snapshot_prefix(
            snapshot_body(version, items) + bytes::le_bytes(sum as nat, 8) + tail,
        ) is None,
{
    let head = signature(version);
    let middle = bytes::concat_all(item_encoder(), items);
    let end = seq![0xFFu8];
    let body = snapshot_body(version, items);
    let check = bytes::le_bytes(sum as nat, 8);
    let data = body + check + tail;
    let n = body.len() as int;
    let st = rdb_load::nothing_loaded();
    let done = with_items(st, items);
    bytes::lemma_le_bytes_len(sum as nat, 8);
    bytes::lemma_pow256_values();
    bytes::lemma_has_at_whole(data);
    bytes::lemma_has_at_concat(data, 0, body + check, tail);
    bytes::lemma_has_at_concat(data, 0, body, check);
    bytes::lemma_has_at_concat(data, 0, head + middle, end);
    bytes::lemma_has_at_concat(data, 0, head, middle);
    assert(data[0 + (head + middle).len() as int + 0] == end[0]);
    lemma_signature(data, version);
    lemma_items_lead(version, data, 9, st, items);
    assert(data.take(n) =~= body);
    bytes::lemma_le_at(data, n, sum as nat, 8);
    assert(rdb_load::load_step(version, data, n - 1, done) is Fail) by {
        reveal(rdb_load::load_step);
    }
    reveal(snapshot_laws::leads);
}

/// Only the versions from 1 to 11 are read: a snapshot whose four characters are digits of
/// another version, or are no digits, is rejected, and so is one that is too short.
pub proof fn law_other_versions_are_rejected(data: Seq<u8>, version: nat)
    requires
        version == 0 || 12 <= version <= 9999,
        data.len() < 17 || bytes::has_at(data, 0, signature(version)) || data[8] < 48 || data[8]
            > 57,
    ensures
        rdb_load::snapshot_prefix(data) is None,
{
    if data.len() >= 17 && bytes::has_at(data, 0, signature(version)) {
        let head = signature(version);
        assert forall|i: int| 0 <= i < 9 implies #[trigger] data[i] == head[i] by {
            assert(data[0 + i] == head[i]);
        }
        assert(data[5] == head[5] && data[6] == head[6] && data[7] == head[7] && data[8]
            == head[8]);
    }
}

/// The four characters of a version are digits, of which the first may be a plus sign instead
/// and then counts as a zero. With anything else, or with fewer than seventeen bytes, it is no
/// snapshot.
pub proof fn law_version_characters(data: Seq<u8>, k: int)
    ensures
        data.len() < 17 ==> rdb_load::snapshot_prefix(data) is None,
        data.len() >= 17 && 6 <= k <= 8 && !(48 <= data[k] <= 57) ==> rdb_load::snapshot_prefix(
            data,
        ) is None,
        data.len() >= 17 && !(48 <= data[5] <= 57) && data[5] != 43 ==> rdb_load::snapshot_prefix(
            data,
        ) is None,
        data.len() >= 17 ==> rdb_load::known_version(data.update(5, 43)) == rdb_load::known_version(
            data.update(5, 48),
        ),
{
    if data.len() >= 17 {
        let plus = data.update(5, 43);
        let zero = data.update(5, 48);
        assert(plus.take(5) =~= zero.take(5));
    }
}

} // verus!
