//! Sets and sorted sets keep their members.

use vstd::prelude::*;

use crate::bytes;
use crate::intset;
use crate::listpack_encode;
use crate::order;
use crate::rdb_compact;
use crate::rdb_compact::CompactRdbThresholds;
use crate::rdb_save;
use crate::rdb_types::ValueView;
use crate::rdb_values;
use crate::records;
use crate::score;
use crate::score::ScoreView;
use crate::value_laws;

verus! {

// ---------------------------------------------------------------------------
// Sets
// ---------------------------------------------------------------------------

/// The members of a set, in whichever form it is.
pub open spec fn members_of(v: ValueView) -> Seq<Seq<u8>> {
    match v {
        ValueView::MemberSet(members) => members,
        ValueView::SetHashtable(members) => members,
        _ => Seq::empty(),
    }
}

/// A set of integers is read back with the same members, each as often as it occurs.
pub proof fn law_integer_set_keeps_members(members: Seq<Seq<u8>>)
    requires
        rdb_compact::all_integers(members),
    ensures
        intset::texts(
            intset::ascending_values(rdb_compact::integers_of(members)),
        ).to_multiset() == members.to_multiset(),
{
    let values = rdb_compact::integers_of(members);
    let keys = values.map_values(intset::int_key());
    let sequence = order::stable_order(keys);
    let found = intset::texts(intset::ascending_values(values));
    order::law_stable_order(keys);
    order::law_order_keeps_items(keys, members);
    assert(found =~= sequence.map_values(|i: int| members[i])) by {
        assert forall|k: int| 0 <= k < sequence.len() implies found[k]
            == members[#[trigger] sequence[k]] by {
            let m = members[sequence[k]];
            assert(listpack_encode::is_integer_text(m));
            let v = choose|v: i64| listpack_encode::is_text_of(m, v);
            assert(listpack_encode::is_text_of(m, v));
        }
    }
}

/// A set is read back with the same members, each as often as it occurs.
pub proof fn law_set_keeps_members(members: Seq<Seq<u8>>, compact: Option<CompactRdbThresholds>)
    ensures
        members_of(value_laws::loaded_set(members, compact)).to_multiset() == members.to_multiset(),
        value_laws::loaded_set(members, compact) is MemberSet || value_laws::loaded_set(
            members,
            compact,
        ) is SetHashtable,
{
    if rdb_save::set_stored(members, compact).0 == rdb_save::RDB_TYPE_SET_INTSET {
        law_integer_set_keeps_members(members);
    }
}

/// What is stored of a set is read as a set of the same members.
pub proof fn law_set_round_trip(
    members: Seq<Seq<u8>>,
    compact: Option<CompactRdbThresholds>,
    data: Seq<u8>,
    pos: int,
)
    requires
        value_laws::value_lasting(ValueView::MemberSet(members), compact),
        bytes::has_at(
            data,
            pos,
            rdb_save::value_stored(ValueView::MemberSet(members), compact).1,
        ),
    ensures
        ({
            let stored = rdb_save::value_stored(ValueView::MemberSet(members), compact);
            rdb_values::value_at(stored.0, data, pos) matches Some((v, end)) && end == pos
                + stored.1.len() && (v is MemberSet || v is SetHashtable) && members_of(
                v,
            ).to_multiset() == members.to_multiset()
        }),
{
    let v = ValueView::MemberSet(members);
    value_laws::law_value_round_trip(v, compact, data, pos);
    law_set_keeps_members(members, compact);
    assert(value_laws::loaded_value(v, compact) == value_laws::loaded_set(members, compact)) by {
        reveal(value_laws::loaded_value);
    }
}

// ---------------------------------------------------------------------------
// Sorted sets
// ---------------------------------------------------------------------------

/// A sorted set of these members is written as a pack.
pub open spec fn is_packed(
    members: Seq<(Seq<u8>, ScoreView)>,
    compact: Option<CompactRdbThresholds>,
) -> bool {
    rdb_save::zset_stored(members, compact).0 == rdb_save::RDB_TYPE_ZSET_LISTPACK
}

/// What one score is read back as: from a pack as its text says, else by its bits.
pub open spec fn kept_score(s: ScoreView, packed: bool) -> ScoreView {
    if packed {
        value_laws::loaded_score(rdb_compact::score_text(s))
    } else {
        rdb_values::bare_double(records::score_bits(s))
    }
}

/// Members, each with what its score is read back as.
pub open spec fn kept_members(members: Seq<(Seq<u8>, ScoreView)>, packed: bool) -> Seq<
    (Seq<u8>, ScoreView),
> {
    members.map_values(|m: (Seq<u8>, ScoreView)| (m.0, kept_score(m.1, packed)))
}

/// A sorted set is read back with the same members, each as often as it occurs, with what
/// its own score is read back as.
pub proof fn law_sorted_set_keeps_members(
    members: Seq<(Seq<u8>, ScoreView)>,
    compact: Option<CompactRdbThresholds>,
)
    ensures
        value_laws::loaded_zset(members, compact).to_multiset() == kept_members(
            members,
            is_packed(members, compact),
        ).to_multiset(),
        rdb_compact::names_of(value_laws::loaded_zset(members, compact)).to_multiset()
            == rdb_compact::names_of(members).to_multiset(),
{
    let loaded = value_laws::loaded_zset(members, compact);
    let names = rdb_compact::names_of(members);
    if is_packed(members, compact) {
        let kept = kept_members(members, true);
        let keys = members.map_values(rdb_compact::member_key());
        let sequence = order::stable_order(keys);
        order::law_stable_order(keys);
        order::law_order_keeps_items(keys, kept);
        order::law_order_keeps_items(keys, names);
        assert(loaded =~= sequence.map_values(|i: int| kept[i]));
        assert(rdb_compact::names_of(loaded) =~= sequence.map_values(|i: int| names[i]));
    } else {
        assert(loaded =~= kept_members(members, false));
        assert(rdb_compact::names_of(loaded) =~= names);
    }
}

/// What is stored of a sorted set is read as one of the same members, each with what its own
/// score is read back as.
pub proof fn law_sorted_set_round_trip(
    members: Seq<(Seq<u8>, ScoreView)>,
    compact: Option<CompactRdbThresholds>,
    data: Seq<u8>,
    pos: int,
)
    requires
        value_laws::value_lasting(ValueView::SortedSet(members), compact),
        bytes::has_at(
            data,
            pos,
            rdb_save::value_stored(ValueView::SortedSet(members), compact).1,
        ),
    ensures
        ({
            let stored = rdb_save::value_stored(ValueView::SortedSet(members), compact);
            rdb_values::value_at(stored.0, data, pos) matches Some((v, end)) && end == pos
                + stored.1.len() && (v matches ValueView::SortedSet(found) && found.to_multiset()
                == kept_members(members, is_packed(members, compact)).to_multiset())
        }),
{
    let v = ValueView::SortedSet(members);
    value_laws::law_value_round_trip(v, compact, data, pos);
    law_sorted_set_keeps_members(members, compact);
    assert(value_laws::loaded_value(v, compact) == ValueView::SortedSet(
        value_laws::loaded_zset(members, compact),
    )) by {
        reveal(value_laws::loaded_value);
    }
}

/// A score that is a whole number is read back from a pack as that number, and any double is
/// read back by its bits where it was written so.
pub proof fn law_whole_score_is_kept(bits: u64, text: Seq<u8>)
    ensures
        score::whole_score(bits) matches Some(v) ==> kept_score(
            ScoreView::Double { bits, text },
            true,
        ) == ScoreView::Integer(v),
        kept_score(ScoreView::Double { bits, text }, false) == (ScoreView::Double {
            bits,
            text: Seq::empty(),
        }),
{
    if let Some(v) = score::whole_score(bits) {
        let s = rdb_compact::score_text(ScoreView::Double { bits, text });
        assert(listpack_encode::is_text_of(s, v as i64));
        listpack_encode::lemma_integer_of(s, v as i64);
    }
}

/// A score that is no whole number is read back from a pack as its text, unless this is the
/// text of an integer, and then as this integer.
pub proof fn law_other_score_is_kept(bits: u64, text: Seq<u8>)
    requires
        score::whole_score(bits) is None,
    ensures
        !listpack_encode::is_integer_text(text) ==> kept_score(
            ScoreView::Double { bits, text },
            true,
        ) == ScoreView::Decimal(text),
        forall|v: i64| #[trigger]
            listpack_encode::is_text_of(text, v) ==> kept_score(
                ScoreView::Double { bits, text },
                true,
            ) == ScoreView::Integer(v as int),
{
    assert forall|v: i64| #[trigger] listpack_encode::is_text_of(text, v) implies kept_score(
        ScoreView::Double { bits, text },
        true,
    ) == ScoreView::Integer(v as int) by {
        listpack_encode::lemma_integer_of(text, v);
    }
}

} // verus!
