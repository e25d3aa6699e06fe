//! Doubles by their values: what orders them, and which are whole numbers.

use vstd::prelude::*;

use crate::order;
use crate::order::KeyView;
use crate::rdb_compact;
use crate::rdb_compact::CompactRdbThresholds;
use crate::score;
use crate::score::ScoreView;
use crate::member_laws;
use crate::value_laws;

verus! {

// ---------------------------------------------------------------------------
// Values
// ---------------------------------------------------------------------------

/// Two to the power `n`.
pub open spec fn two_to(n: nat) -> int {
    vstd::arithmetic::power2::pow2(n) as int
}

/// The fields of a double: a sign, eleven bits of exponent, and 52 bits of fraction.
pub struct DoubleFields {
    pub negative: bool,
    pub exponent: nat,
    pub fraction: nat,
}

impl DoubleFields {
    /// The fields are within their widths.
    pub open spec fn wf(self) -> bool {
        self.exponent < 2048 && self.fraction < 0x10_0000_0000_0000
    }

    /// A NaN has the greatest exponent and a fraction.
    pub open spec fn is_nan(self) -> bool {
        self.exponent == 2047 && self.fraction > 0
    }

    /// The bits that the fields make up.
    pub open spec fn bits(self) -> u64 {
        ((if self.negative {
            0x8000_0000_0000_0000int
        } else {
            0
        }) + self.exponent * 0x10_0000_0000_0000 + self.fraction) as u64
    }

    /// The absolute value, times two to the power 1074. The infinite value counts as the next
    /// one behind the greatest finite value.
    pub open spec fn scaled_magnitude(self) -> int {
        if self.exponent == 0 {
            self.fraction as int
        } else {
            (0x10_0000_0000_0000 + self.fraction) * two_to((self.exponent - 1) as nat)
        }
    }

    /// The value, times two to the power 1074.
    pub open spec fn scaled_value(self) -> int {
        if self.negative {
            -self.scaled_magnitude()
        } else {
            self.scaled_magnitude()
        }
    }
}

proof fn lemma_fields(d: DoubleFields)
    requires
        d.wf(),
    ensures
        score::magnitude_bits(d.bits()) == d.exponent * 0x10_0000_0000_0000 + d.fraction,
        score::sign_bit(d.bits()) == d.negative,
        score::magnitude_bits(d.bits()) / 0x10_0000_0000_0000 == d.exponent,
        score::magnitude_bits(d.bits()) % 0x10_0000_0000_0000 == d.fraction,
        score::is_nan_bits(d.bits()) == d.is_nan(),
{
}

/// Every pattern of bits is that of some fields.
pub proof fn law_bits_have_fields(bits: u64) -> (d: DoubleFields)
    ensures
        d.wf(),
        d.bits() == bits,
{
    DoubleFields {
        negative: bits >= 0x8000_0000_0000_0000,
        exponent: ((bits as int % 0x8000_0000_0000_0000) / 0x10_0000_0000_0000) as nat,
        fraction: (bits as int % 0x10_0000_0000_0000) as nat,
    }
}

proof fn lemma_pow2_step(n: nat)
    ensures
        two_to(n + 1) == 2 * two_to(n),
        two_to(n) > 0,
{
    vstd::arithmetic::power2::lemma_pow2_unfold(n + 1);
    vstd::arithmetic::power2::lemma_pow2_pos(n);
}

proof fn lemma_pow2_le(a: nat, b: nat)
    requires
        a <= b,
    ensures
        0 < two_to(a) <= two_to(b),
{
    vstd::arithmetic::power2::lemma_pow2_pos(a);
    if a < b {
        vstd::arithmetic::power2::lemma_pow2_strictly_increases(a, b);
    }
}

proof fn lemma_magnitude_grows(a: DoubleFields, b: DoubleFields)
    requires
        a.wf(),
        b.wf(),
        a.exponent < b.exponent || (a.exponent == b.exponent && a.fraction < b.fraction),
    ensures
        0 <= a.scaled_magnitude() < b.scaled_magnitude(),
{
    let c = 0x10_0000_0000_0000int;
    if b.exponent == 0 {
    } else {
        let q = two_to((b.exponent - 1) as nat) as int;
        lemma_pow2_le(0, (b.exponent - 1) as nat);
        vstd::arithmetic::power2::lemma2_to64();
        assert(c * q <= (c + b.fraction) * q) by (nonlinear_arith)
            requires
                q > 0,
                b.fraction >= 0,
        ;
        if a.exponent == 0 {
            assert(c <= c * q) by (nonlinear_arith)
                requires
                    q >= 1,
                    c == 0x10_0000_0000_0000int,
            ;
        } else {
            let p = two_to((a.exponent - 1) as nat) as int;
            lemma_pow2_step((a.exponent - 1) as nat);
            assert(0 <= (c + a.fraction) * p) by (nonlinear_arith)
                requires
                    p > 0,
                    c > 0,
                    a.fraction >= 0,
            ;
            if a.exponent == b.exponent {
                assert((c + a.fraction) * p < (c + b.fraction) * p) by (nonlinear_arith)
                    requires
                        p > 0,
                        a.fraction < b.fraction,
                ;
            } else {
                lemma_pow2_le(a.exponent, (b.exponent - 1) as nat);
                assert((c + a.fraction) * p < c * (2 * p)) by (nonlinear_arith)
                    requires
                        p > 0,
                        0 <= a.fraction < c,
                ;
                assert(c * (2 * p) <= c * q) by (nonlinear_arith)
                    requires
                        2 * p <= q,
                        c > 0,
                ;
            }
        }
    }
}

proof fn lemma_magnitude_zero(a: DoubleFields)
    requires
        a.wf(),
    ensures
        a.scaled_magnitude() >= 0,
        a.scaled_magnitude() == 0 <==> a.exponent == 0 && a.fraction == 0,
{
    if a.exponent > 0 {
        lemma_magnitude_grows(DoubleFields { negative: false, exponent: 0, fraction: 0 }, a);
    }
}

/// The number that orders doubles is less for the lesser value, and the same for the same
/// value; both zeros are the same value.
pub proof fn law_rank_orders_values(a: DoubleFields, b: DoubleFields)
    requires
        a.wf(),
        b.wf(),
        !a.is_nan(),
        !b.is_nan(),
    ensures
        score::score_rank(a.bits()) < score::score_rank(b.bits()) <==> a.scaled_value()
            < b.scaled_value(),
        score::score_rank(a.bits()) == score::score_rank(b.bits()) <==> a.scaled_value()
            == b.scaled_value(),
{
    lemma_fields(a);
    lemma_fields(b);
    lemma_magnitude_zero(a);
    lemma_magnitude_zero(b);
    let x = a.exponent * 0x10_0000_0000_0000 + a.fraction;
    let y = b.exponent * 0x10_0000_0000_0000 + b.fraction;
    if x < y {
        lemma_magnitude_grows(a, b);
    } else if y < x {
        lemma_magnitude_grows(b, a);
    } else {
        assert(a.exponent == b.exponent && a.fraction == b.fraction);
    }
}

proof fn lemma_local_pow2(n: nat)
    ensures
        score::pow2(n) == two_to(n),
    decreases n,
{
    if n == 0 {
        vstd::arithmetic::power2::lemma2_to64();
    } else {
        lemma_local_pow2((n - 1) as nat);
        vstd::arithmetic::power2::lemma_pow2_unfold(n);
    }
}

proof fn lemma_whole_fields(d: DoubleFields, v: int)
    requires
        d.wf(),
        v >= 0,
    ensures
        d.scaled_magnitude() == v * two_to(1074) && v <= 1_000_000_000_000_000_000 <==> (
        score::whole_magnitude(d.bits()) == Some(v as nat) && v <= 1_000_000_000_000_000_000),
{
    lemma_fields(d);
    let c = 0x10_0000_0000_0000int;
    let m = c + d.fraction;
    let big = two_to(1074) as int;
    vstd::arithmetic::power2::lemma2_to64();
    vstd::arithmetic::power2::lemma2_to64_rest();
    lemma_pow2_le(53, 1074);
    if d.exponent == 0 {
        assert(v * big == 0 <==> v == 0) by (nonlinear_arith)
            requires
                big > 0,
        ;
        assert(v > 0 ==> v * big >= big) by (nonlinear_arith)
            requires
                big > 0,
        ;
    } else if d.exponent < 1075 {
        let k = (1075 - d.exponent) as nat;
        let e = (d.exponent - 1) as nat;
        let p = two_to(k) as int;
        let q = two_to(e) as int;
        lemma_local_pow2(k);
        vstd::arithmetic::power2::lemma_pow2_adds(k, e);
        lemma_pow2_le(0, k);
        lemma_pow2_le(0, e);
        assert(v * big == (v * p) * q) by (nonlinear_arith)
            requires
                big == p * q,
        ;
        assert(m * q == (v * p) * q <==> m == v * p) by (nonlinear_arith)
            requires
                q > 0,
        ;
        if k <= 52 {
            assert(m == v * p <==> (m % p == 0 && m / p == v)) by {
                if m == v * p {
                    vstd::arithmetic::div_mod::lemma_fundamental_div_mod_converse(m, p, v, 0);
                }
                if m % p == 0 && m / p == v {
                    vstd::arithmetic::div_mod::lemma_fundamental_div_mod(m, p);
                    assert(p * v == v * p) by (nonlinear_arith);
                }
            }
        } else {
            lemma_pow2_le(53, k);
            assert(m != v * p) by (nonlinear_arith)
                requires
                    0 < m < p,
                    v >= 0,
            ;
        }
    } else {
        let k = (d.exponent - 1075) as nat;
        let p = two_to(k) as int;
        lemma_local_pow2(k);
        vstd::arithmetic::power2::lemma_pow2_adds(k, 1074);
        lemma_pow2_le(0, k);
        assert(m * two_to((d.exponent - 1) as nat) == (m * p) * big) by (nonlinear_arith)
            requires
                two_to((d.exponent - 1) as nat) == p * big,
        ;
        assert((m * p) * big == v * big <==> m * p == v) by (nonlinear_arith)
            requires
                big > 0,
        ;
        if k >= 8 {
            lemma_pow2_le(8, k);
            assert(m * p >= c * 256) by (nonlinear_arith)
                requires
                    m >= c,
                    p >= 256,
                    c > 0,
            ;
        }
    }
}

/// A double is written as a whole number exactly where its value is one within 10^18, and as
/// that number.
pub proof fn law_whole_score_is_value(d: DoubleFields, v: int)
    requires
        d.wf(),
    ensures
        score::whole_score(d.bits()) == Some(v) <==> d.scaled_value() == v * two_to(1074)
            && -1_000_000_000_000_000_000 <= v <= 1_000_000_000_000_000_000,
{
    lemma_fields(d);
    lemma_magnitude_zero(d);
    let n = if v < 0 {
        -v
    } else {
        v
    };
    lemma_whole_fields(d, n);
    let big = two_to(1074) as int;
    vstd::arithmetic::power2::lemma_pow2_pos(1074);
    assert((-v) * big == -(v * big)) by (nonlinear_arith);
    assert(v > 0 ==> v * big > 0) by (nonlinear_arith)
        requires
            big > 0,
    ;
    assert(v < 0 ==> v * big < 0) by (nonlinear_arith)
        requires
            big > 0,
    ;
}

// ---------------------------------------------------------------------------
// Sorted sets in packs
// ---------------------------------------------------------------------------

/// The first name is the second one, starts it, or has the lesser byte where they part.
pub open spec fn name_first(a: Seq<u8>, b: Seq<u8>) -> bool {
    exists|k: int| #[trigger] parts_at(a, b, k)
}

/// The names are the same up to `k`, where the first one ends or has the lesser byte.
pub open spec fn parts_at(a: Seq<u8>, b: Seq<u8>, k: int) -> bool {
    &&& 0 <= k <= a.len()
    &&& k <= b.len()
    &&& a.take(k) == b.take(k)
    &&& k == a.len() || (k < b.len() && a[k] < b[k])
}

/// The order of names is the one in which they part.
pub proof fn law_names_in_order(a: Seq<u8>, b: Seq<u8>)
    ensures
        order::lex_le(a, b) <==> name_first(a, b),
    decreases a.len(),
{
    if a.len() == 0 {
        assert(a.take(0) =~= b.take(0));
        assert(parts_at(a, b, 0));
    } else if b.len() == 0 {
        if name_first(a, b) {
            let k = choose|k: int| parts_at(a, b, k);
            assert(k == 0);
        }
    } else if a[0] != b[0] {
        if a[0] < b[0] {
            assert(a.take(0) =~= b.take(0));
            assert(parts_at(a, b, 0));
        }
        if name_first(a, b) {
            let k = choose|k: int| parts_at(a, b, k);
            if k > 0 {
                assert(a.take(k)[0] == b.take(k)[0]);
            }
        }
    } else {
        let x = a.drop_first();
        let y = b.drop_first();
        law_names_in_order(x, y);
        if name_first(x, y) {
            let k = choose|k: int| parts_at(x, y, k);
            assert(a.take(k + 1) =~= b.take(k + 1)) by {
                assert forall|i: int| 0 <= i < k + 1 implies a[i] == b[i] by {
                    if i > 0 {
                        assert(x.take(k)[i - 1] == y.take(k)[i - 1]);
                    }
                }
            }
            assert(parts_at(a, b, k + 1));
        }
        if name_first(a, b) {
            let k = choose|k: int| parts_at(a, b, k);
            assert(k > 0);
            assert(x.take(k - 1) =~= y.take(k - 1)) by {
                assert forall|i: int| 0 <= i < k - 1 implies x[i] == y[i] by {
                    assert(a.take(k)[i + 1] == b.take(k)[i + 1]);
                }
            }
            assert(parts_at(x, y, k - 1));
        }
    }
}

/// Keys are in order by their first number, then by their second, then by their names.
pub proof fn law_keys_in_order(a: KeyView, b: KeyView)
    ensures
        order::key_le(a, b) <==> a.major < b.major || (a.major == b.major && (a.minor < b.minor || (
        a.minor == b.minor && name_first(a.bytes, b.bytes)))),
{
    law_names_in_order(a.bytes, b.bytes);
}

/// The value of a score that is a double, times two to the power 1074.
pub open spec fn value_of(s: ScoreView) -> int {
    match s {
        ScoreView::Double { bits, text } => {
            let d = choose|d: DoubleFields| #[trigger] d.wf() && d.bits() == bits;
            d.scaled_value()
        },
        _ => 0,
    }
}

/// The value of a score is that of the fields of its bits.
pub proof fn law_value_of_fields(d: DoubleFields, text: Seq<u8>)
    requires
        d.wf(),
    ensures
        value_of(ScoreView::Double { bits: d.bits(), text }) == d.scaled_value(),
{
    let bits = d.bits();
    let e = choose|e: DoubleFields| #[trigger] e.wf() && e.bits() == bits;
    assert(d.wf() && d.bits() == bits);
    lemma_fields(d);
    lemma_fields(e);
}

/// Members stand by their values, equal values by their names.
pub open spec fn by_value(members: Seq<(Seq<u8>, ScoreView)>) -> bool {
    forall|i: int, j: int|
        0 <= i < j < members.len() ==> {
            let a = #[trigger] members[i];
            let b = #[trigger] members[j];
            value_of(a.1) < value_of(b.1) || (value_of(a.1) == value_of(b.1) && name_first(a.0, b.0))
        }
}

/// A sorted set that is read back from a pack stands by the values of its scores, equal values
/// by their names: there is such an order of its members of which it is the image.
pub proof fn law_packed_sorted_set_is_in_order(
    members: Seq<(Seq<u8>, ScoreView)>,
    compact: Option<CompactRdbThresholds>,
) -> (sorted: Seq<(Seq<u8>, ScoreView)>)
    requires
        rdb_compact::all_doubles(members),
        rdb_compact::none_is_nan(members),
        member_laws::is_packed(members, compact),
    ensures
        sorted.to_multiset() == members.to_multiset(),
        by_value(sorted),
        value_laws::loaded_zset(members, compact) == member_laws::kept_members(sorted, true),
{
    let sorted = order::sorted_by(members, rdb_compact::member_key());
    order::law_sorting_keeps_items(members, rdb_compact::member_key());
    order::law_sorted_in_order(members, rdb_compact::member_key());
    order::lemma_sorted_by_len(members, rdb_compact::member_key());
    assert forall|i: int, j: int| 0 <= i < j < sorted.len() implies ({
        let a = #[trigger] sorted[i];
        let b = #[trigger] sorted[j];
        value_of(a.1) < value_of(b.1) || (value_of(a.1) == value_of(b.1) && name_first(a.0, b.0))
    }) by {
        let a = sorted[i];
        let b = sorted[j];
        assert(members.contains(a) && members.contains(b));
        let x = law_bits_have_fields(a.1->bits);
        let y = law_bits_have_fields(b.1->bits);
        law_value_of_fields(x, a.1->text);
        law_value_of_fields(y, b.1->text);
        lemma_fields(x);
        lemma_fields(y);
        law_rank_orders_values(x, y);
        let key = rdb_compact::member_key();
        assert(order::key_le(key(sorted[i]), key(sorted[j])));
        law_names_in_order(a.0, b.0);
    }
    assert(value_laws::loaded_zset(members, compact) =~= member_laws::kept_members(sorted, true));
    sorted
}

} // verus!
