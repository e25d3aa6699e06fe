//! Which texts are numbers.

use vstd::prelude::*;

use crate::decimal;
use crate::score;

verus! {

/// The text of a number in parts: digits, a point with digits behind it or none, and an exponent
/// or none.
pub struct NumberText {
    pub whole: Seq<u8>,
    pub point: bool,
    pub part: Seq<u8>,
    pub exponent: Option<(u8, Seq<u8>, Seq<u8>)>,
}

/// A sign or none.
pub open spec fn is_sign(s: Seq<u8>) -> bool {
    s.len() == 0 || s == seq![43u8] || s == seq![45u8]
}

/// There is a digit before or behind the point, and behind the letter of an exponent.
pub open spec fn parts_right(n: NumberText) -> bool {
    &&& decimal::all_digits(n.whole)
    &&& decimal::all_digits(n.part)
    &&& n.whole.len() + n.part.len() > 0
    &&& n.part.len() > 0 ==> n.point
    &&& (n.exponent matches Some((letter, sign, digits)) ==> (letter == 101 || letter == 69)
        && is_sign(sign) && decimal::all_digits(digits) && digits.len() > 0)
}

/// The text from the point on.
pub open spec fn behind_whole(n: NumberText) -> Seq<u8> {
    (if n.point {
        seq![46u8] + n.part
    } else {
        Seq::empty()
    }) + exponent_text(n)
}

/// The text of the exponent.
pub open spec fn exponent_text(n: NumberText) -> Seq<u8> {
    match n.exponent {
        Some((letter, sign, digits)) => seq![letter] + (sign + digits),
        None => Seq::empty(),
    }
}

/// The text of a number behind its sign.
pub open spec fn number_text(n: NumberText) -> Seq<u8> {
    n.whole + behind_whole(n)
}

/// The text is one of the words for what is no ordinary number, in any mix of cases.
pub open spec fn is_special(s: Seq<u8>) -> bool {
    ||| s.len() == 3 && (s[0] == 105 || s[0] == 73) && (s[1] == 110 || s[1] == 78) && (s[2] == 102
        || s[2] == 70)
    ||| s.len() == 3 && (s[0] == 110 || s[0] == 78) && (s[1] == 97 || s[1] == 65) && (s[2] == 110
        || s[2] == 78)
    ||| s.len() == 8 && (s[0] == 105 || s[0] == 73) && (s[1] == 110 || s[1] == 78) && (s[2] == 102
        || s[2] == 70) && (s[3] == 105 || s[3] == 73) && (s[4] == 110 || s[4] == 78) && (s[5] == 105
        || s[5] == 73) && (s[6] == 116 || s[6] == 84) && (s[7] == 121 || s[7] == 89)
}

proof fn lemma_digits_run(s: Seq<u8>, i: int, end: int)
    requires
        0 <= i <= end <= s.len(),
        forall|k: int| i <= k < end ==> 48 <= #[trigger] s[k] <= 57,
        end == s.len() || !(48 <= s[end] <= 57),
    ensures
        score::digits_end(s, i) == end,
    decreases end - i,
{
    if i < end {
        lemma_digits_run(s, i + 1, end);
    }
}

proof fn lemma_skip(s: Seq<u8>, i: int, t: Seq<u8>)
    requires
        0 <= i <= s.len(),
        s.skip(i) == t,
    ensures
        s.len() == i + t.len(),
        forall|k: int| 0 <= k < t.len() ==> s[i + k] == #[trigger] t[k],
        forall|k: int| i <= k < s.len() ==> #[trigger] s[k] == t[k - i],
{
    assert forall|k: int| 0 <= k < t.len() implies s[i + k] == #[trigger] t[k] by {
        assert(s.skip(i)[k] == s[i + k]);
    }
    assert forall|k: int| i <= k < s.len() implies #[trigger] s[k] == t[k - i] by {
        assert(s.skip(i)[k - i] == s[k]);
    }
}

proof fn lemma_behind(s: Seq<u8>, i: int, a: Seq<u8>, b: Seq<u8>)
    requires
        0 <= i <= s.len(),
        s.skip(i) == a + b,
    ensures
        i + a.len() <= s.len(),
        s.skip(i + a.len()) == b,
        forall|k: int| i <= k < i + a.len() ==> #[trigger] s[k] == a[k - i],
{
    lemma_skip(s, i, a + b);
    assert forall|k: int| i <= k < i + a.len() implies #[trigger] s[k] == a[k - i] by {
        assert(s[k] == (a + b)[k - i]);
    }
    assert forall|k: int| 0 <= k < b.len() implies #[trigger] s.skip(i + a.len())[k] == b[k] by {
        assert(s[i + (a.len() + k)] == (a + b)[a.len() + k]);
    }
    assert(s.skip(i + a.len()) =~= b);
}

proof fn lemma_exponent_form(s: Seq<u8>, i: int, n: NumberText)
    requires
        parts_right(n),
        0 <= i <= s.len(),
        s.skip(i) == exponent_text(n),
    ensures
        score::is_exponent(s, i),
{
    if let Some((letter, sign, digits)) = n.exponent {
        let j = i + 1 + sign.len();
        lemma_behind(s, i, seq![letter], sign + digits);
        lemma_behind(s, i + 1, sign, digits);
        lemma_skip(s, j, digits);
        assert(s[i] == letter);
        assert(s[j] == digits[0]);
        assert forall|k: int| j <= k < s.len() implies 48 <= #[trigger] s[k] <= 57 by {
            assert(s[k] == digits[k - j]);
        }
        if sign.len() > 0 {
            assert(s[i + 1] == sign[0]);
        }
        lemma_digits_run(s, j, s.len() as int);
    } else {
        lemma_skip(s, i, exponent_text(n));
    }
}

proof fn lemma_exponent_mark(s: Seq<u8>, i: int, n: NumberText)
    requires
        parts_right(n),
        0 <= i < s.len(),
        s.skip(i) == exponent_text(n),
    ensures
        s[i] == 101 || s[i] == 69,
{
    lemma_skip(s, i, exponent_text(n));
    assert(s[i] == exponent_text(n)[0]);
}

proof fn lemma_number_form(s: Seq<u8>, i: int, n: NumberText)
    requires
        parts_right(n),
        0 <= i <= s.len(),
        s.skip(i) == number_text(n),
    ensures
        score::is_number(s, i),
{
    let w = i + n.whole.len();
    let e = exponent_text(n);
    lemma_behind(s, i, n.whole, behind_whole(n));
    assert forall|k: int| i <= k < w implies 48 <= #[trigger] s[k] <= 57 by {
        assert(s[k] == n.whole[k - i]);
    }
    if n.point {
        let p = w + 1 + n.part.len();
        let head = seq![46u8] + n.part;
        lemma_behind(s, w, head, e);
        assert(s[w] == head[0]);
        assert forall|k: int| w + 1 <= k < p implies 48 <= #[trigger] s[k] <= 57 by {
            assert(s[k] == head[k - w]);
            assert(head[k - w] == n.part[k - w - 1]);
        }
        if p < s.len() {
            lemma_exponent_mark(s, p, n);
        }
        lemma_digits_run(s, i, w);
        lemma_digits_run(s, w + 1, p);
        lemma_exponent_form(s, p, n);
    } else {
        assert(behind_whole(n) =~= e);
        if w < s.len() {
            lemma_exponent_mark(s, w, n);
        }
        lemma_digits_run(s, i, w);
        lemma_exponent_form(s, w, n);
    }
}

/// A number with its parts, behind a sign or none, is the text of a double, and no NaN.
pub proof fn law_number_is_a_double(sign: Seq<u8>, n: NumberText)
    requires
        is_sign(sign),
        parts_right(n),
    ensures
        score::is_double_text(sign + number_text(n)),
        !score::is_nan_text(sign + number_text(n)),
{
    let t = number_text(n);
    let s = sign + t;
    let first = if n.whole.len() > 0 {
        n.whole[0]
    } else {
        46u8
    };
    assert(t[0] == first) by {
        if n.whole.len() == 0 {
            assert(t =~= behind_whole(n));
        }
    }
    assert(s[sign.len() as int] == t[0]);
    if sign.len() > 0 {
        assert(s[0] == sign[0]);
    }
    assert(score::sign_end(s) == sign.len());
    assert(s.skip(sign.len() as int) =~= t);
    lemma_number_form(s, sign.len() as int, n);
    if score::is_word(t, score::nan_word()) {
        assert(score::is_letter(t[0], score::nan_word()[0]));
    }
}

/// The words for infinity and for what is no number, behind a sign or none, are texts of
/// doubles.
pub proof fn law_special_is_a_double(sign: Seq<u8>, word: Seq<u8>)
    requires
        is_sign(sign),
        is_special(word),
    ensures
        score::is_double_text(sign + word),
        score::is_nan_text(sign + word) <==> word[1] == 97 || word[1] == 65,
{
    let s = sign + word;
    assert(s[sign.len() as int] == word[0]);
    if sign.len() > 0 {
        assert(s[0] == sign[0]);
    }
    assert(score::sign_end(s) == sign.len());
    assert(s.skip(sign.len() as int) =~= word);
    if word[1] == 97 || word[1] == 65 {
        assert(score::is_word(word, score::nan_word()));
    } else {
        if word.len() == 3 {
            assert(score::is_word(word, score::inf_word()));
        } else {
            assert(score::is_word(word, score::infinity_word()));
        }
        if score::is_word(word, score::nan_word()) {
            assert(score::is_letter(word[1], score::nan_word()[1]));
        }
    }
}

proof fn lemma_digits_found(s: Seq<u8>, i: int)
    requires
        0 <= i <= s.len(),
    ensures
        i <= score::digits_end(s, i) <= s.len(),
        forall|k: int| i <= k < score::digits_end(s, i) ==> 48 <= #[trigger] s[k] <= 57,
    decreases s.len() - i,
{
    if i < s.len() && 48 <= s[i] <= 57 {
        lemma_digits_found(s, i + 1);
    }
}

/// The exponent that stands at an offset.
proof fn exponent_found(s: Seq<u8>, i: int) -> (e: Option<(u8, Seq<u8>, Seq<u8>)>)
    requires
        0 <= i <= s.len(),
        score::is_exponent(s, i),
    ensures
        e matches Some((letter, sign, digits)) ==> (letter == 101 || letter == 69) && is_sign(sign)
            && decimal::all_digits(digits) && digits.len() > 0 && s.skip(i) == seq![letter] + (sign
            + digits),
        e is None ==> i == s.len(),
{
    if i == s.len() {
        None
    } else {
        let j = if i + 1 < s.len() && (s[i + 1] == 43 || s[i + 1] == 45) {
            i + 2
        } else {
            i + 1
        };
        lemma_digits_found(s, j);
        let sign = s.subrange(i + 1, j);
        let digits = s.skip(j);
        assert(sign.len() > 0 ==> sign =~= seq![s[i + 1]]);
        assert forall|k: int| 0 <= k < digits.len() implies 48 <= #[trigger] digits[k] <= 57 by {
            assert(digits[k] == s[j + k]);
        }
        assert(s.skip(i) =~= seq![s[i]] + (sign + digits));
        Some((s[i], sign, digits))
    }
}

/// The parts of the number that stands at an offset.
proof fn number_found(s: Seq<u8>, i: int) -> (n: NumberText)
    requires
        0 <= i <= s.len(),
        score::is_number(s, i),
    ensures
        parts_right(n),
        s.skip(i) == number_text(n),
{
    let w = score::digits_end(s, i);
    lemma_digits_found(s, i);
    let whole = s.subrange(i, w);
    assert forall|k: int| 0 <= k < whole.len() implies 48 <= #[trigger] whole[k] <= 57 by {
        assert(whole[k] == s[i + k]);
    }
    if w < s.len() && s[w] == 46 {
        let p = score::digits_end(s, w + 1);
        lemma_digits_found(s, w + 1);
        let part = s.subrange(w + 1, p);
        assert forall|k: int| 0 <= k < part.len() implies 48 <= #[trigger] part[k] <= 57 by {
            assert(part[k] == s[w + 1 + k]);
        }
        let e = exponent_found(s, p);
        let n = NumberText { whole, point: true, part, exponent: e };
        assert(s.skip(p) =~= exponent_text(n));
        assert(s.skip(i) =~= whole + ((seq![46u8] + part) + s.skip(p)));
        n
    } else {
        let e = exponent_found(s, w);
        let n = NumberText { whole, point: false, part: Seq::empty(), exponent: e };
        assert(s.skip(w) =~= exponent_text(n));
        assert(behind_whole(n) =~= exponent_text(n));
        assert(s.skip(i) =~= whole + s.skip(w));
        n
    }
}

/// The text is made of a sign or none and a number.
pub open spec fn is_made_of(s: Seq<u8>, sign: Seq<u8>, n: NumberText) -> bool {
    is_sign(sign) && parts_right(n) && s == sign + number_text(n)
}

/// The text is made of a sign or none and a word.
pub open spec fn is_spelled(s: Seq<u8>, sign: Seq<u8>, word: Seq<u8>) -> bool {
    is_sign(sign) && is_special(word) && s == sign + word
}

/// Nothing else is the text of a double.
pub proof fn law_double_texts(s: Seq<u8>)
    requires
        score::is_double_text(s),
    ensures
        (exists|sign: Seq<u8>, n: NumberText| #[trigger] is_made_of(s, sign, n)) || (exists|
            sign: Seq<u8>,
            word: Seq<u8>,
        | #[trigger]
            is_spelled(s, sign, word)),
{
    let at = score::sign_end(s);
    let sign = s.take(at);
    let rest = s.skip(at);
    assert(s =~= sign + rest);
    assert(sign.len() > 0 ==> sign =~= seq![s[0]]);
    if score::is_number(s, at) {
        let n = number_found(s, at);
        assert(is_made_of(s, sign, n));
    } else {
        if score::is_word(rest, score::nan_word()) {
            let word = score::nan_word();
            assert(score::is_letter(rest[0], word[0]));
            assert(score::is_letter(rest[1], word[1]));
            assert(score::is_letter(rest[2], word[2]));
        } else if score::is_word(rest, score::inf_word()) {
            let word = score::inf_word();
            assert(score::is_letter(rest[0], word[0]));
            assert(score::is_letter(rest[1], word[1]));
            assert(score::is_letter(rest[2], word[2]));
        } else {
            let word = score::infinity_word();
            assert(score::is_letter(rest[0], word[0]));
            assert(score::is_letter(rest[1], word[1]));
            assert(score::is_letter(rest[2], word[2]));
            assert(score::is_letter(rest[3], word[3]));
            assert(score::is_letter(rest[4], word[4]));
            assert(score::is_letter(rest[5], word[5]));
            assert(score::is_letter(rest[6], word[6]));
            assert(score::is_letter(rest[7], word[7]));
        }
        assert(is_spelled(s, sign, rest));
    }
}

} // verus!
