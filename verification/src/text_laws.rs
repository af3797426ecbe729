//! What holds of texts, whatever their characters.
use vstd::prelude::*;
use vstd::utf8::encode_utf8;
use crate::ordering::{lexicographic, preferred, text_order};
use crate::text::{
    concatenation, fits_in_key, is_white_space, occurrences, spaced, trimmed, without_leading_space,
    without_trailing_space,
};

verus! {

proof fn leading_space_is_a_prefix(s: Seq<char>) -> (a: int)
    ensures
        0 <= a <= s.len(),
        without_leading_space(s) == s.skip(a),
        forall|i: int| 0 <= i < a ==> is_white_space(#[trigger] s[i]),
    decreases s.len(),
{
    if s.len() > 0 && is_white_space(s[0]) {
        let rest = s.drop_first();
        let a = leading_space_is_a_prefix(rest);
        assert(rest.skip(a) == s.skip(a + 1));
        assert forall|i: int| 0 <= i < a + 1 implies is_white_space(#[trigger] s[i]) by {
            if i > 0 {
                assert(rest[i - 1] == s[i]);
            }
        }
        a + 1
    } else {
        assert(s.skip(0) == s);
        0
    }
}

proof fn trailing_space_is_a_suffix(s: Seq<char>) -> (b: int)
    ensures
        0 <= b <= s.len(),
        without_trailing_space(s) == s.take(b),
        forall|i: int| b <= i < s.len() ==> is_white_space(#[trigger] s[i]),
    decreases s.len(),
{
    if s.len() > 0 && is_white_space(s.last()) {
        let rest = s.drop_last();
        let b = trailing_space_is_a_suffix(rest);
        assert(rest.take(b) == s.take(b));
        assert forall|i: int| b <= i < s.len() implies is_white_space(#[trigger] s[i]) by {
            if i < rest.len() {
                assert(rest[i] == s[i]);
            }
        }
        b
    } else {
        assert(s.take(s.len() as int) == s);
        s.len() as int
    }
}

/// Trimming takes nothing but white space away, and only at the ends.
pub proof fn trimming_takes_white_space_only(s: Seq<char>)
    ensures
        exists|a: int, b: int|
            0 <= a <= b <= s.len() && trimmed(s) == #[trigger] s.subrange(a, b) && (forall|i: int|
                0 <= i < a || b <= i < s.len() ==> is_white_space(#[trigger] s[i])),
{
    let a = leading_space_is_a_prefix(s);
    let rest = s.skip(a);
    let c = trailing_space_is_a_suffix(rest);
    let b = a + c;
    assert(rest.take(c) == s.subrange(a, b));
    assert forall|i: int| 0 <= i < a || b <= i < s.len() implies is_white_space(
        #[trigger] s[i],
    ) by {
        if i >= b {
            assert(rest[i - a] == s[i]);
        }
    }
}

/// White space has the code points that Unicode gives the property to.
pub proof fn white_space_by_code_point(c: char)
    ensures
        is_white_space(c) <==> ({
            let u = c as u32;
            (9 <= u <= 13) || u == 32 || u == 133 || u == 160 || u == 5760 || (8192 <= u <= 8202)
                || u == 8232 || u == 8233 || u == 8239 || u == 8287 || u == 12288
        }),
{
}

/// A key of the index holds 250 bytes.
pub proof fn keys_hold_250_bytes(word: Seq<char>)
    ensures
        fits_in_key(word) <==> encode_utf8(word).len() <= 250,
{
}

/// One text is its own concatenation, and the concatenation of two lists of texts is that of the
/// first, followed by that of the second.
pub proof fn concatenation_joins(word: Seq<char>, left: Seq<Seq<char>>, right: Seq<Seq<char>>)
    ensures
        concatenation(seq![word]) == word,
        concatenation(left + right) == concatenation(left) + concatenation(right),
    decreases right.len(),
{
    assert(seq![word].drop_last() == Seq::<Seq<char>>::empty());
    assert(concatenation(seq![word].drop_last()) == Seq::<char>::empty());
    assert(concatenation(seq![word]) == Seq::<char>::empty() + word);
    if right.len() == 0 {
        assert(left + right == left);
        assert(concatenation(right) == Seq::<char>::empty());
        assert(concatenation(left) + concatenation(right) == concatenation(left));
    } else {
        concatenation_joins(word, left, right.drop_last());
        assert((left + right).drop_last() == left + right.drop_last());
        assert((left + right).last() == right.last());
        assert(concatenation(left) + (concatenation(right.drop_last()) + right.last()) == (
        concatenation(left) + concatenation(right.drop_last())) + right.last());
    }
}

/// One text has no space added, and between two lists of texts stands one space.
pub proof fn spaces_stand_between(word: Seq<char>, left: Seq<Seq<char>>, right: Seq<Seq<char>>)
    ensures
        spaced(seq![word]) == word,
        left.len() > 0 && right.len() > 0 ==> spaced(left + right) == spaced(left) + seq![' ']
            + spaced(right),
    decreases right.len(),
{
    if left.len() > 0 && right.len() > 0 {
        let all = left + right;
        assert(all.last() == right.last());
        assert(all.drop_last() == left + right.drop_last());
        if right.len() == 1 {
            assert(left + right.drop_last() == left);
            assert(spaced(all) == spaced(left) + seq![' '] + spaced(right));
        } else {
            spaces_stand_between(word, left, right.drop_last());
            assert(spaced(all) == spaced(left) + seq![' '] + spaced(right));
        }
    }
}

/// A character is counted as often as it stands in the parts of a text, and once in itself.
pub proof fn occurrences_add_up(left: Seq<char>, right: Seq<char>, c: char, d: char)
    ensures
        occurrences(left + right, c) == occurrences(left, c) + occurrences(right, c),
        occurrences(seq![d], c) == if c == d {
            1nat
        } else {
            0nat
        },
    decreases right.len(),
{
    assert(seq![d].drop_last() == Seq::<char>::empty());
    assert(occurrences(seq![d].drop_last(), c) == 0);
    if right.len() == 0 {
        assert(left + right == left);
    } else {
        occurrences_add_up(left, right.drop_last(), c, d);
        assert((left + right).drop_last() == left + right.drop_last());
    }
}

proof fn first_difference_decides<T>(
    left: Seq<T>,
    right: Seq<T>,
    order: spec_fn(T, T) -> bool,
    k: int,
)
    requires
        0 <= k <= left.len(),
        k <= right.len(),
        forall|i: int| 0 <= i < k ==> left[i] == right[i],
        k < left.len() && k < right.len() ==> left[k] != right[k],
    ensures
        lexicographic(left, right, order) == (k == left.len() || (k < right.len() && order(
            left[k],
            right[k],
        ))),
    decreases k,
{
    if k > 0 {
        let l = left.drop_first();
        let r = right.drop_first();
        assert(left[0] == right[0]);
        assert forall|i: int| 0 <= i < k - 1 implies l[i] == r[i] by {
            assert(left[i + 1] == right[i + 1]);
        }
        first_difference_decides(l, r, order, k - 1);
    }
}

/// Of two ways to split a text, the one with fewer words is preferred. Of two with as many words,
/// the one whose first word has more bytes is. Of two whose first words are as long, the first
/// words that differ decide: that which is the beginning of the other, or has the smaller character
/// where they differ first, is preferred.
pub proof fn paths_are_preferred_by_length(
    left: Seq<Seq<char>>,
    right: Seq<Seq<char>>,
    k: int,
    m: int,
)
    ensures
        left.len() < right.len() ==> preferred(left, right) && !preferred(right, left),
        left.len() == right.len() && left.len() > 0 && encode_utf8(left[0]).len() > encode_utf8(
            right[0],
        ).len() ==> preferred(left, right) && !preferred(right, left),
        left.len() == right.len() && 0 <= k < left.len() && encode_utf8(left[0]).len()
            == encode_utf8(right[0]).len() && (forall|i: int| 0 <= i < k ==> left[i] == right[i])
            && left[k] != right[k] && 0 <= m <= left[k].len() && m <= right[k].len() && (forall|
            i: int,
        |
            0 <= i < m ==> left[k][i] == right[k][i]) && (m == left[k].len() || (m < right[k].len()
            && left[k][m] < right[k][m])) ==> preferred(left, right) && !preferred(right, left),
{
    if left.len() == right.len() && 0 <= k < left.len() && encode_utf8(left[0]).len()
        == encode_utf8(right[0]).len() && (forall|i: int| 0 <= i < k ==> left[i] == right[i])
        && left[k] != right[k] && 0 <= m <= left[k].len() && m <= right[k].len() && (forall|i: int|
        0 <= i < m ==> left[k][i] == right[k][i]) && (m == left[k].len() || (m < right[k].len()
        && left[k][m] < right[k][m])) {
        first_difference_decides(left, right, text_order(), k);
        first_difference_decides(right, left, text_order(), k);
        first_difference_decides(left[k], right[k], crate::ordering::char_order(), m);
        first_difference_decides(right[k], left[k], crate::ordering::char_order(), m);
        if m == left[k].len() && m == right[k].len() {
            assert(left[k] == right[k]);
        }
    }
}

} // verus!
