//! The order in which segmentations of a text are preferred.
use vstd::prelude::*;
use vstd::relations::{
    antisymmetric, reflexive, sorted_by, strongly_connected, total_ordering, transitive,
};
use vstd::utf8::encode_utf8;
use crate::text::{byte_len, chars_of};

verus! {

/// Whether a sequence comes before another, or equals it, in the lexicographic order that an order
/// of the items gives.
pub open spec fn lexicographic<T>(left: Seq<T>, right: Seq<T>, order: spec_fn(T, T) -> bool) -> bool
    decreases left.len(),
{
    if left.len() == 0 {
        true
    } else if right.len() == 0 {
        false
    } else if left[0] == right[0] {
        lexicographic(left.drop_first(), right.drop_first(), order)
    } else {
        order(left[0], right[0])
    }
}

/// The lexicographic order that an order of the items gives.
pub open spec fn lexicographic_order<T>(order: spec_fn(T, T) -> bool) -> spec_fn(
    Seq<T>,
    Seq<T>,
) -> bool {
    |left: Seq<T>, right: Seq<T>| lexicographic(left, right, order)
}

proof fn lexicographic_is_reflexive<T>(s: Seq<T>, order: spec_fn(T, T) -> bool)
    ensures
        lexicographic(s, s, order),
    decreases s.len(),
{
    if s.len() > 0 {
        lexicographic_is_reflexive(s.drop_first(), order);
    }
}

proof fn lexicographic_is_antisymmetric<T>(
    left: Seq<T>,
    right: Seq<T>,
    order: spec_fn(T, T) -> bool,
)
    requires
        antisymmetric(order),
        lexicographic(left, right, order),
        lexicographic(right, left, order),
    ensures
        left == right,
    decreases left.len(),
{
    if left.len() > 0 && right.len() > 0 {
        if left[0] == right[0] {
            lexicographic_is_antisymmetric(left.drop_first(), right.drop_first(), order);
            assert(left == seq![left[0]] + left.drop_first());
            assert(right == seq![right[0]] + right.drop_first());
        } else {
            assert(order(left[0], right[0]) && order(right[0], left[0]));
        }
    } else {
        assert(left =~= right);
    }
}

proof fn lexicographic_is_transitive<T>(
    left: Seq<T>,
    middle: Seq<T>,
    right: Seq<T>,
    order: spec_fn(T, T) -> bool,
)
    requires
        antisymmetric(order),
        transitive(order),
        lexicographic(left, middle, order),
        lexicographic(middle, right, order),
    ensures
        lexicographic(left, right, order),
    decreases left.len(),
{
    if left.len() > 0 && middle.len() > 0 && right.len() > 0 {
        if left[0] == middle[0] && middle[0] == right[0] {
            lexicographic_is_transitive(
                left.drop_first(),
                middle.drop_first(),
                right.drop_first(),
                order,
            );
        } else if left[0] != middle[0] && middle[0] != right[0] {
            assert(order(left[0], middle[0]) && order(middle[0], right[0]));
            assert(order(left[0], right[0]));
            if left[0] == right[0] {
                assert(order(middle[0], left[0]));
            }
        }
    }
}

proof fn lexicographic_is_total<T>(left: Seq<T>, right: Seq<T>, order: spec_fn(T, T) -> bool)
    requires
        strongly_connected(order),
    ensures
        lexicographic(left, right, order) || lexicographic(right, left, order),
    decreases left.len(),
{
    if left.len() > 0 && right.len() > 0 {
        if left[0] == right[0] {
            lexicographic_is_total(left.drop_first(), right.drop_first(), order);
        } else {
            assert(order(left[0], right[0]) || order(right[0], left[0]));
        }
    }
}

/// The lexicographic order of a total order is total.
pub proof fn lexicographic_order_is_total<T>(order: spec_fn(T, T) -> bool)
    requires
        total_ordering(order),
    ensures
        total_ordering(lexicographic_order(order)),
{
    let lex = lexicographic_order(order);
    assert forall|s: Seq<T>| #[trigger] lex(s, s) by {
        lexicographic_is_reflexive(s, order);
    }
    assert forall|x: Seq<T>, y: Seq<T>| #[trigger] lex(x, y) && #[trigger] lex(y, x) implies x
        == y by {
        lexicographic_is_antisymmetric(x, y, order);
    }
    assert forall|x: Seq<T>, y: Seq<T>, z: Seq<T>| #[trigger]
        lex(x, y) && #[trigger] lex(y, z) implies lex(x, z) by {
        lexicographic_is_transitive(x, y, z, order);
    }
    assert forall|x: Seq<T>, y: Seq<T>| #[trigger] lex(x, y) || #[trigger] lex(y, x) by {
        lexicographic_is_total(x, y, order);
    }
}

/// Characters in the order of their code points.
pub open spec fn char_order() -> spec_fn(char, char) -> bool {
    |left: char, right: char| left <= right
}

/// Texts in the lexicographic order of their code points, which is that of their UTF-8 bytes.
pub open spec fn text_order() -> spec_fn(Seq<char>, Seq<char>) -> bool {
    lexicographic_order(char_order())
}

proof fn char_order_is_total()
    ensures
        total_ordering(char_order()),
{
}

/// Whether a text comes before another, or equals it.
fn text_at_most(left: &String, right: &String) -> (b: bool)
    ensures
        b == text_order()(left@, right@),
{
    let left_chars = chars_of(left.as_str());
    let right_chars = chars_of(right.as_str());
    let ghost order = char_order();
    let mut i: usize = 0;
    assert(left@.skip(0) == left@);
    assert(right@.skip(0) == right@);
    while i < left_chars.len() && i < right_chars.len()
        invariant
            order == char_order(),
            left_chars@ == left@,
            right_chars@ == right@,
            i <= left_chars.len(),
            i <= right_chars.len(),
            lexicographic(left@, right@, order) == lexicographic(
                left@.skip(i as int),
                right@.skip(i as int),
                order,
            ),
        decreases left_chars.len() - i,
    {
        let l: char = left_chars[i];
        let r: char = right_chars[i];
        assert(left@.skip(i as int)[0] == l);
        assert(right@.skip(i as int)[0] == r);
        if l != r {
            return l <= r;
        }
        assert(left@.skip(i as int).drop_first() == left@.skip(i + 1));
        assert(right@.skip(i as int).drop_first() == right@.skip(i + 1));
        i = i + 1;
    }
    i == left_chars.len()
}

/// The number of bytes of the first word of a path; less than any such number where it has none.
pub open spec fn first_len(path: Seq<Seq<char>>) -> int {
    if path.len() == 0 {
        -1
    } else {
        encode_utf8(path[0]).len() as int
    }
}

/// Whether a path is preferred to another, or equals it: the one with fewer words; with as many
/// words, the one with the longer first word; else the one that is first lexicographically.
pub open spec fn preferred(left: Seq<Seq<char>>, right: Seq<Seq<char>>) -> bool {
    if left.len() != right.len() {
        left.len() < right.len()
    } else if first_len(left) != first_len(right) {
        first_len(left) > first_len(right)
    } else {
        lexicographic(left, right, text_order())
    }
}

/// Paths, the preferred ones first.
pub open spec fn preference() -> spec_fn(Seq<Seq<char>>, Seq<Seq<char>>) -> bool {
    |left: Seq<Seq<char>>, right: Seq<Seq<char>>| preferred(left, right)
}

/// Of two different paths, exactly one is preferred, and preference is transitive.
pub proof fn preference_is_total()
    ensures
        total_ordering(preference()),
{
    char_order_is_total();
    lexicographic_order_is_total(char_order());
    lexicographic_order_is_total(text_order());
    let lex = lexicographic_order(text_order());
    let order = preference();
    assert forall|x: Seq<Seq<char>>| #[trigger] order(x, x) by {
        assert(lex(x, x));
    }
    assert forall|x: Seq<Seq<char>>, y: Seq<Seq<char>>| #[trigger]
        order(x, y) && #[trigger] order(y, x) implies x == y by {
        assert(lex(x, y) && lex(y, x));
    }
    assert forall|x: Seq<Seq<char>>, y: Seq<Seq<char>>, z: Seq<Seq<char>>| #[trigger]
        order(x, y) && #[trigger] order(y, z) implies order(x, z) by {
        if x.len() == y.len() && y.len() == z.len() && first_len(x) == first_len(y) && first_len(y)
            == first_len(z) {
            assert(lex(x, y) && lex(y, z));
            assert(lex(x, z));
        }
    }
    assert forall|x: Seq<Seq<char>>, y: Seq<Seq<char>>| #[trigger]
        order(x, y) || #[trigger] order(y, x) by {
        assert(lex(x, y) || lex(y, x));
    }
}

/// Whether a list of words comes lexicographically before another, or equals it.
fn words_at_most(left: &Vec<String>, right: &Vec<String>) -> (b: bool)
    ensures
        b == lexicographic(left.deep_view(), right.deep_view(), text_order()),
{
    let ghost order = text_order();
    let ghost l = left.deep_view();
    let ghost r = right.deep_view();
    let mut i: usize = 0;
    assert(l.skip(0) == l);
    assert(r.skip(0) == r);
    while i < left.len() && i < right.len()
        invariant
            order == text_order(),
            l == left.deep_view(),
            r == right.deep_view(),
            i <= left.len(),
            i <= right.len(),
            lexicographic(l, r, order) == lexicographic(l.skip(i as int), r.skip(i as int), order),
        decreases left.len() - i,
    {
        assert(l.skip(i as int)[0] == left[i as int]@);
        assert(r.skip(i as int)[0] == right[i as int]@);
        if left[i] != right[i] {
            return text_at_most(&left[i], &right[i]);
        }
        assert(l.skip(i as int).drop_first() == l.skip(i + 1));
        assert(r.skip(i as int).drop_first() == r.skip(i + 1));
        i = i + 1;
    }
    i == left.len()
}

/// Whether a path is preferred to another, or equals it.
pub fn is_preferred(left: &Vec<String>, right: &Vec<String>) -> (b: bool)
    ensures
        b == preferred(left.deep_view(), right.deep_view()),
{
    if left.len() != right.len() {
        return left.len() < right.len();
    }
    if left.len() > 0 {
        let l: usize = byte_len(left[0].as_str());
        let r: usize = byte_len(right[0].as_str());
        if l != r {
            return l > r;
        }
    }
    words_at_most(left, right)
}

/// Adds a path to a list of paths at its place in the order of preference.
pub fn insert_path(paths: &mut Vec<Vec<String>>, path: Vec<String>)
    requires
        sorted_by(old(paths).deep_view(), preference()),
    ensures
        sorted_by(final(paths).deep_view(), preference()),
        final(paths).deep_view().to_multiset() == old(paths).deep_view().to_multiset().insert(
            path.deep_view(),
        ),
{
    let ghost before = paths.deep_view();
    let ghost added = path.deep_view();
    let ghost order = preference();
    proof {
        preference_is_total();
    }
    let mut i: usize = 0;
    while i < paths.len() && is_preferred(&paths[i], &path)
        invariant
            order == preference(),
            before == paths.deep_view(),
            added == path.deep_view(),
            i <= paths.len(),
            forall|j: int| 0 <= j < i ==> order(#[trigger] before[j], added),
        decreases paths.len() - i,
    {
        i = i + 1;
    }
    paths.insert(i, path);
    proof {
        let after = paths.deep_view();
        assert(after == before.insert(i as int, added));
        vstd::seq_lib::to_multiset_insert(before, i as int, added);
        if i < before.len() {
            assert(order(before[i as int], added) || order(added, before[i as int]));
        }
        assert forall|j: int| i <= j < before.len() implies order(added, #[trigger] before[j]) by {
            if i < j {
                assert(order(before[i as int], before[j]));
            }
        }
        assert forall|a: int, b: int| 0 <= a < b < after.len() implies #[trigger] order(
            after[a],
            after[b],
        ) by {
            if a == i {
                assert(order(added, before[b - 1]));
            } else if b == i {
                assert(order(before[a], added));
            } else {
                let x = if a < i { a } else { a - 1 };
                let y = if b < i { b } else { b - 1 };
                assert(order(before[x], before[y]));
            }
        }
    }
}

} // verus!
