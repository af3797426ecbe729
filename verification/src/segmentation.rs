//! Splitting a text into words of the index.
//!
//! The tokens of a query and those of a document can have different boundaries in Japanese. A text
//! is split here again, into words that the index holds, whatever the tokens were.
use vstd::prelude::*;
use vstd::relations::sorted_by;
use vstd::seq_lib::lemma_sorted_unique;
use vstd::utf8::encode_utf8;
use crate::context::SearchContext;
use crate::ordering::{first_len, insert_path, preference, preference_is_total, preferred};
use crate::plain::{pushing_deepens, Plain};
use crate::text::{byte_len, concatenation, fits_in_key, MAX_WORD_LENGTH};

verus! {

/// The number of segmentations of a text that are kept.
pub const MAX_RESEGMENTATION_PATHS: usize = 5;

/// Whether a word of the index can be searched for.
pub open spec fn is_indexed_word(dictionary: Set<Seq<u8>>, word: Seq<char>) -> bool {
    fits_in_key(word) && dictionary.contains(encode_utf8(word))
}

/// The preferred paths among some.
pub open spec fn shortlist(paths: Seq<Seq<Seq<char>>>) -> Seq<Seq<Seq<char>>> {
    let sorted = paths.sort_by(preference());
    if sorted.len() <= MAX_RESEGMENTATION_PATHS {
        sorted
    } else {
        sorted.take(MAX_RESEGMENTATION_PATHS as int)
    }
}

/// Paths that start with a word and go on as some others do.
pub open spec fn prefixed(word: Seq<char>, paths: Seq<Seq<Seq<char>>>) -> Seq<Seq<Seq<char>>> {
    Seq::new(paths.len(), |i: int| seq![word] + paths[i])
}

/// The kept segmentations of what follows the character `start` of a text: the preferred ones
/// among those that go on, after a first word, with a kept segmentation of the rest.
pub open spec fn paths_from(dictionary: Set<Seq<u8>>, value: Seq<char>, start: int) -> Seq<
    Seq<Seq<char>>,
>
    decreases value.len() - start, value.len() + 1,
{
    if start < 0 || start >= value.len() {
        seq![Seq::empty()]
    } else {
        shortlist(extensions(dictionary, value, start, value.len() as int))
    }
}

/// The segmentations of what follows the character `start` of a text whose first word ends at or
/// before the character `end` and that go on with a kept segmentation of the rest.
pub open spec fn extensions(
    dictionary: Set<Seq<u8>>,
    value: Seq<char>,
    start: int,
    end: int,
) -> Seq<Seq<Seq<char>>>
    decreases value.len() - start, end,
{
    if start < 0 || end <= start || end > value.len() {
        Seq::empty()
    } else {
        first_word_extensions(dictionary, value, start, end) + extensions(
            dictionary,
            value,
            start,
            end - 1,
        )
    }
}

/// The segmentations of what follows the character `start` of a text whose first word ends at the
/// character `end` and that go on with a kept segmentation of the rest.
pub open spec fn first_word_extensions(
    dictionary: Set<Seq<u8>>,
    value: Seq<char>,
    start: int,
    end: int,
) -> Seq<Seq<Seq<char>>>
    decreases value.len() - start, 0int,
{
    if start < 0 || end <= start || end > value.len() {
        Seq::empty()
    } else {
        let word = value.subrange(start, end);
        if is_indexed_word(dictionary, word) {
            prefixed(word, paths_from(dictionary, value, end))
        } else {
            Seq::empty()
        }
    }
}

/// The kept segmentations of a text into words of the index, the preferred ones first; none of the
/// empty text.
pub open spec fn resegmentations(dictionary: Set<Seq<u8>>, value: Seq<char>) -> Seq<
    Seq<Seq<char>>,
> {
    if value.len() == 0 {
        Seq::empty()
    } else {
        paths_from(dictionary, value, 0)
    }
}

/// A path that starts with a word.
fn prefixed_path(word: &str, suffix: &Vec<String>) -> (path: Vec<String>)
    ensures
        path.deep_view() == seq![word@] + suffix.deep_view(),
{
    let mut path: Vec<String> = Vec::new();
    path.push(word.to_owned());
    let mut i: usize = 0;
    assert(path.deep_view() == seq![word@] + suffix.deep_view().take(0));
    while i < suffix.len()
        invariant
            i <= suffix.len(),
            path.deep_view() == seq![word@] + suffix.deep_view().take(i as int),
        decreases suffix.len() - i,
    {
        let ghost before = path;
        let item = suffix[i].duplicate();
        path.push(item);
        proof {
            pushing_deepens(before, path, item);
        }
        assert(path.deep_view() == seq![word@] + suffix.deep_view().take(i + 1));
        i = i + 1;
    }
    assert(suffix.deep_view().take(i as int) == suffix.deep_view());
    path
}

/// Adds, at their places in the order of preference, the paths that start with a word and go on as
/// some others do.
fn insert_prefixed(candidates: &mut Vec<Vec<String>>, word: &str, suffixes: &Vec<Vec<String>>)
    requires
        sorted_by(old(candidates).deep_view(), preference()),
    ensures
        sorted_by(final(candidates).deep_view(), preference()),
        final(candidates).deep_view().to_multiset() == old(
            candidates,
        ).deep_view().to_multiset().add(prefixed(word@, suffixes.deep_view()).to_multiset()),
{
    let ghost before = candidates.deep_view().to_multiset();
    let ghost all = prefixed(word@, suffixes.deep_view());
    let mut i: usize = 0;
    proof {
        broadcast use vstd::seq_lib::group_to_multiset_ensures;

        assert(all.take(0) == Seq::<Seq<Seq<char>>>::empty());
        assert(before.add(all.take(0).to_multiset()) =~= before);
    }
    while i < suffixes.len()
        invariant
            i <= suffixes.len(),
            all == prefixed(word@, suffixes.deep_view()),
            sorted_by(candidates.deep_view(), preference()),
            candidates.deep_view().to_multiset() == before.add(all.take(i as int).to_multiset()),
        decreases suffixes.len() - i,
    {
        let path = prefixed_path(word, &suffixes[i]);
        proof {
            assert(path.deep_view() == all[i as int]);
            assert(all.take(i + 1) == all.take(i as int).push(all[i as int]));
            vstd::seq_lib::to_multiset_build(all.take(i as int), all[i as int]);
            assert(before.add(all.take(i + 1).to_multiset()) =~= before.add(
                all.take(i as int).to_multiset(),
            ).insert(all[i as int]));
        }
        insert_path(candidates, path);
        i = i + 1;
    }
    assert(all.take(i as int) == all);
}

/// The kept segmentations of what follows a character of a text, from those of what follows each
/// later character; `tails[k]` holds those of the last `k` characters.
fn kept_paths(
    ctx: &SearchContext<'_>,
    value: &str,
    start: usize,
    tails: &Vec<Vec<Vec<String>>>,
) -> (candidates: Vec<Vec<String>>)
    requires
        start < value@.len(),
        tails.len() == value@.len() - start,
        forall|k: int|
            0 <= k < tails.len() ==> #[trigger] tails.deep_view()[k] == paths_from(
                ctx.dictionary(),
                value@,
                value@.len() - k,
            ),
    ensures
        candidates.deep_view() == paths_from(ctx.dictionary(), value@, start as int),
{
    let ghost dictionary = ctx.dictionary();
    let chars: usize = value.unicode_len();
    let ghost all = extensions(dictionary, value@, start as int, chars as int);
    let ghost mut done: Seq<Seq<Seq<char>>> = Seq::empty();
    let mut candidates: Vec<Vec<String>> = Vec::new();
    let mut end: usize = chars;
    assert(candidates.deep_view() == done);
    assert(done + all == all);
    while end > start
        invariant
            dictionary == ctx.dictionary(),
            chars == value@.len(),
            start <= end <= chars,
            start < chars,
            tails.len() == chars - start,
            forall|k: int|
                0 <= k < tails.len() ==> #[trigger] tails.deep_view()[k] == paths_from(
                    dictionary,
                    value@,
                    chars - k,
                ),
            sorted_by(candidates.deep_view(), preference()),
            candidates.deep_view().to_multiset() == done.to_multiset(),
            done + extensions(dictionary, value@, start as int, end as int) == all,
        decreases end,
    {
        let word = value.substring_char(start, end);
        let ghost added = first_word_extensions(dictionary, value@, start as int, end as int);
        let suffixes = &tails[chars - end];
        assert(tails.deep_view()[chars - end] == suffixes.deep_view());
        proof {
            vstd::seq_lib::lemma_multiset_commutative(done, added);
            let rest = extensions(dictionary, value@, start as int, end - 1);
            assert(done + (added + rest) == (done + added) + rest);
        }
        if byte_len(word) > MAX_WORD_LENGTH || suffixes.len() == 0 {
            assert(added == Seq::<Seq<Seq<char>>>::empty());
            assert(done + added == done);
        } else if !ctx.words_fst_contains(word) {
            assert(added == Seq::<Seq<Seq<char>>>::empty());
            assert(done + added == done);
        } else {
            insert_prefixed(&mut candidates, word, suffixes);
        }
        proof {
            done = done + added;
        }
        end = end - 1;
    }
    proof {
        assert(done == all);
        preference_is_total();
        all.lemma_sort_by_ensures(preference());
        lemma_sorted_unique(candidates.deep_view(), all.sort_by(preference()), preference());
    }
    let ghost sorted = candidates.deep_view();
    candidates.truncate(MAX_RESEGMENTATION_PATHS);
    assert(sorted.len() > MAX_RESEGMENTATION_PATHS ==> candidates.deep_view() == sorted.take(
        MAX_RESEGMENTATION_PATHS as int,
    ));
    candidates
}

/// The kept segmentations of a text into words of the index, the preferred ones first.
pub fn resegment_indexed_variants(ctx: &SearchContext<'_>, value: &str) -> (paths: Vec<Vec<String>>)
    ensures
        paths.deep_view() == resegmentations(ctx.dictionary(), value@),
{
    let chars: usize = value.unicode_len();
    if chars == 0 {
        let none: Vec<Vec<String>> = Vec::new();
        assert(none.deep_view() == Seq::<Seq<Seq<char>>>::empty());
        return none;
    }
    let whole: Vec<String> = Vec::new();
    let mut end: Vec<Vec<String>> = Vec::new();
    assert(whole.deep_view() == Seq::<Seq<char>>::empty());
    end.push(whole);
    assert(end.deep_view() == paths_from(ctx.dictionary(), value@, chars as int));
    let mut tails: Vec<Vec<Vec<String>>> = Vec::new();
    tails.push(end);
    let mut start: usize = chars;
    while start > 0
        invariant
            start <= chars == value@.len(),
            tails.len() == chars - start + 1,
            forall|k: int|
                0 <= k < tails.len() ==> #[trigger] tails.deep_view()[k] == paths_from(
                    ctx.dictionary(),
                    value@,
                    chars - k,
                ),
        decreases start,
    {
        start = start - 1;
        let kept = kept_paths(ctx, value, start, &tails);
        let ghost before = tails;
        tails.push(kept);
        proof {
            pushing_deepens(before, tails, kept);
        }
    }
    assert(tails.deep_view()[chars as int] == tails[chars as int].deep_view());
    let last = tails.pop();
    match last {
        Some(paths) => {
            assert(paths.deep_view() == paths_from(ctx.dictionary(), value@, 0));
            paths
        },
        None => Vec::new(),
    }
}

/// Whether a path splits a text into words of the index.
pub open spec fn is_segmentation(
    dictionary: Set<Seq<u8>>,
    value: Seq<char>,
    path: Seq<Seq<char>>,
) -> bool {
    &&& concatenation(path) == value
    &&& forall|i: int|
        0 <= i < path.len() ==> (#[trigger] path[i]).len() > 0 && is_indexed_word(
            dictionary,
            path[i],
        )
}

/// The text of a path that starts with a word starts with the word.
proof fn concatenation_starts_with(word: Seq<char>, path: Seq<Seq<char>>)
    ensures
        concatenation(seq![word] + path) == word + concatenation(path),
    decreases path.len(),
{
    let all = seq![word] + path;
    if path.len() == 0 {
        assert(all.drop_last() == Seq::<Seq<char>>::empty());
        assert(all.last() == word);
        assert(concatenation(all) == concatenation(all.drop_last()) + word);
    } else {
        concatenation_starts_with(word, path.drop_last());
        assert(all.drop_last() == seq![word] + path.drop_last());
        assert(all.last() == path.last());
    }
}

/// What a shortlist holds.
proof fn shortlist_is_the_best(paths: Seq<Seq<Seq<char>>>)
    ensures
        shortlist(paths).len() <= MAX_RESEGMENTATION_PATHS,
        sorted_by(shortlist(paths), preference()),
        forall|i: int|
            0 <= i < shortlist(paths).len() ==> paths.contains(#[trigger] shortlist(paths)[i]),
        paths.len() > 0 ==> shortlist(paths).len() > 0,
        forall|p: Seq<Seq<char>>| #[trigger]
            paths.contains(p) ==> shortlist(paths).len() > 0 && preferred(shortlist(paths)[0], p),
        paths.no_duplicates() ==> shortlist(paths).no_duplicates(),
{
    broadcast use vstd::seq_lib::group_to_multiset_ensures;

    let order = preference();
    let sorted = paths.sort_by(order);
    preference_is_total();
    paths.lemma_sort_by_ensures(order);
    assert(sorted.len() == sorted.to_multiset().len() == paths.to_multiset().len() == paths.len());
    assert forall|i: int| 0 <= i < shortlist(paths).len() implies paths.contains(
        #[trigger] shortlist(paths)[i],
    ) by {
        assert(sorted.contains(sorted[i]));
    }
    assert forall|p: Seq<Seq<char>>| #[trigger] paths.contains(p) implies shortlist(paths).len() > 0
        && preferred(shortlist(paths)[0], p) by {
        assert(sorted.to_multiset().count(p) > 0);
        assert(sorted.contains(p));
        let i = choose|i: int| 0 <= i < sorted.len() && sorted[i] == p;
        if i > 0 {
            assert(order(sorted[0], sorted[i]));
        } else {
            assert(order(p, p));
        }
    }
    if paths.no_duplicates() {
        paths.lemma_multiset_has_no_duplicates();
        sorted.lemma_multiset_has_no_duplicates_conv();
    }
}

/// Whether a path starts with the word between two characters of a text, a word of the index, and
/// goes on with a kept segmentation of the rest.
spec fn extends_from(
    dictionary: Set<Seq<u8>>,
    value: Seq<char>,
    start: int,
    end: int,
    path: Seq<Seq<char>>,
) -> bool {
    &&& 0 <= start < end <= value.len()
    &&& is_indexed_word(dictionary, value.subrange(start, end))
    &&& path.len() > 0
    &&& path[0] == value.subrange(start, end)
    &&& paths_from(dictionary, value, end).contains(path.drop_first())
}

/// Where the first word of an extension ends.
proof fn first_word_end(
    dictionary: Set<Seq<u8>>,
    value: Seq<char>,
    start: int,
    end: int,
    path: Seq<Seq<char>>,
) -> (e: int)
    requires
        extensions(dictionary, value, start, end).contains(path),
    ensures
        e <= end,
        extends_from(dictionary, value, start, e, path),
    decreases end - start,
{
    let here = first_word_extensions(dictionary, value, start, end);
    let rest = extensions(dictionary, value, start, end - 1);
    if here.contains(path) {
        let i = choose|i: int| 0 <= i < here.len() && here[i] == path;
        let tails = paths_from(dictionary, value, end);
        assert(path == seq![value.subrange(start, end)] + tails[i]);
        assert(path.drop_first() == tails[i]);
        end
    } else {
        let all = extensions(dictionary, value, start, end);
        let i = choose|i: int| 0 <= i < all.len() && all[i] == path;
        assert(all == here + rest);
        if i < here.len() {
            assert(here[i] == path);
        }
        assert(rest[i - here.len()] == path);
        first_word_end(dictionary, value, start, end - 1, path)
    }
}

/// A path that starts with a word of the index and goes on with a kept segmentation of the rest is
/// an extension.
proof fn extension_is_listed(
    dictionary: Set<Seq<u8>>,
    value: Seq<char>,
    start: int,
    e: int,
    end: int,
    path: Seq<Seq<char>>,
)
    requires
        extends_from(dictionary, value, start, e, path),
        e <= end <= value.len(),
    ensures
        extensions(dictionary, value, start, end).contains(path),
    decreases end - e,
{
    let here = first_word_extensions(dictionary, value, start, end);
    let rest = extensions(dictionary, value, start, end - 1);
    let all = extensions(dictionary, value, start, end);
    assert(all == here + rest);
    if e == end {
        let tails = paths_from(dictionary, value, end);
        let i = choose|i: int| 0 <= i < tails.len() && tails[i] == path.drop_first();
        assert(path == seq![path[0]] + path.drop_first());
        assert(here[i] == path);
        assert(all[i] == path);
    } else {
        extension_is_listed(dictionary, value, start, e, end - 1, path);
        let i = choose|i: int| 0 <= i < rest.len() && rest[i] == path;
        assert(all[here.len() + i] == path);
    }
}

/// No extension is listed twice, where no kept segmentation of the rest is.
proof fn extensions_are_distinct(dictionary: Set<Seq<u8>>, value: Seq<char>, start: int, end: int)
    requires
        0 <= start,
        end <= value.len(),
        forall|e: int|
            start < e <= value.len() ==> (#[trigger] paths_from(
                dictionary,
                value,
                e,
            )).no_duplicates(),
    ensures
        extensions(dictionary, value, start, end).no_duplicates(),
    decreases end - start,
{
    if end > start {
        let here = first_word_extensions(dictionary, value, start, end);
        let rest = extensions(dictionary, value, start, end - 1);
        let tails = paths_from(dictionary, value, end);
        extensions_are_distinct(dictionary, value, start, end - 1);
        assert(here.no_duplicates()) by {
            assert forall|i: int, j: int|
                0 <= i < here.len() && 0 <= j < here.len() && i != j implies here[i] != here[j] by {
                assert(here[i].drop_first() == tails[i]);
                assert(here[j].drop_first() == tails[j]);
            }
        }
        assert forall|i: int, j: int| 0 <= i < here.len() && 0 <= j < rest.len() implies here[i]
            != rest[j] by {
            assert(rest.contains(rest[j]));
            let e = first_word_end(dictionary, value, start, end - 1, rest[j]);
            assert(here[i][0].len() == end - start);
            assert(rest[j][0].len() == e - start);
        }
        let all = extensions(dictionary, value, start, end);
        assert(all == here + rest);
        assert forall|i: int, j: int|
            0 <= i < all.len() && 0 <= j < all.len() && i != j implies all[i] != all[j] by {
            if i < here.len() && j < here.len() {
                assert(here[i] != here[j]);
            } else if i >= here.len() && j >= here.len() {
                assert(rest[i - here.len()] != rest[j - here.len()]);
            } else if i < here.len() {
                assert(here[i] != rest[j - here.len()]);
            } else {
                assert(here[j] != rest[i - here.len()]);
            }
        }
    }
}

/// The kept segmentations of a part of a text are at most as many as are kept, in the order of
/// preference, and different.
proof fn kept_paths_are_sorted(dictionary: Set<Seq<u8>>, value: Seq<char>, start: int)
    requires
        0 <= start <= value.len(),
    ensures
        paths_from(dictionary, value, start).len() <= MAX_RESEGMENTATION_PATHS,
        sorted_by(paths_from(dictionary, value, start), preference()),
        paths_from(dictionary, value, start).no_duplicates(),
    decreases value.len() - start,
{
    if start < value.len() {
        assert forall|e: int| start < e <= value.len() implies (#[trigger] paths_from(
            dictionary,
            value,
            e,
        )).no_duplicates() by {
            kept_paths_are_sorted(dictionary, value, e);
        }
        extensions_are_distinct(dictionary, value, start, value.len() as int);
        shortlist_is_the_best(extensions(dictionary, value, start, value.len() as int));
    }
}

/// At most as many segmentations are returned as are kept. They come in the order of preference,
/// and none comes twice.
pub proof fn resegmentations_are_sorted(dictionary: Set<Seq<u8>>, value: Seq<char>)
    ensures
        resegmentations(dictionary, value).len() <= MAX_RESEGMENTATION_PATHS,
        sorted_by(resegmentations(dictionary, value), preference()),
        resegmentations(dictionary, value).no_duplicates(),
{
    kept_paths_are_sorted(dictionary, value, 0);
}

proof fn kept_paths_are_segmentations(
    dictionary: Set<Seq<u8>>,
    value: Seq<char>,
    start: int,
    path: Seq<Seq<char>>,
)
    requires
        0 <= start <= value.len(),
        paths_from(dictionary, value, start).contains(path),
    ensures
        is_segmentation(dictionary, value.skip(start), path),
    decreases value.len() - start,
{
    if start == value.len() {
        assert(path == Seq::<Seq<char>>::empty());
        assert(value.skip(start) == Seq::<char>::empty());
    } else {
        let all = extensions(dictionary, value, start, value.len() as int);
        shortlist_is_the_best(all);
        let kept = paths_from(dictionary, value, start);
        let i = choose|i: int| 0 <= i < kept.len() && kept[i] == path;
        assert(all.contains(shortlist(all)[i]));
        let e = first_word_end(dictionary, value, start, value.len() as int, path);
        let tail = path.drop_first();
        kept_paths_are_segmentations(dictionary, value, e, tail);
        assert(path == seq![path[0]] + tail);
        concatenation_starts_with(path[0], tail);
        assert(value.skip(start) == value.subrange(start, e) + value.skip(e));
        assert forall|k: int| 0 <= k < path.len() implies (#[trigger] path[k]).len() > 0
            && is_indexed_word(dictionary, path[k]) by {
            if k > 0 {
                assert(path[k] == tail[k - 1]);
            }
        }
    }
}

/// Each segmentation that is returned splits the text into words of the index.
pub proof fn resegmentations_split_the_text(dictionary: Set<Seq<u8>>, value: Seq<char>, i: int)
    requires
        0 <= i < resegmentations(dictionary, value).len(),
    ensures
        is_segmentation(dictionary, value, resegmentations(dictionary, value)[i]),
{
    let paths = resegmentations(dictionary, value);
    assert(paths_from(dictionary, value, 0).contains(paths[i]));
    kept_paths_are_segmentations(dictionary, value, 0, paths[i]);
    assert(value.skip(0) == value);
}

proof fn kept_paths_start_with_the_shortest(
    dictionary: Set<Seq<u8>>,
    value: Seq<char>,
    start: int,
    path: Seq<Seq<char>>,
)
    requires
        0 <= start <= value.len(),
        is_segmentation(dictionary, value.skip(start), path),
    ensures
        paths_from(dictionary, value, start).len() > 0,
        paths_from(dictionary, value, start)[0].len() <= path.len(),
        paths_from(dictionary, value, start)[0].len() == path.len() ==> first_len(
            paths_from(dictionary, value, start)[0],
        ) >= first_len(path),
    decreases value.len() - start,
{
    if start == value.len() {
        if path.len() > 0 {
            assert(path == seq![path[0]] + path.drop_first());
            concatenation_starts_with(path[0], path.drop_first());
            assert(value.skip(start).len() == 0);
        }
    } else {
        if path.len() == 0 {
            assert(concatenation(path).len() == 0);
            assert(value.skip(start).len() > 0);
        }
        let word = path[0];
        let rest = path.drop_first();
        assert(path == seq![word] + rest);
        concatenation_starts_with(word, rest);
        let e = start + word.len();
        assert(value.skip(start).take(word.len() as int) == word);
        assert(value.subrange(start, e) == word);
        assert(value.skip(e) == value.skip(start).skip(word.len() as int));
        assert(concatenation(rest) == value.skip(e));
        assert forall|k: int| 0 <= k < rest.len() implies (#[trigger] rest[k]).len() > 0
            && is_indexed_word(dictionary, rest[k]) by {
            assert(rest[k] == path[k + 1]);
        }
        kept_paths_start_with_the_shortest(dictionary, value, e, rest);
        let tail = paths_from(dictionary, value, e)[0];
        let listed = seq![word] + tail;
        assert(listed.drop_first() == tail);
        assert(paths_from(dictionary, value, e).contains(tail));
        extension_is_listed(dictionary, value, start, e, value.len() as int, listed);
        shortlist_is_the_best(extensions(dictionary, value, start, value.len() as int));
        assert(preferred(paths_from(dictionary, value, start)[0], listed));
    }
}

/// A segmentation is returned if there is one. The first has as few words as any, and its first
/// word is as long as in any with as few words.
pub proof fn first_resegmentation_is_the_shortest(
    dictionary: Set<Seq<u8>>,
    value: Seq<char>,
    path: Seq<Seq<char>>,
)
    requires
        value.len() > 0,
        is_segmentation(dictionary, value, path),
    ensures
        resegmentations(dictionary, value).len() > 0,
        resegmentations(dictionary, value)[0].len() <= path.len(),
        resegmentations(dictionary, value)[0].len() == path.len() ==> first_len(
            resegmentations(dictionary, value)[0],
        ) >= first_len(path),
{
    assert(value.skip(0) == value);
    kept_paths_start_with_the_shortest(dictionary, value, 0, path);
}

/// A path of a list is on its shortlist, or the shortlist is full of paths that are preferred to
/// it.
proof fn shortlist_keeps_or_prefers(paths: Seq<Seq<Seq<char>>>, path: Seq<Seq<char>>)
    requires
        paths.contains(path),
    ensures
        shortlist(paths).contains(path) || {
            &&& shortlist(paths).len() == MAX_RESEGMENTATION_PATHS
            &&& forall|i: int|
                0 <= i < shortlist(paths).len() ==> preferred(
                    #[trigger] shortlist(paths)[i],
                    path,
                )
        },
{
    broadcast use vstd::seq_lib::group_to_multiset_ensures;

    let order = preference();
    let sorted = paths.sort_by(order);
    let kept = shortlist(paths);
    preference_is_total();
    paths.lemma_sort_by_ensures(order);
    assert(sorted.to_multiset().count(path) > 0);
    let a = choose|a: int| 0 <= a < sorted.len() && sorted[a] == path;
    if a < kept.len() {
        assert(kept[a] == path);
    } else {
        assert forall|i: int| 0 <= i < kept.len() implies preferred(#[trigger] kept[i], path) by {
            assert(order(sorted[i], sorted[a]));
        }
    }
}

/// A shortlist is full where as many different paths as it can hold are listed, and each path on it
/// is preferred to one of these.
proof fn shortlist_is_full(paths: Seq<Seq<Seq<char>>>, others: Seq<Seq<Seq<char>>>)
    requires
        others.len() == MAX_RESEGMENTATION_PATHS,
        others.no_duplicates(),
        forall|j: int| 0 <= j < others.len() ==> paths.contains(#[trigger] others[j]),
    ensures
        shortlist(paths).len() == MAX_RESEGMENTATION_PATHS,
        forall|i: int|
            0 <= i < shortlist(paths).len() ==> exists|j: int|
                0 <= j < others.len() && preferred(
                    #[trigger] shortlist(paths)[i],
                    #[trigger] others[j],
                ),
{
    broadcast use vstd::seq_lib::group_to_multiset_ensures;

    let order = preference();
    let sorted = paths.sort_by(order);
    let kept = shortlist(paths);
    preference_is_total();
    paths.lemma_sort_by_ensures(order);
    assert forall|j: int| 0 <= j < others.len() implies sorted.contains(#[trigger] others[j]) by {
        assert(sorted.to_multiset().count(others[j]) > 0);
    }
    let a = sorted.index_of(others[0]);
    let b = sorted.index_of(others[1]);
    let c = sorted.index_of(others[2]);
    let d = sorted.index_of(others[3]);
    let e = sorted.index_of(others[4]);
    assert(sorted[a] == others[0] && sorted[b] == others[1] && sorted[c] == others[2] && sorted[d]
        == others[3] && sorted[e] == others[4]);
    assert(a != b && a != c && a != d && a != e && b != c && b != d && b != e && c != d && c != e
        && d != e);
    assert forall|i: int| 0 <= i < kept.len() implies exists|j: int|
        0 <= j < others.len() && preferred(#[trigger] kept[i], #[trigger] others[j]) by {
        assert(kept[i] == sorted[i]);
        let j: int = if a >= i {
            0
        } else if b >= i {
            1
        } else if c >= i {
            2
        } else if d >= i {
            3
        } else {
            4
        };
        let k = sorted.index_of(others[j]);
        assert(sorted[k] == others[j]);
        assert(k >= i);
        if k > i {
            assert(order(sorted[i], sorted[k]));
        } else {
            assert(order(sorted[i], sorted[i]));
        }
        assert(preferred(kept[i], others[j]));
    }
}

/// Whether a path has fewer words than another, or as many and a first word that is no shorter.
pub open spec fn is_no_longer(path: Seq<Seq<char>>, other: Seq<Seq<char>>) -> bool {
    path.len() < other.len() || (path.len() == other.len() && first_len(path) >= first_len(other))
}

proof fn kept_paths_are_the_shortest(
    dictionary: Set<Seq<u8>>,
    value: Seq<char>,
    start: int,
    path: Seq<Seq<char>>,
)
    requires
        0 <= start <= value.len(),
        is_segmentation(dictionary, value.skip(start), path),
    ensures
        paths_from(dictionary, value, start).contains(path) || {
            &&& paths_from(dictionary, value, start).len() == MAX_RESEGMENTATION_PATHS
            &&& forall|i: int|
                0 <= i < paths_from(dictionary, value, start).len() ==> is_no_longer(
                    #[trigger] paths_from(dictionary, value, start)[i],
                    path,
                )
        },
    decreases value.len() - start,
{
    let kept = paths_from(dictionary, value, start);
    if start == value.len() {
        if path.len() > 0 {
            assert(path == seq![path[0]] + path.drop_first());
            concatenation_starts_with(path[0], path.drop_first());
            assert(value.skip(start).len() == 0);
        }
        assert(path == Seq::<Seq<char>>::empty());
        assert(kept[0] == path);
    } else {
        if path.len() == 0 {
            assert(concatenation(path).len() == 0);
            assert(value.skip(start).len() > 0);
        }
        let word = path[0];
        let rest = path.drop_first();
        assert(path == seq![word] + rest);
        concatenation_starts_with(word, rest);
        let e = start + word.len();
        assert(value.skip(start).take(word.len() as int) == word);
        assert(value.subrange(start, e) == word);
        assert(value.skip(e) == value.skip(start).skip(word.len() as int));
        assert(concatenation(rest) == value.skip(e));
        assert forall|k: int| 0 <= k < rest.len() implies (#[trigger] rest[k]).len() > 0
            && is_indexed_word(dictionary, rest[k]) by {
            assert(rest[k] == path[k + 1]);
        }
        kept_paths_are_the_shortest(dictionary, value, e, rest);
        let all = extensions(dictionary, value, start, value.len() as int);
        let tails = paths_from(dictionary, value, e);
        if tails.contains(rest) {
            extension_is_listed(dictionary, value, start, e, value.len() as int, path);
            shortlist_keeps_or_prefers(all, path);
        } else {
            let others = prefixed(word, tails);
            kept_paths_are_sorted(dictionary, value, e);
            assert forall|j: int| 0 <= j < others.len() implies all.contains(
                #[trigger] others[j],
            ) by {
                assert(others[j].drop_first() == tails[j]);
                assert(tails.contains(tails[j]));
                extension_is_listed(dictionary, value, start, e, value.len() as int, others[j]);
            }
            assert forall|i: int, j: int|
                0 <= i < others.len() && 0 <= j < others.len() && i != j implies others[i]
                != others[j] by {
                assert(others[i].drop_first() == tails[i]);
                assert(others[j].drop_first() == tails[j]);
            }
            shortlist_is_full(all, others);
            assert forall|i: int| 0 <= i < kept.len() implies is_no_longer(
                #[trigger] kept[i],
                path,
            ) by {
                let j = choose|j: int|
                    0 <= j < others.len() && preferred(kept[i], #[trigger] others[j]);
                assert(is_no_longer(tails[j], rest));
                assert(others[j] == seq![word] + tails[j]);
                assert(first_len(others[j]) == first_len(path));
            }
        }
    }
}

/// A segmentation of the text is returned, or as many as are kept are returned in its place, none
/// of which has more words. One with as many words has a first word that is no shorter.
pub proof fn resegmentations_are_the_shortest(
    dictionary: Set<Seq<u8>>,
    value: Seq<char>,
    path: Seq<Seq<char>>,
)
    requires
        value.len() > 0,
        is_segmentation(dictionary, value, path),
    ensures
        resegmentations(dictionary, value).contains(path) || {
            &&& resegmentations(dictionary, value).len() == MAX_RESEGMENTATION_PATHS
            &&& forall|i: int|
                0 <= i < resegmentations(dictionary, value).len() ==> {
                    &&& (#[trigger] resegmentations(dictionary, value)[i]).len() <= path.len()
                    &&& is_no_longer(resegmentations(dictionary, value)[i], path)
                }
        },
{
    assert(value.skip(0) == value);
    kept_paths_are_the_shortest(dictionary, value, 0, path);
}

/// Where fewer segmentations of a text are returned than are kept, these are all that there are.
pub proof fn all_resegmentations_where_few(
    dictionary: Set<Seq<u8>>,
    value: Seq<char>,
    path: Seq<Seq<char>>,
)
    requires
        value.len() > 0,
        is_segmentation(dictionary, value, path),
        resegmentations(dictionary, value).len() < MAX_RESEGMENTATION_PATHS,
    ensures
        resegmentations(dictionary, value).contains(path),
{
    resegmentations_are_the_shortest(dictionary, value, path);
}

/// What follows a character of a text is split as it is in the rest of the text alone.
proof fn paths_of_the_rest(dictionary: Set<Seq<u8>>, value: Seq<char>, skipped: int, start: int)
    requires
        0 <= skipped,
        0 <= start,
        skipped + start <= value.len(),
    ensures
        paths_from(dictionary, value, skipped + start) == paths_from(
            dictionary,
            value.skip(skipped),
            start,
        ),
    decreases value.len() - skipped - start, value.len() + 1,
{
    if skipped + start < value.len() {
        extensions_of_the_rest(
            dictionary,
            value,
            skipped,
            start,
            value.len() - skipped,
        );
    }
}

proof fn extensions_of_the_rest(
    dictionary: Set<Seq<u8>>,
    value: Seq<char>,
    skipped: int,
    start: int,
    end: int,
)
    requires
        0 <= skipped,
        0 <= start,
        start <= end,
        skipped + end <= value.len(),
    ensures
        extensions(dictionary, value, skipped + start, skipped + end) == extensions(
            dictionary,
            value.skip(skipped),
            start,
            end,
        ),
    decreases value.len() - skipped - start, end,
{
    if start < end {
        extensions_of_the_rest(dictionary, value, skipped, start, end - 1);
        paths_of_the_rest(dictionary, value, skipped, end);
        assert(value.subrange(skipped + start, skipped + end) == value.skip(skipped).subrange(
            start,
            end,
        ));
        assert(first_word_extensions(dictionary, value, skipped + start, skipped + end)
            == first_word_extensions(dictionary, value.skip(skipped), start, end));
        assert(extensions(dictionary, value, skipped + start, skipped + end)
            == first_word_extensions(dictionary, value, skipped + start, skipped + end)
            + extensions(dictionary, value, skipped + start, skipped + end - 1));
    }
}

/// Whether a path is a kept segmentation of the rest of a text; the empty one, where nothing is
/// left.
pub open spec fn is_kept_of_the_rest(
    dictionary: Set<Seq<u8>>,
    rest: Seq<char>,
    path: Seq<Seq<char>>,
) -> bool {
    if rest.len() == 0 {
        path.len() == 0
    } else {
        resegmentations(dictionary, rest).contains(path)
    }
}

/// The segmentations of a text that are considered are those that start with a word of the index,
/// of at most 250 bytes, and go on with a segmentation of the rest that is returned for the rest
/// alone. Of these the first five in the order of preference are returned, in that order and each
/// once.
pub proof fn segmentations_go_on_with_segmentations(
    dictionary: Set<Seq<u8>>,
    value: Seq<char>,
    path: Seq<Seq<char>>,
)
    requires
        value.len() > 0,
    ensures
        ({
            let kept = resegmentations(dictionary, value);
            let is_considered = path.len() > 0 && 0 < path[0].len() <= value.len() && value.take(
                path[0].len() as int,
            ) == path[0] && encode_utf8(path[0]).len() <= 250 && dictionary.contains(
                encode_utf8(path[0]),
            ) && is_kept_of_the_rest(
                dictionary,
                value.skip(path[0].len() as int),
                path.drop_first(),
            );
            &&& kept.len() <= 5
            &&& kept.no_duplicates()
            &&& forall|i: int, j: int|
                #![trigger kept[i], kept[j]]
                0 <= i < j < kept.len() ==> preferred(kept[i], kept[j])
            &&& kept.contains(path) ==> is_considered
            &&& is_considered ==> kept.contains(path) || (kept.len() == 5 && forall|i: int|
                0 <= i < kept.len() ==> preferred(#[trigger] kept[i], path))
        }),
{
    let kept = resegmentations(dictionary, value);
    let all = extensions(dictionary, value, 0, value.len() as int);
    resegmentations_are_sorted(dictionary, value);
    assert forall|i: int, j: int|
        #![trigger kept[i], kept[j]]
        0 <= i < j < kept.len() implies preferred(kept[i], kept[j]) by {
        assert(preference()(kept[i], kept[j]));
    }
    if kept.contains(path) {
        shortlist_is_the_best(all);
        let i = choose|i: int| 0 <= i < kept.len() && kept[i] == path;
        assert(all.contains(shortlist(all)[i]));
        let e = first_word_end(dictionary, value, 0, value.len() as int, path);
        assert(value.take(e) == value.subrange(0, e));
        if e < value.len() {
            paths_of_the_rest(dictionary, value, e, 0);
        } else {
            let empty = seq![Seq::<Seq<char>>::empty()];
            assert(empty.contains(path.drop_first()));
        }
    }
    if path.len() > 0 && 0 < path[0].len() <= value.len() && value.take(path[0].len() as int)
        == path[0] && encode_utf8(path[0]).len() <= 250 && dictionary.contains(
        encode_utf8(path[0]),
    ) && is_kept_of_the_rest(dictionary, value.skip(path[0].len() as int), path.drop_first()) {
        let e = path[0].len() as int;
        assert(value.take(e) == value.subrange(0, e));
        if e < value.len() {
            paths_of_the_rest(dictionary, value, e, 0);
        } else {
            let empty = seq![Seq::<Seq<char>>::empty()];
            assert(path.drop_first() == empty[0]);
        }
        assert(extends_from(dictionary, value, 0, e, path));
        extension_is_listed(dictionary, value, 0, e, value.len() as int, path);
        shortlist_keeps_or_prefers(all, path);
    }
}

/// The empty text has no segmentation.
pub proof fn nothing_is_split_into_nothing(dictionary: Set<Seq<u8>>)
    ensures
        resegmentations(dictionary, Seq::empty()) == Seq::<Seq<Seq<char>>>::empty(),
{
}

/// Each segmentation that is returned is made of words that the index holds, of 1 to 250 bytes. One
/// after the other they are the text.
pub proof fn segmentations_are_made_of_indexed_words(
    dictionary: Set<Seq<u8>>,
    value: Seq<char>,
    i: int,
    k: int,
)
    requires
        0 <= i < resegmentations(dictionary, value).len(),
        0 <= k < resegmentations(dictionary, value)[i].len(),
    ensures
        ({
            let path = resegmentations(dictionary, value)[i];
            &&& concatenation(path) == value
            &&& path[k].len() > 0
            &&& encode_utf8(path[k]).len() <= 250
            &&& dictionary.contains(encode_utf8(path[k]))
        }),
{
    resegmentations_split_the_text(dictionary, value, i);
}

} // verus!
