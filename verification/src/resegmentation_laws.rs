//! What holds of the terms and candidates that resegmentation gives.
use vstd::prelude::*;
use crate::candidates::{
    first_missing, last_missing, run_end_from, run_is_adjacent, search_from, search_run,
    search_spans, spans_from, spans_with, ResegmentationCandidateView, RunCore,
    MAX_RESEGMENTATION_NODES, MAX_RESEGMENTATION_TERMS,
};
use crate::context::{LookupView, SearchContext};
use crate::japanese::{unique_variants, unique_variants_are_the_variants, SearchVariants};
use crate::phrase_variants::{
    alternates_of_phrase, has_variant, run_segments, variant_phrase, variant_run_end,
    variant_run_end_is_later, variant_words_from,
};
use crate::plain::pushing_once_keeps_different;
use crate::query_term::LocatedQueryTermView;
use crate::resegmentation::{
    are_single_words, can_be_merged, compact_of_kind, concatenated_variants, first_replacement,
    is_termwise, phrase_of, replacement, replacements, resegmented, PhraseVariantKind, Replacement,
};
use crate::segmentation::{
    is_indexed_word, is_segmentation, resegmentations, resegmentations_split_the_text,
};
use crate::text::{concatenation, fits_in_key};

verus! {

/// Whether a word stands in the index for a joined variant: it is that variant, and is indexed.
pub open spec fn is_sound_word(
    ctx: SearchContext<'_>,
    compacts: Seq<Seq<char>>,
    word: Seq<char>,
) -> bool {
    is_indexed_word(ctx.dictionary(), word) && compacts.contains(word)
}

/// Whether a phrase stands in the index for a joined variant: it splits that variant into words of
/// the index, and some document holds it.
pub open spec fn is_sound_phrase(
    ctx: SearchContext<'_>,
    compacts: Seq<Seq<char>>,
    phrase: Seq<Option<Seq<char>>>,
) -> bool {
    &&& ctx.phrase_answer(phrase) == Some(true)
    &&& exists|path: Seq<Seq<char>>|
        phrase == #[trigger] phrase_of(path) && compacts.contains(concatenation(path))
            && is_segmentation(ctx.dictionary(), concatenation(path), path)
}

/// The first replacement is one of the segmentations.
proof fn first_replacement_is_a_path(
    ctx: SearchContext<'_>,
    terms: Seq<LocatedQueryTermView>,
    paths: Seq<Seq<Seq<char>>>,
) -> (i: int)
    requires
        first_replacement(ctx, terms, paths) matches Ok(Some(_)),
    ensures
        0 <= i < paths.len(),
        !is_termwise(terms, paths[i]),
        match first_replacement(ctx, terms, paths)->Ok_0->0 {
            Replacement::Word(word) => paths[i] == seq![word],
            Replacement::Phrase(phrase) => phrase == phrase_of(paths[i]) && ctx.phrase_answer(
                phrase,
            ) == Some(true),
        },
    decreases paths.len(),
{
    if is_termwise(terms, paths[0]) {
        first_replacement_is_a_path(ctx, terms, paths.drop_first()) + 1
    } else if paths[0].len() == 1 {
        assert(paths[0] == seq![paths[0][0]]);
        0
    } else {
        match ctx.phrase_outcome(phrase_of(paths[0])) {
            Ok(true) => 0,
            _ => first_replacement_is_a_path(ctx, terms, paths.drop_first()) + 1,
        }
    }
}

proof fn replacement_is_sound(
    ctx: SearchContext<'_>,
    terms: Seq<LocatedQueryTermView>,
    compacts: Seq<Seq<char>>,
    k: int,
)
    requires
        0 <= k < compacts.len(),
    ensures
        replacement(ctx, terms, compacts[k]) matches Ok(Some(found)) ==> match found {
            Replacement::Word(word) => is_sound_word(ctx, compacts, word),
            Replacement::Phrase(phrase) => is_sound_phrase(ctx, compacts, phrase),
        },
{
    if let Ok(Some(found)) = replacement(ctx, terms, compacts[k]) {
        let paths = resegmentations(ctx.dictionary(), compacts[k]);
        let i = first_replacement_is_a_path(ctx, terms, paths);
        resegmentations_split_the_text(ctx.dictionary(), compacts[k], i);
        assert(compacts.contains(compacts[k]));
        match found {
            Replacement::Word(word) => {
                assert(paths[i].drop_last() == Seq::<Seq<char>>::empty());
                assert(concatenation(paths[i].drop_last()) == Seq::<char>::empty());
                assert(concatenation(paths[i]) == word);
                assert(paths[i][0] == word);
            },
            Replacement::Phrase(phrase) => {
                assert(phrase == phrase_of(paths[i]));
            },
        }
    }
}

/// Whether everything that was found stands in the index, and nothing was found twice.
spec fn are_sound(
    ctx: SearchContext<'_>,
    compacts: Seq<Seq<char>>,
    words: Seq<Seq<char>>,
    phrases: Seq<Seq<Option<Seq<char>>>>,
) -> bool {
    &&& words.no_duplicates()
    &&& phrases.no_duplicates()
    &&& forall|i: int| 0 <= i < words.len() ==> is_sound_word(ctx, compacts, #[trigger] words[i])
    &&& forall|i: int|
        0 <= i < phrases.len() ==> is_sound_phrase(ctx, compacts, #[trigger] phrases[i])
}

proof fn replacements_are_sound(
    ctx: SearchContext<'_>,
    terms: Seq<LocatedQueryTermView>,
    compacts: Seq<Seq<char>>,
    n: int,
)
    requires
        0 <= n <= compacts.len(),
    ensures
        replacements(ctx, terms, compacts.take(n)) matches Ok(found) ==> are_sound(
            ctx,
            compacts,
            found.words,
            found.phrases,
        ),
    decreases n,
{
    if n > 0 {
        assert(compacts.take(n).drop_last() == compacts.take(n - 1));
        assert(compacts.take(n).last() == compacts[n - 1]);
        replacements_are_sound(ctx, terms, compacts, n - 1);
        replacement_is_sound(ctx, terms, compacts, n - 1);
        if let Ok(before) = replacements(ctx, terms, compacts.take(n - 1)) {
            match replacement(ctx, terms, compacts[n - 1]) {
                Ok(Some(Replacement::Word(word))) => {
                    pushing_once_keeps_different(before.words, word);
                },
                Ok(Some(Replacement::Phrase(phrase))) => {
                    pushing_once_keeps_different(before.phrases, phrase);
                },
                _ => {},
            }
        }
    }
}

/// A term that stands for others spans their positions and counts as one. The words and phrases
/// that it is searched by are the joined variants of the terms, as the index holds them: words of
/// the index, and phrases that some document holds. There is at least one of them, and none comes
/// twice.
pub proof fn resegmented_terms_stand_in_the_index(
    ctx: SearchContext<'_>,
    terms: Seq<LocatedQueryTermView>,
)
    ensures
        resegmented(ctx, terms) matches Ok(Some(term)) ==> {
            let compacts = unique_variants(concatenated_variants(terms));
            let words = term.value.zero_typo.alternates;
            let phrases = term.value.zero_typo.alternate_phrases;
            &&& term.positions.start == terms[0].positions.start
            &&& term.positions.end == terms.last().positions.end
            &&& term.value.ranking_span_len == 1
            &&& term.value.is_indexed() || phrases.len() > 0
            &&& words.no_duplicates()
            &&& phrases.no_duplicates()
            &&& forall|i: int|
                0 <= i < words.len() ==> is_sound_word(ctx, compacts, #[trigger] words[i])
            &&& forall|i: int|
                0 <= i < phrases.len() ==> is_sound_phrase(ctx, compacts, #[trigger] phrases[i])
        },
{
    let compacts = unique_variants(concatenated_variants(terms));
    replacements_are_sound(ctx, terms, compacts, compacts.len() as int);
    assert(compacts.take(compacts.len() as int) == compacts);
}

/// A segmentation that gives something else than the terms themselves is tried, whatever came
/// before it: where one is a word, or a phrase that some document holds, and the phrases before it
/// are answered, something is found.
pub proof fn later_segmentations_are_tried(
    ctx: SearchContext<'_>,
    terms: Seq<LocatedQueryTermView>,
    paths: Seq<Seq<Seq<char>>>,
    k: int,
)
    requires
        0 <= k < paths.len(),
        !is_termwise(terms, paths[k]),
        paths[k].len() == 1 || ctx.phrase_answer(phrase_of(paths[k])) == Some(true),
        forall|i: int|
            0 <= i < k ==> is_termwise(terms, #[trigger] paths[i]) || paths[i].len() == 1
                || ctx.phrase_answer(phrase_of(paths[i])) is Some,
    ensures
        first_replacement(ctx, terms, paths) matches Ok(Some(_)),
    decreases k,
{
    if k > 0 {
        let rest = paths.drop_first();
        assert(rest[k - 1] == paths[k]);
        assert forall|i: int| 0 <= i < k - 1 implies is_termwise(terms, #[trigger] rest[i])
            || rest[i].len() == 1 || ctx.phrase_answer(phrase_of(rest[i])) is Some by {
            assert(rest[i] == paths[i + 1]);
        }
        assert(is_termwise(terms, paths[0]) || paths[0].len() == 1 || ctx.phrase_answer(
            phrase_of(paths[0]),
        ) is Some);
        later_segmentations_are_tried(ctx, terms, rest, k - 1);
    }
}

proof fn a_good_path_is_found(
    ctx: SearchContext<'_>,
    terms: Seq<LocatedQueryTermView>,
    paths: Seq<Seq<Seq<char>>>,
    k: int,
)
    requires
        0 <= k < paths.len(),
        !is_termwise(terms, paths[k]),
        paths[k].len() == 1 || ctx.phrase_answer(phrase_of(paths[k])) == Some(true),
        first_replacement(ctx, terms, paths) is Ok,
    ensures
        first_replacement(ctx, terms, paths)->Ok_0 is Some,
    decreases k,
{
    if k > 0 {
        let rest = paths.drop_first();
        assert(rest[k - 1] == paths[k]);
        if first_replacement(ctx, terms, rest) is Ok {
            a_good_path_is_found(ctx, terms, rest, k - 1);
        }
    }
}

proof fn a_replacement_is_kept(
    ctx: SearchContext<'_>,
    terms: Seq<LocatedQueryTermView>,
    compacts: Seq<Seq<char>>,
    c: int,
    n: int,
)
    requires
        0 <= c < n <= compacts.len(),
        replacements(ctx, terms, compacts.take(n)) is Ok,
        replacement(ctx, terms, compacts[c]) is Ok ==> replacement(
            ctx,
            terms,
            compacts[c],
        )->Ok_0 is Some,
    ensures
        replacements(ctx, terms, compacts.take(n))->Ok_0.words.len() > 0 || replacements(
            ctx,
            terms,
            compacts.take(n),
        )->Ok_0.phrases.len() > 0,
    decreases n,
{
    assert(compacts.take(n).drop_last() == compacts.take(n - 1));
    assert(compacts.take(n).last() == compacts[n - 1]);
    if c < n - 1 {
        a_replacement_is_kept(ctx, terms, compacts, c, n - 1);
    } else {
        let before = replacements(ctx, terms, compacts.take(n - 1))->Ok_0;
        match replacement(ctx, terms, compacts[c])->Ok_0->0 {
            Replacement::Word(word) => {
                if before.words.contains(word) {
                    assert(before.words.len() > 0);
                }
            },
            Replacement::Phrase(phrase) => {
                if before.phrases.contains(phrase) {
                    assert(before.phrases.len() > 0);
                }
            },
        }
    }
}

/// Terms that the index holds with other boundaries are found. Where one of the segmentations of a
/// joined variant is not the terms themselves, and is one word or a phrase that some document
/// holds, there is a term that stands for them, once all questions are answered.
pub proof fn resegmentable_terms_are_found(
    ctx: SearchContext<'_>,
    terms: Seq<LocatedQueryTermView>,
    compact: Seq<char>,
    k: int,
)
    requires
        terms.len() > 0,
        can_be_merged(terms),
        are_single_words(terms),
        unique_variants(concatenated_variants(terms)).contains(compact),
        fits_in_key(compact),
        0 <= k < resegmentations(ctx.dictionary(), compact).len(),
        !is_termwise(terms, resegmentations(ctx.dictionary(), compact)[k]),
        resegmentations(ctx.dictionary(), compact)[k].len() == 1 || ctx.phrase_answer(
            phrase_of(resegmentations(ctx.dictionary(), compact)[k]),
        ) == Some(true),
        resegmented(ctx, terms) is Ok,
    ensures
        resegmented(ctx, terms)->Ok_0 is Some,
{
    let compacts = unique_variants(concatenated_variants(terms));
    let c = choose|c: int| 0 <= c < compacts.len() && compacts[c] == compact;
    let paths = resegmentations(ctx.dictionary(), compact);
    if replacement(ctx, terms, compact) is Ok {
        a_good_path_is_found(ctx, terms, paths, k);
    }
    assert(compacts.take(compacts.len() as int) == compacts);
    a_replacement_is_kept(ctx, terms, compacts, c, compacts.len() as int);
}

/// Whether a span lies in a run, spans its core, and is not too long.
pub open spec fn is_span(core: RunCore, span: (int, int)) -> bool {
    &&& core.run_start <= span.0 <= core.first
    &&& core.last <= span.1 <= core.run_end
    &&& span.1 - span.0 + 1 <= MAX_RESEGMENTATION_TERMS
}

/// Whether a span is tried before another: it is shorter, or as long and starts later.
pub open spec fn is_tried_before(span: (int, int), other: (int, int)) -> bool {
    let len = span.1 - span.0;
    let other_len = other.1 - other.0;
    len < other_len || (len == other_len && span.0 > other.0)
}

/// Whether spans come in the order in which they are tried.
pub open spec fn are_spans_in_order(spans: Seq<(int, int)>) -> bool {
    forall|i: int, j: int|
        #![trigger spans[i], spans[j]]
        0 <= i < j < spans.len() ==> is_tried_before(spans[i], spans[j])
}

proof fn spans_of_one_length(core: RunCore, extra: int, left: int)
    requires
        core.wf(),
        0 <= left <= extra + 1,
        extra <= MAX_RESEGMENTATION_TERMS - core.len(),
    ensures
        forall|i: int|
            0 <= i < spans_with(core, extra, left).len() ==> {
                let span = #[trigger] spans_with(core, extra, left)[i];
                is_span(core, span) && span.1 - span.0 + 1 == core.len() + extra && span.0
                    <= core.first - left
            },
        are_spans_in_order(spans_with(core, extra, left)),
        forall|span: (int, int)|
            is_span(core, span) && span.1 - span.0 + 1 == core.len() + extra && span.0 <= core.first
                - left ==> #[trigger] spans_with(core, extra, left).contains(span),
    decreases extra - left + 1,
{
    let all = spans_with(core, extra, left);
    if left <= extra {
        spans_of_one_length(core, extra, left + 1);
        let rest = spans_with(core, extra, left + 1);
        let first = (core.first - left, core.last + (extra - left));
        if core.allows(left, extra - left) {
            assert(all == seq![first] + rest);
            assert forall|i: int| 0 <= i < all.len() implies {
                let span = #[trigger] all[i];
                is_span(core, span) && span.1 - span.0 + 1 == core.len() + extra && span.0
                    <= core.first - left
            } by {
                if i > 0 {
                    assert(all[i] == rest[i - 1]);
                }
            }
            assert forall|i: int, j: int|
                #![trigger all[i], all[j]]
                0 <= i < j < all.len() implies is_tried_before(all[i], all[j]) by {
                assert(all[j] == rest[j - 1]);
                if i > 0 {
                    assert(all[i] == rest[i - 1]);
                }
            }
        }
        assert forall|span: (int, int)|
            is_span(core, span) && span.1 - span.0 + 1 == core.len() + extra && span.0 <= core.first
                - left implies #[trigger] all.contains(span) by {
            if span.0 == core.first - left {
                assert(span == first);
                assert(core.allows(left, extra - left));
                assert(all[0] == span);
            } else {
                assert(rest.contains(span));
                let i = choose|i: int| 0 <= i < rest.len() && rest[i] == span;
                if core.allows(left, extra - left) {
                    assert(all[i + 1] == span);
                } else {
                    assert(all[i] == span);
                }
            }
        }
    }
}

proof fn spans_of_all_lengths(core: RunCore, extra: int)
    requires
        core.wf(),
        0 <= extra,
    ensures
        forall|i: int|
            0 <= i < spans_from(core, extra).len() ==> {
                let span = #[trigger] spans_from(core, extra)[i];
                is_span(core, span) && span.1 - span.0 + 1 >= core.len() + extra
            },
        are_spans_in_order(spans_from(core, extra)),
        forall|span: (int, int)|
            is_span(core, span) && span.1 - span.0 + 1 >= core.len() + extra
                ==> #[trigger] spans_from(core, extra).contains(span),
    decreases MAX_RESEGMENTATION_TERMS - core.len() - extra + 1,
{
    let all = spans_from(core, extra);
    if extra <= MAX_RESEGMENTATION_TERMS - core.len() {
        spans_of_one_length(core, extra, 0);
        spans_of_all_lengths(core, extra + 1);
        let these = spans_with(core, extra, 0);
        let rest = spans_from(core, extra + 1);
        let n = these.len() as int;
        assert forall|i: int| 0 <= i < all.len() implies {
            let span = #[trigger] all[i];
            is_span(core, span) && span.1 - span.0 + 1 >= core.len() + extra
        } by {
            if i < n {
                assert(all[i] == these[i]);
            } else {
                assert(all[i] == rest[i - n]);
            }
        }
        assert forall|i: int, j: int|
            #![trigger all[i], all[j]]
            0 <= i < j < all.len() implies is_tried_before(all[i], all[j]) by {
            if j < n {
                assert(all[i] == these[i] && all[j] == these[j]);
            } else if i >= n {
                assert(all[i] == rest[i - n] && all[j] == rest[j - n]);
            } else {
                assert(all[i] == these[i] && all[j] == rest[j - n]);
            }
        }
        assert forall|span: (int, int)|
            is_span(core, span) && span.1 - span.0 + 1 >= core.len() + extra implies #[trigger] all
            .contains(span) by {
            if span.1 - span.0 + 1 == core.len() + extra {
                assert(these.contains(span));
                let i = choose|i: int| 0 <= i < these.len() && these[i] == span;
                assert(all[i] == span);
            } else {
                assert(rest.contains(span));
                let i = choose|i: int| 0 <= i < rest.len() && rest[i] == span;
                assert(all[i + n] == span);
            }
        }
    }
}

/// The spans around a core that are tried are all those that lie in the run and are not too long,
/// each once, in the order in which they are to be tried.
pub proof fn all_spans_are_tried_in_order(core: RunCore)
    requires
        core.wf(),
    ensures
        forall|span: (int, int)|
            (#[trigger] spans_from(core, 0).contains(span)) <==> is_span(core, span),
        are_spans_in_order(spans_from(core, 0)),
{
    spans_of_all_lengths(core, 0);
}

/// Whether a candidate stands for consecutive terms: it is what they are resegmented to.
pub open spec fn is_sound_candidate(
    ctx: SearchContext<'_>,
    terms: Seq<LocatedQueryTermView>,
    candidate: ResegmentationCandidateView,
) -> bool {
    resegmented(ctx, terms.subrange(candidate.start_idx, candidate.end_idx + 1)) == Ok::<
        Option<LocatedQueryTermView>,
        LookupView,
    >(Some(candidate.term))
}

/// The span of a candidate.
pub open spec fn span_of(candidate: ResegmentationCandidateView) -> (int, int) {
    (candidate.start_idx, candidate.end_idx)
}

/// Whether candidates come in the order in which their spans are tried.
pub open spec fn are_candidates_in_order(found: Seq<ResegmentationCandidateView>) -> bool {
    forall|i: int, j: int|
        #![trigger found[i], found[j]]
        0 <= i < j < found.len() ==> is_tried_before(span_of(found[i]), span_of(found[j]))
}

proof fn found_spans_are_sound(
    ctx: SearchContext<'_>,
    terms: Seq<LocatedQueryTermView>,
    attach_at: int,
    spans: Seq<(int, int)>,
    limit: int,
)
    requires
        limit >= 0,
        are_spans_in_order(spans),
    ensures
        search_spans(ctx, terms, attach_at, spans, limit).found.len() <= limit,
        forall|i: int|
            0 <= i < search_spans(ctx, terms, attach_at, spans, limit).found.len() ==> {
                let candidate = #[trigger] search_spans(
                    ctx,
                    terms,
                    attach_at,
                    spans,
                    limit,
                ).found[i];
                &&& candidate.attach_at == attach_at
                &&& spans.contains(span_of(candidate))
                &&& is_sound_candidate(ctx, terms, candidate)
            },
        are_candidates_in_order(search_spans(ctx, terms, attach_at, spans, limit).found),
    decreases spans.len(),
{
    if spans.len() > 0 && limit > 0 {
        let (start_idx, end_idx) = spans[0];
        let later = spans.drop_first();
        assert forall|i: int, j: int|
            #![trigger later[i], later[j]]
            0 <= i < j < later.len() implies is_tried_before(later[i], later[j]) by {
            assert(later[i] == spans[i + 1] && later[j] == spans[j + 1]);
        }
        assert forall|span: (int, int)| #[trigger] later.contains(span) implies spans.contains(span)
            && is_tried_before(spans[0], span) by {
            let i = choose|i: int| 0 <= i < later.len() && later[i] == span;
            assert(spans[i + 1] == span);
        }
        found_spans_are_sound(ctx, terms, attach_at, later, limit);
        found_spans_are_sound(ctx, terms, attach_at, later, limit - 1);
        if let Ok(Some(term)) = resegmented(ctx, terms.subrange(start_idx, end_idx + 1)) {
            let found = search_spans(ctx, terms, attach_at, spans, limit).found;
            let rest = search_spans(ctx, terms, attach_at, later, limit - 1).found;
            let first = ResegmentationCandidateView { attach_at, start_idx, end_idx, term };
            assert(found == seq![first] + rest);
            assert(spans.contains(spans[0]));
            assert forall|i: int| 0 <= i < found.len() implies {
                let candidate = #[trigger] found[i];
                &&& candidate.attach_at == attach_at
                &&& spans.contains(span_of(candidate))
                &&& is_sound_candidate(ctx, terms, candidate)
            } by {
                if i > 0 {
                    assert(found[i] == rest[i - 1]);
                    assert(later.contains(span_of(rest[i - 1])));
                }
            }
            assert forall|i: int, j: int|
                #![trigger found[i], found[j]]
                0 <= i < j < found.len() implies is_tried_before(
                span_of(found[i]),
                span_of(found[j]),
            ) by {
                assert(found[j] == rest[j - 1]);
                if i > 0 {
                    assert(found[i] == rest[i - 1]);
                } else {
                    assert(later.contains(span_of(rest[j - 1])));
                }
            }
        }
    }
}

/// Where the first and the last term stand that the index does not hold.
pub(crate) proof fn missing_terms_are_between(terms: Seq<LocatedQueryTermView>, start: int, end: int)
    ensures
        first_missing(terms, start, end) is Some <==> last_missing(terms, start, end) is Some,
        first_missing(terms, start, end) matches Some(first) ==> start <= first <= end
            && !terms[first].value.is_indexed() && forall|k: int|
            start <= k < first ==> (#[trigger] terms[k]).value.is_indexed(),
        last_missing(terms, start, end) matches Some(last) ==> start <= last <= end
            && !terms[last].value.is_indexed() && forall|k: int|
            last < k <= end ==> (#[trigger] terms[k]).value.is_indexed(),
        first_missing(terms, start, end) is None ==> forall|k: int|
            start <= k <= end ==> (#[trigger] terms[k]).value.is_indexed(),
{
    first_missing_is_first(terms, start, end);
    last_missing_is_last(terms, start, end);
}

proof fn first_missing_is_first(terms: Seq<LocatedQueryTermView>, start: int, end: int)
    ensures
        match first_missing(terms, start, end) {
            Some(first) => start <= first <= end && !terms[first].value.is_indexed() && forall|
                k: int,
            |
                start <= k < first ==> (#[trigger] terms[k]).value.is_indexed(),
            None => forall|k: int|
                start <= k <= end ==> (#[trigger] terms[k]).value.is_indexed(),
        },
    decreases end - start + 1,
{
    if start <= end && terms[start].value.is_indexed() {
        first_missing_is_first(terms, start + 1, end);
    }
}

proof fn last_missing_is_last(terms: Seq<LocatedQueryTermView>, start: int, end: int)
    ensures
        match last_missing(terms, start, end) {
            Some(last) => start <= last <= end && !terms[last].value.is_indexed() && forall|k: int|
                last < k <= end ==> (#[trigger] terms[k]).value.is_indexed(),
            None => forall|k: int|
                start <= k <= end ==> (#[trigger] terms[k]).value.is_indexed(),
        },
    decreases end - start + 1,
{
    if start <= end && terms[end].value.is_indexed() {
        last_missing_is_last(terms, start, end - 1);
    }
}

/// Whether a candidate of a run lies in it, is not too long, and spans all the terms of the run
/// that the index does not hold.
pub open spec fn is_candidate_of_run(
    ctx: SearchContext<'_>,
    terms: Seq<LocatedQueryTermView>,
    run_start: int,
    run_end: int,
    candidate: ResegmentationCandidateView,
) -> bool {
    &&& candidate.attach_at == run_end
    &&& run_start <= candidate.start_idx <= candidate.end_idx <= run_end
    &&& candidate.end_idx - candidate.start_idx + 1 <= MAX_RESEGMENTATION_TERMS
    &&& forall|k: int|
        run_start <= k <= run_end && !(#[trigger] terms[k]).value.is_indexed()
            ==> candidate.start_idx <= k <= candidate.end_idx
    &&& is_sound_candidate(ctx, terms, candidate)
}

/// A run of terms has a bounded number of candidates. Each lies in the run, spans all of its terms
/// that the index does not hold, and is what its terms are resegmented to. Shorter ones come first.
pub proof fn candidates_of_a_run(
    ctx: SearchContext<'_>,
    terms: Seq<LocatedQueryTermView>,
    run_start: int,
    run_end: int,
)
    requires
        0 <= run_start <= run_end < terms.len(),
    ensures
        search_run(ctx, terms, run_start, run_end).found.len() <= MAX_RESEGMENTATION_NODES,
        forall|i: int|
            0 <= i < search_run(ctx, terms, run_start, run_end).found.len() ==> is_candidate_of_run(
                ctx,
                terms,
                run_start,
                run_end,
                #[trigger] search_run(ctx, terms, run_start, run_end).found[i],
            ),
        are_candidates_in_order(search_run(ctx, terms, run_start, run_end).found),
{
    missing_terms_are_between(terms, run_start, run_end);
    let found = search_run(ctx, terms, run_start, run_end).found;
    match (first_missing(terms, run_start, run_end), last_missing(terms, run_start, run_end)) {
        (Some(first), Some(last)) => {
            let core = RunCore { run_start, first, last, run_end };
            if first > last {
                assert(terms[last].value.is_indexed());
            }
            all_spans_are_tried_in_order(core);
            let spans = spans_from(core, 0);
            found_spans_are_sound(ctx, terms, run_end, spans, MAX_RESEGMENTATION_NODES as int);
            assert forall|i: int| 0 <= i < found.len() implies is_candidate_of_run(
                ctx,
                terms,
                run_start,
                run_end,
                #[trigger] found[i],
            ) by {
                assert(spans.contains(span_of(found[i])));
                assert(is_span(core, span_of(found[i])));
            }
        },
        _ => {
            let spans = seq![(run_start, run_end)];
            found_spans_are_sound(ctx, terms, run_end, spans, 1);
        },
    }
}

proof fn few_spans_are_all_found(
    ctx: SearchContext<'_>,
    terms: Seq<LocatedQueryTermView>,
    attach_at: int,
    spans: Seq<(int, int)>,
    limit: int,
    k: int,
)
    requires
        0 <= k < spans.len(),
        search_spans(ctx, terms, attach_at, spans, limit).asked is None,
        search_spans(ctx, terms, attach_at, spans, limit).found.len() < limit,
        resegmented(ctx, terms.subrange(spans[k].0, spans[k].1 + 1)) matches Ok(Some(_)),
    ensures
        exists|i: int|
            0 <= i < search_spans(ctx, terms, attach_at, spans, limit).found.len() && span_of(
                #[trigger] search_spans(ctx, terms, attach_at, spans, limit).found[i],
            ) == spans[k],
    decreases spans.len(),
{
    let found = search_spans(ctx, terms, attach_at, spans, limit).found;
    let (start_idx, end_idx) = spans[0];
    let later = spans.drop_first();
    match resegmented(ctx, terms.subrange(start_idx, end_idx + 1)) {
        Ok(Some(term)) => {
            let rest = search_spans(ctx, terms, attach_at, later, limit - 1).found;
            let first = ResegmentationCandidateView { attach_at, start_idx, end_idx, term };
            assert(found == seq![first] + rest);
            if k == 0 {
                assert(span_of(found[0]) == spans[k]);
            } else {
                assert(later[k - 1] == spans[k]);
                few_spans_are_all_found(ctx, terms, attach_at, later, limit - 1, k - 1);
                let i = choose|i: int|
                    0 <= i < rest.len() && span_of(#[trigger] rest[i]) == spans[k];
                assert(found[i + 1] == rest[i]);
            }
        },
        Ok(None) => {
            assert(later[k - 1] == spans[k]);
            few_spans_are_all_found(ctx, terms, attach_at, later, limit, k - 1);
        },
        Err(_) => {},
    }
}

/// Where a run of terms has fewer candidates than it may have, each span of the run that covers all
/// the terms that the index does not hold, is not too long and can be resegmented, is a candidate.
pub proof fn few_candidates_are_all(
    ctx: SearchContext<'_>,
    terms: Seq<LocatedQueryTermView>,
    run_start: int,
    run_end: int,
    span: (int, int),
)
    requires
        0 <= run_start <= span.0 <= span.1 <= run_end < terms.len(),
        span.1 - span.0 + 1 <= MAX_RESEGMENTATION_TERMS,
        exists|k: int| run_start <= k <= run_end && !(#[trigger] terms[k]).value.is_indexed(),
        forall|k: int|
            run_start <= k <= run_end && !(#[trigger] terms[k]).value.is_indexed() ==> span.0 <= k
                <= span.1,
        resegmented(ctx, terms.subrange(span.0, span.1 + 1)) matches Ok(Some(_)),
        search_run(ctx, terms, run_start, run_end).asked is None,
        search_run(ctx, terms, run_start, run_end).found.len() < MAX_RESEGMENTATION_NODES,
    ensures
        exists|i: int|
            0 <= i < search_run(ctx, terms, run_start, run_end).found.len() && span_of(
                #[trigger] search_run(ctx, terms, run_start, run_end).found[i],
            ) == span,
{
    missing_terms_are_between(terms, run_start, run_end);
    let first = first_missing(terms, run_start, run_end)->0;
    let last = last_missing(terms, run_start, run_end)->0;
    let core = RunCore { run_start, first, last, run_end };
    if first > last {
        assert(terms[last].value.is_indexed());
    }
    all_spans_are_tried_in_order(core);
    let spans = spans_from(core, 0);
    assert(is_span(core, span));
    assert(spans.contains(span));
    let k = choose|k: int| 0 <= k < spans.len() && spans[k] == span;
    few_spans_are_all_found(ctx, terms, run_end, spans, MAX_RESEGMENTATION_NODES as int, k);
}

/// Each candidate of a query belongs to a run of terms with a normalized variant that follow one
/// another without a gap, and is attached to the last of them.
pub proof fn candidates_belong_to_runs(
    ctx: SearchContext<'_>,
    terms: Seq<LocatedQueryTermView>,
    start: int,
)
    requires
        0 <= start <= terms.len(),
    ensures
        search_from(ctx, terms, start) matches Ok(found) ==> forall|i: int|
            0 <= i < found.len() ==> belongs_to_run(ctx, terms, start, #[trigger] found[i]),
    decreases terms.len() - start,
{
    if start < terms.len() {
        if terms[start].japanese_variants.normalized is None {
            candidates_belong_to_runs(ctx, terms, start + 1);
            if let Ok(found) = search_from(ctx, terms, start) {
                assert forall|i: int| 0 <= i < found.len() implies belongs_to_run(
                    ctx,
                    terms,
                    start,
                    #[trigger] found[i],
                ) by {
                    assert(belongs_to_run(ctx, terms, start + 1, found[i]));
                }
            }
        } else {
            run_is_adjacent(terms, start);
            let end = run_end_from(terms, start);
            candidates_of_a_run(ctx, terms, start, end);
            candidates_belong_to_runs(ctx, terms, end + 1);
            if let Ok(found) = search_from(ctx, terms, start) {
                let these = search_run(ctx, terms, start, end).found;
                assert forall|i: int| 0 <= i < found.len() implies belongs_to_run(
                    ctx,
                    terms,
                    start,
                    #[trigger] found[i],
                ) by {
                    if i < these.len() {
                        assert(found[i] == these[i]);
                        assert(run_end_from(terms, start) == found[i].attach_at);
                    } else {
                        let rest = search_from(ctx, terms, end + 1)->Ok_0;
                        assert(found[i] == rest[i - these.len()]);
                        assert(belongs_to_run(ctx, terms, end + 1, rest[i - these.len()]));
                    }
                }
            }
        }
    }
}

/// Whether a candidate is one of a run that starts at the term `start` or later.
pub open spec fn belongs_to_run(
    ctx: SearchContext<'_>,
    terms: Seq<LocatedQueryTermView>,
    start: int,
    candidate: ResegmentationCandidateView,
) -> bool {
    exists|run_start: int|
        #![trigger run_end_from(terms, run_start)]
        start <= run_start < terms.len() && terms[run_start].japanese_variants.normalized is Some
            && run_end_from(terms, run_start) == candidate.attach_at && is_candidate_of_run(
            ctx,
            terms,
            run_start,
            candidate.attach_at,
            candidate,
        )
}

/// Whether the words that a phrase names are words of the index.
pub open spec fn names_indexed_words(
    dictionary: Set<Seq<u8>>,
    phrase: Seq<Option<Seq<char>>>,
) -> bool {
    forall|i: int|
        0 <= i < phrase.len() ==> ((#[trigger] phrase[i]) matches Some(word) ==> is_indexed_word(
            dictionary,
            word,
        ))
}

proof fn variant_words_are_indexed(
    dictionary: Set<Seq<u8>>,
    variants: Seq<SearchVariants<Seq<char>>>,
    kind: PhraseVariantKind,
    i: int,
)
    ensures
        variant_words_from(dictionary, variants, kind, i) matches Some(phrase)
            ==> names_indexed_words(dictionary, phrase),
    decreases variants.len() - i,
{
    if 0 <= i < variants.len() {
        if !has_variant(variants[i]) {
            variant_words_are_indexed(dictionary, variants, kind, i + 1);
        } else {
            variant_run_end_is_later(variants, i);
            let end = variant_run_end(variants, i);
            variant_words_are_indexed(dictionary, variants, kind, end + 1);
            let run = variants.subrange(i, end + 1);
            if let Some(segments) = run_segments(dictionary, run, kind) {
                let compact = compact_of_kind(run, kind)->0;
                resegmentations_split_the_text(dictionary, compact, 0);
                if let Some(rest) = variant_words_from(dictionary, variants, kind, end + 1) {
                    let phrase = phrase_of(segments) + rest;
                    assert forall|k: int| 0 <= k < phrase.len() implies ((
                    #[trigger] phrase[k]) matches Some(word) ==> is_indexed_word(
                        dictionary,
                        word,
                    )) by {
                        if k < segments.len() {
                            assert(phrase[k] == Some(segments[k]));
                        } else {
                            assert(phrase[k] == rest[k - segments.len()]);
                        }
                    }
                }
            }
        }
    }
}

/// The phrases that stand for a phrase are different, at most one for each kind of variant, and
/// name words of the index only.
pub proof fn alternates_of_phrases_are_indexed(
    ctx: SearchContext<'_>,
    original: Seq<Option<Seq<char>>>,
    variants: Seq<SearchVariants<Seq<char>>>,
)
    ensures
        alternates_of_phrase(ctx, original, variants) matches Ok(phrases) ==> {
            &&& phrases.len() <= 3
            &&& phrases.no_duplicates()
            &&& forall|i: int|
                0 <= i < phrases.len() ==> names_indexed_words(
                    ctx.dictionary(),
                    #[trigger] phrases[i],
                )
        },
{
    variant_words_are_indexed(ctx.dictionary(), variants, PhraseVariantKind::Normalized, 0);
    variant_words_are_indexed(ctx.dictionary(), variants, PhraseVariantKind::Phonetic, 0);
    variant_words_are_indexed(ctx.dictionary(), variants, PhraseVariantKind::Romaji, 0);
    let found = SearchVariants {
        normalized: variant_phrase(ctx.dictionary(), variants, PhraseVariantKind::Normalized),
        phonetic: variant_phrase(ctx.dictionary(), variants, PhraseVariantKind::Phonetic),
        romaji: variant_phrase(ctx.dictionary(), variants, PhraseVariantKind::Romaji),
    };
    if let Ok(phrases) = alternates_of_phrase(ctx, original, variants) {
        assert forall|i: int| 0 <= i < phrases.len() implies names_indexed_words(
            ctx.dictionary(),
            #[trigger] phrases[i],
        ) by {
            unique_variants_are_the_variants(found, phrases[i]);
            assert(phrases.contains(phrases[i]));
        }
        unique_variants_are_the_variants(found, original);
    }
}

} // verus!
