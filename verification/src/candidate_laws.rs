//! Which terms of a query are offered together, and which are not.
use vstd::prelude::*;
use crate::candidates::{
    first_missing, last_missing, run_end_from, run_goes_on, run_is_adjacent, search_from,
    search_run, search_spans, spans_from, ResegmentationCandidateView, RunCore,
};
use crate::context::{LookupView, SearchContext};
use crate::query_term::LocatedQueryTermView;
use crate::resegmentation::{are_single_words, phrase_match, phrase_of, resegmented, words_of_terms};
use crate::resegmentation_laws::{
    all_spans_are_tried_in_order, candidates_of_a_run, is_candidate_of_run, is_span,
    is_tried_before, missing_terms_are_between, span_of,
};

verus! {

/// Whether the index holds a term as it is, or an alternate of it.
pub open spec fn is_held(term: LocatedQueryTermView) -> bool {
    term.value.zero_typo.exact is Some || term.value.zero_typo.alternates.len() > 0
}

/// The phrase that terms make: the text of each.
pub open spec fn phrase_of_texts(terms: Seq<LocatedQueryTermView>) -> Seq<Option<Seq<char>>> {
    terms.map_values(|term: LocatedQueryTermView| Some(term.value.original))
}

/// Terms are in some document as a phrase where none of them is an n-gram and the index says so of
/// the phrase of their texts. That is asked where the answer is not known, and nothing is asked
/// where a term is an n-gram.
pub proof fn terms_are_a_phrase_where_the_index_says_so(
    ctx: SearchContext<'_>,
    terms: Seq<LocatedQueryTermView>,
)
    ensures
        (forall|i: int| 0 <= i < terms.len() ==> (#[trigger] terms[i]).value.ngram_words is None)
            ==> phrase_match(ctx, terms) == (match ctx.phrase_answer(phrase_of_texts(terms)) {
            Some(answer) => Ok(answer),
            None => Err(LookupView::PhraseDocids(phrase_of_texts(terms))),
        }),
        (exists|i: int| 0 <= i < terms.len() && (#[trigger] terms[i]).value.ngram_words is Some)
            ==> phrase_match(ctx, terms) == Ok::<bool, LookupView>(false),
{
    assert(phrase_of(words_of_terms(terms)) =~= phrase_of_texts(terms));
    if forall|i: int| 0 <= i < terms.len() ==> (#[trigger] terms[i]).value.ngram_words is None {
        assert(are_single_words(terms)) by {
            assert forall|i: int| 0 <= i < terms.len() implies (
            #[trigger] terms[i]).value.single_word() is Some by {
                assert(terms[i].value.ngram_words is None);
            }
        }
    } else {
        let i = choose|i: int|
            0 <= i < terms.len() && (#[trigger] terms[i]).value.ngram_words is Some;
        assert(terms[i].value.single_word() is None);
    }
}

proof fn no_held_term_is_missing(terms: Seq<LocatedQueryTermView>, start: int, end: int)
    requires
        forall|k: int| start <= k <= end ==> is_held(#[trigger] terms[k]),
    ensures
        first_missing(terms, start, end) is None,
    decreases end - start + 1,
{
    if start <= end {
        assert(is_held(terms[start]));
        no_held_term_is_missing(terms, start + 1, end);
    }
}

/// A run of 2 to 16 terms that the index holds is offered as a whole, and only as a whole: once,
/// from its first to its last term, with the term that stands for all of them. It is not offered
/// where some document holds it as a phrase, or where no term stands for it. A single term, or more
/// than 16 of them, are not even looked up.
pub proof fn runs_of_held_terms_are_offered_whole(
    ctx: SearchContext<'_>,
    terms: Seq<LocatedQueryTermView>,
    run_start: int,
    run_end: int,
)
    requires
        0 <= run_start <= run_end < terms.len(),
        forall|k: int| run_start <= k <= run_end ==> is_held(#[trigger] terms[k]),
    ensures
        ({
            let run = terms.subrange(run_start, run_end + 1);
            let search = search_run(ctx, terms, run_start, run_end);
            let nothing = Seq::<ResegmentationCandidateView>::empty();
            &&& run.len() < 2 || run.len() > 16 ==> search.found == nothing && search.asked is None
            &&& 2 <= run.len() <= 16 ==> {
                &&& phrase_match(ctx, run) matches Err(lookup) ==> search.found == nothing
                    && search.asked == Some(lookup)
                &&& phrase_match(ctx, run) == Ok::<bool, LookupView>(true) ==> search.found
                    == nothing && search.asked is None
                &&& phrase_match(ctx, run) == Ok::<bool, LookupView>(false) ==> {
                    &&& resegmented(ctx, run) matches Err(lookup) ==> search.found == nothing
                        && search.asked == Some(lookup)
                    &&& resegmented(ctx, run) matches Ok(None) ==> search.found == nothing
                        && search.asked is None
                    &&& resegmented(ctx, run) matches Ok(Some(term)) ==> search.found == seq![
                        ResegmentationCandidateView {
                            attach_at: run_end,
                            start_idx: run_start,
                            end_idx: run_end,
                            term,
                        },
                    ] && search.asked is None
                }
            }
        }),
{
    no_held_term_is_missing(terms, run_start, run_end);
    let spans = seq![(run_start, run_end)];
    assert(spans.drop_first() == Seq::<(int, int)>::empty());
    assert(spans[0] == (run_start, run_end));
    reveal_with_fuel(search_spans, 2);
}

/// Whether a part of a run covers all of its terms that the index does not hold, and has at most 16
/// terms.
pub open spec fn covers_the_missing(
    terms: Seq<LocatedQueryTermView>,
    run_start: int,
    run_end: int,
    span: (int, int),
) -> bool {
    &&& run_start <= span.0 <= span.1 <= run_end
    &&& span.1 - span.0 + 1 <= 16
    &&& forall|k: int|
        run_start <= k <= run_end && !is_held(#[trigger] terms[k]) ==> span.0 <= k <= span.1
}

/// What a part of the terms of a query is resegmented to.
pub open spec fn resegmented_part(
    ctx: SearchContext<'_>,
    terms: Seq<LocatedQueryTermView>,
    span: (int, int),
) -> Result<Option<LocatedQueryTermView>, LookupView> {
    resegmented(ctx, terms.subrange(span.0, span.1 + 1))
}

/// The candidate for a part of a run.
pub open spec fn candidate_for(
    run_end: int,
    span: (int, int),
    term: LocatedQueryTermView,
) -> ResegmentationCandidateView {
    ResegmentationCandidateView { attach_at: run_end, start_idx: span.0, end_idx: span.1, term }
}

/// Whether a part of a run is shorter than another, or as long and further to the end of the run.
pub open spec fn is_looked_up_before(span: (int, int), other: (int, int)) -> bool {
    ||| span.1 - span.0 < other.1 - other.0
    ||| span.1 - span.0 == other.1 - other.0 && span.1 > other.1
}

/// Whether each part that is looked up before another is resegmented without a question, and is
/// among the candidates if a term stands for it.
pub open spec fn are_found_before(
    ctx: SearchContext<'_>,
    terms: Seq<LocatedQueryTermView>,
    run_start: int,
    run_end: int,
    found: Seq<ResegmentationCandidateView>,
    other: (int, int),
) -> bool {
    forall|span: (int, int)|
        covers_the_missing(terms, run_start, run_end, span) && is_looked_up_before(span, other) ==> {
            &&& (#[trigger] resegmented_part(ctx, terms, span)) is Ok
            &&& resegmented_part(ctx, terms, span) matches Ok(Some(term)) ==> found.contains(
                candidate_for(run_end, span, term),
            )
        }
}

/// How far a search comes: the spans before are answered, and what they give is found.
proof fn searches_come_so_far(
    ctx: SearchContext<'_>,
    terms: Seq<LocatedQueryTermView>,
    attach_at: int,
    spans: Seq<(int, int)>,
    limit: int,
) -> (n: int)
    requires
        limit > 0,
    ensures
        0 <= n <= spans.len(),
        ({
            let search = search_spans(ctx, terms, attach_at, spans, limit);
            &&& search.found.len() <= limit
            &&& forall|i: int|
                0 <= i < n ==> {
                    &&& resegmented_part(ctx, terms, #[trigger] spans[i]) is Ok
                    &&& resegmented_part(ctx, terms, spans[i]) matches Ok(Some(term))
                        ==> search.found.contains(candidate_for(attach_at, spans[i], term))
                }
            &&& search.asked matches Some(lookup) ==> n < spans.len() && search.found.len() < limit
                && resegmented_part(ctx, terms, spans[n]) == Err::<
                Option<LocatedQueryTermView>,
                LookupView,
            >(lookup)
            &&& search.asked is None && search.found.len() < limit ==> n == spans.len()
            &&& search.found.len() == limit ==> n > 0 && search.asked is None
                && resegmented_part(ctx, terms, spans[n - 1]) == Ok::<
                Option<LocatedQueryTermView>,
                LookupView,
            >(Some(search.found.last().term)) && search.found.last() == candidate_for(
                attach_at,
                spans[n - 1],
                search.found.last().term,
            )
        }),
    decreases spans.len(),
{
    let search = search_spans(ctx, terms, attach_at, spans, limit);
    if spans.len() == 0 {
        0
    } else {
        let (start_idx, end_idx) = spans[0];
        let later = spans.drop_first();
        assert(spans[0] == (start_idx, end_idx));
        assert forall|i: int| 0 < i < spans.len() implies #[trigger] spans[i] == later[i - 1] by {}
        match resegmented(ctx, terms.subrange(start_idx, end_idx + 1)) {
            Err(_) => 0,
            Ok(None) => {
                let n = searches_come_so_far(ctx, terms, attach_at, later, limit);
                assert(search == search_spans(ctx, terms, attach_at, later, limit));
                assert forall|i: int| 0 <= i < n + 1 implies {
                    &&& resegmented_part(ctx, terms, #[trigger] spans[i]) is Ok
                    &&& resegmented_part(ctx, terms, spans[i]) matches Ok(Some(term))
                        ==> search.found.contains(candidate_for(attach_at, spans[i], term))
                } by {
                    if i > 0 {
                        assert(spans[i] == later[i - 1]);
                    }
                }
                n + 1
            },
            Ok(Some(term)) => {
                let first = candidate_for(attach_at, spans[0], term);
                let rest = search_spans(ctx, terms, attach_at, later, limit - 1);
                assert(search.found == seq![first] + rest.found);
                assert(search.found[0] == first);
                if limit == 1 {
                    assert(rest.found.len() == 0);
                    assert(search.found.last() == first);
                    1
                } else {
                    let n = searches_come_so_far(ctx, terms, attach_at, later, limit - 1);
                    assert forall|i: int| 0 <= i < n + 1 implies {
                        &&& resegmented_part(ctx, terms, #[trigger] spans[i]) is Ok
                        &&& resegmented_part(ctx, terms, spans[i]) matches Ok(Some(term))
                            ==> search.found.contains(candidate_for(attach_at, spans[i], term))
                    } by {
                        if i > 0 {
                            assert(spans[i] == later[i - 1]);
                            if let Ok(Some(other)) = resegmented_part(ctx, terms, spans[i]) {
                                let candidate = candidate_for(attach_at, spans[i], other);
                                let k = choose|k: int|
                                    0 <= k < rest.found.len() && rest.found[k] == candidate;
                                assert(search.found[k + 1] == candidate);
                            }
                        }
                    }
                    if rest.found.len() > 0 {
                        assert(search.found.last() == rest.found.last());
                    }
                    n + 1
                }
            },
        }
    }
}

/// The parts of a run that cover its missing terms are the spans around its core.
proof fn spans_cover_the_missing(
    terms: Seq<LocatedQueryTermView>,
    run_start: int,
    run_end: int,
) -> (core: RunCore)
    requires
        0 <= run_start <= run_end < terms.len(),
        exists|k: int| run_start <= k <= run_end && !is_held(#[trigger] terms[k]),
    ensures
        core.wf(),
        core.run_end == run_end,
        forall|span: (int, int)|
            #![trigger covers_the_missing(terms, run_start, run_end, span)]
            is_span(core, span) <==> covers_the_missing(terms, run_start, run_end, span),
        forall|ctx: SearchContext<'_>|
            #![trigger search_run(ctx, terms, run_start, run_end)]
            search_run(ctx, terms, run_start, run_end) == search_spans(
                ctx,
                terms,
                run_end,
                spans_from(core, 0),
                3,
            ),
{
    missing_terms_are_between(terms, run_start, run_end);
    let missing = choose|k: int| run_start <= k <= run_end && !is_held(#[trigger] terms[k]);
    assert(!terms[missing].value.is_indexed());
    let first = first_missing(terms, run_start, run_end)->0;
    let last = last_missing(terms, run_start, run_end)->0;
    if first > last {
        assert(terms[last].value.is_indexed());
    }
    let core = RunCore { run_start, first, last, run_end };
    assert forall|span: (int, int)|
        #![trigger covers_the_missing(terms, run_start, run_end, span)]
        is_span(core, span) <==> covers_the_missing(terms, run_start, run_end, span) by {
        if covers_the_missing(terms, run_start, run_end, span) {
            assert(!is_held(terms[first]));
            assert(!is_held(terms[last]));
        }
        if is_span(core, span) {
            assert forall|k: int|
                run_start <= k <= run_end && !is_held(#[trigger] terms[k]) implies span.0 <= k
                <= span.1 by {
                if k < first {
                    assert(terms[k].value.is_indexed());
                }
                if k > last {
                    assert(terms[k].value.is_indexed());
                }
            }
        }
    }
    core
}

/// Where the index does not hold some terms of a run, the parts of the run are offered that cover
/// all of these, have at most 16 terms, and have a term that stands for them. Shorter parts are
/// looked up first, and of those of one length the ones that end later. The first three that are
/// found are offered. A part that asks a question ends the search with it: then all that was to be
/// found before it was found.
pub proof fn runs_with_missing_terms_are_offered_in_parts(
    ctx: SearchContext<'_>,
    terms: Seq<LocatedQueryTermView>,
    run_start: int,
    run_end: int,
)
    requires
        0 <= run_start <= run_end < terms.len(),
        exists|k: int| run_start <= k <= run_end && !is_held(#[trigger] terms[k]),
    ensures
        ({
            let search = search_run(ctx, terms, run_start, run_end);
            let found = search.found;
            &&& found.len() <= 3
            &&& forall|i: int|
                0 <= i < found.len() ==> {
                    let span = (found[i].start_idx, found[i].end_idx);
                    &&& (#[trigger] found[i]).attach_at == run_end
                    &&& covers_the_missing(terms, run_start, run_end, span)
                    &&& resegmented_part(ctx, terms, span) == Ok::<
                        Option<LocatedQueryTermView>,
                        LookupView,
                    >(Some(found[i].term))
                }
            &&& forall|i: int, j: int|
                #![trigger found[i], found[j]]
                0 <= i < j < found.len() ==> is_looked_up_before(
                    (found[i].start_idx, found[i].end_idx),
                    (found[j].start_idx, found[j].end_idx),
                )
            &&& search.asked is None && found.len() < 3 ==> forall|span: (int, int)|
                covers_the_missing(terms, run_start, run_end, span) ==> {
                    &&& (#[trigger] resegmented_part(ctx, terms, span)) is Ok
                    &&& resegmented_part(ctx, terms, span) matches Ok(Some(term)) ==> found.contains(
                        candidate_for(run_end, span, term),
                    )
                }
            &&& found.len() == 3 ==> search.asked is None && are_found_before(
                ctx,
                terms,
                run_start,
                run_end,
                found,
                (found[2].start_idx, found[2].end_idx),
            )
            &&& search.asked matches Some(lookup) ==> exists|span: (int, int)|
                covers_the_missing(terms, run_start, run_end, span) && (#[trigger] resegmented_part(
                    ctx,
                    terms,
                    span,
                )) == Err::<Option<LocatedQueryTermView>, LookupView>(lookup) && are_found_before(
                    ctx,
                    terms,
                    run_start,
                    run_end,
                    found,
                    span,
                )
        }),
{
    let search = search_run(ctx, terms, run_start, run_end);
    let found = search.found;
    let core = spans_cover_the_missing(terms, run_start, run_end);
    let spans = spans_from(core, 0);
    all_spans_are_tried_in_order(core);
    candidates_of_a_run(ctx, terms, run_start, run_end);
    let n = searches_come_so_far(ctx, terms, run_end, spans, 3);
    assert(search == search_spans(ctx, terms, run_end, spans, 3));
    assert forall|i: int| 0 <= i < found.len() implies {
        let span = (found[i].start_idx, found[i].end_idx);
        &&& (#[trigger] found[i]).attach_at == run_end
        &&& covers_the_missing(terms, run_start, run_end, span)
        &&& resegmented_part(ctx, terms, span) == Ok::<Option<LocatedQueryTermView>, LookupView>(
            Some(found[i].term),
        )
    } by {
        assert(is_candidate_of_run(ctx, terms, run_start, run_end, found[i]));
        assert forall|k: int|
            run_start <= k <= run_end && !is_held(#[trigger] terms[k]) implies found[i].start_idx
            <= k <= found[i].end_idx by {
            assert(!terms[k].value.is_indexed());
        }
    }
    assert forall|i: int, j: int|
        #![trigger found[i], found[j]]
        0 <= i < j < found.len() implies is_looked_up_before(
        (found[i].start_idx, found[i].end_idx),
        (found[j].start_idx, found[j].end_idx),
    ) by {
        assert(is_tried_before(span_of(found[i]), span_of(found[j])));
    }
    assert forall|span: (int, int)| covers_the_missing(terms, run_start, run_end, span) implies (
    exists|k: int| 0 <= k < spans.len() && #[trigger] spans[k] == span) by {
        assert(is_span(core, span));
        assert(spans.contains(span));
    }
    if search.asked is None && found.len() < 3 {
        assert forall|span: (int, int)|
            covers_the_missing(terms, run_start, run_end, span) implies {
            &&& (#[trigger] resegmented_part(ctx, terms, span)) is Ok
            &&& resegmented_part(ctx, terms, span) matches Ok(Some(term)) ==> found.contains(
                candidate_for(run_end, span, term),
            )
        } by {
            let k = choose|k: int| 0 <= k < spans.len() && #[trigger] spans[k] == span;
            assert(resegmented_part(ctx, terms, spans[k]) is Ok);
        }
    } else {
        let last = if search.asked is Some {
            n
        } else {
            n - 1
        };
        let other = spans[last];
        assert(spans.contains(other));
        assert(covers_the_missing(terms, run_start, run_end, other));
        assert forall|span: (int, int)|
            covers_the_missing(terms, run_start, run_end, span) && is_looked_up_before(
                span,
                other,
            ) implies {
            &&& (#[trigger] resegmented_part(ctx, terms, span)) is Ok
            &&& resegmented_part(ctx, terms, span) matches Ok(Some(term)) ==> found.contains(
                candidate_for(run_end, span, term),
            )
        } by {
            let k = choose|k: int| 0 <= k < spans.len() && #[trigger] spans[k] == span;
            if k > last {
                assert(is_tried_before(spans[last], spans[k]));
            }
            assert(k < last);
            assert(resegmented_part(ctx, terms, spans[k]) is Ok);
        }
        assert(are_found_before(ctx, terms, run_start, run_end, found, other));
        assert(resegmented_part(ctx, terms, other) is Ok || search.asked is Some);
    }
}

/// Nothing is offered for a run whose missing terms are more than 16 terms apart, and nothing is
/// asked.
pub proof fn distant_missing_terms_are_given_up(
    ctx: SearchContext<'_>,
    terms: Seq<LocatedQueryTermView>,
    run_start: int,
    run_end: int,
    i: int,
    j: int,
)
    requires
        0 <= run_start <= i <= j <= run_end < terms.len(),
        !is_held(terms[i]),
        !is_held(terms[j]),
        j - i + 1 > 16,
    ensures
        search_run(ctx, terms, run_start, run_end).found == Seq::<
            ResegmentationCandidateView,
        >::empty(),
        search_run(ctx, terms, run_start, run_end).asked is None,
{
    runs_with_missing_terms_are_offered_in_parts(ctx, terms, run_start, run_end);
    let search = search_run(ctx, terms, run_start, run_end);
    assert forall|span: (int, int)| !covers_the_missing(terms, run_start, run_end, span) by {
        if covers_the_missing(terms, run_start, run_end, span) {
            assert(span.0 <= i && j <= span.1);
        }
    }
    if search.found.len() > 0 {
        assert(search.found[0].attach_at == run_end);
    }
}

/// Whether two terms that stand one after the other belong to one run: both have a normalized
/// variant, and no position lies between them.
pub open spec fn are_joined(left: LocatedQueryTermView, right: LocatedQueryTermView) -> bool {
    &&& left.japanese_variants.normalized is Some
    &&& right.japanese_variants.normalized is Some
    &&& left.positions.end + 1 == right.positions.start
}

/// Whether some terms of a query are a run: they are joined, and with none before or behind them.
pub open spec fn is_run(terms: Seq<LocatedQueryTermView>, run_start: int, run_end: int) -> bool {
    &&& 0 <= run_start <= run_end < terms.len()
    &&& terms[run_start].japanese_variants.normalized is Some
    &&& forall|i: int, j: int|
        #![trigger terms[i], terms[j]]
        run_start <= i < run_end && j == i + 1 ==> are_joined(terms[i], terms[j])
    &&& run_start > 0 ==> !are_joined(terms[run_start - 1], terms[run_start])
    &&& run_end + 1 < terms.len() ==> !are_joined(terms[run_end], terms[run_end + 1])
}

proof fn runs_end_where_they_are_not_joined(terms: Seq<LocatedQueryTermView>, start: int)
    requires
        0 <= start < terms.len(),
        terms[start].japanese_variants.normalized is Some,
    ensures
        ({
            let end = run_end_from(terms, start);
            &&& start <= end < terms.len()
            &&& terms[end].japanese_variants.normalized is Some
            &&& forall|i: int, j: int|
                #![trigger terms[i], terms[j]]
                start <= i < end && j == i + 1 ==> are_joined(terms[i], terms[j])
            &&& end + 1 < terms.len() ==> !are_joined(terms[end], terms[end + 1])
        }),
    decreases terms.len() - start,
{
    if run_goes_on(terms, start) {
        runs_end_where_they_are_not_joined(terms, start + 1);
        let end = run_end_from(terms, start);
        assert forall|i: int, j: int|
            #![trigger terms[i], terms[j]]
            start <= i < end && j == i + 1 implies are_joined(terms[i], terms[j]) by {
            if i > start {
                assert(are_joined(terms[i], terms[j]));
            }
        }
    }
}

proof fn runs_do_not_overlap(
    terms: Seq<LocatedQueryTermView>,
    run_start: int,
    run_end: int,
    other_start: int,
    other_end: int,
)
    requires
        is_run(terms, run_start, run_end),
        is_run(terms, other_start, other_end),
        run_start <= other_start <= run_end,
    ensures
        run_start == other_start && run_end == other_end,
{
    if other_start > run_start {
        assert(are_joined(terms[other_start - 1], terms[other_start]));
    }
    if run_end < other_end {
        assert(are_joined(terms[run_end], terms[run_end + 1]));
    }
    if other_end < run_end {
        assert(are_joined(terms[other_end], terms[other_end + 1]));
    }
}

/// The candidates that are attached to a term.
pub open spec fn attached_to(found: Seq<ResegmentationCandidateView>, at: int) -> Seq<
    ResegmentationCandidateView,
> {
    found.filter(|candidate: ResegmentationCandidateView| candidate.attach_at == at)
}

proof fn all_are_attached(found: Seq<ResegmentationCandidateView>, at: int)
    requires
        forall|i: int| 0 <= i < found.len() ==> (#[trigger] found[i]).attach_at == at,
    ensures
        attached_to(found, at) == found,
    decreases found.len(),
{
    reveal(Seq::filter);
    if found.len() > 0 {
        let first = found.drop_last();
        assert forall|i: int| 0 <= i < first.len() implies (#[trigger] first[i]).attach_at
            == at by {
            assert(first[i] == found[i]);
        }
        all_are_attached(first, at);
        assert(found.last() == found[found.len() - 1]);
        assert(first.push(found.last()) == found);
    }
}

proof fn none_are_attached(found: Seq<ResegmentationCandidateView>, at: int)
    requires
        forall|i: int| 0 <= i < found.len() ==> (#[trigger] found[i]).attach_at != at,
    ensures
        attached_to(found, at) == Seq::<ResegmentationCandidateView>::empty(),
    decreases found.len(),
{
    reveal(Seq::filter);
    if found.len() > 0 {
        let first = found.drop_last();
        assert forall|i: int| 0 <= i < first.len() implies (#[trigger] first[i]).attach_at
            != at by {
            assert(first[i] == found[i]);
        }
        none_are_attached(first, at);
        assert(found.last() == found[found.len() - 1]);
    }
}

/// Whether a candidate is attached to the last term of a run that starts at some term or later.
spec fn is_of_a_run(terms: Seq<LocatedQueryTermView>, start: int, at: int) -> bool {
    exists|run_start: int| start <= run_start && #[trigger] is_run(terms, run_start, at)
}

proof fn runs_from_a_term_are_searched(
    ctx: SearchContext<'_>,
    terms: Seq<LocatedQueryTermView>,
    start: int,
)
    requires
        0 <= start <= terms.len(),
        0 < start < terms.len() ==> !are_joined(terms[start - 1], terms[start]),
    ensures
        match search_from(ctx, terms, start) {
            Ok(found) => {
                &&& forall|a: int, b: int|
                    start <= a && #[trigger] is_run(terms, a, b) ==> search_run(
                        ctx,
                        terms,
                        a,
                        b,
                    ).asked is None && attached_to(found, b) == search_run(ctx, terms, a, b).found
                &&& forall|i: int|
                    0 <= i < found.len() ==> is_of_a_run(
                        terms,
                        start,
                        (#[trigger] found[i]).attach_at,
                    )
                &&& forall|i: int, j: int|
                    #![trigger found[i], found[j]]
                    0 <= i <= j < found.len() ==> found[i].attach_at <= found[j].attach_at
            },
            Err(lookup) => exists|a: int, b: int|
                start <= a && #[trigger] is_run(terms, a, b) && search_run(
                    ctx,
                    terms,
                    a,
                    b,
                ).asked == Some(lookup) && forall|c: int, d: int|
                    start <= c < a && #[trigger] is_run(terms, c, d) ==> search_run(
                        ctx,
                        terms,
                        c,
                        d,
                    ).asked is None,
        },
    decreases terms.len() - start,
{
    if start < terms.len() {
        if terms[start].japanese_variants.normalized is None {
            runs_from_a_term_are_searched(ctx, terms, start + 1);
            if let Ok(found) = search_from(ctx, terms, start) {
                assert forall|i: int| 0 <= i < found.len() implies is_of_a_run(
                    terms,
                    start,
                    (#[trigger] found[i]).attach_at,
                ) by {
                    assert(is_of_a_run(terms, start + 1, found[i].attach_at));
                    let a = choose|a: int|
                        start + 1 <= a && #[trigger] is_run(terms, a, found[i].attach_at);
                    assert(is_run(terms, a, found[i].attach_at));
                }
            }
        } else {
            let end = run_end_from(terms, start);
            run_is_adjacent(terms, start);
            runs_end_where_they_are_not_joined(terms, start);
            assert(is_run(terms, start, end));
            assert forall|a: int, b: int|
                start <= a && #[trigger] is_run(terms, a, b) implies (a == start && b == end) || a
                > end by {
                if a <= end {
                    runs_do_not_overlap(terms, start, end, a, b);
                }
            }
            let run = search_run(ctx, terms, start, end);
            runs_from_a_term_are_searched(ctx, terms, end + 1);
            candidates_of_a_run(ctx, terms, start, end);
            match search_from(ctx, terms, start) {
                Ok(found) => {
                    let rest = search_from(ctx, terms, end + 1)->Ok_0;
                    assert(found == run.found + rest);
                    assert forall|i: int| 0 <= i < run.found.len() implies (
                    #[trigger] run.found[i]).attach_at == end by {
                        assert(is_candidate_of_run(ctx, terms, start, end, run.found[i]));
                    }
                    assert forall|i: int| 0 <= i < rest.len() implies (
                    #[trigger] rest[i]).attach_at > end && is_of_a_run(
                        terms,
                        start,
                        rest[i].attach_at,
                    ) by {
                        assert(is_of_a_run(terms, end + 1, rest[i].attach_at));
                        let a = choose|a: int|
                            end + 1 <= a && #[trigger] is_run(terms, a, rest[i].attach_at);
                        assert(is_run(terms, a, rest[i].attach_at));
                    }
                    assert forall|a: int, b: int|
                        start <= a && #[trigger] is_run(terms, a, b) implies search_run(
                        ctx,
                        terms,
                        a,
                        b,
                    ).asked is None && attached_to(found, b) == search_run(
                        ctx,
                        terms,
                        a,
                        b,
                    ).found by {
                        Seq::filter_distributes_over_add(
                            run.found,
                            rest,
                            |candidate: ResegmentationCandidateView| candidate.attach_at == b,
                        );
                        if a == start {
                            all_are_attached(run.found, b);
                            none_are_attached(rest, b);
                            assert(run.found + Seq::<ResegmentationCandidateView>::empty()
                                == run.found);
                        } else {
                            none_are_attached(run.found, b);
                            assert(Seq::<ResegmentationCandidateView>::empty() + attached_to(
                                rest,
                                b,
                            ) == attached_to(rest, b));
                        }
                    }
                    assert forall|i: int| 0 <= i < found.len() implies is_of_a_run(
                        terms,
                        start,
                        (#[trigger] found[i]).attach_at,
                    ) by {
                        if i < run.found.len() {
                            assert(found[i] == run.found[i]);
                        } else {
                            assert(found[i] == rest[i - run.found.len()]);
                        }
                    }
                    assert forall|i: int, j: int|
                        #![trigger found[i], found[j]]
                        0 <= i <= j < found.len() implies found[i].attach_at
                        <= found[j].attach_at by {
                        if j < run.found.len() {
                            assert(found[i] == run.found[i] && found[j] == run.found[j]);
                        } else if i < run.found.len() {
                            assert(found[i] == run.found[i]);
                            assert(found[j] == rest[j - run.found.len()]);
                        } else {
                            assert(found[i] == rest[i - run.found.len()]);
                            assert(found[j] == rest[j - run.found.len()]);
                        }
                    }
                },
                Err(lookup) => {
                    if run.asked is None {
                        let (a, b) = choose|a: int, b: int|
                            end + 1 <= a && #[trigger] is_run(terms, a, b) && search_run(
                                ctx,
                                terms,
                                a,
                                b,
                            ).asked == Some(lookup) && forall|c: int, d: int|
                                end + 1 <= c < a && #[trigger] is_run(terms, c, d) ==> search_run(
                                    ctx,
                                    terms,
                                    c,
                                    d,
                                ).asked is None;
                        assert(is_run(terms, a, b));
                    }
                },
            }
        }
    }
}

/// The candidates of a query are those of its runs: of the terms that have a normalized variant and
/// follow one another without a gap, as many together as there are. Those of each run are attached
/// to its last term, and earlier runs come first. The first run that asks a question ends the
/// search with it.
pub proof fn candidates_are_those_of_the_runs(
    ctx: SearchContext<'_>,
    terms: Seq<LocatedQueryTermView>,
)
    ensures
        search_from(ctx, terms, 0) matches Ok(found) ==> {
            &&& forall|a: int, b: int| #[trigger]
                is_run(terms, a, b) ==> search_run(ctx, terms, a, b).asked is None && found.filter(
                    |candidate: ResegmentationCandidateView| candidate.attach_at == b,
                ) == search_run(ctx, terms, a, b).found
            &&& forall|i: int|
                0 <= i < found.len() ==> exists|a: int| #[trigger]
                    is_run(terms, a, (#[trigger] found[i]).attach_at)
            &&& forall|i: int, j: int|
                #![trigger found[i], found[j]]
                0 <= i <= j < found.len() ==> found[i].attach_at <= found[j].attach_at
        },
        search_from(ctx, terms, 0) matches Err(lookup) ==> exists|a: int, b: int| #[trigger]
            is_run(terms, a, b) && search_run(ctx, terms, a, b).asked == Some(lookup) && forall|
                c: int,
                d: int,
            |
                c < a && #[trigger] is_run(terms, c, d) ==> search_run(
                    ctx,
                    terms,
                    c,
                    d,
                ).asked is None,
{
    runs_from_a_term_are_searched(ctx, terms, 0);
    match search_from(ctx, terms, 0) {
        Ok(found) => {
            assert forall|a: int, b: int| #[trigger] is_run(terms, a, b) implies search_run(
                ctx,
                terms,
                a,
                b,
            ).asked is None && found.filter(
                |candidate: ResegmentationCandidateView| candidate.attach_at == b,
            ) == search_run(ctx, terms, a, b).found by {
                assert(attached_to(found, b) == search_run(ctx, terms, a, b).found);
            }
            assert forall|i: int| 0 <= i < found.len() implies exists|a: int| #[trigger]
                is_run(terms, a, (#[trigger] found[i]).attach_at) by {
                assert(is_of_a_run(terms, 0, found[i].attach_at));
                let a = choose|a: int| 0 <= a && #[trigger] is_run(terms, a, found[i].attach_at);
                assert(is_run(terms, a, found[i].attach_at));
            }
        },
        Err(lookup) => {
            let (a, b) = choose|a: int, b: int|
                0 <= a && #[trigger] is_run(terms, a, b) && search_run(ctx, terms, a, b).asked
                    == Some(lookup) && forall|c: int, d: int|
                    0 <= c < a && #[trigger] is_run(terms, c, d) ==> search_run(
                        ctx,
                        terms,
                        c,
                        d,
                    ).asked is None;
            assert forall|c: int, d: int| c < a && #[trigger] is_run(terms, c, d) implies search_run(
                ctx,
                terms,
                c,
                d,
            ).asked is None by {
                assert(0 <= c);
            }
            assert(is_run(terms, a, b));
        },
    }
}

} // verus!
