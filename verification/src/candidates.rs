//! The runs of a query's Japanese terms that may be resegmented, and what they give.
use vstd::prelude::*;
use crate::context::{outcome, Lookup, LookupView, SearchContext};
use crate::plain::pushing_deepens;
use crate::query_term::{LocatedQueryTerm, LocatedQueryTermView};
use crate::resegmentation::{
    adjacency_is_defined, are_adjacent, follows, make_resegmentation,
    original_terms_have_phrase_match, phrase_match, resegmented, term_has_indexed_representation,
};

verus! {

/// The number of terms that one resegmentation spans at most.
pub const MAX_RESEGMENTATION_TERMS: usize = 16;

/// The number of resegmentations that one run of terms gives at most.
pub const MAX_RESEGMENTATION_NODES: usize = 3;

/// A term that stands for the terms from `start_idx` to `end_idx` of a query, offered at the end of
/// the run of terms that they belong to.
#[derive(Debug)]
pub struct ResegmentationCandidate {
    pub attach_at: usize,
    pub start_idx: usize,
    pub end_idx: usize,
    pub term: LocatedQueryTerm,
}

/// A candidate by its characters.
pub struct ResegmentationCandidateView {
    pub attach_at: int,
    pub start_idx: int,
    pub end_idx: int,
    pub term: LocatedQueryTermView,
}

impl DeepView for ResegmentationCandidate {
    type V = ResegmentationCandidateView;

    open spec fn deep_view(&self) -> ResegmentationCandidateView {
        ResegmentationCandidateView {
            attach_at: self.attach_at as int,
            start_idx: self.start_idx as int,
            end_idx: self.end_idx as int,
            term: self.term.deep_view(),
        }
    }
}

/// Some terms of a run: the core from `first` to `last` that a resegmentation has to span, between
/// the first and the last term of the run.
pub struct RunCore {
    pub run_start: int,
    pub first: int,
    pub last: int,
    pub run_end: int,
}

impl RunCore {
    /// The core lies in the run.
    pub open spec fn wf(self) -> bool {
        0 <= self.run_start <= self.first <= self.last <= self.run_end
    }

    /// The number of terms of the core.
    pub open spec fn len(self) -> int {
        self.last - self.first + 1
    }

    /// Whether a span with some terms more on either side lies in the run.
    pub open spec fn allows(self, left: int, right: int) -> bool {
        left <= self.first - self.run_start && right <= self.run_end - self.last
    }
}

/// The spans of the run with `extra` terms more than the core, of which at least `left` stand
/// before it; those with fewer terms before the core first.
pub open spec fn spans_with(core: RunCore, extra: int, left: int) -> Seq<(int, int)>
    decreases extra - left + 1,
{
    if left > extra {
        Seq::empty()
    } else {
        let rest = spans_with(core, extra, left + 1);
        if core.allows(left, extra - left) {
            seq![(core.first - left, core.last + (extra - left))] + rest
        } else {
            rest
        }
    }
}

/// The spans of the run with at least `extra` terms more than the core and at most as many terms as
/// a resegmentation spans; the shorter first.
pub open spec fn spans_from(core: RunCore, extra: int) -> Seq<(int, int)>
    decreases MAX_RESEGMENTATION_TERMS - core.len() - extra + 1,
{
    if extra > MAX_RESEGMENTATION_TERMS - core.len() {
        Seq::empty()
    } else {
        spans_with(core, extra, 0) + spans_from(core, extra + 1)
    }
}

/// What a search found before it ended or asked for an answer.
pub struct Search {
    pub found: Seq<ResegmentationCandidateView>,
    pub asked: Option<LookupView>,
}

impl Search {
    /// A search that found something first.
    pub open spec fn after(self, candidate: ResegmentationCandidateView) -> Search {
        Search { found: seq![candidate] + self.found, asked: self.asked }
    }
}

/// The candidates for the first spans that have one, at most `limit`.
pub open spec fn search_spans(
    ctx: SearchContext<'_>,
    terms: Seq<LocatedQueryTermView>,
    attach_at: int,
    spans: Seq<(int, int)>,
    limit: int,
) -> Search
    decreases spans.len(),
{
    if spans.len() == 0 || limit <= 0 {
        Search { found: Seq::empty(), asked: None }
    } else {
        let (start_idx, end_idx) = spans[0];
        match resegmented(ctx, terms.subrange(start_idx, end_idx + 1)) {
            Err(lookup) => Search { found: Seq::empty(), asked: Some(lookup) },
            Ok(None) => search_spans(ctx, terms, attach_at, spans.drop_first(), limit),
            Ok(Some(term)) => search_spans(
                ctx,
                terms,
                attach_at,
                spans.drop_first(),
                limit - 1,
            ).after(ResegmentationCandidateView { attach_at, start_idx, end_idx, term }),
        }
    }
}

/// The first term of a part of the query that the index does not hold.
pub open spec fn first_missing(
    terms: Seq<LocatedQueryTermView>,
    start: int,
    end: int,
) -> Option<int>
    decreases end - start + 1,
{
    if start > end {
        None
    } else if !terms[start].value.is_indexed() {
        Some(start)
    } else {
        first_missing(terms, start + 1, end)
    }
}

/// The last term of a part of the query that the index does not hold.
pub open spec fn last_missing(
    terms: Seq<LocatedQueryTermView>,
    start: int,
    end: int,
) -> Option<int>
    decreases end - start + 1,
{
    if start > end {
        None
    } else if !terms[end].value.is_indexed() {
        Some(end)
    } else {
        last_missing(terms, start, end - 1)
    }
}

/// The candidates of a run of terms.
///
/// Where the index does not hold some terms, these are the first spans around all of them that can
/// be resegmented. Where it holds all, this is the run as a whole, unless some document holds it as
/// a phrase.
pub open spec fn search_run(
    ctx: SearchContext<'_>,
    terms: Seq<LocatedQueryTermView>,
    run_start: int,
    run_end: int,
) -> Search {
    let nothing = Search { found: Seq::empty(), asked: None };
    let run_len = run_end - run_start + 1;
    match (first_missing(terms, run_start, run_end), last_missing(terms, run_start, run_end)) {
        (Some(first), Some(last)) => search_spans(
            ctx,
            terms,
            run_end,
            spans_from(RunCore { run_start, first, last, run_end }, 0),
            MAX_RESEGMENTATION_NODES as int,
        ),
        _ => if run_len <= 1 || run_len > MAX_RESEGMENTATION_TERMS {
            nothing
        } else {
            match phrase_match(ctx, terms.subrange(run_start, run_end + 1)) {
                Err(lookup) => Search { found: Seq::empty(), asked: Some(lookup) },
                Ok(true) => nothing,
                Ok(false) => search_spans(ctx, terms, run_end, seq![(run_start, run_end)], 1),
            }
        },
    }
}

/// A part of a slice of terms.
fn part_of(terms: &[LocatedQueryTerm], start: usize, end: usize) -> (part: &[LocatedQueryTerm])
    requires
        start <= end < terms.len(),
    ensures
        part.deep_view() == terms.deep_view().subrange(start as int, end + 1),
{
    let part = vstd::slice::slice_subrange(terms, start, end + 1);
    assert(part.deep_view() == terms.deep_view().subrange(start as int, end + 1));
    part
}

/// Adjacency can be told in a part of adjacent terms.
proof fn adjacency_in_a_part(
    terms: Seq<LocatedQueryTermView>,
    run_start: int,
    run_end: int,
    start: int,
    end: int,
)
    requires
        0 <= run_start <= start <= end <= run_end < terms.len(),
        are_adjacent(terms.subrange(run_start, run_end + 1)),
    ensures
        adjacency_is_defined(terms.subrange(start, end + 1)),
{
    let run = terms.subrange(run_start, run_end + 1);
    let part = terms.subrange(start, end + 1);
    assert forall|i: int| 0 < i < part.len() && are_adjacent(part.take(i)) implies (
    #[trigger] part[i]).positions.start > 0 by {
        let k = start - run_start + i;
        assert(follows(run[k - 1], run[k]));
        assert(part[i] == run[k]);
    }
}

/// What a search finds that has come to the spans with `extra` terms more than the core, of which
/// at least `left` stand before it.
#[verifier::opaque]
spec fn rest_of_search(
    ctx: SearchContext<'_>,
    terms: Seq<LocatedQueryTermView>,
    core: RunCore,
    extra: int,
    left: int,
    limit: int,
) -> Search {
    search_spans(
        ctx,
        terms,
        core.run_end,
        spans_with(core, extra, left) + spans_from(core, extra + 1),
        limit,
    )
}

/// How a search goes on.
proof fn search_goes_on(
    ctx: SearchContext<'_>,
    terms: Seq<LocatedQueryTermView>,
    core: RunCore,
    extra: int,
    left: int,
    limit: int,
)
    requires
        0 <= left <= extra <= MAX_RESEGMENTATION_TERMS - core.len(),
        limit > 0,
    ensures
        rest_of_search(ctx, terms, core, extra, left, limit) == (if !core.allows(
            left,
            extra - left,
        ) {
            rest_of_search(ctx, terms, core, extra, left + 1, limit)
        } else {
            let start_idx = core.first - left;
            let end_idx = core.last + (extra - left);
            match resegmented(ctx, terms.subrange(start_idx, end_idx + 1)) {
                Err(lookup) => Search { found: Seq::empty(), asked: Some(lookup) },
                Ok(None) => rest_of_search(ctx, terms, core, extra, left + 1, limit),
                Ok(Some(term)) => rest_of_search(
                    ctx,
                    terms,
                    core,
                    extra,
                    left + 1,
                    limit - 1,
                ).after(
                    ResegmentationCandidateView {
                        attach_at: core.run_end,
                        start_idx,
                        end_idx,
                        term,
                    },
                ),
            }
        }),
{
    reveal(rest_of_search);
    let later = spans_with(core, extra, left + 1) + spans_from(core, extra + 1);
    let spans = spans_with(core, extra, left) + spans_from(core, extra + 1);
    if core.allows(left, extra - left) {
        let span = (core.first - left, core.last + (extra - left));
        assert(spans == seq![span] + later);
        assert(spans.drop_first() == later);
        assert(spans[0] == span);
    }
}

/// A search goes on with spans that are one term longer, and ends with the longest.
proof fn search_widens(
    ctx: SearchContext<'_>,
    terms: Seq<LocatedQueryTermView>,
    core: RunCore,
    extra: int,
    limit: int,
)
    ensures
        extra + 1 <= MAX_RESEGMENTATION_TERMS - core.len() ==> rest_of_search(
            ctx,
            terms,
            core,
            extra,
            extra + 1,
            limit,
        ) == rest_of_search(ctx, terms, core, extra + 1, 0, limit),
        extra + 1 > MAX_RESEGMENTATION_TERMS - core.len() ==> rest_of_search(
            ctx,
            terms,
            core,
            extra,
            extra + 1,
            limit,
        ) == (Search { found: Seq::empty(), asked: None }),
{
    reveal(rest_of_search);
    assert(spans_with(core, extra, extra + 1) + spans_from(core, extra + 1) == spans_from(
        core,
        extra + 1,
    ));
}

/// A search that has found enough ends.
proof fn search_ends(
    ctx: SearchContext<'_>,
    terms: Seq<LocatedQueryTermView>,
    core: RunCore,
    extra: int,
    left: int,
)
    ensures
        rest_of_search(ctx, terms, core, extra, left, 0) == (Search {
            found: Seq::empty(),
            asked: None,
        }),
{
    reveal(rest_of_search);
}

/// Adds the candidate for one span, if it has one, and tells whether it has.
fn collect_span_candidate(
    ctx: &SearchContext<'_>,
    terms: &[LocatedQueryTerm],
    attach_at: usize,
    start_idx: usize,
    end_idx: usize,
    output: &mut Vec<ResegmentationCandidate>,
) -> (r: Result<bool, Lookup>)
    requires
        start_idx <= end_idx < terms.len(),
        adjacency_is_defined(terms.deep_view().subrange(start_idx as int, end_idx + 1)),
    ensures
        match resegmented(*ctx, terms.deep_view().subrange(start_idx as int, end_idx + 1)) {
            Err(lookup) => {
                &&& r matches Err(l)
                &&& l.deep_view() == lookup
                &&& final(output).deep_view() == old(output).deep_view()
            },
            Ok(None) => {
                &&& r == Ok::<bool, Lookup>(false)
                &&& final(output).deep_view() == old(output).deep_view()
            },
            Ok(Some(term)) => {
                &&& r == Ok::<bool, Lookup>(true)
                &&& final(output).deep_view() == old(output).deep_view().push(
                    ResegmentationCandidateView {
                        attach_at: attach_at as int,
                        start_idx: start_idx as int,
                        end_idx: end_idx as int,
                        term,
                    },
                )
            },
        },
{
    match make_resegmentation(ctx, part_of(terms, start_idx, end_idx)) {
        Err(lookup) => Err(lookup),
        Ok(None) => Ok(false),
        Ok(Some(term)) => {
            let ghost before = *output;
            let candidate = ResegmentationCandidate { attach_at, start_idx, end_idx, term };
            output.push(candidate);
            proof {
                pushing_deepens(before, *output, candidate);
            }
            Ok(true)
        },
    }
}

/// The candidates for the first spans around the core of a run that have one.
fn collect_core_candidates(
    ctx: &SearchContext<'_>,
    terms: &[LocatedQueryTerm],
    run_start: usize,
    run_end: usize,
    first: usize,
    last: usize,
    output: &mut Vec<ResegmentationCandidate>,
) -> (r: Result<(), Lookup>)
    requires
        run_start <= first <= last <= run_end < terms.len(),
        are_adjacent(terms.deep_view().subrange(run_start as int, run_end + 1)),
    ensures
        ({
            let core = RunCore {
                run_start: run_start as int,
                first: first as int,
                last: last as int,
                run_end: run_end as int,
            };
            let search = search_spans(
                *ctx,
                terms.deep_view(),
                run_end as int,
                spans_from(core, 0),
                MAX_RESEGMENTATION_NODES as int,
            );
            &&& final(output).deep_view() == old(output).deep_view() + search.found
            &&& search.asked == (match r {
                Ok(_) => None,
                Err(lookup) => Some(lookup.deep_view()),
            })
        }),
{
    let ghost core = RunCore {
        run_start: run_start as int,
        first: first as int,
        last: last as int,
        run_end: run_end as int,
    };
    let ghost view = terms.deep_view();
    let ghost start = output.deep_view();
    let ghost all = search_spans(
        *ctx,
        view,
        run_end as int,
        spans_from(core, 0),
        MAX_RESEGMENTATION_NODES as int,
    );
    let core_len: usize = last - first + 1;
    if core_len > MAX_RESEGMENTATION_TERMS {
        assert(start + all.found == start);
        return Ok(());
    }
    let max_extra: usize = MAX_RESEGMENTATION_TERMS - core_len;
    let mut candidate_count: usize = 0;
    let mut extra: usize = 0;
    let mut left_extra: usize = 0;
    let ghost mut rest = all;
    proof {
        reveal(rest_of_search);
    }
    while extra <= max_extra
        invariant
            run_start <= first <= last <= run_end < terms.len(),
            view == terms.deep_view(),
            are_adjacent(view.subrange(run_start as int, run_end + 1)),
            core == (RunCore {
                run_start: run_start as int,
                first: first as int,
                last: last as int,
                run_end: run_end as int,
            }),
            max_extra == MAX_RESEGMENTATION_TERMS - core.len(),
            extra <= max_extra + 1,
            left_extra <= extra + 1,
            candidate_count < MAX_RESEGMENTATION_NODES,
            start == old(output).deep_view(),
            all == search_spans(
                *ctx,
                view,
                run_end as int,
                spans_from(core, 0),
                MAX_RESEGMENTATION_NODES as int,
            ),
            output.deep_view() + rest.found == start + all.found,
            rest.asked == all.asked,
            rest == (if extra <= max_extra {
                rest_of_search(
                    *ctx,
                    view,
                    core,
                    extra as int,
                    left_extra as int,
                    MAX_RESEGMENTATION_NODES - candidate_count,
                )
            } else {
                Search { found: Seq::empty(), asked: None }
            }),
        decreases max_extra + 1 - extra, extra + 1 - left_extra,
    {
        if left_extra > extra {
            proof {
                search_widens(
                    *ctx,
                    view,
                    core,
                    extra as int,
                    MAX_RESEGMENTATION_NODES - candidate_count,
                );
            }
            extra = extra + 1;
            left_extra = 0;
            continue;
        }
        let right_extra: usize = extra - left_extra;
        proof {
            search_goes_on(
                *ctx,
                view,
                core,
                extra as int,
                left_extra as int,
                MAX_RESEGMENTATION_NODES - candidate_count,
            );
        }
        if left_extra > first - run_start || right_extra > run_end - last {
            left_extra = left_extra + 1;
            continue;
        }
        let start_idx: usize = first - left_extra;
        let end_idx: usize = last + right_extra;
        proof {
            adjacency_in_a_part(
                view,
                run_start as int,
                run_end as int,
                start_idx as int,
                end_idx as int,
            );
        }
        let ghost before = output.deep_view();
        left_extra = left_extra + 1;
        match collect_span_candidate(ctx, terms, run_end, start_idx, end_idx, output) {
            Err(lookup) => {
                assert(before + rest.found == before);
                return Err(lookup);
            },
            Ok(found) => {
                if found {
                    candidate_count = candidate_count + 1;
                    proof {
                        let candidate = output.deep_view().last();
                        let next = rest_of_search(
                            *ctx,
                            view,
                            core,
                            extra as int,
                            left_extra as int,
                            MAX_RESEGMENTATION_NODES - candidate_count,
                        );
                        assert(rest == next.after(candidate));
                        assert(before + (seq![candidate] + next.found) == before.push(candidate)
                            + next.found);
                        rest = next;
                    }
                    if candidate_count >= MAX_RESEGMENTATION_NODES {
                        proof {
                            search_ends(*ctx, view, core, extra as int, left_extra as int);
                        }
                        assert(output.deep_view() + rest.found == output.deep_view());
                        return Ok(());
                    }
                }
            },
        }
    }
    assert(output.deep_view() + rest.found == output.deep_view());
    Ok(())
}

/// Adds the candidates of a run of terms to the output.
fn collect_run_candidates(
    ctx: &SearchContext<'_>,
    terms: &[LocatedQueryTerm],
    run_start: usize,
    run_end: usize,
    output: &mut Vec<ResegmentationCandidate>,
) -> (r: Result<(), Lookup>)
    requires
        run_start <= run_end < terms.len(),
        are_adjacent(terms.deep_view().subrange(run_start as int, run_end + 1)),
    ensures
        ({
            let search = search_run(*ctx, terms.deep_view(), run_start as int, run_end as int);
            &&& final(output).deep_view() == old(output).deep_view() + search.found
            &&& search.asked == (match r {
                Ok(_) => None,
                Err(lookup) => Some(lookup.deep_view()),
            })
        }),
{
    let ghost view = terms.deep_view();
    let run_len: usize = run_end - run_start + 1;
    let mut first: Option<usize> = None;
    let mut last: Option<usize> = None;
    let mut index: usize = run_start;
    while index <= run_end
        invariant
            run_start <= index <= run_end + 1,
            run_end < terms.len(),
            view == terms.deep_view(),
            first_missing(view, run_start as int, run_end as int) == (match first {
                Some(i) => Some(i as int),
                None => first_missing(view, index as int, run_end as int),
            }),
            last_missing(view, run_start as int, index - 1) == (match last {
                Some(i) => Some(i as int),
                None => None,
            }),
            first is Some <==> last is Some,
            first matches Some(i) ==> run_start <= i < index,
            last matches Some(i) ==> first matches Some(j) && j <= i < index,
        decreases run_end + 1 - index,
    {
        assert(view[index as int] == terms[index as int].deep_view());
        if !term_has_indexed_representation(&terms[index]) {
            if first.is_none() {
                first = Some(index);
            }
            last = Some(index);
        }
        index = index + 1;
    }
    assert(old(output).deep_view() + Seq::<ResegmentationCandidateView>::empty() == old(
        output,
    ).deep_view());
    match (first, last) {
        (Some(first), Some(last)) => collect_core_candidates(
            ctx,
            terms,
            run_start,
            run_end,
            first,
            last,
            output,
        ),
        _ => {
            if run_len <= 1 || run_len > MAX_RESEGMENTATION_TERMS {
                return Ok(());
            }
            let run = part_of(terms, run_start, run_end);
            match original_terms_have_phrase_match(ctx, run) {
                Err(lookup) => {
                    return Err(lookup);
                },
                Ok(found) => {
                    if found {
                        return Ok(());
                    }
                },
            }
            proof {
                let span = (run_start as int, run_end as int);
                assert(seq![span].drop_first() == Seq::<(int, int)>::empty());
                assert(seq![span][0] == span);
                reveal_with_fuel(search_spans, 2);
                adjacency_in_a_part(
                    view,
                    run_start as int,
                    run_end as int,
                    run_start as int,
                    run_end as int,
                );
            }
            match collect_span_candidate(ctx, terms, run_end, run_start, run_end, output) {
                Err(lookup) => Err(lookup),
                Ok(_) => Ok(()),
            }
        },
    }
}

/// Whether a run of terms that holds a term goes on with the next one.
pub open spec fn run_goes_on(terms: Seq<LocatedQueryTermView>, i: int) -> bool {
    &&& i + 1 < terms.len()
    &&& terms[i + 1].japanese_variants.normalized is Some
    &&& follows(terms[i], terms[i + 1])
}

/// The last term of the run that holds a term: each of its terms has a normalized variant and
/// follows the one before it without a gap.
pub open spec fn run_end_from(terms: Seq<LocatedQueryTermView>, i: int) -> int
    decreases terms.len() - i,
{
    if run_goes_on(terms, i) {
        run_end_from(terms, i + 1)
    } else {
        i
    }
}

/// The terms of a run follow one another without a gap.
pub proof fn run_is_adjacent(terms: Seq<LocatedQueryTermView>, i: int)
    requires
        0 <= i < terms.len(),
    ensures
        i <= run_end_from(terms, i) < terms.len(),
        are_adjacent(terms.subrange(i, run_end_from(terms, i) + 1)),
    decreases terms.len() - i,
{
    if run_goes_on(terms, i) {
        run_is_adjacent(terms, i + 1);
        let end = run_end_from(terms, i);
        let run = terms.subrange(i, end + 1);
        let rest = terms.subrange(i + 1, end + 1);
        assert forall|a: int, b: int|
            #![trigger run[a], run[b]]
            0 <= a && b == a + 1 && b < run.len() implies follows(run[a], run[b]) by {
            if a > 0 {
                assert(follows(rest[a - 1], rest[b - 1]));
            }
        }
    }
}

/// The candidates of the runs of terms from the term `start` on.
pub open spec fn search_from(
    ctx: SearchContext<'_>,
    terms: Seq<LocatedQueryTermView>,
    start: int,
) -> Result<Seq<ResegmentationCandidateView>, LookupView>
    decreases terms.len() - start,
{
    if start < 0 || start >= terms.len() {
        Ok(Seq::empty())
    } else if terms[start].japanese_variants.normalized is None {
        search_from(ctx, terms, start + 1)
    } else {
        proof {
            run_is_adjacent(terms, start);
        }
        let end = run_end_from(terms, start);
        let run = search_run(ctx, terms, start, end);
        match (run.asked, search_from(ctx, terms, end + 1)) {
            (Some(lookup), _) => Err(lookup),
            (None, Err(lookup)) => Err(lookup),
            (None, Ok(rest)) => Ok(run.found + rest),
        }
    }
}

/// Whether a position follows the last one of each term that may start a gapless pair.
pub open spec fn runs_are_defined(terms: Seq<LocatedQueryTermView>) -> bool {
    forall|i: int, j: int|
        #![trigger terms[i], terms[j]]
        0 <= i && j == i + 1 && j < terms.len() && terms[i].japanese_variants.normalized is Some
            && terms[j].japanese_variants.normalized is Some ==> terms[i].positions.end < u16::MAX
}

/// The candidates of all runs of the terms of a query.
pub fn resegmentation_candidates(ctx: &SearchContext<'_>, terms: &[LocatedQueryTerm]) -> (r: Result<
    Vec<ResegmentationCandidate>,
    Lookup,
>)
    requires
        runs_are_defined(terms.deep_view()),
    ensures
        outcome(r) == search_from(*ctx, terms.deep_view(), 0),
{
    let ghost view = terms.deep_view();
    let ghost all = search_from(*ctx, view, 0);
    let mut output: Vec<ResegmentationCandidate> = Vec::new();
    let mut run_start: usize = 0;
    assert(output.deep_view() == Seq::<ResegmentationCandidateView>::empty());
    proof {
        if let Ok(found) = all {
            assert(output.deep_view() + found == found);
        }
    }
    while run_start < terms.len()
        invariant
            run_start <= terms.len(),
            view == terms.deep_view(),
            runs_are_defined(view),
            all == search_from(*ctx, view, 0),
            all == (match search_from(*ctx, view, run_start as int) {
                Ok(rest) => Ok(output.deep_view() + rest),
                Err(lookup) => Err(lookup),
            }),
        decreases terms.len() - run_start,
    {
        assert(view[run_start as int] == terms[run_start as int].deep_view());
        if terms[run_start].japanese_variants.normalized.is_none() {
            run_start = run_start + 1;
            continue;
        }
        let mut run_end: usize = run_start;
        while run_end + 1 < terms.len() && terms[run_end + 1].japanese_variants.normalized.is_some()
            && terms[run_end].positions.end + 1 == terms[run_end + 1].positions.start
            invariant
                run_start <= run_end < terms.len(),
                view == terms.deep_view(),
                runs_are_defined(view),
                view[run_end as int].japanese_variants.normalized is Some,
                run_end_from(view, run_start as int) == run_end_from(view, run_end as int),
            decreases terms.len() - run_end,
        {
            assert(view[run_end as int] == terms[run_end as int].deep_view());
            assert(view[run_end + 1] == terms[run_end + 1].deep_view());
            run_end = run_end + 1;
        }
        proof {
            assert(view[run_end as int] == terms[run_end as int].deep_view());
            if run_end + 1 < terms.len() {
                assert(view[run_end + 1] == terms[run_end + 1].deep_view());
            }
            run_is_adjacent(view, run_start as int);
        }
        let ghost before = output.deep_view();
        match collect_run_candidates(ctx, terms, run_start, run_end, &mut output) {
            Err(lookup) => {
                return Err(lookup);
            },
            Ok(()) => {},
        }
        proof {
            let found = search_run(*ctx, view, run_start as int, run_end as int).found;
            if let Ok(rest) = search_from(*ctx, view, run_end + 1) {
                assert(before + (found + rest) == (before + found) + rest);
            }
        }
        run_start = run_end + 1;
    }
    proof {
        assert(output.deep_view() + Seq::<ResegmentationCandidateView>::empty()
            == output.deep_view());
    }
    Ok(output)
}

} // verus!
