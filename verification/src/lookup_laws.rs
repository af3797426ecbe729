//! What the questions that a search asks have in common: each is one that the context does not
//! answer, and what needed no further answer stays as it is once the context holds more.
use vstd::prelude::*;
use crate::candidates::{
    first_missing, last_missing, run_end_from, run_is_adjacent, search_from, search_run,
    search_spans, spans_from, RunCore, MAX_RESEGMENTATION_NODES,
};
use crate::context::{answer_to, Answer, LookupView, SearchContext, WordQueryView};
use crate::japanese::{unique_variants, variants_of};
use crate::parse_query::{
    after_break, after_token, built_phrase, considered, indexed_variants, ngram_term, read_from,
    read_query, PhraseBuilderView, QueryReaderView, ReaderOptions,
};
use crate::query_term::{LocatedQueryTermView, QueryTermView};
use crate::resegmentation::{concatenated_variants, first_replacement, replacements, resegmented};
use crate::segmentation::resegmentations;
use crate::token::{TokenKind, TokenView};

verus! {

/// Whether a question that was asked is one that the context does not answer, and a result that
/// was given is the same in a context that holds more.
pub open spec fn is_steady<T>(
    ctx: SearchContext<'_>,
    result: Result<T, LookupView>,
    later: Result<T, LookupView>,
) -> bool {
    match result {
        Err(lookup) => !ctx.knows(lookup),
        Ok(_) => later == result,
    }
}

/// The variants that a negated word keeps out of the results are steady.
proof fn indexed_variants_are_steady<'c>(
    ctx: SearchContext<'c>,
    more: SearchContext<'c>,
    variants: Seq<Seq<char>>,
)
    requires
        more.extends(ctx),
    ensures
        is_steady(ctx, indexed_variants(ctx, variants), indexed_variants(more, variants)),
    decreases variants.len(),
{
    if variants.len() > 0 {
        indexed_variants_are_steady(ctx, more, variants.drop_last());
        assert(ctx.word_answer(variants.last()) is Some ==> more.word_answer(variants.last())
            == ctx.word_answer(variants.last()));
    }
}

/// A token is read the same way once more is known, and asks only what is not known.
pub proof fn tokens_are_read_steadily<'c>(
    ctx: SearchContext<'c>,
    more: SearchContext<'c>,
    reader: QueryReaderView,
    token: TokenView,
    options: ReaderOptions,
)
    requires
        more.extends(ctx),
    ensures
        is_steady(
            ctx,
            after_token(ctx, reader, token, options),
            after_token(more, reader, token, options),
        ),
{
    match token.kind {
        TokenKind::Separator(_) => {
            let enabled = options.japanese_search_enabled;
            if let Some(phrase) = reader.phrase {
                phrases_are_built_steadily(ctx, more, phrase);
            }
            if let Ok(broken) = after_break(ctx, reader, token, enabled) {
                if let Some(phrase) = broken.phrase {
                    phrases_are_built_steadily(ctx, more, phrase);
                }
            }
        },
        TokenKind::Word | TokenKind::StopWord => {
            indexed_variants_are_steady(ctx, more, unique_variants(variants_of(token)));
            assert(ctx.word_answer(token.lemma) is Some ==> more.word_answer(token.lemma)
                == ctx.word_answer(token.lemma));
        },
        TokenKind::Unknown => {},
    }
}

/// A phrase is built the same way once more is known, and asks only what is not known.
proof fn phrases_are_built_steadily<'c>(
    ctx: SearchContext<'c>,
    more: SearchContext<'c>,
    phrase: PhraseBuilderView,
)
    requires
        more.extends(ctx),
    ensures
        is_steady(ctx, built_phrase(ctx, phrase), built_phrase(more, phrase)),
{
}

proof fn queries_are_read_steadily_from<'c>(
    ctx: SearchContext<'c>,
    more: SearchContext<'c>,
    reader: QueryReaderView,
    tokens: Seq<TokenView>,
    i: int,
    words_limit: Option<usize>,
    japanese_search_enabled: bool,
)
    requires
        more.extends(ctx),
    ensures
        is_steady(
            ctx,
            read_from(ctx, reader, tokens, i, words_limit, japanese_search_enabled),
            read_from(more, reader, tokens, i, words_limit, japanese_search_enabled),
        ),
    decreases tokens.len() - i,
{
    if i < 0 || i >= tokens.len() {
        if let Some(phrase) = reader.phrase {
            phrases_are_built_steadily(ctx, more, phrase);
        }
    } else if tokens[i].lemma.len() == 0 {
        queries_are_read_steadily_from(
            ctx,
            more,
            reader,
            tokens,
            i + 1,
            words_limit,
            japanese_search_enabled,
        );
    } else {
        let options = ReaderOptions { japanese_search_enabled, is_last: i + 1 == tokens.len() };
        tokens_are_read_steadily(ctx, more, reader, tokens[i], options);
        if let Ok(next) = after_token(ctx, reader, tokens[i], options) {
            queries_are_read_steadily_from(
                ctx,
                more,
                next,
                tokens,
                i + 1,
                words_limit,
                japanese_search_enabled,
            );
        }
    }
}

/// A query reads the same once more is known, and asks only what is not known.
pub proof fn queries_are_read_steadily<'c>(
    ctx: SearchContext<'c>,
    more: SearchContext<'c>,
    tokens: Seq<TokenView>,
    words_limit: Option<usize>,
    japanese_search_enabled: bool,
)
    requires
        more.extends(ctx),
    ensures
        is_steady(
            ctx,
            read_query(ctx, tokens, words_limit, japanese_search_enabled),
            read_query(more, tokens, words_limit, japanese_search_enabled),
        ),
{
    queries_are_read_steadily_from(
        ctx,
        more,
        QueryReaderView::start(),
        considered(tokens),
        0,
        words_limit,
        japanese_search_enabled,
    );
}

/// An n-gram is made the same way once more is known, and asks only what is not known.
pub proof fn ngrams_are_steady<'c>(
    ctx: SearchContext<'c>,
    more: SearchContext<'c>,
    terms: Seq<LocatedQueryTermView>,
    text: Seq<char>,
    typos: u8,
)
    requires
        more.extends(ctx),
    ensures
        is_steady(ctx, ngram_term(ctx, terms, text, typos), ngram_term(more, terms, text, typos)),
{
}

proof fn first_replacements_are_steady<'c>(
    ctx: SearchContext<'c>,
    more: SearchContext<'c>,
    terms: Seq<LocatedQueryTermView>,
    paths: Seq<Seq<Seq<char>>>,
)
    requires
        more.extends(ctx),
    ensures
        is_steady(
            ctx,
            first_replacement(ctx, terms, paths),
            first_replacement(more, terms, paths),
        ),
    decreases paths.len(),
{
    if paths.len() > 0 {
        first_replacements_are_steady(ctx, more, terms, paths.drop_first());
    }
}

proof fn replacements_are_steady<'c>(
    ctx: SearchContext<'c>,
    more: SearchContext<'c>,
    terms: Seq<LocatedQueryTermView>,
    compacts: Seq<Seq<char>>,
)
    requires
        more.extends(ctx),
    ensures
        is_steady(ctx, replacements(ctx, terms, compacts), replacements(more, terms, compacts)),
    decreases compacts.len(),
{
    if compacts.len() > 0 {
        replacements_are_steady(ctx, more, terms, compacts.drop_last());
        first_replacements_are_steady(
            ctx,
            more,
            terms,
            resegmentations(ctx.dictionary(), compacts.last()),
        );
    }
}

/// Terms are resegmented the same way once more is known, and ask only what is not known.
pub proof fn resegmentations_are_steady<'c>(
    ctx: SearchContext<'c>,
    more: SearchContext<'c>,
    terms: Seq<LocatedQueryTermView>,
)
    requires
        more.extends(ctx),
    ensures
        is_steady(ctx, resegmented(ctx, terms), resegmented(more, terms)),
{
    replacements_are_steady(ctx, more, terms, unique_variants(concatenated_variants(terms)));
}

proof fn span_searches_are_steady<'c>(
    ctx: SearchContext<'c>,
    more: SearchContext<'c>,
    terms: Seq<LocatedQueryTermView>,
    attach_at: int,
    spans: Seq<(int, int)>,
    limit: int,
)
    requires
        more.extends(ctx),
    ensures
        match search_spans(ctx, terms, attach_at, spans, limit).asked {
            Some(lookup) => !ctx.knows(lookup),
            None => search_spans(more, terms, attach_at, spans, limit) == search_spans(
                ctx,
                terms,
                attach_at,
                spans,
                limit,
            ),
        },
    decreases spans.len(),
{
    if spans.len() > 0 && limit > 0 {
        let (start_idx, end_idx) = spans[0];
        let part = terms.subrange(start_idx, end_idx + 1);
        resegmentations_are_steady(ctx, more, part);
        span_searches_are_steady(ctx, more, terms, attach_at, spans.drop_first(), limit);
        span_searches_are_steady(ctx, more, terms, attach_at, spans.drop_first(), limit - 1);
    }
}

proof fn run_searches_are_steady<'c>(
    ctx: SearchContext<'c>,
    more: SearchContext<'c>,
    terms: Seq<LocatedQueryTermView>,
    run_start: int,
    run_end: int,
)
    requires
        more.extends(ctx),
    ensures
        match search_run(ctx, terms, run_start, run_end).asked {
            Some(lookup) => !ctx.knows(lookup),
            None => search_run(more, terms, run_start, run_end) == search_run(
                ctx,
                terms,
                run_start,
                run_end,
            ),
        },
{
    match (first_missing(terms, run_start, run_end), last_missing(terms, run_start, run_end)) {
        (Some(first), Some(last)) => {
            span_searches_are_steady(
                ctx,
                more,
                terms,
                run_end,
                spans_from(RunCore { run_start, first, last, run_end }, 0),
                MAX_RESEGMENTATION_NODES as int,
            );
        },
        _ => {
            span_searches_are_steady(ctx, more, terms, run_end, seq![(run_start, run_end)], 1);
        },
    }
}

/// The candidates of a query are the same once more is known, and ask only what is not known.
pub proof fn candidates_are_steady<'c>(
    ctx: SearchContext<'c>,
    more: SearchContext<'c>,
    terms: Seq<LocatedQueryTermView>,
    start: int,
)
    requires
        more.extends(ctx),
    ensures
        is_steady(ctx, search_from(ctx, terms, start), search_from(more, terms, start)),
    decreases terms.len() - start,
{
    if 0 <= start < terms.len() {
        if terms[start].japanese_variants.normalized is None {
            candidates_are_steady(ctx, more, terms, start + 1);
        } else {
            run_is_adjacent(terms, start);
            let end = run_end_from(terms, start);
            run_searches_are_steady(ctx, more, terms, start, end);
            candidates_are_steady(ctx, more, terms, end + 1);
        }
    }
}

proof fn first_answers_are_given<Q, A>(answers: Seq<Answer<Q, A>>, question: Q, k: int)
    requires
        0 <= k <= answers.len(),
        forall|i: int| 0 <= i < k ==> (#[trigger] answers[i]).question != question,
    ensures
        k == answers.len() ==> answer_to(answers, question) is None,
        k < answers.len() && answers[k].question == question ==> answer_to(answers, question)
            == Some(answers[k].answer),
    decreases k,
{
    if k > 0 {
        let rest = answers.drop_first();
        assert(answers[0].question != question);
        assert forall|i: int| 0 <= i < k - 1 implies (#[trigger] rest[i]).question != question by {
            assert(rest[i] == answers[i + 1]);
        }
        first_answers_are_given(rest, question, k - 1);
        if k < answers.len() {
            assert(rest[k - 1] == answers[k]);
        }
    }
}

/// Whether some document holds a phrase is what the first answer to just this question says. Where
/// there is none, the question is asked.
pub proof fn phrases_are_looked_up(ctx: SearchContext<'_>, phrase: Seq<Option<Seq<char>>>, k: int)
    requires
        0 <= k <= ctx.answers.phrase_docids.deep_view().len(),
        forall|i: int|
            0 <= i < k ==> (#[trigger] ctx.answers.phrase_docids.deep_view()[i]).question != phrase,
    ensures
        ({
            let answers = ctx.answers.phrase_docids.deep_view();
            &&& k == answers.len() ==> ctx.phrase_outcome(phrase) == Err::<bool, LookupView>(
                LookupView::PhraseDocids(phrase),
            )
            &&& k < answers.len() && answers[k].question == phrase ==> ctx.phrase_outcome(phrase)
                == Ok::<bool, LookupView>(answers[k].answer)
        }),
{
    first_answers_are_given(ctx.answers.phrase_docids.deep_view(), phrase, k);
}

/// Whether a word is indexed is what the first answer to just this question says. Where there is
/// none, the question is asked.
pub proof fn words_are_looked_up(ctx: SearchContext<'_>, word: Seq<char>, k: int)
    requires
        0 <= k <= ctx.answers.contains_word.deep_view().len(),
        forall|i: int|
            0 <= i < k ==> (#[trigger] ctx.answers.contains_word.deep_view()[i]).question != word,
    ensures
        ({
            let answers = ctx.answers.contains_word.deep_view();
            &&& k == answers.len() ==> ctx.word_outcome(word) == Err::<bool, LookupView>(
                LookupView::ContainsWord(word),
            )
            &&& k < answers.len() && answers[k].question == word ==> ctx.word_outcome(word) == Ok::<
                bool,
                LookupView,
            >(answers[k].answer)
        }),
{
    first_answers_are_given(ctx.answers.contains_word.deep_view(), word, k);
}

/// What stands for a word is what the first answer to just this question says. Where there is none,
/// the question is asked.
pub proof fn terms_are_looked_up(ctx: SearchContext<'_>, query: WordQueryView, k: int)
    requires
        0 <= k <= ctx.answers.word_terms.deep_view().len(),
        forall|i: int|
            0 <= i < k ==> (#[trigger] ctx.answers.word_terms.deep_view()[i]).question != query,
    ensures
        ({
            let answers = ctx.answers.word_terms.deep_view();
            &&& k == answers.len() ==> ctx.term_outcome(query) == Err::<QueryTermView, LookupView>(
                LookupView::WordTerm(query),
            )
            &&& k < answers.len() && answers[k].question == query ==> ctx.term_outcome(query)
                == Ok::<QueryTermView, LookupView>(answers[k].answer)
        }),
{
    first_answers_are_given(ctx.answers.word_terms.deep_view(), query, k);
}

/// The synonyms of words are what the first answer to just this question says. Where there is none,
/// the question is asked.
pub proof fn synonyms_are_looked_up(ctx: SearchContext<'_>, words: Seq<Seq<char>>, k: int)
    requires
        0 <= k <= ctx.answers.synonyms.deep_view().len(),
        forall|i: int|
            0 <= i < k ==> (#[trigger] ctx.answers.synonyms.deep_view()[i]).question != words,
    ensures
        ({
            let answers = ctx.answers.synonyms.deep_view();
            &&& k == answers.len() ==> ctx.synonyms_outcome(words) == Err::<
                Seq<Seq<Seq<char>>>,
                LookupView,
            >(LookupView::Synonyms(words))
            &&& k < answers.len() && answers[k].question == words ==> ctx.synonyms_outcome(words)
                == Ok::<Seq<Seq<Seq<char>>>, LookupView>(answers[k].answer)
        }),
{
    first_answers_are_given(ctx.answers.synonyms.deep_view(), words, k);
}

} // verus!
