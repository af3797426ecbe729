//! What holds of every query.
use vstd::prelude::*;
use crate::candidates::runs_are_defined;
use crate::context::{LookupView, SearchContext};
use crate::parse_query::{
    after_break, after_end, after_phrase, after_quotes, after_token, after_word, allowed_typos,
    built_phrase, considered, keeps_limit, negated_words, ngram_query, ngram_term, position_after,
    read_from, read_query, reading_keeps_limit, token_keeps_limit, with_synonyms, PhraseBuilderView,
    QueryReaderView, ReaderOptions, WordView, HARD_SEPARATOR_PENALTY, MAX_TOKEN_COUNT,
};
use crate::plain::pushing_once_keeps_different;
use crate::query_term::LocatedQueryTermView;
use crate::resegmentation::{adjacency_is_defined, phrase_of, words_of_terms};
use crate::text::occurrences;
use crate::token::{SeparatorKind, TokenKind, TokenView};

verus! {

/// Two words with the same number of characters may have the same number of typos, whatever their
/// scripts, unless one of them is to be matched exactly. A longer word may have no fewer.
pub proof fn typos_depend_on_the_number_of_characters(
    ctx: SearchContext<'_>,
    word: Seq<char>,
    other: Seq<char>,
)
    requires
        ctx.is_exact_word(word) == ctx.is_exact_word(other),
    ensures
        word.len() == other.len() ==> allowed_typos(ctx, word) == allowed_typos(ctx, other),
        word.len() <= other.len() ==> allowed_typos(ctx, word) <= allowed_typos(ctx, other),
{
}

/// A negated word that the index holds keeps nothing else out of the results.
pub proof fn indexed_words_are_negated_alone(
    ctx: SearchContext<'_>,
    token: TokenView,
    japanese_search_enabled: bool,
)
    requires
        ctx.word_answer(token.lemma) == Some(true),
    ensures
        negated_words(ctx, token, japanese_search_enabled) == Ok::<Seq<WordView>, LookupView>(
            seq![WordView::Original(token.lemma)],
        ),
{
}

/// A phrase that some document holds is searched for as it stands.
pub proof fn held_phrases_have_no_alternates(ctx: SearchContext<'_>, phrase: PhraseBuilderView)
    requires
        ctx.phrase_answer(phrase.words) == Some(true),
        !phrase.names_nothing(),
    ensures
        built_phrase(ctx, phrase) matches Ok(Some(term)) && term.value.zero_typo.phrase == Some(
            phrase.words,
        ) && term.value.zero_typo.alternate_phrases.len() == 0,
{
}

/// Where no phrase comes twice, none does after synonyms were added. What is held then is what was
/// held before, and each of the synonyms.
pub proof fn synonyms_are_added_once(
    phrases: Seq<Seq<Option<Seq<char>>>>,
    synonyms: Seq<Seq<Seq<char>>>,
)
    requires
        phrases.no_duplicates(),
    ensures
        with_synonyms(phrases, synonyms).no_duplicates(),
        forall|phrase: Seq<Option<Seq<char>>>| #[trigger]
            with_synonyms(phrases, synonyms).contains(phrase) <==> phrases.contains(phrase)
                || exists|i: int|
                0 <= i < synonyms.len() && phrase == phrase_of(#[trigger] synonyms[i]),
    decreases synonyms.len(),
{
    if synonyms.len() > 0 {
        let first = synonyms.drop_last();
        let before = with_synonyms(phrases, first);
        let after = with_synonyms(phrases, synonyms);
        synonyms_are_added_once(phrases, first);
        pushing_once_keeps_different(before, phrase_of(synonyms.last()));
        assert forall|phrase: Seq<Option<Seq<char>>>| #[trigger]
            after.contains(phrase) <==> phrases.contains(phrase) || exists|i: int|
            0 <= i < synonyms.len() && phrase == phrase_of(#[trigger] synonyms[i]) by {
            assert(after.contains(phrase) <==> before.contains(phrase) || phrase == phrase_of(
                synonyms.last(),
            ));
            if exists|i: int| 0 <= i < synonyms.len() && phrase == phrase_of(#[trigger] synonyms[i]) {
                let i = choose|i: int|
                    0 <= i < synonyms.len() && phrase == phrase_of(#[trigger] synonyms[i]);
                if i < first.len() {
                    assert(first[i] == synonyms[i]);
                }
            }
            if exists|i: int| 0 <= i < first.len() && phrase == phrase_of(#[trigger] first[i]) {
                let i = choose|i: int|
                    0 <= i < first.len() && phrase == phrase_of(#[trigger] first[i]);
                assert(first[i] == synonyms[i]);
            }
            assert(synonyms.last() == synonyms[synonyms.len() - 1]);
        }
    }
}

/// No synonym of an n-gram comes twice, where none does in what the index gives for its text.
pub proof fn synonyms_of_ngrams_are_different(
    ctx: SearchContext<'_>,
    terms: Seq<LocatedQueryTermView>,
    text: Seq<char>,
    typos: u8,
)
    requires
        ctx.term_answer(ngram_query(terms, text, typos)) matches Some(term)
            ==> term.zero_typo.synonyms.no_duplicates(),
    ensures
        ngram_term(ctx, terms, text, typos) matches Ok(ngram)
            ==> ngram.value.zero_typo.synonyms.no_duplicates(),
{
    if let Ok(ngram) = ngram_term(ctx, terms, text, typos) {
        synonyms_are_added_once(
            ctx.term_answer(ngram_query(terms, text, typos))->0.zero_typo.synonyms,
            ctx.synonyms_answer(words_of_terms(terms))->0,
        );
    }
}

/// The tokens of a query past the limit change nothing.
pub proof fn tokens_past_the_limit_are_ignored(
    ctx: SearchContext<'_>,
    tokens: Seq<TokenView>,
    words_limit: Option<usize>,
    japanese_search_enabled: bool,
)
    requires
        tokens.len() > MAX_TOKEN_COUNT,
    ensures
        read_query(ctx, tokens, words_limit, japanese_search_enabled) == read_query(
            ctx,
            tokens.take(MAX_TOKEN_COUNT as int),
            words_limit,
            japanese_search_enabled,
        ),
{
}

/// Whether nothing is asked for, and nothing will be.
spec fn asks_for_nothing(reader: QueryReaderView) -> bool {
    &&& reader.query_terms.len() == 0
    &&& reader.negative_words.len() == 0
    &&& reader.negative_phrases.len() == 0
    &&& reader.phrase matches Some(phrase) ==> phrase.names_nothing()
}

proof fn separators_ask_for_nothing_from(
    ctx: SearchContext<'_>,
    reader: QueryReaderView,
    tokens: Seq<TokenView>,
    i: int,
    words_limit: Option<usize>,
    japanese_search_enabled: bool,
)
    requires
        asks_for_nothing(reader),
        forall|j: int|
            0 <= j < tokens.len() ==> (#[trigger] tokens[j]).is_separator() || tokens[j].kind
                == TokenKind::Unknown,
    ensures
        read_from(ctx, reader, tokens, i, words_limit, japanese_search_enabled) matches Ok(end)
            && asks_for_nothing(end),
    decreases tokens.len() - i,
{
    if 0 <= i < tokens.len() {
        if tokens[i].lemma.len() == 0 {
            separators_ask_for_nothing_from(
                ctx,
                reader,
                tokens,
                i + 1,
                words_limit,
                japanese_search_enabled,
            );
        } else {
            let options = ReaderOptions { japanese_search_enabled, is_last: i + 1 == tokens.len() };
            let token = tokens[i];
            if token.is_separator() {
                let broken = after_break(ctx, reader, token, japanese_search_enabled);
                assert(broken is Ok && asks_for_nothing(broken->Ok_0));
                let quoted = after_quotes(
                    ctx,
                    broken->Ok_0,
                    occurrences(token.lemma, '"'),
                    japanese_search_enabled,
                );
                assert(quoted is Ok && asks_for_nothing(quoted->Ok_0));
            }
            let next = after_token(ctx, reader, token, options);
            assert(next is Ok && asks_for_nothing(next->Ok_0));
            separators_ask_for_nothing_from(
                ctx,
                next->Ok_0,
                tokens,
                i + 1,
                words_limit,
                japanese_search_enabled,
            );
        }
    }
}

/// A query of separators alone asks for nothing, and needs no answer to be read.
pub proof fn separators_ask_for_nothing(
    ctx: SearchContext<'_>,
    tokens: Seq<TokenView>,
    words_limit: Option<usize>,
    japanese_search_enabled: bool,
)
    requires
        forall|j: int|
            0 <= j < tokens.len() ==> (#[trigger] tokens[j]).is_separator() || tokens[j].kind
                == TokenKind::Unknown,
    ensures
        read_query(ctx, tokens, words_limit, japanese_search_enabled) matches Ok(end)
            && end.query_terms.len() == 0 && end.negative_words.len() == 0
            && end.negative_phrases.len() == 0,
{
    let start = QueryReaderView::start();
    assert(asks_for_nothing(start));
    separators_ask_for_nothing_from(
        ctx,
        start,
        considered(tokens),
        0,
        words_limit,
        japanese_search_enabled,
    );
}

/// Whether terms come in the order of their positions: each is behind the ones before it, and all
/// are before the position `next`.
pub open spec fn are_in_order(terms: Seq<LocatedQueryTermView>, next: int) -> bool {
    &&& forall|i: int|
        0 <= i < terms.len() ==> (#[trigger] terms[i]).positions.start <= terms[i].positions.end
            < next
    &&& forall|i: int, j: int|
        #![trigger terms[i], terms[j]]
        0 <= i < j < terms.len() ==> terms[i].positions.end < terms[j].positions.start
}

/// Whether what has been read comes in the order of its positions, and `next` is the position of
/// the next word.
spec fn is_in_order(reader: QueryReaderView, next: int) -> bool {
    &&& reader.position == (if next == 0 {
        u16::MAX as int
    } else {
        next - 1
    })
    &&& are_in_order(reader.query_terms, next)
    &&& reader.phrase matches Some(phrase) ==> phrase.names_nothing() || {
        &&& phrase.start <= phrase.end < next
        &&& forall|i: int|
            0 <= i < reader.query_terms.len() ==> (#[trigger] reader.query_terms[i]).positions.end
                < phrase.start
    }
}

/// The end of a phrase leaves the terms in order.
proof fn phrase_keeps_order(
    ctx: SearchContext<'_>,
    reader: QueryReaderView,
    phrase: PhraseBuilderView,
    next: int,
)
    requires
        reader.phrase == Some(phrase),
        is_in_order(reader, next),
    ensures
        after_phrase(ctx, reader, phrase) matches Ok(ended) ==> are_in_order(
            ended.query_terms,
            next,
        ) && ended.position == reader.position,
{
}

/// A token leaves what has been read in order, and moves the position of the next word by seven at
/// most.
proof fn token_keeps_order(
    ctx: SearchContext<'_>,
    reader: QueryReaderView,
    token: TokenView,
    options: ReaderOptions,
    next: int,
)
    requires
        0 <= next <= 0x8000,
        is_in_order(reader, next),
    ensures
        after_token(ctx, reader, token, options) matches Ok(read) ==> exists|later: int|
            next <= later <= next + 7 && #[trigger] is_in_order(read, later),
{
    let enabled = options.japanese_search_enabled;
    match token.kind {
        TokenKind::Word | TokenKind::StopWord => {
            if let Ok(read) = after_word(ctx, reader, token, options) {
                assert(read.position == next);
                if let Some(phrase) = reader.phrase {
                    let longer = phrase.with_word(token, read.position);
                    if phrase.names_nothing() {
                        assert(longer.start == next);
                    }
                }
                assert(is_in_order(read, next + 1));
                if let Ok(done) = after_token(ctx, reader, token, options) {
                    assert(is_in_order(done, next + 1));
                }
            }
        },
        TokenKind::Separator(kind) => {
            let later = if kind == SeparatorKind::Hard {
                next + 7
            } else {
                next
            };
            if let Ok(broken) = after_break(ctx, reader, token, enabled) {
                if let Some(phrase) = reader.phrase {
                    if kind == SeparatorKind::Hard {
                        let at = QueryReaderView {
                            position: position_after(reader.position, HARD_SEPARATOR_PENALTY),
                            ..reader
                        };
                        assert(is_in_order(at, later));
                        phrase_keeps_order(ctx, at, phrase, later);
                    }
                }
                assert(is_in_order(broken, later));
                if let Some(phrase) = broken.phrase {
                    phrase_keeps_order(ctx, broken, phrase, later);
                }
                if let Ok(quoted) = after_quotes(
                    ctx,
                    broken,
                    occurrences(token.lemma, '"'),
                    enabled,
                ) {
                    assert(is_in_order(quoted, later));
                    if let Ok(done) = after_token(ctx, reader, token, options) {
                        assert(is_in_order(done, later));
                    }
                }
            }
        },
        TokenKind::Unknown => {
            if let Ok(done) = after_token(ctx, reader, token, options) {
                assert(is_in_order(done, next));
            }
        },
    }
}

proof fn reading_keeps_order(
    ctx: SearchContext<'_>,
    reader: QueryReaderView,
    tokens: Seq<TokenView>,
    i: int,
    words_limit: Option<usize>,
    japanese_search_enabled: bool,
    next: int,
)
    requires
        0 <= i <= tokens.len() <= MAX_TOKEN_COUNT,
        0 <= next <= 7 * i,
        is_in_order(reader, next),
    ensures
        read_from(ctx, reader, tokens, i, words_limit, japanese_search_enabled) matches Ok(end)
            ==> are_in_order(end.query_terms, 7 * MAX_TOKEN_COUNT),
    decreases tokens.len() - i,
{
    if i >= tokens.len() {
        if let Some(phrase) = reader.phrase {
            phrase_keeps_order(ctx, reader, phrase, next);
        }
    } else if tokens[i].lemma.len() == 0 {
        reading_keeps_order(
            ctx,
            reader,
            tokens,
            i + 1,
            words_limit,
            japanese_search_enabled,
            next,
        );
    } else {
        let options = ReaderOptions { japanese_search_enabled, is_last: i + 1 == tokens.len() };
        token_keeps_order(ctx, reader, tokens[i], options, next);
        if let Ok(read) = after_token(ctx, reader, tokens[i], options) {
            let later = choose|later: int|
                next <= later <= next + 7 && #[trigger] is_in_order(read, later);
            reading_keeps_order(
                ctx,
                read,
                tokens,
                i + 1,
                words_limit,
                japanese_search_enabled,
                later,
            );
        }
    }
}

/// The terms of a query come in the order of their positions. So adjacency can be told of any of
/// its consecutive terms, and a position follows the last one of each of them.
pub proof fn query_terms_are_in_order(
    ctx: SearchContext<'_>,
    tokens: Seq<TokenView>,
    words_limit: Option<usize>,
    japanese_search_enabled: bool,
)
    ensures
        read_query(ctx, tokens, words_limit, japanese_search_enabled) matches Ok(end) ==> {
            &&& are_in_order(end.query_terms, 7 * MAX_TOKEN_COUNT)
            &&& runs_are_defined(end.query_terms)
            &&& forall|a: int, b: int|
                0 <= a <= b <= end.query_terms.len() ==> adjacency_is_defined(
                    #[trigger] end.query_terms.subrange(a, b),
                )
        },
{
    let start = QueryReaderView::start();
    assert(is_in_order(start, 0));
    reading_keeps_order(
        ctx,
        start,
        considered(tokens),
        0,
        words_limit,
        japanese_search_enabled,
        0,
    );
    if let Ok(end) = read_query(ctx, tokens, words_limit, japanese_search_enabled) {
        let terms = end.query_terms;
        assert forall|a: int, b: int| 0 <= a <= b <= terms.len() implies adjacency_is_defined(
            #[trigger] terms.subrange(a, b),
        ) by {
            let part = terms.subrange(a, b);
            assert forall|i: int| 0 < i < part.len() implies (#[trigger] part[i]).positions.start
                > 0 by {
                assert(part[i] == terms[a + i]);
                assert(terms[a].positions.end < terms[a + i].positions.start);
            }
        }
    }
}

/// Whether what has been read goes on what was read before: nothing that was asked for is lost.
spec fn goes_on(reader: QueryReaderView, before: QueryReaderView) -> bool {
    &&& before.query_terms.is_prefix_of(reader.query_terms)
    &&& before.negative_words.is_prefix_of(reader.negative_words)
    &&& before.negative_phrases.is_prefix_of(reader.negative_phrases)
}

proof fn reading_goes_on(
    ctx: SearchContext<'_>,
    reader: QueryReaderView,
    tokens: Seq<TokenView>,
    i: int,
    words_limit: Option<usize>,
    japanese_search_enabled: bool,
)
    ensures
        read_from(ctx, reader, tokens, i, words_limit, japanese_search_enabled) matches Ok(end)
            ==> goes_on(end, reader),
    decreases tokens.len() - i,
{
    if 0 <= i < tokens.len() {
        if tokens[i].lemma.len() == 0 {
            reading_goes_on(ctx, reader, tokens, i + 1, words_limit, japanese_search_enabled);
        } else {
            let options = ReaderOptions { japanese_search_enabled, is_last: i + 1 == tokens.len() };
            if let Ok(next) = after_token(ctx, reader, tokens[i], options) {
                token_goes_on(ctx, reader, tokens[i], options);
                reading_goes_on(ctx, next, tokens, i + 1, words_limit, japanese_search_enabled);
            }
        }
    }
}

proof fn token_goes_on(
    ctx: SearchContext<'_>,
    reader: QueryReaderView,
    token: TokenView,
    options: ReaderOptions,
)
    ensures
        after_token(ctx, reader, token, options) matches Ok(next) ==> goes_on(next, reader),
{
    if token.is_separator() {
        let enabled = options.japanese_search_enabled;
        if let Ok(broken) = after_break(ctx, reader, token, enabled) {
            assert(goes_on(broken, reader));
            if let Ok(quoted) = after_quotes(ctx, broken, occurrences(token.lemma, '"'), enabled) {
                assert(goes_on(quoted, broken));
            }
        }
    }
}

proof fn limited_reading_is_cut(
    ctx: SearchContext<'_>,
    reader: QueryReaderView,
    tokens: Seq<TokenView>,
    i: int,
    limit: usize,
    japanese_search_enabled: bool,
)
    requires
        0 <= i <= tokens.len(),
        keeps_limit(reader, limit as nat),
    ensures
        read_from(ctx, reader, tokens, i, None, japanese_search_enabled) matches Ok(all) ==> {
            &&& read_from(ctx, reader, tokens, i, Some(limit), japanese_search_enabled) matches Ok(
                some,
            )
            &&& some.query_terms == (if all.query_terms.len() <= limit {
                all.query_terms
            } else {
                all.query_terms.take(limit as int)
            })
            &&& goes_on(all, some)
        },
    decreases tokens.len() - i,
{
    if i == tokens.len() {
        reading_keeps_limit(ctx, reader, tokens, i, limit, japanese_search_enabled);
    } else if tokens[i].lemma.len() == 0 {
        limited_reading_is_cut(ctx, reader, tokens, i + 1, limit, japanese_search_enabled);
    } else if reader.query_terms.len() >= limit {
        reading_goes_on(ctx, reader, tokens, i, None, japanese_search_enabled);
    } else {
        let options = ReaderOptions { japanese_search_enabled, is_last: i + 1 == tokens.len() };
        token_keeps_limit(ctx, reader, tokens[i], options, limit as nat);
        if let Ok(next) = after_token(ctx, reader, tokens[i], options) {
            limited_reading_is_cut(ctx, next, tokens, i + 1, limit, japanese_search_enabled);
        }
    }
}

/// The terms of a query of which only some are asked for are the first ones of the whole query, as
/// many as are asked for. What must not appear in the results is the first part of what the whole
/// query keeps out.
pub proof fn limited_queries_are_cut(
    ctx: SearchContext<'_>,
    tokens: Seq<TokenView>,
    limit: usize,
    japanese_search_enabled: bool,
)
    ensures
        read_query(ctx, tokens, None, japanese_search_enabled) matches Ok(all) ==> {
            &&& read_query(ctx, tokens, Some(limit), japanese_search_enabled) matches Ok(some)
            &&& some.query_terms == (if all.query_terms.len() <= limit {
                all.query_terms
            } else {
                all.query_terms.take(limit as int)
            })
            &&& some.negative_words.is_prefix_of(all.negative_words)
            &&& some.negative_phrases.is_prefix_of(all.negative_phrases)
        },
{
    limited_reading_is_cut(
        ctx,
        QueryReaderView::start(),
        considered(tokens),
        0,
        limit,
        japanese_search_enabled,
    );
}

/// What has been read when the last token has been, if all tokens could be read.
pub open spec fn read_to_the_end(
    ctx: SearchContext<'_>,
    reader: QueryReaderView,
    tokens: Seq<TokenView>,
    i: int,
    words_limit: Option<usize>,
    japanese_search_enabled: bool,
) -> Option<QueryReaderView>
    decreases tokens.len() - i,
{
    if i < 0 || i >= tokens.len() {
        Some(reader)
    } else if tokens[i].lemma.len() == 0 {
        read_to_the_end(ctx, reader, tokens, i + 1, words_limit, japanese_search_enabled)
    } else if words_limit matches Some(limit) && reader.query_terms.len() >= limit {
        None
    } else {
        let options = ReaderOptions { japanese_search_enabled, is_last: i + 1 == tokens.len() };
        match after_token(ctx, reader, tokens[i], options) {
            Err(_) => None,
            Ok(next) => read_to_the_end(
                ctx,
                next,
                tokens,
                i + 1,
                words_limit,
                japanese_search_enabled,
            ),
        }
    }
}

/// Whether a double quote of a query is not closed.
pub open spec fn ends_in_a_phrase(
    ctx: SearchContext<'_>,
    tokens: Seq<TokenView>,
    words_limit: Option<usize>,
    japanese_search_enabled: bool,
) -> bool {
    read_to_the_end(
        ctx,
        QueryReaderView::start(),
        tokens,
        0,
        words_limit,
        japanese_search_enabled,
    ) matches Some(end) && end.phrase is Some
}

/// Whether two readings ask for the same, or ask the same question.
pub open spec fn ask_for_the_same(
    left: Result<QueryReaderView, LookupView>,
    right: Result<QueryReaderView, LookupView>,
) -> bool {
    match (left, right) {
        (Ok(left), Ok(right)) => {
            &&& left.query_terms == right.query_terms
            &&& left.negative_words == right.negative_words
            &&& left.negative_phrases == right.negative_phrases
        },
        (Err(left), Err(right)) => left == right,
        _ => false,
    }
}

proof fn open_phrases_are_closed_from(
    ctx: SearchContext<'_>,
    reader: QueryReaderView,
    tokens: Seq<TokenView>,
    quote: TokenView,
    i: int,
    words_limit: Option<usize>,
    japanese_search_enabled: bool,
)
    requires
        0 <= i <= tokens.len(),
        quote.kind == TokenKind::Separator(SeparatorKind::Soft),
        quote.lemma == seq!['"'],
        words_limit matches Some(limit) ==> keeps_limit(reader, limit as nat),
        read_to_the_end(
            ctx,
            reader,
            tokens,
            i,
            words_limit,
            japanese_search_enabled,
        ) matches Some(end) && end.phrase is Some,
    ensures
        ask_for_the_same(
            read_from(ctx, reader, tokens, i, words_limit, japanese_search_enabled),
            read_from(ctx, reader, tokens.push(quote), i, words_limit, japanese_search_enabled),
        ),
    decreases tokens.len() - i,
{
    let closed = tokens.push(quote);
    if i == tokens.len() {
        let options = ReaderOptions { japanese_search_enabled, is_last: true };
        assert(closed[i] == quote);
        assert(occurrences(quote.lemma, '"') == 1) by {
            reveal_with_fuel(occurrences, 2);
            assert(quote.lemma.drop_last().len() == 0);
        }
        if let Ok(next) = after_token(ctx, reader, quote, options) {
            assert(next.phrase is None);
            assert(read_from(
                ctx,
                next,
                closed,
                i + 1,
                words_limit,
                japanese_search_enabled,
            ) == after_end(ctx, next));
        }
    } else {
        assert(closed[i] == tokens[i]);
        if tokens[i].lemma.len() == 0 {
            open_phrases_are_closed_from(
                ctx,
                reader,
                tokens,
                quote,
                i + 1,
                words_limit,
                japanese_search_enabled,
            );
        } else {
            let options = ReaderOptions { japanese_search_enabled, is_last: i + 1 == tokens.len() };
            let earlier = ReaderOptions { japanese_search_enabled, is_last: false };
            let next = after_token(ctx, reader, tokens[i], options)->Ok_0;
            if let Some(limit) = words_limit {
                token_keeps_limit(ctx, reader, tokens[i], options, limit as nat);
            }
            if i + 1 == tokens.len() {
                assert(next.phrase is Some);
            }
            assert(after_token(ctx, reader, tokens[i], earlier) == after_token(
                ctx,
                reader,
                tokens[i],
                options,
            ));
            open_phrases_are_closed_from(
                ctx,
                next,
                tokens,
                quote,
                i + 1,
                words_limit,
                japanese_search_enabled,
            );
        }
    }
}

/// A query whose last double quote is not closed asks for the same as with the quote closed at its
/// end.
pub proof fn open_phrases_are_closed_at_the_end(
    ctx: SearchContext<'_>,
    tokens: Seq<TokenView>,
    quote: TokenView,
    words_limit: Option<usize>,
    japanese_search_enabled: bool,
)
    requires
        tokens.len() < MAX_TOKEN_COUNT,
        quote.kind == TokenKind::Separator(SeparatorKind::Soft),
        quote.lemma == seq!['"'],
        ends_in_a_phrase(ctx, tokens, words_limit, japanese_search_enabled),
    ensures
        ask_for_the_same(
            read_query(ctx, tokens, words_limit, japanese_search_enabled),
            read_query(ctx, tokens.push(quote), words_limit, japanese_search_enabled),
        ),
{
    open_phrases_are_closed_from(
        ctx,
        QueryReaderView::start(),
        tokens,
        quote,
        0,
        words_limit,
        japanese_search_enabled,
    );
}

} // verus!
