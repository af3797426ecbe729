//! What each token of a query does to what has been read, and what becomes of quoted words.
use vstd::prelude::*;
use vstd::utf8::encode_utf8;
use crate::context::{Lookup, LookupView, SearchContext, WordQueryView};
use crate::japanese::{unique_variants, variants_of, SearchVariants};
use crate::parse_query::{
    after_break, after_end, after_phrase, after_token, allowed_typos, built_phrase, considered,
    extracted, indexed_variants, ngram_term, ngram_text, read_from, read_query, ExtractedTokens,
    PhraseBuilderView, QueryReaderView, ReaderOptions, WordView,
};
use crate::phrase_variants::alternates_of_phrase;
use crate::query_laws::{read_to_the_end, synonyms_are_added_once};
use crate::query_term::{named_words, LocatedQueryTerm, LocatedQueryTermView};
use crate::resegmentation::{concatenated_variants, phrase_of, words_of_terms};
use crate::text::{concatenation, is_white_space, occurrences, spaced};
use crate::token::{SeparatorKind, TokenKind, TokenView};

verus! {

/// A word has no typos where none are allowed, where it is to be matched exactly, or where it has
/// fewer characters than one typo takes. Else it has one, and two where it has as many characters
/// as two take.
pub proof fn typos_by_settings(ctx: SearchContext<'_>, word: Seq<char>)
    ensures
        !ctx.authorize_typos ==> allowed_typos(ctx, word) == 0,
        ctx.exact_words matches Some(set) && crate::words::words_of(set).contains(
            encode_utf8(word),
        ) ==> allowed_typos(ctx, word) == 0,
        word.len() < ctx.min_word_len_one_typo ==> allowed_typos(ctx, word) == 0,
        ctx.authorize_typos && word.len() >= ctx.min_word_len_one_typo && (ctx.exact_words matches Some(
            set,
        ) ==> !crate::words::words_of(set).contains(encode_utf8(word))) ==> allowed_typos(
            ctx,
            word,
        ) == (if word.len() >= ctx.min_word_len_two_typos {
            2u8
        } else {
            1u8
        }),
{
}

/// Terms can be taken as one word where none is a phrase or an n-gram, where each starts at the
/// position after the end of the one before it, and where their words joined have 250 bytes at
/// most. The text is then their words joined.
pub proof fn ngrams_join_words(terms: Seq<LocatedQueryTermView>)
    ensures
        ({
            let words = Seq::new(terms.len(), |i: int| terms[i].value.original);
            let text = concatenation(words);
            let joins = (forall|i: int|
                0 <= i < terms.len() ==> (#[trigger] terms[i]).value.zero_typo.phrase is None
                    && terms[i].value.ngram_words is None) && (forall|i: int, j: int|
                #![trigger terms[i], terms[j]]
                0 <= i && j == i + 1 && j < terms.len() ==> terms[i].positions.end + 1
                    == terms[j].positions.start) && encode_utf8(text).len() <= 250;
            ngram_text(terms) == (if joins {
                Some(text)
            } else {
                None
            })
        }),
{
    let words = Seq::new(terms.len(), |i: int| terms[i].value.original);
    if forall|i: int| 0 <= i < terms.len() ==> (#[trigger] terms[i]).value.ngram_words is None {
        assert(words_of_terms(terms) =~= words);
    } else {
        let i = choose|i: int|
            0 <= i < terms.len() && (#[trigger] terms[i]).value.ngram_words is Some;
        assert(terms[i].value.single_word() is None);
    }
}

/// The budget of an n-gram: the typos of its text, less one for each term after the first, and
/// never less than none.
pub open spec fn typo_budget(terms: Seq<LocatedQueryTermView>, typos: u8) -> int {
    if typos + 1 >= terms.len() {
        typos + 1 - terms.len()
    } else {
        0
    }
}

/// Each term after the first costs an n-gram one typo, in what the index is asked for and in the
/// term. So three terms or more leave none of the two that a word may have.
pub proof fn further_terms_cost_typos(
    ctx: SearchContext<'_>,
    terms: Seq<LocatedQueryTermView>,
    text: Seq<char>,
    typos: u8,
)
    requires
        1 <= terms.len() < 256,
    ensures
        ngram_term(ctx, terms, text, typos) matches Ok(ngram)
            ==> ngram.value.max_levenshtein_distance == typo_budget(terms, typos),
        ngram_term(ctx, terms, text, typos) matches Ok(ngram) ==> (terms.len() >= 3 && typos <= 2
            ==> ngram.value.max_levenshtein_distance == 0),
        ngram_term(ctx, terms, text, typos) matches Err(LookupView::WordTerm(query))
            ==> query.max_typo == typo_budget(terms, typos),
        ({
            let query = WordQueryView {
                word: text,
                alternates: Seq::empty(),
                max_typo: typo_budget(terms, typos) as u8,
                is_prefix: terms[terms.len() - 1].value.is_prefix,
                is_ngram: true,
            };
            &&& ctx.term_answer(query) is None ==> ngram_term(ctx, terms, text, typos) == Err::<
                LocatedQueryTermView,
                LookupView,
            >(LookupView::WordTerm(query))
            &&& ngram_term(ctx, terms, text, typos) is Ok ==> ctx.term_answer(query) is Some
        }),
{
}

/// The terms of an n-gram are counted in a byte: 256 of them count as none. Each that is counted
/// after the first costs one typo.
pub proof fn terms_are_counted_in_a_byte(
    ctx: SearchContext<'_>,
    terms: Seq<LocatedQueryTermView>,
    text: Seq<char>,
    typos: u8,
)
    ensures
        ngram_term(ctx, terms, text, typos) matches Ok(ngram) ==> {
            let counted = terms.len() % 256;
            &&& ngram.value.ranking_span_len == counted
            &&& 1 <= counted <= typos ==> ngram.value.max_levenshtein_distance == typos - (counted
                - 1)
            &&& counted > typos ==> ngram.value.max_levenshtein_distance == 0
        },
{
}

/// An n-gram spans its terms, is one word made of theirs, carries what the index gives for its
/// text, and has the synonyms of its words added to that.
pub proof fn ngrams_span_their_terms(
    ctx: SearchContext<'_>,
    terms: Seq<LocatedQueryTermView>,
    text: Seq<char>,
    typos: u8,
)
    requires
        1 <= terms.len() < 256,
        forall|i: int| 0 <= i < terms.len() ==> (#[trigger] terms[i]).value.ngram_words is None,
    ensures
        ngram_term(ctx, terms, text, typos) matches Ok(ngram) ==> {
            let words = Seq::new(terms.len(), |i: int| terms[i].value.original);
            let query = WordQueryView {
                word: text,
                alternates: Seq::empty(),
                max_typo: typo_budget(terms, typos) as u8,
                is_prefix: terms[terms.len() - 1].value.is_prefix,
                is_ngram: true,
            };
            let given = ctx.term_answer(query)->0.zero_typo;
            let made = ngram.value.zero_typo;
            &&& ngram.positions.start == terms[0].positions.start
            &&& ngram.positions.end == terms[terms.len() - 1].positions.end
            &&& ngram.value.original == text
            &&& ngram.value.ngram_words == Some(words)
            &&& ngram.value.ranking_span_len == terms.len()
            &&& ngram.value.is_prefix == terms[terms.len() - 1].value.is_prefix
            &&& ngram.value.one_typo is Uninit && ngram.value.two_typo is Uninit
            &&& ngram.japanese_variants == concatenated_variants(terms)
            &&& made.phrase == given.phrase && made.exact == given.exact && made.alternates
                == given.alternates && made.alternate_phrases == given.alternate_phrases
                && made.prefix_of == given.prefix_of && made.use_prefix_db == given.use_prefix_db
            &&& ctx.synonyms_answer(words) is Some
            &&& given.synonyms.no_duplicates() ==> forall|phrase: Seq<Option<Seq<char>>>| #[trigger]
                made.synonyms.contains(phrase) <==> given.synonyms.contains(phrase) || exists|i: int|
                    0 <= i < ctx.synonyms_answer(words)->0.len() && phrase == phrase_of(
                        #[trigger] ctx.synonyms_answer(words)->0[i],
                    )
        },
        ngram_term(ctx, terms, text, typos) matches Err(LookupView::Synonyms(asked)) ==> asked
            == Seq::new(terms.len(), |i: int| terms[i].value.original),
{
    let words = Seq::new(terms.len(), |i: int| terms[i].value.original);
    assert(words_of_terms(terms) =~= words);
    if let Ok(ngram) = ngram_term(ctx, terms, text, typos) {
        let query = WordQueryView {
            word: text,
            alternates: Seq::empty(),
            max_typo: typo_budget(terms, typos) as u8,
            is_prefix: terms[terms.len() - 1].value.is_prefix,
            is_ngram: true,
        };
        further_terms_cost_typos(ctx, terms, text, typos);
        let given = ctx.term_answer(query)->0.zero_typo;
        if given.synonyms.no_duplicates() {
            synonyms_are_added_once(given.synonyms, ctx.synonyms_answer(words)->0);
        }
    }
}

/// Whether some word of a phrase is named.
pub open spec fn names_something(words: Seq<Option<Seq<char>>>) -> bool {
    exists|i: int| 0 <= i < words.len() && (#[trigger] words[i]) is Some
}

/// The words that a phrase names, in order.
pub open spec fn named(words: Seq<Option<Seq<char>>>) -> Seq<Seq<char>>
    decreases words.len(),
{
    if words.len() == 0 {
        Seq::empty()
    } else {
        match words[0] {
            Some(word) => seq![word] + named(words.drop_first()),
            None => named(words.drop_first()),
        }
    }
}

proof fn named_grows(words: Seq<Option<Seq<char>>>, word: Option<Seq<char>>)
    ensures
        named(words.push(word)) == (match word {
            Some(word) => named(words).push(word),
            None => named(words),
        }),
    decreases words.len(),
{
    let all = words.push(word);
    if words.len() == 0 {
        assert(all.drop_first() == words);
        assert(named(all.drop_first()) == Seq::<Seq<char>>::empty());
    } else {
        assert(all.drop_first() == words.drop_first().push(word));
        named_grows(words.drop_first(), word);
        if let Some(first) = words[0] {
            let rest = named(words.drop_first());
            if let Some(last) = word {
                assert(seq![first] + rest.push(last) == (seq![first] + rest).push(last));
            }
        }
    }
}

proof fn named_words_are_named(words: Seq<Option<Seq<char>>>)
    ensures
        named_words(words) == named(words),
    decreases words.len(),
{
    if words.len() > 0 {
        named_words_are_named(words.drop_last());
        named_grows(words.drop_last(), words.last());
        assert(words.drop_last().push(words.last()) == words);
    }
}

/// A phrase that names no word has no term. Else its term is that phrase and nothing else,
/// tolerates no typo, stands where the phrase does, and has alternates where Japanese is searched
/// for.
pub proof fn phrases_have_terms(ctx: SearchContext<'_>, phrase: PhraseBuilderView)
    ensures
        !names_something(phrase.words) ==> built_phrase(ctx, phrase) == Ok::<
            Option<LocatedQueryTermView>,
            LookupView,
        >(None),
        names_something(phrase.words) && !phrase.japanese_search_enabled ==> built_phrase(
            ctx,
            phrase,
        ) is Ok,
        names_something(phrase.words) && phrase.japanese_search_enabled ==> {
            &&& alternates_of_phrase(ctx, phrase.words, phrase.japanese_variants) matches Err(asked)
                ==> built_phrase(ctx, phrase) == Err::<Option<LocatedQueryTermView>, LookupView>(
                asked,
            )
            &&& alternates_of_phrase(ctx, phrase.words, phrase.japanese_variants) is Ok
                ==> built_phrase(ctx, phrase) is Ok
        },
        names_something(phrase.words) && built_phrase(ctx, phrase) is Ok ==> {
            &&& built_phrase(ctx, phrase)->Ok_0 matches Some(term)
            &&& term.positions.start == phrase.start
            &&& term.positions.end == phrase.end
            &&& term.japanese_variants.normalized is None
            &&& term.japanese_variants.phonetic is None
            &&& term.japanese_variants.romaji is None
            &&& term.value.original == spaced(named(phrase.words))
            &&& term.value.ngram_words is None
            &&& term.value.max_levenshtein_distance == 0
            &&& !term.value.is_prefix
            &&& term.value.ranking_span_len == 1
            &&& term.value.one_typo is Uninit && term.value.two_typo is Uninit
            &&& term.value.zero_typo.phrase == Some(phrase.words)
            &&& term.value.zero_typo.exact is None
            &&& term.value.zero_typo.alternates.len() == 0
            &&& term.value.zero_typo.prefix_of.len() == 0
            &&& term.value.zero_typo.synonyms.len() == 0
            &&& term.value.zero_typo.use_prefix_db is None
            &&& term.value.zero_typo.alternate_phrases == (if phrase.japanese_search_enabled {
                alternates_of_phrase(ctx, phrase.words, phrase.japanese_variants)->Ok_0
            } else {
                Seq::empty()
            })
        },
{
    named_words_are_named(phrase.words);
    assert(phrase.names_nothing() == !names_something(phrase.words));
}

/// The position after another. After the last one comes the first.
pub open spec fn next_position(position: u16) -> int {
    if position == 65535 {
        0
    } else {
        position + 1
    }
}

/// A word in quotes goes to the phrase, a stop word without its name, and neither asks for
/// anything. The phrase starts where it first names a word.
pub proof fn quoted_words_join_the_phrase(
    ctx: SearchContext<'_>,
    reader: QueryReaderView,
    token: TokenView,
    options: ReaderOptions,
)
    requires
        token.kind == TokenKind::Word || token.kind == TokenKind::StopWord,
        reader.phrase is Some,
    ensures
        after_token(ctx, reader, token, options) matches Ok(next) && {
            &&& next.query_terms == reader.query_terms
            &&& next.negative_words == reader.negative_words
            &&& next.negative_phrases == reader.negative_phrases
            &&& next.negative_phrase == reader.negative_phrase
            &&& next.negative_next_token == reader.negative_next_token
            &&& next.position == next_position(reader.position)
            &&& next.phrase matches Some(phrase)
            &&& phrase.japanese_search_enabled == reader.phrase->0.japanese_search_enabled
            &&& phrase.end == next.position
            &&& phrase.start == (if names_something(reader.phrase->0.words) {
                reader.phrase->0.start
            } else {
                next.position
            })
            &&& token.kind == TokenKind::Word ==> phrase.words == reader.phrase->0.words.push(
                Some(token.lemma),
            ) && phrase.japanese_variants == reader.phrase->0.japanese_variants.push(
                variants_of(token),
            )
            &&& token.kind == TokenKind::StopWord ==> phrase.words == reader.phrase->0.words.push(
                None,
            ) && phrase.japanese_variants == reader.phrase->0.japanese_variants.push(
                SearchVariants { normalized: None, phonetic: None, romaji: None },
            )
        },
{
    assert(reader.phrase->0.names_nothing() == !names_something(reader.phrase->0.words));
}

proof fn indexed_variants_are_filtered(ctx: SearchContext<'_>, variants: Seq<Seq<char>>)
    ensures
        indexed_variants(ctx, variants) matches Ok(words) ==> words == variants.filter(
            |word: Seq<char>|
                encode_utf8(word).len() <= 250 && ctx.word_answer(word) == Some(true),
        ).map_values(|word: Seq<char>| WordView::Variant(word)),
    decreases variants.len(),
{
    let held = |word: Seq<char>|
        encode_utf8(word).len() <= 250 && ctx.word_answer(word) == Some(true);
    let as_variant = |word: Seq<char>| WordView::Variant(word);
    reveal(Seq::filter);
    if variants.len() == 0 {
        assert(variants.filter(held).map_values(as_variant) =~= Seq::<WordView>::empty());
    } else {
        indexed_variants_are_filtered(ctx, variants.drop_last());
        let before = variants.drop_last().filter(held);
        assert(before.push(variants.last()).map_values(as_variant) =~= before.map_values(
            as_variant,
        ).push(WordView::Variant(variants.last())));
    }
}

/// After the negative operator a word is kept out of the results and becomes no term. Its variants
/// that the index holds, and that fit in a key, are kept out too, where Japanese is searched for
/// and the index does not hold the word. The operator is used up.
pub proof fn negated_words_are_kept_out(
    ctx: SearchContext<'_>,
    reader: QueryReaderView,
    token: TokenView,
    options: ReaderOptions,
)
    requires
        token.kind == TokenKind::Word || token.kind == TokenKind::StopWord,
        reader.phrase is None,
        reader.negative_next_token,
    ensures
        ctx.word_answer(token.lemma) is None ==> after_token(ctx, reader, token, options) == Err::<
            QueryReaderView,
            LookupView,
        >(LookupView::ContainsWord(token.lemma)),
        ctx.word_answer(token.lemma) is Some && !(options.japanese_search_enabled
            && ctx.word_answer(token.lemma) == Some(false)) ==> after_token(
            ctx,
            reader,
            token,
            options,
        ) is Ok,
        after_token(ctx, reader, token, options) matches Ok(next) ==> {
            let original = seq![WordView::Original(token.lemma)];
            let variants = unique_variants(variants_of(token)).filter(
                |word: Seq<char>|
                    encode_utf8(word).len() <= 250 && ctx.word_answer(word) == Some(true),
            ).map_values(|word: Seq<char>| WordView::Variant(word));
            &&& next.query_terms == reader.query_terms
            &&& next.negative_phrases == reader.negative_phrases
            &&& next.phrase is None
            &&& !next.negative_next_token
            &&& next.negative_phrase == reader.negative_phrase
            &&& next.position == next_position(reader.position)
            &&& options.japanese_search_enabled && ctx.word_answer(token.lemma) == Some(false)
                ==> next.negative_words == reader.negative_words + (original + variants)
            &&& !options.japanese_search_enabled || ctx.word_answer(token.lemma) == Some(true)
                ==> next.negative_words == reader.negative_words + original
        },
{
    indexed_variants_are_filtered(ctx, unique_variants(variants_of(token)));
}

/// A word outside of quotes, and without the negative operator before it, becomes a term at the
/// next position: what the index gives for the word and its variants, with as many typos as the
/// word may have. The last token of a query may be a prefix, and becomes a term even if it is a
/// stop word. Other stop words become none.
pub proof fn words_become_terms(
    ctx: SearchContext<'_>,
    reader: QueryReaderView,
    token: TokenView,
    options: ReaderOptions,
)
    requires
        token.kind == TokenKind::Word || token.kind == TokenKind::StopWord,
        reader.phrase is None,
        !reader.negative_next_token,
    ensures
        ({
            let query = WordQueryView {
                word: token.lemma,
                alternates: unique_variants(variants_of(token)),
                max_typo: allowed_typos(ctx, token.lemma),
                is_prefix: options.is_last && ctx.prefix_search,
                is_ngram: false,
            };
            let is_term = token.kind == TokenKind::Word || options.is_last;
            let read = after_token(ctx, reader, token, options);
            &&& is_term && ctx.term_answer(query) is None ==> read == Err::<
                QueryReaderView,
                LookupView,
            >(LookupView::WordTerm(query))
            &&& !is_term || ctx.term_answer(query) is Some ==> read is Ok
            &&& read matches Ok(next) ==> {
                &&& next.negative_words == reader.negative_words
                &&& next.negative_phrases == reader.negative_phrases
                &&& next.negative_phrase == reader.negative_phrase
                &&& next.phrase is None
                &&& !next.negative_next_token
                &&& next.position == next_position(reader.position)
                &&& !is_term ==> next.query_terms == reader.query_terms
                &&& is_term ==> {
                    &&& next.query_terms.len() == reader.query_terms.len() + 1
                    &&& reader.query_terms == next.query_terms.drop_last()
                    &&& next.query_terms.last().value == ctx.term_answer(query)->0
                    &&& next.query_terms.last().positions.start == next.position
                    &&& next.query_terms.last().positions.end == next.position
                    &&& next.query_terms.last().japanese_variants == variants_of(token)
                }
            }
        }),
{
    if let Ok(next) = after_token(ctx, reader, token, options) {
        if token.kind == TokenKind::Word || options.is_last {
            assert(next.query_terms.drop_last() =~= reader.query_terms);
        }
    }
}

/// How many positions a separator adds: seven where it is hard, else none.
pub open spec fn position_after_separator(position: u16, kind: SeparatorKind) -> int {
    if kind == SeparatorKind::Soft {
        position as int
    } else if position >= 65529 {
        position - 65529
    } else {
        position + 7
    }
}

/// A separator without quotes outside of a phrase asks for nothing. It is the negative operator if
/// it is a minus that follows white space, and ends the effect of one before it.
pub proof fn separators_outside_of_quotes(
    ctx: SearchContext<'_>,
    reader: QueryReaderView,
    token: TokenView,
    kind: SeparatorKind,
    options: ReaderOptions,
)
    requires
        token.kind == TokenKind::Separator(kind),
        !token.lemma.contains('"'),
        reader.phrase is None,
    ensures
        after_token(ctx, reader, token, options) matches Ok(next) && {
            &&& next.query_terms == reader.query_terms
            &&& next.negative_words == reader.negative_words
            &&& next.negative_phrases == reader.negative_phrases
            &&& next.negative_phrase == reader.negative_phrase
            &&& next.phrase is None
            &&& next.position == position_after_separator(reader.position, kind)
            &&& next.negative_next_token == (token.lemma == seq!['-']
                && reader.encountered_whitespace)
            &&& next.encountered_whitespace == is_white_space(token.lemma[token.lemma.len() - 1])
        },
{
    nothing_occurs(token.lemma, '"');
}

proof fn nothing_occurs(text: Seq<char>, c: char)
    requires
        !text.contains(c),
    ensures
        occurrences(text, c) == 0,
    decreases text.len(),
{
    if text.len() > 0 {
        assert(text.contains(text.last()));
        assert forall|i: int| 0 <= i < text.drop_last().len() implies text.drop_last()[i] != c by {
            assert(text[i] == text.drop_last()[i]);
        }
        nothing_occurs(text.drop_last(), c);
    }
}

/// A soft separator without quotes changes nothing in a phrase. A hard one ends the phrase, as its
/// closing quote would, and starts another, which is negated if the first was.
pub proof fn separators_in_quotes(
    ctx: SearchContext<'_>,
    reader: QueryReaderView,
    token: TokenView,
    kind: SeparatorKind,
    options: ReaderOptions,
)
    requires
        token.kind == TokenKind::Separator(kind),
        !token.lemma.contains('"'),
        reader.phrase is Some,
    ensures
        ({
            let read = after_token(ctx, reader, token, options);
            let built = built_phrase(ctx, reader.phrase->0);
            &&& kind == SeparatorKind::Soft ==> read is Ok && read->Ok_0.phrase == reader.phrase
                && read->Ok_0.query_terms == reader.query_terms && read->Ok_0.negative_phrases
                == reader.negative_phrases
            &&& kind == SeparatorKind::Hard ==> {
                &&& built matches Err(asked) ==> read == Err::<QueryReaderView, LookupView>(asked)
                &&& built is Ok ==> read is Ok && ends_a_phrase(reader, read->Ok_0, built->Ok_0)
                    && is_new_phrase(read->Ok_0, options.japanese_search_enabled)
            }
            &&& read matches Ok(next) ==> {
                &&& next.negative_words == reader.negative_words
                &&& next.negative_phrase == reader.negative_phrase
                &&& !next.negative_next_token
                &&& next.position == position_after_separator(reader.position, kind)
            }
        }),
{
    nothing_occurs(token.lemma, '"');
}

/// Whether the term of a phrase, if it has one, was added: to what must not appear in the results
/// where the phrase was negated, else to what is asked for.
pub open spec fn ends_a_phrase(
    reader: QueryReaderView,
    next: QueryReaderView,
    term: Option<LocatedQueryTermView>,
) -> bool {
    match term {
        None => next.query_terms == reader.query_terms && next.negative_phrases
            == reader.negative_phrases,
        Some(term) => if reader.negative_phrase {
            next.negative_phrases == reader.negative_phrases.push(term) && next.query_terms
                == reader.query_terms
        } else {
            next.query_terms == reader.query_terms.push(term) && next.negative_phrases
                == reader.negative_phrases
        },
    }
}

/// Whether a phrase without words is open, which has alternates where Japanese is searched for.
pub open spec fn is_new_phrase(reader: QueryReaderView, japanese_search_enabled: bool) -> bool {
    &&& reader.phrase matches Some(phrase)
    &&& phrase.words.len() == 0
    &&& phrase.japanese_variants.len() == 0
    &&& phrase.japanese_search_enabled == japanese_search_enabled
}

/// A soft separator with quotes closes an open phrase with the first of them. If the number of
/// those that are left is odd, the last of them opens a phrase, which is negated if the negative
/// operator stands before the separator. Else no phrase is open, and a phrase that was closed
/// leaves no negation behind.
pub proof fn quotes_close_and_open(
    ctx: SearchContext<'_>,
    reader: QueryReaderView,
    token: TokenView,
    options: ReaderOptions,
)
    requires
        token.kind == TokenKind::Separator(SeparatorKind::Soft),
        occurrences(token.lemma, '"') > 0,
    ensures
        ({
            let read = after_token(ctx, reader, token, options);
            let quotes = occurrences(token.lemma, '"');
            let opens = if reader.phrase is Some {
                quotes % 2 == 0
            } else {
                quotes % 2 == 1
            };
            &&& reader.phrase matches Some(phrase) ==> {
                &&& built_phrase(ctx, phrase) matches Err(asked) ==> read == Err::<
                    QueryReaderView,
                    LookupView,
                >(asked)
                &&& built_phrase(ctx, phrase) is Ok ==> read is Ok && ends_a_phrase(
                    reader,
                    read->Ok_0,
                    built_phrase(ctx, phrase)->Ok_0,
                )
                &&& read is Ok && !opens && built_phrase(ctx, phrase)->Ok_0 is Some
                    ==> !read->Ok_0.negative_phrase
            }
            &&& reader.phrase is None ==> read is Ok && read->Ok_0.query_terms
                == reader.query_terms && read->Ok_0.negative_phrases == reader.negative_phrases
            &&& read matches Ok(next) ==> {
                &&& next.negative_words == reader.negative_words
                &&& next.position == reader.position
                &&& !next.negative_next_token
                &&& opens ==> is_new_phrase(next, options.japanese_search_enabled)
                    && next.negative_phrase == reader.negative_next_token
                &&& !opens ==> next.phrase is None
            }
        }),
{
    if !(token.lemma != seq!['-']) {
        reveal_with_fuel(occurrences, 2);
        assert(seq!['-'].drop_last().len() == 0);
    }
}

/// A query ends with the end of its tokens: a phrase that is still open ends there.
pub proof fn queries_end(ctx: SearchContext<'_>, reader: QueryReaderView)
    ensures
        reader.phrase is None ==> after_end(ctx, reader) == Ok::<QueryReaderView, LookupView>(
            reader,
        ),
        reader.phrase matches Some(phrase) ==> {
            &&& built_phrase(ctx, phrase) matches Err(asked) ==> after_end(ctx, reader) == Err::<
                QueryReaderView,
                LookupView,
            >(asked)
            &&& built_phrase(ctx, phrase) is Ok ==> after_end(ctx, reader) is Ok && ends_a_phrase(
                reader,
                after_end(ctx, reader)->Ok_0,
                built_phrase(ctx, phrase)->Ok_0,
            ) && after_end(ctx, reader)->Ok_0.negative_words == reader.negative_words
        },
{
}

proof fn reading_is_to_the_end(
    ctx: SearchContext<'_>,
    reader: QueryReaderView,
    tokens: Seq<TokenView>,
    i: int,
    words_limit: Option<usize>,
    japanese_search_enabled: bool,
)
    requires
        0 <= i <= tokens.len(),
    ensures
        read_to_the_end(
            ctx,
            reader,
            tokens,
            i,
            words_limit,
            japanese_search_enabled,
        ) matches Some(end) ==> read_from(
            ctx,
            reader,
            tokens,
            i,
            words_limit,
            japanese_search_enabled,
        ) == after_end(ctx, end),
    decreases tokens.len() - i,
{
    if i < tokens.len() {
        if tokens[i].lemma.len() == 0 {
            reading_is_to_the_end(
                ctx,
                reader,
                tokens,
                i + 1,
                words_limit,
                japanese_search_enabled,
            );
        } else {
            let options = ReaderOptions { japanese_search_enabled, is_last: i + 1 == tokens.len() };
            if let Ok(next) = after_token(ctx, reader, tokens[i], options) {
                reading_is_to_the_end(
                    ctx,
                    next,
                    tokens,
                    i + 1,
                    words_limit,
                    japanese_search_enabled,
                );
            }
        }
    }
}

/// Nothing has been read before the first token: the first word is at the first position, and a
/// minus at the start of a query is the negative operator. A query is read token by token, at most
/// a thousand of them, those without text left out, and then ended.
pub proof fn queries_are_read_token_by_token(
    ctx: SearchContext<'_>,
    tokens: Seq<TokenView>,
    words_limit: Option<usize>,
    japanese_search_enabled: bool,
)
    ensures
        ({
            let start = QueryReaderView::start();
            let first = if tokens.len() <= 1000 {
                tokens
            } else {
                tokens.take(1000)
            };
            &&& start.query_terms.len() == 0 && start.negative_words.len() == 0
                && start.negative_phrases.len() == 0 && start.phrase is None
                && !start.negative_next_token && start.encountered_whitespace && next_position(
                start.position,
            ) == 0
            &&& read_to_the_end(
                ctx,
                start,
                first,
                0,
                words_limit,
                japanese_search_enabled,
            ) matches Some(end) ==> read_query(ctx, tokens, words_limit, japanese_search_enabled)
                == after_end(ctx, end)
        }),
{
    reading_is_to_the_end(
        ctx,
        QueryReaderView::start(),
        considered(tokens),
        0,
        words_limit,
        japanese_search_enabled,
    );
}

/// A hard separator with quotes reads as a soft one with the same text, seven positions further:
/// the same is asked for, and a phrase is open or not as there.
pub proof fn hard_separators_with_quotes(
    ctx: SearchContext<'_>,
    reader: QueryReaderView,
    token: TokenView,
    options: ReaderOptions,
)
    requires
        token.kind == TokenKind::Separator(SeparatorKind::Hard),
        occurrences(token.lemma, '"') > 0,
    ensures
        ({
            let soft = TokenView { kind: TokenKind::Separator(SeparatorKind::Soft), ..token };
            match (after_token(ctx, reader, token, options), after_token(ctx, reader, soft, options)) {
                (Ok(hard), Ok(soft)) => {
                    &&& hard.query_terms == soft.query_terms
                    &&& hard.negative_words == soft.negative_words
                    &&& hard.negative_phrases == soft.negative_phrases
                    &&& hard.phrase == soft.phrase
                    &&& hard.phrase is Some ==> hard.negative_phrase == soft.negative_phrase
                    &&& hard.negative_next_token == soft.negative_next_token
                    &&& hard.encountered_whitespace == soft.encountered_whitespace
                    &&& hard.position == position_after_separator(
                        soft.position,
                        SeparatorKind::Hard,
                    )
                },
                (Err(hard), Err(soft)) => hard == soft,
                _ => false,
            }
        }),
{
    let soft = TokenView { kind: TokenKind::Separator(SeparatorKind::Soft), ..token };
    let enabled = options.japanese_search_enabled;
    assert(PhraseBuilderView::opened(enabled).names_nothing());
    if let Some(phrase) = reader.phrase {
        if built_phrase(ctx, phrase) is Ok {
            let broken = after_break(ctx, reader, token, enabled)->Ok_0;
            assert(broken.phrase == Some(PhraseBuilderView::opened(enabled)));
            assert(built_phrase(ctx, PhraseBuilderView::opened(enabled)) == Ok::<
                Option<LocatedQueryTermView>,
                LookupView,
            >(None));
            assert(after_phrase(ctx, broken, PhraseBuilderView::opened(enabled)) == Ok::<
                QueryReaderView,
                LookupView,
            >(broken));
        }
    }
}

/// Whether white space came last is told by the last character of the last token. A token of an
/// unknown kind does nothing else.
pub proof fn white_space_is_noticed(
    ctx: SearchContext<'_>,
    reader: QueryReaderView,
    token: TokenView,
    options: ReaderOptions,
)
    ensures
        after_token(ctx, reader, token, options) matches Ok(next) ==> next.encountered_whitespace
            == is_white_space(token.lemma[token.lemma.len() - 1]),
        token.kind == TokenKind::Unknown ==> (after_token(ctx, reader, token, options) matches Ok(
            next,
        ) && next == (QueryReaderView {
            encountered_whitespace: next.encountered_whitespace,
            ..reader
        })),
{
}

/// Whether two readings differ only in that what the first asked for in quotes, `terms`, must not
/// appear in the results of the second.
spec fn differ_in_negation(
    plain: QueryReaderView,
    negated: QueryReaderView,
    reader: QueryReaderView,
    terms: Seq<LocatedQueryTermView>,
) -> bool {
    &&& plain.query_terms == reader.query_terms + terms
    &&& plain.negative_phrases == reader.negative_phrases
    &&& negated.query_terms == reader.query_terms
    &&& negated.negative_phrases == reader.negative_phrases + terms
    &&& plain.negative_words == reader.negative_words
    &&& negated.negative_words == reader.negative_words
    &&& plain.phrase == negated.phrase
    &&& plain.position == negated.position
    &&& plain.encountered_whitespace == negated.encountered_whitespace
}

proof fn negation_moves_phrases_from(
    ctx: SearchContext<'_>,
    plain: QueryReaderView,
    negated: QueryReaderView,
    reader: QueryReaderView,
    terms: Seq<LocatedQueryTermView>,
    tokens: Seq<TokenView>,
    i: int,
    japanese_search_enabled: bool,
)
    requires
        1 <= i < tokens.len(),
        differ_in_negation(plain, negated, reader, terms),
        plain.phrase is Some,
        !plain.negative_phrase && negated.negative_phrase,
        !plain.negative_next_token && !negated.negative_next_token,
        tokens.last().kind == TokenKind::Separator(SeparatorKind::Soft),
        tokens.last().lemma == seq!['"'],
        forall|k: int|
            0 < k < tokens.len() - 1 ==> !(#[trigger] tokens[k]).lemma.contains('"'),
    ensures
        negation_is_the_only_difference(
            read_to_the_end(ctx, plain, tokens, i, None, japanese_search_enabled),
            read_to_the_end(ctx, negated, tokens, i, None, japanese_search_enabled),
            reader,
        ),
    decreases tokens.len() - i,
{
    let options = ReaderOptions { japanese_search_enabled, is_last: i + 1 == tokens.len() };
    let token = tokens[i];
    if i == tokens.len() - 1 {
        assert(token == tokens.last());
        assert(occurrences(token.lemma, '"') == 1) by {
            reveal_with_fuel(occurrences, 2);
            assert(token.lemma.drop_last().len() == 0);
        }
        let built = built_phrase(ctx, plain.phrase->0);
        if built is Ok {
            let a = after_token(ctx, plain, token, options)->Ok_0;
            let b = after_token(ctx, negated, token, options)->Ok_0;
            assert(read_to_the_end(ctx, a, tokens, i + 1, None, japanese_search_enabled) == Some(
                a,
            ));
            assert(read_to_the_end(ctx, b, tokens, i + 1, None, japanese_search_enabled) == Some(
                b,
            ));
            let more = match built->Ok_0 {
                Some(term) => terms.push(term),
                None => terms,
            };
            assert(a.query_terms =~= reader.query_terms + more);
            assert(b.negative_phrases =~= reader.negative_phrases + more);
            assert(a.query_terms.skip(reader.query_terms.len() as int) =~= more);
        }
    } else if token.lemma.len() == 0 {
        negation_moves_phrases_from(
            ctx,
            plain,
            negated,
            reader,
            terms,
            tokens,
            i + 1,
            japanese_search_enabled,
        );
    } else {
        nothing_occurs(token.lemma, '"');
        let built = built_phrase(ctx, plain.phrase->0);
        let splits = token.kind == TokenKind::Separator(SeparatorKind::Hard);
        if !splits || built is Ok {
            let a = after_token(ctx, plain, token, options)->Ok_0;
            let b = after_token(ctx, negated, token, options)->Ok_0;
            let more = if splits && built->Ok_0 is Some {
                terms.push(built->Ok_0->0)
            } else {
                terms
            };
            assert(a.query_terms =~= reader.query_terms + more);
            assert(b.negative_phrases =~= reader.negative_phrases + more);
            negation_moves_phrases_from(
                ctx,
                a,
                b,
                reader,
                more,
                tokens,
                i + 1,
                japanese_search_enabled,
            );
        }
    }
}

/// Whether what a first reading asks for behind what was read before is what a second one keeps out
/// of the results, and all else is the same. Neither gives a result where the other gives none.
pub open spec fn negation_is_the_only_difference(
    plain: Option<QueryReaderView>,
    negated: Option<QueryReaderView>,
    reader: QueryReaderView,
) -> bool {
    match (plain, negated) {
        (Some(plain), Some(negated)) => {
            let terms = plain.query_terms.skip(reader.query_terms.len() as int);
            &&& plain.query_terms == reader.query_terms + terms
            &&& plain.negative_phrases == reader.negative_phrases
            &&& negated.query_terms == reader.query_terms
            &&& negated.negative_phrases == reader.negative_phrases + terms
            &&& plain.negative_words == reader.negative_words
            &&& negated.negative_words == reader.negative_words
            &&& plain.phrase is None && negated.phrase is None
            &&& plain.position == negated.position
        },
        (None, None) => true,
        _ => false,
    }
}

/// Quoted words give the same terms whether or not the negative operator stands before them: the
/// terms that are asked for without it are those that are kept out of the results with it.
pub proof fn negation_moves_phrases(
    ctx: SearchContext<'_>,
    reader: QueryReaderView,
    tokens: Seq<TokenView>,
    japanese_search_enabled: bool,
)
    requires
        reader.phrase is None,
        tokens.len() >= 2,
        tokens[0].kind == TokenKind::Separator(SeparatorKind::Soft),
        tokens[0].lemma == seq!['"'],
        tokens.last().kind == TokenKind::Separator(SeparatorKind::Soft),
        tokens.last().lemma == seq!['"'],
        forall|k: int|
            0 < k < tokens.len() - 1 ==> !(#[trigger] tokens[k]).lemma.contains('"'),
    ensures
        negation_is_the_only_difference(
            read_to_the_end(
                ctx,
                QueryReaderView { negative_next_token: false, ..reader },
                tokens,
                0,
                None,
                japanese_search_enabled,
            ),
            read_to_the_end(
                ctx,
                QueryReaderView { negative_next_token: true, ..reader },
                tokens,
                0,
                None,
                japanese_search_enabled,
            ),
            reader,
        ),
{
    let options = ReaderOptions { japanese_search_enabled, is_last: false };
    let token = tokens[0];
    assert(occurrences(token.lemma, '"') == 1) by {
        reveal_with_fuel(occurrences, 2);
        assert(token.lemma.drop_last().len() == 0);
    }
    let plain = QueryReaderView { negative_next_token: false, ..reader };
    let negated = QueryReaderView { negative_next_token: true, ..reader };
    let a = after_token(ctx, plain, token, options)->Ok_0;
    let b = after_token(ctx, negated, token, options)->Ok_0;
    let none = Seq::<LocatedQueryTermView>::empty();
    assert(a.query_terms =~= reader.query_terms + none);
    assert(b.negative_phrases =~= reader.negative_phrases + none);
    negation_moves_phrases_from(
        ctx,
        a,
        b,
        reader,
        none,
        tokens,
        1,
        japanese_search_enabled,
    );
}

/// The result for a query holds all that is kept out of the results, as it was read, and the graph
/// that is built of the terms that were read. A question that comes up while the query is read, or
/// while the graph is built, is the result.
pub proof fn results_hold_what_was_read<
    G,
    F: FnOnce(&Vec<LocatedQueryTerm>, bool) -> Result<(G, Vec<LocatedQueryTerm>), Lookup>,
>(
    reader: QueryReaderView,
    asked: LookupView,
    japanese_search_enabled: bool,
    build_graph: F,
    result: Result<ExtractedTokens<G>, Lookup>,
)
    ensures
        extracted(Err(asked), japanese_search_enabled, build_graph, result) <==> (
        result matches Err(lookup) && lookup.deep_view() == asked),
        extracted(Ok(reader), japanese_search_enabled, build_graph, result) ==> match result {
            Ok(tokens) => {
                &&& tokens.negative_words.deep_view() == reader.negative_words
                &&& tokens.negative_phrases.deep_view() == reader.negative_phrases
                &&& exists|terms: &Vec<LocatedQueryTerm>|
                    terms.deep_view() == reader.query_terms && #[trigger] call_ensures(
                        build_graph,
                        (terms, japanese_search_enabled),
                        Ok((tokens.graph, tokens.query_terms)),
                    )
            },
            Err(lookup) => exists|terms: &Vec<LocatedQueryTerm>|
                terms.deep_view() == reader.query_terms && #[trigger] call_ensures(
                    build_graph,
                    (terms, japanese_search_enabled),
                    Err(lookup),
                ),
        },
{
}

} // verus!
