//! From the tokens of a query to its terms.
use vstd::prelude::*;
use charabia::normalizer::NormalizedTokenIter;
use crate::context::{outcome, Lookup, LookupView, SearchContext, WordQuery, WordQueryView};
use crate::japanese::{search_variants, unique_variants, variants_of, SearchVariants};
use crate::phrase_variants::{alternate_phrases, alternates_of_phrase};
use crate::plain::{push_once, pushed_once, pushing_deepens, Plain};
use crate::query_term::{
    named_words, Lazy, LocatedQueryTerm, LocatedQueryTermView, Phrase, Positions, QueryTerm,
    QueryTermView, ZeroTypoTerm, ZeroTypoTermView,
};
use crate::resegmentation::{
    adjacency_is_defined, are_single_words, can_be_merged, concatenate_variants,
    concatenated_variants, phrase_from_words, phrase_of, single_words, terms_can_be_merged,
    words_of_terms,
};
use crate::text::{
    byte_len, concatenate, concatenation, count_char, fits_in_key, is_white_space, is_whitespace,
    last_char, occurrences, same_text, spaced, MAX_WORD_LENGTH,
};
use crate::token::{SeparatorKind, Token, TokenKind, TokenView};
use crate::tokenizer::{attach_alternates, collect_pieces, pieces_to_come, with_alternates};
use crate::words::set_contains;

verus! {

/// The number of tokens of a query that are looked at.
pub const MAX_TOKEN_COUNT: usize = 1000;

/// The number of positions that a hard separator adds between the words around it.
pub const HARD_SEPARATOR_PENALTY: u16 = 7;

/// A word that must not appear in the results.
#[derive(Debug)]
pub enum Word {
    /// The word of the query.
    Original(String),
    /// A variant of the word of the query.
    Variant(String),
}

/// A word that must not appear in the results, by its characters.
pub enum WordView {
    Original(Seq<char>),
    Variant(Seq<char>),
}

impl DeepView for Word {
    type V = WordView;

    open spec fn deep_view(&self) -> WordView {
        match self {
            Word::Original(word) => WordView::Original(word@),
            Word::Variant(word) => WordView::Variant(word@),
        }
    }
}

/// What a query asks for, with the graph of its terms.
#[derive(Debug)]
pub struct ExtractedTokens<G> {
    /// The terms to search for in the index.
    pub query_terms: Vec<LocatedQueryTerm>,
    /// The graph of the query terms.
    pub graph: G,
    /// The words that must not appear in the results.
    pub negative_words: Vec<Word>,
    /// The phrases that must not appear in the results.
    pub negative_phrases: Vec<LocatedQueryTerm>,
}

/// The number of typos that a word may have.
///
/// The length of a word is its number of characters, whatever their number of bytes.
pub open spec fn allowed_typos(ctx: SearchContext<'_>, word: Seq<char>) -> u8 {
    if !ctx.authorize_typos || word.len() < ctx.min_word_len_one_typo || ctx.is_exact_word(word) {
        0
    } else if word.len() < ctx.min_word_len_two_typos {
        1
    } else {
        2
    }
}

/// A function that gives the number of typos that a word may have.
pub fn number_of_typos_allowed<'ctx>(ctx: &'ctx SearchContext<'ctx>) -> (typos: impl Fn(&str) -> u8
     + 'ctx)
    ensures
        forall|word: &str| #[trigger] call_requires(typos, (word,)),
        forall|word: &str, n: u8| #[trigger]
            call_ensures(typos, (word,), n) ==> n == allowed_typos(*ctx, word@),
{
    move |word: &str| -> (n: u8)
        ensures
            n == allowed_typos(*ctx, word@),
        {
            let exact = match &ctx.exact_words {
                Some(set) => set_contains(set, word),
                None => false,
            };
            if !ctx.authorize_typos || word.unicode_len() < ctx.min_word_len_one_typo as usize
                || exact {
                0
            } else if word.unicode_len() < ctx.min_word_len_two_typos as usize {
                1
            } else {
                2
            }
        }
}

/// What the index is asked for a word of the query.
pub open spec fn word_query(token: TokenView, max_typo: u8, is_prefix: bool) -> WordQueryView {
    WordQueryView {
        word: token.lemma,
        alternates: unique_variants(variants_of(token)),
        max_typo,
        is_prefix,
        is_ngram: false,
    }
}

/// The term of a word of the query.
pub open spec fn word_term(
    ctx: SearchContext<'_>,
    token: TokenView,
    position: u16,
    max_typo: u8,
    is_prefix: bool,
) -> Result<LocatedQueryTermView, LookupView> {
    match ctx.term_outcome(word_query(token, max_typo, is_prefix)) {
        Err(lookup) => Err(lookup),
        Ok(value) => Ok(
            LocatedQueryTermView {
                value,
                positions: Positions { start: position, end: position },
                japanese_variants: variants_of(token),
            },
        ),
    }
}

/// The term of a word of the query.
pub fn located_word_term(
    ctx: &SearchContext<'_>,
    token: &Token,
    position: u16,
    max_typo: u8,
    is_prefix: bool,
) -> (r: Result<LocatedQueryTerm, Lookup>)
    ensures
        outcome(r) == word_term(*ctx, token.deep_view(), position, max_typo, is_prefix),
{
    let japanese_variants = search_variants(token);
    let alternates = owned_words(&japanese_variants.iter_unique());
    let query = WordQuery {
        word: token.lemma().to_owned(),
        alternates,
        max_typo,
        is_prefix,
        is_ngram: false,
    };
    match ctx.term_from_word(query) {
        Err(lookup) => Err(lookup),
        Ok(value) => Ok(
            LocatedQueryTerm {
                value,
                positions: Positions { start: position, end: position },
                japanese_variants,
            },
        ),
    }
}

/// The same words, each a text of its own.
fn owned_words(words: &Vec<&String>) -> (r: Vec<String>)
    ensures
        r.deep_view() == words.deep_view(),
{
    let mut r: Vec<String> = Vec::new();
    let mut i: usize = 0;
    while i < words.len()
        invariant
            i <= words.len(),
            r.deep_view() == words.deep_view().take(i as int),
        decreases words.len() - i,
    {
        let ghost before = r;
        let word = words[i].duplicate();
        r.push(word);
        proof {
            pushing_deepens(before, r, word);
        }
        assert(r.deep_view() == words.deep_view().take(i + 1));
        i = i + 1;
    }
    assert(words.deep_view().take(i as int) == words.deep_view());
    r
}

/// A phrase of the query whose end has not come yet.
#[derive(Debug)]
pub struct PhraseBuilder {
    pub words: Vec<Option<String>>,
    pub japanese_variants: Vec<SearchVariants<String>>,
    pub japanese_search_enabled: bool,
    pub start: u16,
    pub end: u16,
}

/// A phrase whose end has not come yet, by its characters.
pub struct PhraseBuilderView {
    pub words: Seq<Option<Seq<char>>>,
    pub japanese_variants: Seq<SearchVariants<Seq<char>>>,
    pub japanese_search_enabled: bool,
    pub start: u16,
    pub end: u16,
}

impl DeepView for PhraseBuilder {
    type V = PhraseBuilderView;

    open spec fn deep_view(&self) -> PhraseBuilderView {
        PhraseBuilderView {
            words: self.words.deep_view(),
            japanese_variants: self.japanese_variants.deep_view(),
            japanese_search_enabled: self.japanese_search_enabled,
            start: self.start,
            end: self.end,
        }
    }
}

/// No variants.
pub open spec fn no_variants<T>() -> SearchVariants<T> {
    SearchVariants { normalized: None, phonetic: None, romaji: None }
}

impl PhraseBuilderView {
    /// A phrase without words.
    pub open spec fn opened(japanese_search_enabled: bool) -> PhraseBuilderView {
        PhraseBuilderView {
            words: Seq::empty(),
            japanese_variants: Seq::empty(),
            japanese_search_enabled,
            start: u16::MAX,
            end: u16::MAX,
        }
    }

    /// Whether the phrase names no word.
    pub open spec fn names_nothing(self) -> bool {
        forall|i: int| 0 <= i < self.words.len() ==> (#[trigger] self.words[i]) is None
    }

    /// The phrase with a word or a stop word more. It starts at the first word that it names, or at
    /// the last stop word where it names none.
    pub open spec fn with_word(self, token: TokenView, position: u16) -> PhraseBuilderView {
        PhraseBuilderView {
            words: self.words.push(
                if token.kind == TokenKind::StopWord {
                    None
                } else {
                    Some(token.lemma)
                },
            ),
            japanese_variants: self.japanese_variants.push(
                if token.kind == TokenKind::StopWord {
                    no_variants()
                } else {
                    variants_of(token)
                },
            ),
            japanese_search_enabled: self.japanese_search_enabled,
            start: if self.names_nothing() {
                position
            } else {
                self.start
            },
            end: position,
        }
    }
}

/// The term of a phrase, with the phrases that stand for it.
pub open spec fn phrase_term(
    phrase: PhraseBuilderView,
    alternates: Seq<Seq<Option<Seq<char>>>>,
) -> LocatedQueryTermView {
    LocatedQueryTermView {
        value: QueryTermView {
            original: spaced(named_words(phrase.words)),
            ngram_words: None,
            max_levenshtein_distance: 0,
            is_prefix: false,
            ranking_span_len: 1,
            zero_typo: ZeroTypoTermView {
                phrase: Some(phrase.words),
                alternate_phrases: alternates,
                ..ZeroTypoTermView::nothing()
            },
            one_typo: Lazy::Uninit,
            two_typo: Lazy::Uninit,
        },
        positions: Positions { start: phrase.start, end: phrase.end },
        japanese_variants: no_variants(),
    }
}

/// The term of a phrase that has ended; none of one that names no word.
pub open spec fn built_phrase(ctx: SearchContext<'_>, phrase: PhraseBuilderView) -> Result<
    Option<LocatedQueryTermView>,
    LookupView,
> {
    if phrase.names_nothing() {
        Ok(None)
    } else if phrase.japanese_search_enabled {
        match alternates_of_phrase(ctx, phrase.words, phrase.japanese_variants) {
            Err(lookup) => Err(lookup),
            Ok(alternates) => Ok(Some(phrase_term(phrase, alternates))),
        }
    } else {
        Ok(Some(phrase_term(phrase, Seq::empty())))
    }
}

impl PhraseBuilder {
    /// A phrase without words.
    pub fn empty(japanese_search_enabled: bool) -> (r: PhraseBuilder)
        ensures
            r.deep_view() == PhraseBuilderView::opened(japanese_search_enabled),
    {
        let r = PhraseBuilder {
            words: Vec::new(),
            japanese_variants: Vec::new(),
            japanese_search_enabled,
            start: u16::MAX,
            end: u16::MAX,
        };
        assert(r.words.deep_view() == Seq::<Option<Seq<char>>>::empty());
        assert(r.japanese_variants.deep_view() == Seq::<SearchVariants<Seq<char>>>::empty());
        r
    }

    /// Whether the phrase names no word.
    pub fn is_empty(&self) -> (b: bool)
        ensures
            b == self.deep_view().names_nothing(),
    {
        let ghost all = self.deep_view().words;
        let mut i: usize = 0;
        while i < self.words.len()
            invariant
                i <= self.words.len(),
                all == self.deep_view().words,
                forall|j: int| 0 <= j < i ==> (#[trigger] all[j]) is None,
            decreases self.words.len() - i,
        {
            assert(all[i as int] == self.words[i as int].deep_view());
            if self.words[i].is_some() {
                return false;
            }
            i = i + 1;
        }
        true
    }

    /// Adds a word or a stop word to the phrase.
    pub fn push_word(&mut self, token: &Token, position: u16)
        requires
            token.kind == TokenKind::Word || token.kind == TokenKind::StopWord,
        ensures
            final(self).deep_view() == old(self).deep_view().with_word(token.deep_view(), position),
    {
        let ghost before = *self;
        if self.is_empty() {
            self.start = position;
        }
        self.end = position;
        if let TokenKind::StopWord = token.kind {
            self.words.push(None);
            self.japanese_variants.push(SearchVariants::default());
        } else {
            self.words.push(Some(token.lemma().to_owned()));
            self.japanese_variants.push(search_variants(token));
        }
        proof {
            pushing_deepens(before.words, self.words, self.words@.last());
            pushing_deepens(
                before.japanese_variants,
                self.japanese_variants,
                self.japanese_variants@.last(),
            );
        }
    }

    /// The term of the phrase, which has ended.
    pub fn build(self, ctx: &SearchContext<'_>) -> (r: Result<Option<LocatedQueryTerm>, Lookup>)
        ensures
            outcome(r) == built_phrase(*ctx, self.deep_view()),
    {
        if self.is_empty() {
            return Ok(None);
        }
        let phrase = Phrase { words: self.words };
        let alternates = if self.japanese_search_enabled {
            match alternate_phrases(ctx, &phrase, &self.japanese_variants) {
                Err(lookup) => {
                    return Err(lookup);
                },
                Ok(alternates) => alternates,
            }
        } else {
            let none: Vec<Phrase> = Vec::new();
            assert(none.deep_view() == Seq::<Seq<Option<Seq<char>>>>::empty());
            none
        };
        let original = phrase.description();
        let zero_typo = ZeroTypoTerm {
            phrase: Some(phrase),
            alternate_phrases: alternates,
            ..ZeroTypoTerm::default()
        };
        let value = QueryTerm {
            original,
            ngram_words: None,
            max_levenshtein_distance: 0,
            is_prefix: false,
            ranking_span_len: 1,
            zero_typo,
            one_typo: Lazy::Uninit,
            two_typo: Lazy::Uninit,
        };
        Ok(
            Some(
                LocatedQueryTerm {
                    value,
                    positions: Positions { start: self.start, end: self.end },
                    japanese_variants: SearchVariants::default(),
                },
            ),
        )
    }
}

/// The text of an n-gram of terms; none where the terms cannot be taken as one word, or where the
/// text is too long for the index.
pub open spec fn ngram_text(terms: Seq<LocatedQueryTermView>) -> Option<Seq<char>> {
    let text = concatenation(words_of_terms(terms));
    if can_be_merged(terms) && are_single_words(terms) && fits_in_key(text) {
        Some(text)
    } else {
        None
    }
}

/// The number of terms, as far as a byte holds it.
pub open spec fn span_len(terms: Seq<LocatedQueryTermView>) -> u8 {
    (terms.len() % 256) as u8
}

/// The number of typos of an n-gram: one less for each term after the first.
pub open spec fn ngram_typos(terms: Seq<LocatedQueryTermView>, typos: u8) -> u8 {
    let lost = span_len(terms) - 1;
    if typos >= lost {
        (typos - lost) as u8
    } else {
        0
    }
}

/// What the index is asked for an n-gram.
pub open spec fn ngram_query(
    terms: Seq<LocatedQueryTermView>,
    text: Seq<char>,
    typos: u8,
) -> WordQueryView {
    WordQueryView {
        word: text,
        alternates: Seq::empty(),
        max_typo: ngram_typos(terms, typos),
        is_prefix: terms.last().value.is_prefix,
        is_ngram: true,
    }
}

/// Phrases extended by the synonyms that they do not hold yet.
pub open spec fn with_synonyms(
    phrases: Seq<Seq<Option<Seq<char>>>>,
    synonyms: Seq<Seq<Seq<char>>>,
) -> Seq<Seq<Option<Seq<char>>>>
    decreases synonyms.len(),
{
    if synonyms.len() == 0 {
        phrases
    } else {
        pushed_once(with_synonyms(phrases, synonyms.drop_last()), phrase_of(synonyms.last()))
    }
}

/// The term of an n-gram whose text may have a number of typos.
pub open spec fn ngram_term(
    ctx: SearchContext<'_>,
    terms: Seq<LocatedQueryTermView>,
    text: Seq<char>,
    typos: u8,
) -> Result<LocatedQueryTermView, LookupView> {
    match ctx.term_outcome(ngram_query(terms, text, typos)) {
        Err(lookup) => Err(lookup),
        Ok(term) => match ctx.synonyms_outcome(words_of_terms(terms)) {
            Err(lookup) => Err(lookup),
            Ok(synonyms) => Ok(
                LocatedQueryTermView {
                    value: QueryTermView {
                        original: text,
                        ngram_words: Some(words_of_terms(terms)),
                        is_prefix: terms.last().value.is_prefix,
                        max_levenshtein_distance: ngram_typos(terms, typos),
                        ranking_span_len: span_len(terms),
                        zero_typo: ZeroTypoTermView {
                            synonyms: with_synonyms(term.zero_typo.synonyms, synonyms),
                            ..term.zero_typo
                        },
                        one_typo: Lazy::Uninit,
                        two_typo: Lazy::Uninit,
                    },
                    positions: Positions {
                        start: terms[0].positions.start,
                        end: terms.last().positions.end,
                    },
                    japanese_variants: concatenated_variants(terms),
                },
            ),
        },
    }
}

/// Adds the synonyms that the phrases do not hold yet.
fn add_synonyms(phrases: &mut Vec<Phrase>, synonyms: &Vec<Vec<String>>)
    ensures
        final(phrases).deep_view() == with_synonyms(
            old(phrases).deep_view(),
            synonyms.deep_view(),
        ),
{
    let ghost before = phrases.deep_view();
    let ghost all = synonyms.deep_view();
    let mut i: usize = 0;
    while i < synonyms.len()
        invariant
            i <= synonyms.len(),
            all == synonyms.deep_view(),
            before == old(phrases).deep_view(),
            phrases.deep_view() == with_synonyms(before, all.take(i as int)),
        decreases synonyms.len() - i,
    {
        assert(all.take(i + 1).drop_last() == all.take(i as int));
        assert(all.take(i + 1).last() == synonyms[i as int].deep_view());
        push_once(phrases, phrase_from_words(&synonyms[i]));
        i = i + 1;
    }
    assert(all.take(i as int) == all);
}

/// The number of terms, as far as a byte holds it.
fn term_count(n: usize) -> (r: u8)
    ensures
        r == (n % 256) as u8,
{
    (n % 256) as u8
}

/// The term that takes consecutive terms as one word.
pub fn make_ngram(
    ctx: &SearchContext<'_>,
    terms: &[LocatedQueryTerm],
    number_of_typos_allowed: &impl Fn(&str) -> u8,
) -> (r: Result<Option<LocatedQueryTerm>, Lookup>)
    requires
        terms.len() > 0,
        adjacency_is_defined(terms.deep_view()),
        ngram_text(terms.deep_view()) is Some ==> terms.len() % 256 != 0,
        forall|word: &str| #[trigger] call_requires(*number_of_typos_allowed, (word,)),
    ensures
        match ngram_text(terms.deep_view()) {
            None => r == Ok::<Option<LocatedQueryTerm>, Lookup>(None),
            Some(text) => exists|word: &str, typos: u8| #[trigger]
                call_ensures(*number_of_typos_allowed, (word,), typos) && word@ == text && outcome(
                    r,
                ) == (match ngram_term(*ctx, terms.deep_view(), text, typos) {
                    Ok(term) => Ok(Some(term)),
                    Err(lookup) => Err(lookup),
                }),
        },
{
    let ghost view = terms.deep_view();
    if !terms_can_be_merged(terms) {
        return Ok(None);
    }
    let words = match single_words(terms) {
        Some(words) => words,
        None => {
            return Ok(None);
        },
    };
    let word_slice = words.as_slice();
    assert(word_slice.deep_view() == words.deep_view());
    let ngram_str = concatenate(word_slice);
    if byte_len(ngram_str.as_str()) > MAX_WORD_LENGTH {
        return Ok(None);
    }
    let first = &terms[0];
    let last = &terms[terms.len() - 1];
    assert(view[0] == first.deep_view());
    assert(view.last() == last.deep_view());
    let start = first.positions.start;
    let end = last.positions.end;
    let is_prefix = last.value.is_prefix;
    let word = ngram_str.as_str();
    let typos: u8 = number_of_typos_allowed(word);
    assert(call_ensures(*number_of_typos_allowed, (word,), typos) && word@ == ngram_str@);
    let span: u8 = term_count(terms.len());
    let lost: u8 = span - 1;
    let max_nbr_typos: u8 = if typos >= lost {
        typos - lost
    } else {
        0
    };
    let japanese_variants = concatenate_variants(terms);
    let none: Vec<String> = Vec::new();
    assert(none.deep_view() == Seq::<Seq<char>>::empty());
    let query = WordQuery {
        word: ngram_str.clone(),
        alternates: none,
        max_typo: max_nbr_typos,
        is_prefix,
        is_ngram: true,
    };
    let term = match ctx.term_from_word(query) {
        Err(lookup) => {
            return Err(lookup);
        },
        Ok(term) => term,
    };
    let synonyms = match ctx.synonyms_of(&words) {
        Err(lookup) => {
            return Err(lookup);
        },
        Ok(synonyms) => synonyms,
    };
    let mut zero_typo = term.zero_typo;
    add_synonyms(&mut zero_typo.synonyms, &synonyms);
    let value = QueryTerm {
        original: ngram_str,
        ngram_words: Some(words),
        is_prefix,
        max_levenshtein_distance: max_nbr_typos,
        ranking_span_len: span,
        zero_typo,
        one_typo: Lazy::Uninit,
        two_typo: Lazy::Uninit,
    };
    Ok(Some(LocatedQueryTerm { value, positions: Positions { start, end }, japanese_variants }))
}

/// What has been read of a query.
#[derive(Debug)]
pub struct QueryReader {
    pub query_terms: Vec<LocatedQueryTerm>,
    pub negative_words: Vec<Word>,
    pub negative_phrases: Vec<LocatedQueryTerm>,
    /// The phrase that has been opened and not closed yet.
    pub phrase: Option<PhraseBuilder>,
    /// Whether the open phrase must not appear in the results.
    pub negative_phrase: bool,
    /// Whether the next word or phrase must not appear in the results.
    pub negative_next_token: bool,
    /// Whether the last token ended with white space; true before the first token.
    pub encountered_whitespace: bool,
    /// The position of the last word. The position after the last one is the first.
    pub position: u16,
}

/// What has been read of a query, by its characters.
pub struct QueryReaderView {
    pub query_terms: Seq<LocatedQueryTermView>,
    pub negative_words: Seq<WordView>,
    pub negative_phrases: Seq<LocatedQueryTermView>,
    pub phrase: Option<PhraseBuilderView>,
    pub negative_phrase: bool,
    pub negative_next_token: bool,
    pub encountered_whitespace: bool,
    pub position: u16,
}

impl DeepView for QueryReader {
    type V = QueryReaderView;

    open spec fn deep_view(&self) -> QueryReaderView {
        QueryReaderView {
            query_terms: self.query_terms.deep_view(),
            negative_words: self.negative_words.deep_view(),
            negative_phrases: self.negative_phrases.deep_view(),
            phrase: self.phrase.deep_view(),
            negative_phrase: self.negative_phrase,
            negative_next_token: self.negative_next_token,
            encountered_whitespace: self.encountered_whitespace,
            position: self.position,
        }
    }
}

/// How a query is read.
pub struct ReaderOptions {
    /// Whether the variants of Japanese words are searched for.
    pub japanese_search_enabled: bool,
    /// Whether a token is the last one of the query.
    pub is_last: bool,
}

/// A position some steps after another. The position after the last one is the first.
pub open spec fn position_after(position: u16, steps: u16) -> u16 {
    ((position + steps) % 0x1_0000) as u16
}

/// The position some steps after another.
fn advance(position: u16, steps: u16) -> (r: u16)
    ensures
        r == position_after(position, steps),
{
    ((position as u32 + steps as u32) % 0x1_0000) as u16
}

/// The indexed variants among some, as words that must not appear in the results.
pub open spec fn indexed_variants(ctx: SearchContext<'_>, variants: Seq<Seq<char>>) -> Result<
    Seq<WordView>,
    LookupView,
>
    decreases variants.len(),
{
    if variants.len() == 0 {
        Ok(Seq::empty())
    } else {
        match indexed_variants(ctx, variants.drop_last()) {
            Err(lookup) => Err(lookup),
            Ok(before) => if !fits_in_key(variants.last()) {
                Ok(before)
            } else {
                match ctx.word_outcome(variants.last()) {
                    Err(lookup) => Err(lookup),
                    Ok(true) => Ok(before.push(WordView::Variant(variants.last()))),
                    Ok(false) => Ok(before),
                }
            },
        }
    }
}

/// The words that a negated word keeps out of the results: the word itself, and its indexed
/// variants where the index does not hold the word and Japanese variants are searched for.
pub open spec fn negated_words(
    ctx: SearchContext<'_>,
    token: TokenView,
    japanese_search_enabled: bool,
) -> Result<Seq<WordView>, LookupView> {
    let original = seq![WordView::Original(token.lemma)];
    match ctx.word_outcome(token.lemma) {
        Err(lookup) => Err(lookup),
        Ok(is_indexed) => if japanese_search_enabled && !is_indexed {
            match indexed_variants(ctx, unique_variants(variants_of(token))) {
                Err(lookup) => Err(lookup),
                Ok(variants) => Ok(original + variants),
            }
        } else {
            Ok(original)
        },
    }
}

/// Adds the indexed variants among some to the words that must not appear in the results.
fn push_indexed_variants(
    ctx: &SearchContext<'_>,
    variants: &Vec<&String>,
    words: &mut Vec<Word>,
) -> (r: Result<(), Lookup>)
    ensures
        match indexed_variants(*ctx, variants.deep_view()) {
            Err(lookup) => r matches Err(l) && l.deep_view() == lookup,
            Ok(added) => r is Ok && final(words).deep_view() == old(words).deep_view() + added,
        },
{
    let ghost all = variants.deep_view();
    let ghost start = words.deep_view();
    let mut i: usize = 0;
    assert(all.take(0) == Seq::<Seq<char>>::empty());
    assert(start + Seq::<WordView>::empty() == start);
    while i < variants.len()
        invariant
            i <= variants.len(),
            all == variants.deep_view(),
            start == old(words).deep_view(),
            indexed_variants(*ctx, all.take(i as int)) matches Ok(added) && words.deep_view()
                == start + added,
        decreases variants.len() - i,
    {
        let variant = variants[i];
        proof {
            assert(all.take(i + 1).drop_last() == all.take(i as int));
            assert(all.take(i + 1).last() == variant@);
        }
        let ghost added = indexed_variants(*ctx, all.take(i as int))->Ok_0;
        if byte_len(variant.as_str()) <= MAX_WORD_LENGTH {
            match ctx.contains_word(variant) {
                Err(lookup) => {
                    proof {
                        failed_variant_fails_all(*ctx, all, i + 1);
                    }
                    return Err(lookup);
                },
                Ok(found) => {
                    if found {
                        let ghost before = *words;
                        let word = Word::Variant(variant.clone());
                        words.push(word);
                        proof {
                            pushing_deepens(before, *words, word);
                            assert(start + added.push(word.deep_view()) == (start + added).push(
                                word.deep_view(),
                            ));
                        }
                    }
                },
            }
        }
        i = i + 1;
    }
    assert(all.take(i as int) == all);
    Ok(())
}

/// A question that one variant raises is raised by all that follow, too.
proof fn failed_variant_fails_all(ctx: SearchContext<'_>, variants: Seq<Seq<char>>, n: int)
    requires
        0 <= n <= variants.len(),
        indexed_variants(ctx, variants.take(n)) is Err,
    ensures
        indexed_variants(ctx, variants) == indexed_variants(ctx, variants.take(n)),
    decreases variants.len() - n,
{
    if n == variants.len() {
        assert(variants.take(n) == variants);
    } else {
        assert(variants.take(n + 1).drop_last() == variants.take(n));
        failed_variant_fails_all(ctx, variants, n + 1);
    }
}

/// Adds the words that a negated word keeps out of the results.
fn push_negated_words(
    ctx: &SearchContext<'_>,
    token: &Token,
    japanese_search_enabled: bool,
    words: &mut Vec<Word>,
) -> (r: Result<(), Lookup>)
    ensures
        match negated_words(*ctx, token.deep_view(), japanese_search_enabled) {
            Err(lookup) => r matches Err(l) && l.deep_view() == lookup,
            Ok(added) => r is Ok && final(words).deep_view() == old(words).deep_view() + added,
        },
{
    let lemma = token.lemma().to_owned();
    let is_indexed = match ctx.contains_word(&lemma) {
        Err(lookup) => {
            return Err(lookup);
        },
        Ok(found) => found,
    };
    let ghost start = *words;
    let word = Word::Original(lemma);
    words.push(word);
    let ghost original = seq![word.deep_view()];
    proof {
        pushing_deepens(start, *words, word);
        assert(words.deep_view() == start.deep_view() + original);
    }
    if japanese_search_enabled && !is_indexed {
        let variants = search_variants(token);
        let unique = variants.iter_unique();
        proof {
            if let Ok(added) = indexed_variants(*ctx, unique.deep_view()) {
                assert(start.deep_view() + (original + added) == (start.deep_view() + original)
                    + added);
            }
        }
        push_indexed_variants(ctx, &unique, words)
    } else {
        Ok(())
    }
}

/// What has been read after a word or a stop word.
///
/// 1. In a phrase, the word goes to the phrase.
/// 2. After the negative operator, the word must not appear in the results.
/// 3. The last token of the query, a stop word too, becomes a term that may be a prefix.
/// 4. Else a word becomes a term, and a stop word does not.
pub open spec fn after_word(
    ctx: SearchContext<'_>,
    reader: QueryReaderView,
    token: TokenView,
    options: ReaderOptions,
) -> Result<QueryReaderView, LookupView> {
    let position = position_after(reader.position, 1);
    let at = QueryReaderView { position, ..reader };
    match reader.phrase {
        Some(phrase) => Ok(
            QueryReaderView { phrase: Some(phrase.with_word(token, position)), ..at },
        ),
        None => if reader.negative_next_token {
            match negated_words(ctx, token, options.japanese_search_enabled) {
                Err(lookup) => Err(lookup),
                Ok(words) => Ok(
                    QueryReaderView {
                        negative_words: reader.negative_words + words,
                        negative_next_token: false,
                        ..at
                    },
                ),
            }
        } else if options.is_last || token.kind == TokenKind::Word {
            match word_term(
                ctx,
                token,
                position,
                allowed_typos(ctx, token.lemma),
                options.is_last && ctx.prefix_search,
            ) {
                Err(lookup) => Err(lookup),
                Ok(term) => Ok(
                    QueryReaderView { query_terms: reader.query_terms.push(term), ..at },
                ),
            }
        } else {
            Ok(at)
        },
    }
}

/// What has been read once a phrase has ended: its term, if it has one, is asked for, or must not
/// appear in the results.
pub open spec fn after_phrase(
    ctx: SearchContext<'_>,
    reader: QueryReaderView,
    phrase: PhraseBuilderView,
) -> Result<QueryReaderView, LookupView> {
    match built_phrase(ctx, phrase) {
        Err(lookup) => Err(lookup),
        Ok(None) => Ok(reader),
        Ok(Some(term)) => Ok(
            if reader.negative_phrase {
                QueryReaderView {
                    negative_phrases: reader.negative_phrases.push(term),
                    ..reader
                }
            } else {
                QueryReaderView { query_terms: reader.query_terms.push(term), ..reader }
            },
        ),
    }
}

/// What has been read after the break that a hard separator makes: an open phrase ends, and a new
/// one starts, which is negative if the first was.
pub open spec fn after_break(
    ctx: SearchContext<'_>,
    reader: QueryReaderView,
    token: TokenView,
    japanese_search_enabled: bool,
) -> Result<QueryReaderView, LookupView> {
    if token.kind != TokenKind::Separator(SeparatorKind::Hard) {
        Ok(reader)
    } else {
        let at = QueryReaderView {
            position: position_after(reader.position, HARD_SEPARATOR_PENALTY),
            ..reader
        };
        match reader.phrase {
            None => Ok(at),
            Some(phrase) => match after_phrase(ctx, at, phrase) {
                Err(lookup) => Err(lookup),
                Ok(ended) => Ok(
                    QueryReaderView {
                        phrase: Some(PhraseBuilderView::opened(japanese_search_enabled)),
                        ..ended
                    },
                ),
            },
        }
    }
}

/// What has been read after the double quotes of a separator. The first closes an open phrase. Of
/// the others, each two open and close a phrase without words, and one that is left opens a phrase,
/// which is negative after the negative operator.
pub open spec fn after_quotes(
    ctx: SearchContext<'_>,
    reader: QueryReaderView,
    quotes: nat,
    japanese_search_enabled: bool,
) -> Result<QueryReaderView, LookupView> {
    if quotes == 0 {
        Ok(reader)
    } else {
        let closed: Result<QueryReaderView, LookupView> = match reader.phrase {
            None => Ok(reader),
            Some(phrase) => match after_phrase(ctx, reader, phrase) {
                Err(lookup) => Err(lookup),
                Ok(ended) => Ok(
                    QueryReaderView {
                        negative_phrase: reader.negative_phrase && built_phrase(ctx, phrase)
                            == Ok::<Option<LocatedQueryTermView>, LookupView>(None),
                        ..ended
                    },
                ),
            },
        };
        let left = if reader.phrase is Some {
            quotes - 1
        } else {
            quotes as int
        };
        match closed {
            Err(lookup) => Err(lookup),
            Ok(closed) => Ok(
                if left % 2 == 1 {
                    QueryReaderView {
                        phrase: Some(PhraseBuilderView::opened(japanese_search_enabled)),
                        negative_phrase: reader.negative_next_token,
                        ..closed
                    }
                } else {
                    QueryReaderView { phrase: None, ..closed }
                },
            ),
        }
    }
}

/// What has been read after a separator. A lone minus after white space, outside of a phrase, is
/// the negative operator.
pub open spec fn after_separator(
    ctx: SearchContext<'_>,
    reader: QueryReaderView,
    token: TokenView,
    options: ReaderOptions,
) -> Result<QueryReaderView, LookupView> {
    match after_break(ctx, reader, token, options.japanese_search_enabled) {
        Err(lookup) => Err(lookup),
        Ok(broken) => match after_quotes(
            ctx,
            broken,
            occurrences(token.lemma, '"'),
            options.japanese_search_enabled,
        ) {
            Err(lookup) => Err(lookup),
            Ok(quoted) => Ok(
                QueryReaderView {
                    negative_next_token: quoted.phrase is None && token.lemma == seq!['-']
                        && reader.encountered_whitespace,
                    ..quoted
                },
            ),
        },
    }
}

/// What has been read after a token whose text is not empty.
pub open spec fn after_token(
    ctx: SearchContext<'_>,
    reader: QueryReaderView,
    token: TokenView,
    options: ReaderOptions,
) -> Result<QueryReaderView, LookupView> {
    let next: Result<QueryReaderView, LookupView> = match token.kind {
        TokenKind::Word | TokenKind::StopWord => after_word(ctx, reader, token, options),
        TokenKind::Separator(_) => after_separator(ctx, reader, token, options),
        TokenKind::Unknown => Ok(reader),
    };
    match next {
        Err(lookup) => Err(lookup),
        Ok(next) => Ok(
            QueryReaderView {
                encountered_whitespace: is_white_space(token.lemma.last()),
                ..next
            },
        ),
    }
}

impl QueryReaderView {
    /// Nothing has been read.
    pub open spec fn start() -> QueryReaderView {
        QueryReaderView {
            query_terms: Seq::empty(),
            negative_words: Seq::empty(),
            negative_phrases: Seq::empty(),
            phrase: None,
            negative_phrase: false,
            negative_next_token: false,
            encountered_whitespace: true,
            position: u16::MAX,
        }
    }
}

/// What has been read once the query has ended. A phrase that was not closed ends with it.
pub open spec fn after_end(ctx: SearchContext<'_>, reader: QueryReaderView) -> Result<
    QueryReaderView,
    LookupView,
> {
    match reader.phrase {
        None => Ok(reader),
        Some(phrase) => match after_phrase(ctx, reader, phrase) {
            Err(lookup) => Err(lookup),
            Ok(ended) => Ok(QueryReaderView { phrase: None, ..ended }),
        },
    }
}

/// What a query reads as, from the token `i` on, after some of it has been read. Once there are as
/// many terms as asked for, the next token whose text is not empty ends the reading.
pub open spec fn read_from(
    ctx: SearchContext<'_>,
    reader: QueryReaderView,
    tokens: Seq<TokenView>,
    i: int,
    words_limit: Option<usize>,
    japanese_search_enabled: bool,
) -> Result<QueryReaderView, LookupView>
    decreases tokens.len() - i,
{
    if i < 0 || i >= tokens.len() {
        after_end(ctx, reader)
    } else if tokens[i].lemma.len() == 0 {
        read_from(ctx, reader, tokens, i + 1, words_limit, japanese_search_enabled)
    } else if words_limit matches Some(limit) && reader.query_terms.len() >= limit {
        Ok(reader)
    } else {
        let options = ReaderOptions { japanese_search_enabled, is_last: i + 1 == tokens.len() };
        match after_token(ctx, reader, tokens[i], options) {
            Err(lookup) => Err(lookup),
            Ok(next) => read_from(ctx, next, tokens, i + 1, words_limit, japanese_search_enabled),
        }
    }
}

/// The tokens of a query that are looked at.
pub open spec fn considered(tokens: Seq<TokenView>) -> Seq<TokenView> {
    if tokens.len() <= MAX_TOKEN_COUNT {
        tokens
    } else {
        tokens.take(MAX_TOKEN_COUNT as int)
    }
}

/// What a query reads as.
pub open spec fn read_query(
    ctx: SearchContext<'_>,
    tokens: Seq<TokenView>,
    words_limit: Option<usize>,
    japanese_search_enabled: bool,
) -> Result<QueryReaderView, LookupView> {
    read_from(
        ctx,
        QueryReaderView::start(),
        considered(tokens),
        0,
        words_limit,
        japanese_search_enabled,
    )
}

impl QueryReader {
    /// Nothing has been read.
    pub fn new() -> (r: QueryReader)
        ensures
            r.deep_view() == QueryReaderView::start(),
    {
        let r = QueryReader {
            query_terms: Vec::new(),
            negative_words: Vec::new(),
            negative_phrases: Vec::new(),
            phrase: None,
            negative_phrase: false,
            negative_next_token: false,
            encountered_whitespace: true,
            position: u16::MAX,
        };
        assert(r.query_terms.deep_view() == Seq::<LocatedQueryTermView>::empty());
        assert(r.negative_words.deep_view() == Seq::<WordView>::empty());
        assert(r.negative_phrases.deep_view() == Seq::<LocatedQueryTermView>::empty());
        r
    }

    /// Reads a word or a stop word.
    fn read_word(
        self,
        ctx: &SearchContext<'_>,
        token: &Token,
        japanese_search_enabled: bool,
        is_last: bool,
    ) -> (r: Result<QueryReader, Lookup>)
        requires
            token.kind == TokenKind::Word || token.kind == TokenKind::StopWord,
        ensures
            outcome(r) == after_word(
                *ctx,
                self.deep_view(),
                token.deep_view(),
                ReaderOptions { japanese_search_enabled, is_last },
            ),
    {
        let mut reader = self;
        reader.position = advance(reader.position, 1);
        match reader.phrase.take() {
            Some(phrase) => {
                let mut phrase = phrase;
                phrase.push_word(token, reader.position);
                reader.phrase = Some(phrase);
                Ok(reader)
            },
            None => {
                if reader.negative_next_token {
                    match push_negated_words(
                        ctx,
                        token,
                        japanese_search_enabled,
                        &mut reader.negative_words,
                    ) {
                        Err(lookup) => {
                            return Err(lookup);
                        },
                        Ok(()) => {},
                    }
                    reader.negative_next_token = false;
                    Ok(reader)
                } else if is_last || matches!(token.kind, TokenKind::Word) {
                    let typos = number_of_typos_allowed(ctx);
                    let max_typo: u8 = typos(token.lemma());
                    let is_prefix = is_last && ctx.prefix_search;
                    match located_word_term(ctx, token, reader.position, max_typo, is_prefix) {
                        Err(lookup) => Err(lookup),
                        Ok(term) => {
                            let ghost before = reader.query_terms;
                            reader.query_terms.push(term);
                            proof {
                                pushing_deepens(before, reader.query_terms, term);
                            }
                            Ok(reader)
                        },
                    }
                } else {
                    Ok(reader)
                }
            },
        }
    }

    /// Ends a phrase, and tells whether it has a term.
    fn end_phrase(self, ctx: &SearchContext<'_>, phrase: PhraseBuilder) -> (r: Result<
        (QueryReader, bool),
        Lookup,
    >)
        ensures
            match r {
                Ok((reader, has_term)) => {
                    &&& after_phrase(*ctx, self.deep_view(), phrase.deep_view()) == Ok::<
                        QueryReaderView,
                        LookupView,
                    >(reader.deep_view())
                    &&& has_term == (built_phrase(*ctx, phrase.deep_view()) != Ok::<
                        Option<LocatedQueryTermView>,
                        LookupView,
                    >(None))
                },
                Err(lookup) => after_phrase(*ctx, self.deep_view(), phrase.deep_view()) == Err::<
                    QueryReaderView,
                    LookupView,
                >(lookup.deep_view()),
            },
    {
        let mut reader = self;
        match phrase.build(ctx) {
            Err(lookup) => Err(lookup),
            Ok(None) => Ok((reader, false)),
            Ok(Some(term)) => {
                if reader.negative_phrase {
                    let ghost before = reader.negative_phrases;
                    reader.negative_phrases.push(term);
                    proof {
                        pushing_deepens(before, reader.negative_phrases, term);
                    }
                } else {
                    let ghost before = reader.query_terms;
                    reader.query_terms.push(term);
                    proof {
                        pushing_deepens(before, reader.query_terms, term);
                    }
                }
                Ok((reader, true))
            },
        }
    }

    /// Makes the break of a hard separator.
    fn read_break(
        self,
        ctx: &SearchContext<'_>,
        token: &Token,
        japanese_search_enabled: bool,
    ) -> (r: Result<QueryReader, Lookup>)
        ensures
            outcome(r) == after_break(
                *ctx,
                self.deep_view(),
                token.deep_view(),
                japanese_search_enabled,
            ),
    {
        let mut reader = self;
        if !matches!(token.kind, TokenKind::Separator(SeparatorKind::Hard)) {
            return Ok(reader);
        }
        reader.position = advance(reader.position, HARD_SEPARATOR_PENALTY);
        match reader.phrase.take() {
            None => Ok(reader),
            Some(phrase) => match reader.end_phrase(ctx, phrase) {
                Err(lookup) => Err(lookup),
                Ok((ended, _)) => {
                    let mut reader = ended;
                    reader.phrase = Some(PhraseBuilder::empty(japanese_search_enabled));
                    Ok(reader)
                },
            },
        }
    }

    /// Reads the double quotes of a separator.
    fn read_quotes(
        self,
        ctx: &SearchContext<'_>,
        quotes: usize,
        japanese_search_enabled: bool,
    ) -> (r: Result<QueryReader, Lookup>)
        ensures
            outcome(r) == after_quotes(
                *ctx,
                self.deep_view(),
                quotes as nat,
                japanese_search_enabled,
            ),
    {
        let mut reader = self;
        if quotes == 0 {
            return Ok(reader);
        }
        let negative_next_token = reader.negative_next_token;
        let mut left: usize = quotes;
        match reader.phrase.take() {
            None => {},
            Some(phrase) => {
                left = left - 1;
                match reader.end_phrase(ctx, phrase) {
                    Err(lookup) => {
                        return Err(lookup);
                    },
                    Ok((ended, has_term)) => {
                        reader = ended;
                        if has_term {
                            reader.negative_phrase = false;
                        }
                    },
                }
            },
        }
        if left % 2 == 1 {
            reader.negative_phrase = negative_next_token;
            reader.phrase = Some(PhraseBuilder::empty(japanese_search_enabled));
        } else {
            reader.phrase = None;
        }
        Ok(reader)
    }

    /// Reads a separator.
    fn read_separator(
        self,
        ctx: &SearchContext<'_>,
        token: &Token,
        japanese_search_enabled: bool,
        is_last: bool,
    ) -> (r: Result<QueryReader, Lookup>)
        ensures
            outcome(r) == after_separator(
                *ctx,
                self.deep_view(),
                token.deep_view(),
                ReaderOptions { japanese_search_enabled, is_last },
            ),
    {
        let encountered_whitespace = self.encountered_whitespace;
        let broken = match self.read_break(ctx, token, japanese_search_enabled) {
            Err(lookup) => {
                return Err(lookup);
            },
            Ok(reader) => reader,
        };
        let quotes: usize = count_char(token.lemma(), '"');
        match broken.read_quotes(ctx, quotes, japanese_search_enabled) {
            Err(lookup) => Err(lookup),
            Ok(quoted) => {
                let mut reader = quoted;
                proof {
                    reveal_strlit("-");
                    assert("-"@ == seq!['-']);
                }
                reader.negative_next_token = reader.phrase.is_none() && same_text(
                    token.lemma(),
                    "-",
                ) && encountered_whitespace;
                Ok(reader)
            },
        }
    }

    /// Reads a token whose text is not empty.
    fn read_token(
        self,
        ctx: &SearchContext<'_>,
        token: &Token,
        japanese_search_enabled: bool,
        is_last: bool,
    ) -> (r: Result<QueryReader, Lookup>)
        requires
            token.deep_view().lemma.len() > 0,
        ensures
            outcome(r) == after_token(
                *ctx,
                self.deep_view(),
                token.deep_view(),
                ReaderOptions { japanese_search_enabled, is_last },
            ),
    {
        let next = match token.kind {
            TokenKind::Word | TokenKind::StopWord => self.read_word(
                ctx,
                token,
                japanese_search_enabled,
                is_last,
            ),
            TokenKind::Separator(_) => self.read_separator(
                ctx,
                token,
                japanese_search_enabled,
                is_last,
            ),
            TokenKind::Unknown => Ok(self),
        };
        match next {
            Err(lookup) => Err(lookup),
            Ok(reader) => {
                let mut reader = reader;
                reader.encountered_whitespace = match last_char(token.lemma()) {
                    Some(c) => is_whitespace(c),
                    None => false,
                };
                Ok(reader)
            },
        }
    }

    /// Ends the query.
    fn finish(self, ctx: &SearchContext<'_>) -> (r: Result<QueryReader, Lookup>)
        ensures
            outcome(r) == after_end(*ctx, self.deep_view()),
    {
        let mut reader = self;
        match reader.phrase.take() {
            None => Ok(reader),
            Some(phrase) => match reader.end_phrase(ctx, phrase) {
                Err(lookup) => Err(lookup),
                Ok((ended, _)) => Ok(ended),
            },
        }
    }
}

/// Whether the terms are at most as many as asked for, and fewer while a phrase names a word.
pub open spec fn keeps_limit(reader: QueryReaderView, limit: nat) -> bool {
    &&& reader.query_terms.len() <= limit
    &&& reader.phrase matches Some(phrase) ==> phrase.names_nothing() || reader.query_terms.len()
        < limit
}

/// A token that is read while there are fewer terms than asked for adds at most one.
pub proof fn token_keeps_limit(
    ctx: SearchContext<'_>,
    reader: QueryReaderView,
    token: TokenView,
    options: ReaderOptions,
    limit: nat,
)
    requires
        reader.query_terms.len() < limit,
    ensures
        after_token(ctx, reader, token, options) matches Ok(next) ==> keeps_limit(next, limit)
            && next.query_terms.len() <= reader.query_terms.len() + 1,
{
    if let TokenKind::Separator(_) = token.kind {
        let enabled = options.japanese_search_enabled;
        if let Ok(broken) = after_break(ctx, reader, token, enabled) {
            if let Ok(quoted) = after_quotes(ctx, broken, occurrences(token.lemma, '"'), enabled) {
                assert(keeps_limit(broken, limit));
                assert(keeps_limit(quoted, limit));
            }
        }
    }
}

/// A query that is read on from at most as many terms as asked for ends with at most as many.
pub proof fn reading_keeps_limit(
    ctx: SearchContext<'_>,
    reader: QueryReaderView,
    tokens: Seq<TokenView>,
    i: int,
    limit: usize,
    japanese_search_enabled: bool,
)
    requires
        0 <= i <= tokens.len(),
        keeps_limit(reader, limit as nat),
    ensures
        read_from(ctx, reader, tokens, i, Some(limit), japanese_search_enabled) matches Ok(
            end,
        ) ==> end.query_terms.len() <= limit,
    decreases tokens.len() - i,
{
    if i < tokens.len() {
        if tokens[i].lemma.len() == 0 {
            reading_keeps_limit(ctx, reader, tokens, i + 1, limit, japanese_search_enabled);
        } else if reader.query_terms.len() < limit {
            let options = ReaderOptions { japanese_search_enabled, is_last: i + 1 == tokens.len() };
            token_keeps_limit(ctx, reader, tokens[i], options, limit as nat);
            if let Ok(next) = after_token(ctx, reader, tokens[i], options) {
                reading_keeps_limit(ctx, next, tokens, i + 1, limit, japanese_search_enabled);
            }
        }
    }
}

/// A query has at most as many terms as asked for, phrases counted as one.
pub proof fn terms_are_limited(
    ctx: SearchContext<'_>,
    tokens: Seq<TokenView>,
    limit: usize,
    japanese_search_enabled: bool,
)
    ensures
        read_query(ctx, tokens, Some(limit), japanese_search_enabled) matches Ok(end)
            ==> end.query_terms.len() <= limit,
{
    reading_keeps_limit(
        ctx,
        QueryReaderView::start(),
        considered(tokens),
        0,
        limit,
        japanese_search_enabled,
    );
}

/// Reads the tokens of a query.
pub fn read_tokens(
    ctx: &SearchContext<'_>,
    tokens: &Vec<Token>,
    words_limit: Option<usize>,
    japanese_search_enabled: bool,
) -> (r: Result<QueryReader, Lookup>)
    ensures
        outcome(r) == read_query(*ctx, tokens.deep_view(), words_limit, japanese_search_enabled),
{
    let ghost view = considered(tokens.deep_view());
    let ghost all = read_query(*ctx, tokens.deep_view(), words_limit, japanese_search_enabled);
    assert(tokens.deep_view().len() == tokens@.len());
    let count: usize = if tokens.len() <= MAX_TOKEN_COUNT {
        tokens.len()
    } else {
        MAX_TOKEN_COUNT
    };
    let parts_limit: usize = match words_limit {
        Some(limit) => limit,
        None => usize::MAX,
    };
    let mut reader = QueryReader::new();
    assert(reader.deep_view().query_terms.len() == reader.query_terms@.len());
    let mut i: usize = 0;
    while i < count
        invariant
            i <= count <= tokens.len(),
            count == view.len(),
            count <= MAX_TOKEN_COUNT,
            view == considered(tokens.deep_view()),
            parts_limit == (match words_limit {
                Some(limit) => limit,
                None => usize::MAX,
            }),
            reader.query_terms.len() <= i,
            all == read_query(*ctx, tokens.deep_view(), words_limit, japanese_search_enabled),
            all == read_from(
                *ctx,
                reader.deep_view(),
                view,
                i as int,
                words_limit,
                japanese_search_enabled,
            ),
        decreases count - i,
    {
        let token = &tokens[i];
        assert(view[i as int] == token.deep_view());
        i = i + 1;
        if token.lemma().is_empty() {
            continue;
        }
        assert(reader.deep_view().query_terms.len() == reader.query_terms@.len());
        if reader.query_terms.len() >= parts_limit {
            return Ok(reader);
        }
        let ghost before = reader.deep_view();
        match reader.read_token(ctx, token, japanese_search_enabled, i == count) {
            Err(lookup) => {
                return Err(lookup);
            },
            Ok(next) => {
                proof {
                    token_keeps_limit(
                        *ctx,
                        before,
                        token.deep_view(),
                        ReaderOptions { japanese_search_enabled, is_last: i == count },
                        before.query_terms.len() + 1,
                    );
                    assert(next.deep_view().query_terms.len() == next.query_terms@.len());
                }
                reader = next;
            },
        }
    }
    reader.finish(ctx)
}

/// Whether a result is what a query reads as, with a graph that a function may give for its terms.
pub open spec fn extracted<
    G,
    F: FnOnce(&Vec<LocatedQueryTerm>, bool) -> Result<(G, Vec<LocatedQueryTerm>), Lookup>,
>(
    read: Result<QueryReaderView, LookupView>,
    japanese_search_enabled: bool,
    build_graph: F,
    result: Result<ExtractedTokens<G>, Lookup>,
) -> bool {
    match read {
        Err(lookup) => result matches Err(asked) && asked.deep_view() == lookup,
        Ok(reader) => exists|
            terms: &Vec<LocatedQueryTerm>,
            built: Result<(G, Vec<LocatedQueryTerm>), Lookup>,
        |
            {
                &&& #[trigger] call_ensures(build_graph, (terms, japanese_search_enabled), built)
                &&& terms.deep_view() == reader.query_terms
                &&& match built {
                    Err(lookup) => result == Err::<ExtractedTokens<G>, Lookup>(lookup),
                    Ok((graph, query_terms)) => {
                        &&& result matches Ok(tokens)
                        &&& tokens.graph == graph
                        &&& tokens.query_terms == query_terms
                        &&& tokens.negative_words.deep_view() == reader.negative_words
                        &&& tokens.negative_phrases.deep_view() == reader.negative_phrases
                    },
                }
            },
    }
}

/// Turns the tokens of a query into located query terms, and has the graph of the terms built.
///
/// `build_graph` gets the terms, and whether the variants of Japanese words are searched for. It
/// gives the graph and the terms that the graph is made of.
pub fn located_query_terms<
    G,
    F: FnOnce(&Vec<LocatedQueryTerm>, bool) -> Result<(G, Vec<LocatedQueryTerm>), Lookup>,
>(
    ctx: &SearchContext<'_>,
    tokens: &Vec<Token>,
    words_limit: Option<usize>,
    japanese_search_enabled: bool,
    build_graph: F,
) -> (r: Result<ExtractedTokens<G>, Lookup>)
    requires
        forall|terms: &Vec<LocatedQueryTerm>| #[trigger]
            call_requires(build_graph, (terms, japanese_search_enabled)),
    ensures
        extracted(
            read_query(*ctx, tokens.deep_view(), words_limit, japanese_search_enabled),
            japanese_search_enabled,
            build_graph,
            r,
        ),
{
    match read_tokens(ctx, tokens, words_limit, japanese_search_enabled) {
        Err(lookup) => Err(lookup),
        Ok(reader) => {
            let terms = &reader.query_terms;
            assert(terms.deep_view() == reader.deep_view().query_terms);
            match build_graph(terms, japanese_search_enabled) {
                Err(lookup) => Err(lookup),
                Ok((graph, query_terms)) => Ok(
                    ExtractedTokens {
                        query_terms,
                        graph,
                        negative_words: reader.negative_words,
                        negative_phrases: reader.negative_phrases,
                    },
                ),
            }
        },
    }
}

/// Turns the tokens of a query that are still to come into located query terms, and has the graph
/// of the terms built.
///
/// `alternates` holds the alternates of each token, if it has a Japanese reading. `build_graph`
/// gets the terms, and whether the variants of Japanese words are searched for. It gives the graph
/// and the terms that the graph is made of.
pub fn located_query_terms_from_tokens<
    G,
    F: FnOnce(&Vec<LocatedQueryTerm>, bool) -> Result<(G, Vec<LocatedQueryTerm>), Lookup>,
>(
    ctx: &SearchContext<'_>,
    query: NormalizedTokenIter<'_, '_, '_, '_>,
    alternates: &Vec<Option<Vec<String>>>,
    words_limit: Option<usize>,
    japanese_search_enabled: bool,
    build_graph: F,
) -> (r: Result<ExtractedTokens<G>, Lookup>)
    requires
        forall|terms: &Vec<LocatedQueryTerm>| #[trigger]
            call_requires(build_graph, (terms, japanese_search_enabled)),
    ensures
        extracted(
            read_query(
                *ctx,
                with_alternates(pieces_to_come(query), alternates.deep_view()),
                words_limit,
                japanese_search_enabled,
            ),
            japanese_search_enabled,
            build_graph,
            r,
        ),
{
    let tokens = attach_alternates(collect_pieces(query), alternates);
    located_query_terms(ctx, &tokens, words_limit, japanese_search_enabled, build_graph)
}

} // verus!
