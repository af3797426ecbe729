//! The tokenizer of texts, and how it is set up.
use vstd::prelude::*;
use charabia::normalizer::NormalizedTokenIter;
use charabia::{Language, Tokenizer, TokenizerBuilder};
use crate::plain::{pushing_deepens, Plain};
use crate::token::{SeparatorKind, Token, TokenKind, TokenView};
use crate::words::words_of;

verus! {

/// `charabia::Tokenizer`, which splits a text into normalized and classified pieces.
#[verifier::external_type_specification]
#[verifier::external_body]
pub struct ExTokenizer<'tb>(Tokenizer<'tb>);

/// `charabia::TokenizerBuilder`, the settings that a tokenizer is made from.
#[verifier::external_type_specification]
#[verifier::external_body]
#[verifier::reject_recursive_types(A)]
pub struct ExTokenizerBuilder<'tb, A>(TokenizerBuilder<'tb, A>);

/// `charabia::Language`, a language that a text can be written in.
#[verifier::external_type_specification]
#[verifier::external_body]
pub struct ExLanguage(Language);

/// The code of a language.
pub uninterp spec fn code_of(language: Language) -> Seq<char>;

/// `charabia::Language::code` gives the code of a language, which depends on the language alone.
#[verifier::external_body]
pub(crate) fn language_code(language: &Language) -> (code: &'static str)
    ensures
        code@ == code_of(*language),
{
    language.code()
}

/// `charabia::normalizer::NormalizedTokenIter`, the pieces of a text that are still to come.
#[verifier::external_type_specification]
#[verifier::external_body]
pub struct ExNormalizedTokenIter<'o, 'aho, 'lang, 'tb>(NormalizedTokenIter<'o, 'aho, 'lang, 'tb>);

/// The pieces that are still to come: their normalized text and what they are.
pub uninterp spec fn pieces_to_come(tokens: NormalizedTokenIter) -> Seq<(Seq<char>, TokenKind)>;

/// `charabia::normalizer::NormalizedTokenIter::next`, called until it gives nothing more, gives the
/// pieces that are still to come, one after the other.
#[verifier::external_body]
pub(crate) fn collect_pieces(tokens: NormalizedTokenIter) -> (pieces: Vec<(String, TokenKind)>)
    ensures
        pieces.deep_view() == pieces_to_come(tokens),
{
    tokens.map(|token| {
        let kind = match token.kind {
            charabia::TokenKind::Word => TokenKind::Word,
            charabia::TokenKind::StopWord => TokenKind::StopWord,
            charabia::TokenKind::Separator(charabia::SeparatorKind::Hard) => TokenKind::Separator(SeparatorKind::Hard),
            charabia::TokenKind::Separator(charabia::SeparatorKind::Soft) => TokenKind::Separator(SeparatorKind::Soft),
            charabia::TokenKind::Unknown => TokenKind::Unknown,
        };
        (token.lemma().to_string(), kind)
    }).collect()
}

/// The pieces of a text: their normalized text and what they are.
pub uninterp spec fn pieces_of(tokenizer: Tokenizer, text: Seq<char>) -> Seq<(Seq<char>, TokenKind)>;

/// `charabia::Tokenizer::tokenize` splits a text into normalized pieces, each with its kind. They
/// depend on the settings of the tokenizer and on the text alone.
#[verifier::external_body]
pub(crate) fn tokenize<'t, 'o>(tokenizer: &'t Tokenizer<'_>, text: &'o str) -> (tokens:
    NormalizedTokenIter<'o, 't, 't, 't>)
    ensures
        pieces_to_come(tokens) == pieces_of(*tokenizer, text@),
{
    tokenizer.tokenize(text)
}

/// The pieces of a text that may be written in some languages only.
pub uninterp spec fn pieces_with_allow_list(
    tokenizer: Tokenizer,
    text: Seq<char>,
    allow_list: Option<Seq<Language>>,
) -> Seq<(Seq<char>, TokenKind)>;

/// `charabia::Tokenizer::tokenize_with_allow_list` splits a text into normalized pieces, each with
/// its kind, and takes the text to be written in one of the given languages. The pieces depend on
/// the settings of the tokenizer, on the text and on the languages alone.
#[verifier::external_body]
pub(crate) fn tokenize_with_allow_list<'t, 'o, 'lang>(
    tokenizer: &'t Tokenizer<'_>,
    text: &'o str,
    allow_list: Option<&'lang Vec<Language>>,
) -> (tokens: NormalizedTokenIter<'o, 't, 'lang, 't>)
    ensures
        pieces_to_come(tokens) == pieces_with_allow_list(
            *tokenizer,
            text@,
            match allow_list {
                Some(languages) => Some(languages@),
                None => None,
            },
        ),
{
    tokenizer.tokenize_with_allow_list(text, allow_list.map(|languages| languages.as_slice()))
}

/// The pieces of a text as tokens, each with its alternates if they are given.
pub open spec fn with_alternates(
    pieces: Seq<(Seq<char>, TokenKind)>,
    alternates: Seq<Option<Seq<Seq<char>>>>,
) -> Seq<TokenView> {
    Seq::new(
        pieces.len(),
        |i: int|
            TokenView {
                lemma: pieces[i].0,
                kind: pieces[i].1,
                alternates: if i < alternates.len() {
                    alternates[i]
                } else {
                    None
                },
            },
    )
}

/// The pieces of a text as tokens, each with its alternates if they are given.
pub fn attach_alternates(
    pieces: Vec<(String, TokenKind)>,
    alternates: &Vec<Option<Vec<String>>>,
) -> (tokens: Vec<Token>)
    ensures
        tokens.deep_view() == with_alternates(pieces.deep_view(), alternates.deep_view()),
{
    let ghost goal = with_alternates(pieces.deep_view(), alternates.deep_view());
    let mut tokens: Vec<Token> = Vec::new();
    let mut i: usize = 0;
    while i < pieces.len()
        invariant
            i <= pieces.len(),
            goal == with_alternates(pieces.deep_view(), alternates.deep_view()),
            tokens.deep_view() == goal.take(i as int),
        decreases pieces.len() - i,
    {
        let ghost before = tokens;
        let token = Token {
            lemma: pieces[i].0.clone(),
            kind: pieces[i].1,
            alternates: if i < alternates.len() {
                alternates[i].duplicate()
            } else {
                None
            },
        };
        assert(pieces.deep_view()[i as int] == (pieces[i as int].0@, pieces[i as int].1));
        assert(token.deep_view() == goal[i as int]);
        tokens.push(token);
        proof {
            pushing_deepens(before, tokens, token);
            assert(goal.take(i + 1) == goal.take(i as int).push(goal[i as int]));
        }
        i = i + 1;
    }
    assert(goal.take(i as int) == goal);
    tokens
}

/// The words that a builder classifies as stop words, where they are set.
pub uninterp spec fn stop_words_of(builder: TokenizerBuilder<&[u8]>) -> Option<Set<Seq<u8>>>;

/// The words that a builder splits off before anything else, where they are set.
pub uninterp spec fn dictionary_of(builder: TokenizerBuilder<&[u8]>) -> Option<Seq<Seq<char>>>;

/// The words that a builder classifies as separators, where they are set.
pub uninterp spec fn separators_of(builder: TokenizerBuilder<&[u8]>) -> Option<Seq<Seq<char>>>;

/// `charabia::TokenizerBuilder::new` makes a builder in which neither stop words nor a dictionary
/// nor separators are set.
#[verifier::external_body]
pub(crate) fn new_builder<'a>() -> (builder: TokenizerBuilder<'a, &'a [u8]>)
    ensures
        stop_words_of(builder) is None,
        dictionary_of(builder) is None,
        separators_of(builder) is None,
{
    TokenizerBuilder::new()
}

/// `charabia::TokenizerBuilder::stop_words` sets the stop words and leaves the dictionary and the
/// separators.
#[verifier::external_body]
pub(crate) fn set_stop_words<'a>(
    builder: &mut TokenizerBuilder<'a, &'a [u8]>,
    stop_words: &'a fst::Set<&'a [u8]>,
)
    ensures
        stop_words_of(*final(builder)) == Some(words_of(*stop_words)),
        dictionary_of(*final(builder)) == dictionary_of(*old(builder)),
        separators_of(*final(builder)) == separators_of(*old(builder)),
{
    builder.stop_words(stop_words);
}

/// `charabia::TokenizerBuilder::words_dict` sets the dictionary and leaves the stop words and the
/// separators.
#[verifier::external_body]
pub(crate) fn set_dictionary<'a>(
    builder: &mut TokenizerBuilder<'a, &'a [u8]>,
    dictionary: &'a [&'a str],
)
    ensures
        stop_words_of(*final(builder)) == stop_words_of(*old(builder)),
        dictionary_of(*final(builder)) == Some(dictionary.deep_view()),
        separators_of(*final(builder)) == separators_of(*old(builder)),
{
    builder.words_dict(dictionary);
}

/// `charabia::TokenizerBuilder::separators` sets the separators and leaves the stop words and the
/// dictionary.
#[verifier::external_body]
pub(crate) fn set_separators<'a>(
    builder: &mut TokenizerBuilder<'a, &'a [u8]>,
    separators: &'a [&'a str],
)
    ensures
        stop_words_of(*final(builder)) == stop_words_of(*old(builder)),
        dictionary_of(*final(builder)) == dictionary_of(*old(builder)),
        separators_of(*final(builder)) == Some(separators.deep_view()),
{
    builder.separators(separators);
}

/// A builder with the given stop words, separators and dictionary. What is not given is not set.
pub fn tokenizer_builder<'a>(
    stop_words: Option<&'a fst::Set<&'a [u8]>>,
    allowed_separators: Option<&'a [&'a str]>,
    dictionary: Option<&'a [&'a str]>,
) -> (builder: TokenizerBuilder<'a, &'a [u8]>)
    ensures
        stop_words_of(builder) == (match stop_words {
            Some(set) => Some(words_of(*set)),
            None => None,
        }),
        separators_of(builder) == allowed_separators.deep_view(),
        dictionary_of(builder) == dictionary.deep_view(),
{
    let mut builder = new_builder();
    if let Some(stop_words) = stop_words {
        set_stop_words(&mut builder, stop_words);
    }
    if let Some(dictionary) = dictionary {
        set_dictionary(&mut builder, dictionary);
    }
    if let Some(separators) = allowed_separators {
        set_separators(&mut builder, separators);
    }
    builder
}

} // verus!
