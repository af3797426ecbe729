//! The words of a value of a field, and their alternates, at their positions.
use vstd::prelude::*;
use crate::plain::{pushing_deepens, Plain};
use crate::positions::{placed_words, process_tokens, words_before, PlacedView};
use crate::text::{byte_len, fits_in_key, trim, trimmed, MAX_WORD_LENGTH};
use crate::token::Token;

verus! {

/// How a word comes to stand for a position.
#[derive(Debug, Clone, Copy, PartialEq, Eq, Structural)]
pub enum SearchTermKind {
    /// The word stands in the text.
    Original,
    /// The word is an alternate of the one that stands in the text.
    Alternate,
}

impl SearchTermKind {
    /// Whether the word stands in the text.
    pub fn is_original(self) -> (b: bool)
        ensures
            b == (self == SearchTermKind::Original),
    {
        matches!(self, SearchTermKind::Original)
    }
}

/// A word of a field at its position.
#[derive(Debug)]
pub struct FieldTerm {
    pub field_name: String,
    pub field_id: u16,
    pub position: u16,
    pub word: String,
    pub kind: SearchTermKind,
}

/// A word of a field, by its characters, at its position.
pub struct FieldTermView {
    pub field_name: Seq<char>,
    pub field_id: u16,
    pub position: int,
    pub word: Seq<char>,
    pub kind: SearchTermKind,
}

impl DeepView for FieldTerm {
    type V = FieldTermView;

    open spec fn deep_view(&self) -> FieldTermView {
        FieldTermView {
            field_name: self.field_name@,
            field_id: self.field_id,
            position: self.position as int,
            word: self.word@,
            kind: self.kind,
        }
    }
}

/// Whether a word is indexed: it is not empty and fits in a key.
pub open spec fn is_indexable(word: Seq<char>) -> bool {
    word.len() > 0 && fits_in_key(word)
}

fn indexable(word: &str) -> (b: bool)
    ensures
        b == is_indexable(word@),
{
    word.unicode_len() > 0 && byte_len(word) <= MAX_WORD_LENGTH
}

/// The alternates of a word at a position. What is the word itself is no alternate of it.
pub open spec fn alternate_terms(
    field_name: Seq<char>,
    field_id: u16,
    position: int,
    lemma: Seq<char>,
    alternates: Seq<Seq<char>>,
) -> Seq<FieldTermView>
    decreases alternates.len(),
{
    if alternates.len() == 0 {
        Seq::empty()
    } else {
        let before = alternate_terms(
            field_name,
            field_id,
            position,
            lemma,
            alternates.drop_last(),
        );
        let word = trimmed(alternates.last());
        if word != lemma && is_indexable(word) {
            before.push(
                FieldTermView {
                    field_name,
                    field_id,
                    position,
                    word,
                    kind: SearchTermKind::Alternate,
                },
            )
        } else {
            before
        }
    }
}

/// What is indexed for a word: the word and then its alternates, all at one position, if the
/// position fits in 16 bits.
pub open spec fn terms_of_word(field_name: Seq<char>, field_id: u16, word: PlacedView) -> Seq<
    FieldTermView,
> {
    let lemma = trimmed(word.token.lemma);
    if is_indexable(lemma) && word.position <= u16::MAX {
        let original = FieldTermView {
            field_name,
            field_id,
            position: word.position,
            word: lemma,
            kind: SearchTermKind::Original,
        };
        match word.token.alternates {
            Some(alternates) => seq![original] + alternate_terms(
                field_name,
                field_id,
                word.position,
                lemma,
                alternates,
            ),
            None => seq![original],
        }
    } else {
        Seq::empty()
    }
}

/// What is indexed for some words.
pub open spec fn terms_of_words(
    field_name: Seq<char>,
    field_id: u16,
    words: Seq<PlacedView>,
) -> Seq<FieldTermView>
    decreases words.len(),
{
    if words.len() == 0 {
        Seq::empty()
    } else {
        terms_of_words(field_name, field_id, words.drop_last()) + terms_of_word(
            field_name,
            field_id,
            words.last(),
        )
    }
}

/// The position of the last word that is indexable, or else the position at the start.
pub open spec fn last_position(start: int, words: Seq<PlacedView>) -> int
    decreases words.len(),
{
    if words.len() == 0 {
        start
    } else if is_indexable(trimmed(words.last().token.lemma)) {
        words.last().position
    } else {
        last_position(start, words.drop_last())
    }
}

fn term(field_name: &str, field_id: u16, position: u16, word: &String, kind: SearchTermKind) -> (r:
    FieldTerm)
    ensures
        r.deep_view() == (FieldTermView {
            field_name: field_name@,
            field_id,
            position: position as int,
            word: word@,
            kind,
        }),
{
    FieldTerm { field_name: field_name.to_owned(), field_id, position, word: word.clone(), kind }
}

fn add_alternates(
    terms: &mut Vec<FieldTerm>,
    field_name: &str,
    field_id: u16,
    position: u16,
    lemma: &String,
    alternates: &Vec<String>,
)
    ensures
        final(terms).deep_view() == old(terms).deep_view() + alternate_terms(
            field_name@,
            field_id,
            position as int,
            lemma@,
            alternates.deep_view(),
        ),
{
    let ghost start = terms.deep_view();
    let ghost all = alternates.deep_view();
    let mut i: usize = 0;
    while i < alternates.len()
        invariant
            i <= alternates.len(),
            all == alternates.deep_view(),
            terms.deep_view() == start + alternate_terms(
                field_name@,
                field_id,
                position as int,
                lemma@,
                all.take(i as int),
            ),
        decreases alternates.len() - i,
    {
        assert(all.take(i + 1).drop_last() == all.take(i as int));
        assert(all.take(i + 1).last() == alternates[i as int]@);
        let word = trim(alternates[i].as_str());
        if !word.same(lemma) && indexable(word.as_str()) {
            let ghost before = *terms;
            let alternate = term(
                field_name,
                field_id,
                position,
                &word,
                SearchTermKind::Alternate,
            );
            terms.push(alternate);
            proof {
                pushing_deepens(before, *terms, alternate);
            }
        }
        i = i + 1;
    }
    assert(all.take(i as int) == all);
}

/// Adds what is indexed for the tokens of a value that starts at a position, and returns the
/// position of the last word that is indexable.
pub fn add_terms(
    terms: &mut Vec<FieldTerm>,
    field_name: &str,
    field_id: u16,
    start: u32,
    tokens: &Vec<Token>,
    max_positions: u32,
) -> (position: u32)
    ensures
        final(terms).deep_view() == old(terms).deep_view() + terms_of_words(
            field_name@,
            field_id,
            words_before(placed_words(start as int, tokens.deep_view()), max_positions as int),
        ),
        position == last_position(
            start as int,
            words_before(placed_words(start as int, tokens.deep_view()), max_positions as int),
        ),
{
    let ghost before_all = terms.deep_view();
    let words = process_tokens(start, tokens, max_positions);
    let ghost all = words.deep_view();
    let mut position: u32 = start;
    let mut i: usize = 0;
    while i < words.len()
        invariant
            i <= words.len(),
            all == words.deep_view(),
            position == last_position(start as int, all.take(i as int)),
            terms.deep_view() == before_all + terms_of_words(
                field_name@,
                field_id,
                all.take(i as int),
            ),
        decreases words.len() - i,
    {
        assert(all.take(i + 1).drop_last() == all.take(i as int));
        assert(all.take(i + 1).last() == words[i as int].deep_view());
        let word = &words[i];
        let lemma = trim(word.token.lemma());
        if indexable(lemma.as_str()) {
            position = word.position;
            if position <= u16::MAX as u32 {
                let ghost before = *terms;
                let original = term(
                    field_name,
                    field_id,
                    position as u16,
                    &lemma,
                    SearchTermKind::Original,
                );
                terms.push(original);
                proof {
                    pushing_deepens(before, *terms, original);
                }
                if let Some(alternates) = &word.token.alternates {
                    add_alternates(terms, field_name, field_id, position as u16, &lemma, alternates);
                }
            }
        }
        assert(terms.deep_view() == before_all + terms_of_words(
            field_name@,
            field_id,
            all.take(i + 1),
        ));
        i = i + 1;
    }
    assert(all.take(i as int) == all);
    position
}

} // verus!
