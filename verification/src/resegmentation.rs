//! Resegmentation of the Japanese terms of a query.
//!
//! The terms of a query and the words of a document can have different boundaries in Japanese.
//! Terms are bridged here against the words of the index, so that no term that spans several tokens
//! has to be stored. Synonyms are not dealt with here.
use vstd::prelude::*;
use crate::context::{outcome, Lookup, LookupView, SearchContext};
use crate::japanese::{compact_reading, normalize_compact_reading, unique_variants, SearchVariants};
use crate::plain::{push_once, pushed_once, pushing_deepens};
use crate::query_term::{
    Lazy, LocatedQueryTerm, LocatedQueryTermView, OneTypoTerm, OneTypoTermView, Phrase, Positions,
    QueryTerm, QueryTermView, TwoTypoTerm, TwoTypoTermView, ZeroTypoTerm, ZeroTypoTermView,
};
use crate::segmentation::{resegment_indexed_variants, resegmentations};
use crate::text::{byte_len, concatenate, concatenation, fits_in_key, MAX_WORD_LENGTH};

verus! {

/// A variant that a phrase can be made of.
#[derive(Debug, Clone, Copy, PartialEq, Eq, Structural)]
pub enum PhraseVariantKind {
    Normalized,
    Phonetic,
    Romaji,
}

/// The variant of a kind.
pub open spec fn variant_of_kind<T>(
    variants: SearchVariants<T>,
    kind: PhraseVariantKind,
) -> Option<T> {
    match kind {
        PhraseVariantKind::Normalized => variants.normalized,
        PhraseVariantKind::Phonetic => variants.phonetic,
        PhraseVariantKind::Romaji => variants.romaji,
    }
}

/// The variant of a kind.
pub(crate) fn select_variant<'a, T: DeepView>(
    variants: &'a SearchVariants<T>,
    kind: PhraseVariantKind,
) -> (r: &'a Option<T>)
    ensures
        r.deep_view() == variant_of_kind(variants.deep_view(), kind),
{
    match kind {
        PhraseVariantKind::Normalized => &variants.normalized,
        PhraseVariantKind::Phonetic => &variants.phonetic,
        PhraseVariantKind::Romaji => &variants.romaji,
    }
}

/// Whether each item of a sequence has a variant of a kind.
pub open spec fn all_have(
    variants: Seq<SearchVariants<Seq<char>>>,
    kind: PhraseVariantKind,
) -> bool {
    forall|i: int| 0 <= i < variants.len() ==> variant_of_kind(#[trigger] variants[i], kind) is Some
}

/// The variants of a kind of all items, one after the other; none where an item has none.
pub open spec fn joined(
    variants: Seq<SearchVariants<Seq<char>>>,
    kind: PhraseVariantKind,
) -> Option<Seq<char>> {
    if all_have(variants, kind) {
        Some(
            concatenation(
                Seq::new(variants.len(), |i: int| variant_of_kind(variants[i], kind)->Some_0),
            ),
        )
    } else {
        None
    }
}

/// A joined variant of a kind, with the long marks of a reading expanded.
pub open spec fn compact_of_kind(
    variants: Seq<SearchVariants<Seq<char>>>,
    kind: PhraseVariantKind,
) -> Option<Seq<char>> {
    match joined(variants, kind) {
        Some(text) => Some(
            match kind {
                PhraseVariantKind::Romaji => text,
                _ => compact_reading(text),
            },
        ),
        None => None,
    }
}

/// The Japanese variants of each term.
pub open spec fn variants_of_terms(terms: Seq<LocatedQueryTermView>) -> Seq<
    SearchVariants<Seq<char>>,
> {
    Seq::new(terms.len(), |i: int| terms[i].japanese_variants)
}

/// The variants of consecutive terms taken as one: those that each of the terms has.
pub open spec fn concatenated_variants(terms: Seq<LocatedQueryTermView>) -> SearchVariants<
    Seq<char>,
> {
    let variants = variants_of_terms(terms);
    SearchVariants {
        normalized: compact_of_kind(variants, PhraseVariantKind::Normalized),
        phonetic: compact_of_kind(variants, PhraseVariantKind::Phonetic),
        romaji: compact_of_kind(variants, PhraseVariantKind::Romaji),
    }
}

/// What adding an item does to joined variants.
pub proof fn joined_grows(
    variants: Seq<SearchVariants<Seq<char>>>,
    item: SearchVariants<Seq<char>>,
    kind: PhraseVariantKind,
)
    ensures
        joined(variants.push(item), kind) == (match (
            joined(variants, kind),
            variant_of_kind(item, kind),
        ) {
            (Some(text), Some(part)) => Some(text + part),
            _ => None,
        }),
{
    let after = variants.push(item);
    assert(after[variants.len() as int] == item);
    if all_have(variants, kind) && variant_of_kind(item, kind) is Some {
        assert forall|i: int| 0 <= i < after.len() implies variant_of_kind(
            #[trigger] after[i],
            kind,
        ) is Some by {
            if i < variants.len() {
                assert(after[i] == variants[i]);
            }
        }
        let parts = Seq::new(after.len(), |i: int| variant_of_kind(after[i], kind)->Some_0);
        assert(parts.drop_last() == Seq::new(
            variants.len(),
            |i: int| variant_of_kind(variants[i], kind)->Some_0,
        ));
    } else if !all_have(variants, kind) {
        let i = choose|i: int|
            0 <= i < variants.len() && !(variant_of_kind(#[trigger] variants[i], kind) is Some);
        assert(after[i] == variants[i]);
    }
}

/// Appends a variant to joined variants, which are given up where there is none.
pub(crate) fn join_part(text: &mut Option<String>, part: &Option<String>)
    ensures
        final(text).deep_view() == (match (old(text).deep_view(), part.deep_view()) {
            (Some(text), Some(part)) => Some(text + part),
            _ => None,
        }),
{
    let taken = text.take();
    *text = match (taken, part) {
        (Some(value), Some(part)) => {
            let mut value = value;
            value.append(part.as_str());
            Some(value)
        },
        _ => None,
    };
}

/// The reading with its long marks expanded, if there is one.
pub(crate) fn expand(text: Option<String>) -> (r: Option<String>)
    ensures
        r.deep_view() == (match text.deep_view() {
            Some(text) => Some(compact_reading(text)),
            None => None,
        }),
{
    match text {
        Some(text) => Some(normalize_compact_reading(text.as_str())),
        None => None,
    }
}

/// The variants of consecutive terms taken as one.
pub fn concatenate_variants(terms: &[LocatedQueryTerm]) -> (variants: SearchVariants<String>)
    ensures
        variants.deep_view() == concatenated_variants(terms.deep_view()),
{
    let mut normalized: Option<String> = Some(String::new());
    let mut phonetic: Option<String> = Some(String::new());
    let mut romaji: Option<String> = Some(String::new());
    let ghost all = variants_of_terms(terms.deep_view());
    let mut i: usize = 0;
    assert(all.take(0) == Seq::<SearchVariants<Seq<char>>>::empty());
    while i < terms.len()
        invariant
            i <= terms.len(),
            all == variants_of_terms(terms.deep_view()),
            normalized.deep_view() == joined(all.take(i as int), PhraseVariantKind::Normalized),
            phonetic.deep_view() == joined(all.take(i as int), PhraseVariantKind::Phonetic),
            romaji.deep_view() == joined(all.take(i as int), PhraseVariantKind::Romaji),
        decreases terms.len() - i,
    {
        let variants = &terms[i].japanese_variants;
        proof {
            assert(variants.deep_view() == all[i as int]);
            assert(all.take(i + 1) == all.take(i as int).push(all[i as int]));
            joined_grows(all.take(i as int), all[i as int], PhraseVariantKind::Normalized);
            joined_grows(all.take(i as int), all[i as int], PhraseVariantKind::Phonetic);
            joined_grows(all.take(i as int), all[i as int], PhraseVariantKind::Romaji);
        }
        join_part(&mut normalized, &variants.normalized);
        join_part(&mut phonetic, &variants.phonetic);
        join_part(&mut romaji, &variants.romaji);
        i = i + 1;
    }
    assert(all.take(i as int) == all);
    SearchVariants { normalized: expand(normalized), phonetic: expand(phonetic), romaji }
}

/// Whether a term is, or has as a variant, a word.
pub open spec fn term_is_word(term: LocatedQueryTermView, word: Seq<char>) -> bool {
    ||| term.value.single_word() == Some(word)
    ||| unique_variants(term.japanese_variants).contains(word)
}

/// Whether a segmentation has one word for each term, which the term is or has as a variant.
pub open spec fn is_termwise(terms: Seq<LocatedQueryTermView>, segments: Seq<Seq<char>>) -> bool {
    &&& terms.len() == segments.len()
    &&& forall|i: int| 0 <= i < terms.len() ==> term_is_word(#[trigger] terms[i], segments[i])
}

fn term_matches(term: &LocatedQueryTerm, segment: &String) -> (b: bool)
    ensures
        b == term_is_word(term.deep_view(), segment@),
{
    if let Some(word) = term.value.original_single_word() {
        if *word == *segment {
            return true;
        }
    }
    let variants = term.japanese_variants.iter_unique();
    let mut i: usize = 0;
    while i < variants.len()
        invariant
            i <= variants.len(),
            variants.deep_view() == unique_variants(term.deep_view().japanese_variants),
            forall|j: int| 0 <= j < i ==> variants.deep_view()[j] != segment@,
        decreases variants.len() - i,
    {
        if *variants[i] == *segment {
            assert(variants.deep_view()[i as int] == segment@);
            return true;
        }
        i = i + 1;
    }
    false
}

/// Whether a segmentation has one word for each term, which the term is or has as a variant.
pub fn segmentation_is_already_termwise(terms: &[LocatedQueryTerm], segments: &[String]) -> (b:
    bool)
    ensures
        b == is_termwise(terms.deep_view(), segments.deep_view()),
{
    if terms.len() != segments.len() {
        return false;
    }
    let mut i: usize = 0;
    while i < terms.len()
        invariant
            i <= terms.len() == segments.len(),
            forall|j: int|
                0 <= j < i ==> term_is_word(
                    #[trigger] terms.deep_view()[j],
                    segments.deep_view()[j],
                ),
        decreases terms.len() - i,
    {
        if !term_matches(&terms[i], &segments[i]) {
            assert(!term_is_word(terms.deep_view()[i as int], segments.deep_view()[i as int]));
            return false;
        }
        i = i + 1;
    }
    true
}

/// Whether the index holds a term, or a variant of it, as it is.
pub fn term_has_indexed_representation(term: &LocatedQueryTerm) -> (b: bool)
    ensures
        b == term.deep_view().value.is_indexed(),
{
    let zero_typo = &term.value.zero_typo;
    assert(zero_typo.alternates.deep_view().len() == zero_typo.alternates@.len());
    zero_typo.exact.is_some() || zero_typo.alternates.len() > 0
}

/// Whether each term is a single word.
pub open spec fn are_single_words(terms: Seq<LocatedQueryTermView>) -> bool {
    forall|i: int| 0 <= i < terms.len() ==> (#[trigger] terms[i]).value.single_word() is Some
}

/// The words of terms that are single words.
pub open spec fn words_of_terms(terms: Seq<LocatedQueryTermView>) -> Seq<Seq<char>> {
    Seq::new(terms.len(), |i: int| terms[i].value.original)
}

/// The phrase of some words.
pub open spec fn phrase_of(words: Seq<Seq<char>>) -> Seq<Option<Seq<char>>> {
    Seq::new(words.len(), |i: int| Some(words[i]))
}

/// The words of the terms, if each is a single word.
pub fn single_words(terms: &[LocatedQueryTerm]) -> (words: Option<Vec<String>>)
    ensures
        words.deep_view() == (if are_single_words(terms.deep_view()) {
            Some(words_of_terms(terms.deep_view()))
        } else {
            None
        }),
{
    let mut words: Vec<String> = Vec::new();
    let ghost all = terms.deep_view();
    let mut i: usize = 0;
    while i < terms.len()
        invariant
            i <= terms.len(),
            all == terms.deep_view(),
            words.deep_view() == words_of_terms(all).take(i as int),
            forall|j: int| 0 <= j < i ==> (#[trigger] all[j]).value.single_word() is Some,
        decreases terms.len() - i,
    {
        assert(all[i as int] == terms[i as int].deep_view());
        match terms[i].value.original_single_word() {
            Some(word) => {
                let ghost before = words;
                let word = word.clone();
                words.push(word);
                proof {
                    pushing_deepens(before, words, word);
                }
                assert(words.deep_view() == words_of_terms(all).take(i + 1));
            },
            None => {
                return None;
            },
        }
        i = i + 1;
    }
    assert(words_of_terms(all).take(i as int) == words_of_terms(all));
    Some(words)
}

/// The phrase of the words.
pub fn phrase_from_words(words: &Vec<String>) -> (phrase: Phrase)
    ensures
        phrase.deep_view() == phrase_of(words.deep_view()),
{
    let mut r: Vec<Option<String>> = Vec::new();
    let mut i: usize = 0;
    while i < words.len()
        invariant
            i <= words.len(),
            r.deep_view() == phrase_of(words.deep_view()).take(i as int),
        decreases words.len() - i,
    {
        let ghost before = r;
        let word = Some(words[i].clone());
        r.push(word);
        proof {
            pushing_deepens(before, r, word);
        }
        assert(r.deep_view() == phrase_of(words.deep_view()).take(i + 1));
        i = i + 1;
    }
    assert(phrase_of(words.deep_view()).take(i as int) == phrase_of(words.deep_view()));
    Phrase { words: r }
}

/// Whether some document holds the terms as a phrase; never where a term is no single word.
pub open spec fn phrase_match(ctx: SearchContext<'_>, terms: Seq<LocatedQueryTermView>) -> Result<
    bool,
    LookupView,
> {
    if are_single_words(terms) {
        ctx.phrase_outcome(phrase_of(words_of_terms(terms)))
    } else {
        Ok(false)
    }
}

/// Whether some document holds the terms as a phrase.
pub fn original_terms_have_phrase_match(ctx: &SearchContext<'_>, terms: &[LocatedQueryTerm]) -> (r:
    Result<bool, Lookup>)
    ensures
        outcome(r) == phrase_match(*ctx, terms.deep_view()),
{
    match single_words(terms) {
        Some(words) => ctx.has_phrase_docids(&phrase_from_words(&words)),
        None => Ok(false),
    }
}

/// Whether the second of two terms follows the first without a gap.
pub open spec fn follows(left: LocatedQueryTermView, right: LocatedQueryTermView) -> bool {
    left.positions.end + 1 == right.positions.start
}

/// Whether each term follows the one before it without a gap.
pub open spec fn are_adjacent(terms: Seq<LocatedQueryTermView>) -> bool {
    forall|i: int, j: int|
        #![trigger terms[i], terms[j]]
        0 <= i && j == i + 1 && j < terms.len() ==> follows(terms[i], terms[j])
}

/// Whether some term is a phrase.
pub open spec fn has_phrase(terms: Seq<LocatedQueryTermView>) -> bool {
    exists|i: int| 0 <= i < terms.len() && (#[trigger] terms[i]).value.zero_typo.phrase is Some
}

/// Whether adjacency can be told: the first term that does not follow the one before it, if no
/// term is a phrase, is not at the first position.
pub open spec fn adjacency_is_defined(terms: Seq<LocatedQueryTermView>) -> bool {
    ||| has_phrase(terms)
    ||| forall|i: int|
        0 < i < terms.len() && are_adjacent(terms.take(i)) ==> (#[trigger] terms[i]).positions.start
            > 0
}

/// Whether the terms can be taken as one word: none is a phrase, and each follows the one before it.
pub open spec fn can_be_merged(terms: Seq<LocatedQueryTermView>) -> bool {
    !has_phrase(terms) && are_adjacent(terms)
}

/// Whether the terms can be taken as one word.
pub fn terms_can_be_merged(terms: &[LocatedQueryTerm]) -> (b: bool)
    requires
        adjacency_is_defined(terms.deep_view()),
    ensures
        b == can_be_merged(terms.deep_view()),
{
    let ghost all = terms.deep_view();
    let mut i: usize = 0;
    while i < terms.len()
        invariant
            i <= terms.len(),
            all == terms.deep_view(),
            forall|j: int| 0 <= j < i ==> (#[trigger] all[j]).value.zero_typo.phrase is None,
        decreases terms.len() - i,
    {
        assert(all[i as int] == terms[i as int].deep_view());
        if terms[i].value.zero_typo.phrase.is_some() {
            return false;
        }
        i = i + 1;
    }
    let mut k: usize = 1;
    while k < terms.len()
        invariant
            1 <= k,
            all == terms.deep_view(),
            !has_phrase(all),
            adjacency_is_defined(all),
            forall|i: int, j: int|
                #![trigger all[i], all[j]]
                0 <= i && j == i + 1 && j < k && j < all.len() ==> follows(all[i], all[j]),
        decreases terms.len() - k,
    {
        assert(all[k as int] == terms[k as int].deep_view());
        assert(all[k - 1] == terms[k - 1].deep_view());
        assert(are_adjacent(all.take(k as int))) by {
            let before = all.take(k as int);
            assert forall|i: int, j: int|
                #![trigger before[i], before[j]]
                0 <= i && j == i + 1 && j < before.len() implies follows(before[i], before[j]) by {
                assert(follows(all[i], all[j]));
            }
        }
        if terms[k - 1].positions.end != terms[k].positions.start - 1 {
            assert(!follows(all[k - 1], all[k as int]));
            return false;
        }
        k = k + 1;
    }
    true
}

/// What stands in the index for terms taken as one word.
pub enum Replacement {
    Word(Seq<char>),
    Phrase(Seq<Option<Seq<char>>>),
}

/// The first segmentation that gives something else than the terms themselves: one word, or a
/// phrase that some document holds.
pub open spec fn first_replacement(
    ctx: SearchContext<'_>,
    terms: Seq<LocatedQueryTermView>,
    paths: Seq<Seq<Seq<char>>>,
) -> Result<Option<Replacement>, LookupView>
    decreases paths.len(),
{
    if paths.len() == 0 {
        Ok(None)
    } else if is_termwise(terms, paths[0]) {
        first_replacement(ctx, terms, paths.drop_first())
    } else if paths[0].len() == 1 {
        Ok(Some(Replacement::Word(paths[0][0])))
    } else {
        match ctx.phrase_outcome(phrase_of(paths[0])) {
            Ok(true) => Ok(Some(Replacement::Phrase(phrase_of(paths[0])))),
            Ok(false) => first_replacement(ctx, terms, paths.drop_first()),
            Err(lookup) => Err(lookup),
        }
    }
}

/// What stands for a joined variant of the terms. Nothing stands for an empty one, nor for one that
/// is too long for the index.
pub open spec fn replacement(
    ctx: SearchContext<'_>,
    terms: Seq<LocatedQueryTermView>,
    compact: Seq<char>,
) -> Result<Option<Replacement>, LookupView> {
    if compact.len() == 0 || !fits_in_key(compact) {
        Ok(None)
    } else {
        first_replacement(ctx, terms, resegmentations(ctx.dictionary(), compact))
    }
}

/// The different words and phrases that stand for terms taken as one word.
pub struct Replacements {
    pub words: Seq<Seq<char>>,
    pub phrases: Seq<Seq<Option<Seq<char>>>>,
}

/// What stands for the joined variants of the terms.
pub open spec fn replacements(
    ctx: SearchContext<'_>,
    terms: Seq<LocatedQueryTermView>,
    compacts: Seq<Seq<char>>,
) -> Result<Replacements, LookupView>
    decreases compacts.len(),
{
    if compacts.len() == 0 {
        Ok(Replacements { words: Seq::empty(), phrases: Seq::empty() })
    } else {
        match replacements(ctx, terms, compacts.drop_last()) {
            Err(lookup) => Err(lookup),
            Ok(before) => match replacement(ctx, terms, compacts.last()) {
                Err(lookup) => Err(lookup),
                Ok(None) => Ok(before),
                Ok(Some(Replacement::Word(word))) => Ok(
                    Replacements {
                        words: pushed_once(before.words, word),
                        phrases: before.phrases,
                    },
                ),
                Ok(Some(Replacement::Phrase(phrase))) => Ok(
                    Replacements {
                        words: before.words,
                        phrases: pushed_once(before.phrases, phrase),
                    },
                ),
            },
        }
    }
}

/// The term that replaces terms taken as one word.
pub open spec fn merged_term(
    terms: Seq<LocatedQueryTermView>,
    found: Replacements,
) -> LocatedQueryTermView {
    LocatedQueryTermView {
        value: QueryTermView {
            original: concatenation(words_of_terms(terms)),
            ngram_words: Some(words_of_terms(terms)),
            max_levenshtein_distance: 0,
            is_prefix: false,
            ranking_span_len: 1,
            zero_typo: ZeroTypoTermView {
                alternates: found.words,
                alternate_phrases: found.phrases,
                ..ZeroTypoTermView::nothing()
            },
            one_typo: Lazy::Init(OneTypoTermView { split_words: None, one_typo: Seq::empty() }),
            two_typo: Lazy::Init(TwoTypoTermView { two_typos: Seq::empty() }),
        },
        positions: Positions {
            start: terms[0].positions.start,
            end: terms.last().positions.end,
        },
        japanese_variants: concatenated_variants(terms),
    }
}

/// The term that stands for consecutive terms, made of what the index holds for their joined
/// variants; none where the index holds nothing else than the terms themselves.
pub open spec fn resegmented(ctx: SearchContext<'_>, terms: Seq<LocatedQueryTermView>) -> Result<
    Option<LocatedQueryTermView>,
    LookupView,
> {
    if terms.len() == 0 || !can_be_merged(terms) || !are_single_words(terms) {
        Ok(None)
    } else {
        match replacements(ctx, terms, unique_variants(concatenated_variants(terms))) {
            Err(lookup) => Err(lookup),
            Ok(found) => if found.words.len() == 0 && found.phrases.len() == 0 {
                Ok(None)
            } else {
                Ok(Some(merged_term(terms, found)))
            },
        }
    }
}

/// Adds what stands for a joined variant of the terms.
fn add_replacement(
    ctx: &SearchContext<'_>,
    terms: &[LocatedQueryTerm],
    compact: &String,
    alternates: &mut Vec<String>,
    alternate_phrases: &mut Vec<Phrase>,
) -> (r: Result<(), Lookup>)
    ensures
        match replacement(*ctx, terms.deep_view(), compact@) {
            Err(lookup) => {
                &&& r matches Err(l)
                &&& l.deep_view() == lookup
                &&& final(alternates).deep_view() == old(alternates).deep_view()
                &&& final(alternate_phrases).deep_view() == old(alternate_phrases).deep_view()
            },
            Ok(found) => {
                &&& r is Ok
                &&& final(alternates).deep_view() == (match found {
                    Some(Replacement::Word(word)) => pushed_once(
                        old(alternates).deep_view(),
                        word,
                    ),
                    _ => old(alternates).deep_view(),
                })
                &&& final(alternate_phrases).deep_view() == (match found {
                    Some(Replacement::Phrase(phrase)) => pushed_once(
                        old(alternate_phrases).deep_view(),
                        phrase,
                    ),
                    _ => old(alternate_phrases).deep_view(),
                })
            },
        },
{
    if compact.as_str().is_empty() || byte_len(compact.as_str()) > MAX_WORD_LENGTH {
        return Ok(());
    }
    let paths = resegment_indexed_variants(ctx, compact.as_str());
    let ghost all = paths.deep_view();
    let ghost view = terms.deep_view();
    let mut i: usize = 0;
    assert(all.skip(0) == all);
    while i < paths.len()
        invariant
            i <= paths.len(),
            all == paths.deep_view(),
            view == terms.deep_view(),
            replacement(*ctx, view, compact@) == first_replacement(
                *ctx,
                view,
                all.skip(i as int),
            ),
            *alternates == *old(alternates),
            *alternate_phrases == *old(alternate_phrases),
        decreases paths.len() - i,
    {
        let segments = &paths[i];
        let words = segments.as_slice();
        assert(words.deep_view() == segments.deep_view());
        assert(all.skip(i as int)[0] == segments.deep_view());
        assert(all.skip(i as int).drop_first() == all.skip(i + 1));
        i = i + 1;
        if segmentation_is_already_termwise(terms, words) {
            continue;
        }
        if segments.len() == 1 {
            push_once(alternates, segments[0].clone());
            return Ok(());
        }
        let phrase = phrase_from_words(segments);
        match ctx.has_phrase_docids(&phrase) {
            Err(lookup) => {
                return Err(lookup);
            },
            Ok(found) => {
                if found {
                    push_once(alternate_phrases, phrase);
                    return Ok(());
                }
            },
        }
    }
    Ok(())
}

/// The term that stands for the consecutive terms, if the index holds something else for them than
/// the terms themselves.
pub fn make_resegmentation(ctx: &SearchContext<'_>, terms: &[LocatedQueryTerm]) -> (r: Result<
    Option<LocatedQueryTerm>,
    Lookup,
>)
    requires
        adjacency_is_defined(terms.deep_view()),
    ensures
        outcome(r) == resegmented(*ctx, terms.deep_view()),
{
    let ghost view = terms.deep_view();
    if terms.len() == 0 || !terms_can_be_merged(terms) {
        return Ok(None);
    }
    let original_words = match single_words(terms) {
        Some(words) => words,
        None => {
            return Ok(None);
        },
    };
    let japanese_variants = concatenate_variants(terms);
    let compacts = japanese_variants.iter_unique();
    let ghost all = compacts.deep_view();
    let mut alternates: Vec<String> = Vec::new();
    let mut alternate_phrases: Vec<Phrase> = Vec::new();
    let mut i: usize = 0;
    assert(all.take(0) == Seq::<Seq<char>>::empty());
    assert(alternates.deep_view() == Seq::<Seq<char>>::empty());
    assert(alternate_phrases.deep_view() == Seq::<Seq<Option<Seq<char>>>>::empty());
    while i < compacts.len()
        invariant
            i <= compacts.len(),
            view == terms.deep_view(),
            view.len() > 0,
            can_be_merged(view),
            are_single_words(view),
            all == compacts.deep_view(),
            all == unique_variants(concatenated_variants(view)),
            replacements(*ctx, view, all.take(i as int)) == Ok::<Replacements, LookupView>(
                Replacements {
                    words: alternates.deep_view(),
                    phrases: alternate_phrases.deep_view(),
                },
            ),
        decreases compacts.len() - i,
    {
        assert(all.take(i + 1).drop_last() == all.take(i as int));
        assert(all.take(i + 1).last() == compacts[i as int]@);
        match add_replacement(ctx, terms, compacts[i], &mut alternates, &mut alternate_phrases) {
            Err(lookup) => {
                proof {
                    failed_replacement_fails_all(*ctx, view, all, i + 1);
                }
                return Err(lookup);
            },
            Ok(()) => {},
        }
        i = i + 1;
    }
    assert(all.take(i as int) == all);
    assert(alternates.deep_view().len() == alternates@.len());
    assert(alternate_phrases.deep_view().len() == alternate_phrases@.len());
    if alternates.len() == 0 && alternate_phrases.len() == 0 {
        return Ok(None);
    }
    let start = terms[0].positions.start;
    let end = terms[terms.len() - 1].positions.end;
    let zero_typo = ZeroTypoTerm { alternates, alternate_phrases, ..ZeroTypoTerm::default() };
    let words = original_words.as_slice();
    assert(words.deep_view() == original_words.deep_view());
    let original = concatenate(words);
    let value = QueryTerm {
        original,
        ngram_words: Some(original_words),
        max_levenshtein_distance: 0,
        is_prefix: false,
        ranking_span_len: 1,
        zero_typo,
        one_typo: Lazy::Init(OneTypoTerm::default()),
        two_typo: Lazy::Init(TwoTypoTerm::default()),
    };
    Ok(Some(LocatedQueryTerm { value, positions: Positions { start, end }, japanese_variants }))
}

/// A question that one joined variant raises is raised by all that follow, too.
proof fn failed_replacement_fails_all(
    ctx: SearchContext<'_>,
    terms: Seq<LocatedQueryTermView>,
    compacts: Seq<Seq<char>>,
    n: int,
)
    requires
        0 <= n <= compacts.len(),
        replacements(ctx, terms, compacts.take(n)) is Err,
    ensures
        replacements(ctx, terms, compacts) == replacements(ctx, terms, compacts.take(n)),
    decreases compacts.len() - n,
{
    if n == compacts.len() {
        assert(compacts.take(n) == compacts);
    } else {
        assert(compacts.take(n + 1).drop_last() == compacts.take(n));
        failed_replacement_fails_all(ctx, terms, compacts, n + 1);
    }
}

} // verus!
