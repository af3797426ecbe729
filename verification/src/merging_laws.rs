//! Which terms are taken as one word, and what stands for them.
use vstd::prelude::*;
use vstd::utf8::encode_utf8;
use crate::context::{LookupView, SearchContext};
use crate::japanese::{
    compact_reading, unique_variants, unique_variants_are_the_variants, with_variant,
    SearchVariants,
};
use crate::query_term::{Lazy, LocatedQueryTermView, OneTypoTermView, TwoTypoTermView};
use crate::resegmentation::{
    are_single_words, can_be_merged, concatenated_variants, first_replacement, is_termwise, joined,
    phrase_of, replacement, replacements, resegmented, term_is_word, variant_of_kind,
    variants_of_terms, words_of_terms, PhraseVariantKind, Replacement, Replacements,
};
use crate::segmentation::resegmentations;
use crate::text::concatenation;

verus! {

/// A phrase of words names each of them in its place.
pub proof fn phrases_name_their_words(words: Seq<Seq<char>>)
    ensures
        phrase_of(words).len() == words.len(),
        forall|i: int| 0 <= i < words.len() ==> #[trigger] phrase_of(words)[i] == Some(words[i]),
{
}

/// Whether terms can be taken as one word: none is a phrase or an n-gram, and each starts at the
/// position after the end of the one before it.
pub open spec fn are_one_word(terms: Seq<LocatedQueryTermView>) -> bool {
    &&& terms.len() > 0
    &&& forall|i: int|
        0 <= i < terms.len() ==> (#[trigger] terms[i]).value.zero_typo.phrase is None
            && terms[i].value.ngram_words is None
    &&& forall|i: int, j: int|
        #![trigger terms[i], terms[j]]
        0 <= i && j == i + 1 && j < terms.len() ==> terms[i].positions.end + 1
            == terms[j].positions.start
}

/// Terms that cannot be taken as one word are not resegmented.
pub proof fn only_adjacent_words_are_merged(ctx: SearchContext<'_>, terms: Seq<LocatedQueryTermView>)
    ensures
        !are_one_word(terms) ==> resegmented(ctx, terms) == Ok::<
            Option<LocatedQueryTermView>,
            LookupView,
        >(None),
        are_one_word(terms) <==> terms.len() > 0 && can_be_merged(terms) && are_single_words(terms),
{
    if terms.len() > 0 && can_be_merged(terms) && are_single_words(terms) {
        assert forall|i: int| 0 <= i < terms.len() implies (
        #[trigger] terms[i]).value.zero_typo.phrase is None && terms[i].value.ngram_words is None by {
            assert(terms[i].value.single_word() is Some);
        }
        assert(are_one_word(terms));
    }
    if are_one_word(terms) {
        assert forall|i: int| 0 <= i < terms.len() implies (
        #[trigger] terms[i]).value.single_word() is Some by {
            assert(terms[i].value.ngram_words is None);
        }
        assert(can_be_merged(terms));
    }
}

/// Terms have a joined variant of a kind where each of them has one: theirs one after the other,
/// with the long marks of a reading expanded.
pub proof fn joined_variants(terms: Seq<LocatedQueryTermView>)
    ensures
        ({
            let joined = concatenated_variants(terms);
            &&& (forall|i: int|
                0 <= i < terms.len() ==> (
                #[trigger] terms[i]).japanese_variants.normalized is Some) ==> joined.normalized
                == Some(
                compact_reading(
                    concatenation(
                        terms.map_values(
                            |term: LocatedQueryTermView| term.japanese_variants.normalized->0,
                        ),
                    ),
                ),
            )
            &&& (forall|i: int|
                0 <= i < terms.len() ==> (#[trigger] terms[i]).japanese_variants.phonetic is Some)
                ==> joined.phonetic == Some(
                compact_reading(
                    concatenation(
                        terms.map_values(
                            |term: LocatedQueryTermView| term.japanese_variants.phonetic->0,
                        ),
                    ),
                ),
            )
            &&& (forall|i: int|
                0 <= i < terms.len() ==> (#[trigger] terms[i]).japanese_variants.romaji is Some)
                ==> joined.romaji == Some(
                concatenation(
                    terms.map_values(
                        |term: LocatedQueryTermView| term.japanese_variants.romaji->0,
                    ),
                ),
            )
            &&& (exists|i: int|
                0 <= i < terms.len() && (
                #[trigger] terms[i]).japanese_variants.normalized is None)
                ==> joined.normalized is None
            &&& (exists|i: int|
                0 <= i < terms.len() && (#[trigger] terms[i]).japanese_variants.phonetic is None)
                ==> joined.phonetic is None
            &&& (exists|i: int|
                0 <= i < terms.len() && (#[trigger] terms[i]).japanese_variants.romaji is None)
                ==> joined.romaji is None
        }),
{
    let variants = variants_of_terms(terms);
    variants_of_one_kind(
        terms,
        PhraseVariantKind::Normalized,
        |term: LocatedQueryTermView| term.japanese_variants.normalized->0,
    );
    variants_of_one_kind(
        terms,
        PhraseVariantKind::Phonetic,
        |term: LocatedQueryTermView| term.japanese_variants.phonetic->0,
    );
    variants_of_one_kind(
        terms,
        PhraseVariantKind::Romaji,
        |term: LocatedQueryTermView| term.japanese_variants.romaji->0,
    );
}

proof fn variants_of_one_kind(
    terms: Seq<LocatedQueryTermView>,
    kind: PhraseVariantKind,
    part: spec_fn(LocatedQueryTermView) -> Seq<char>,
)
    requires
        forall|term: LocatedQueryTermView| #[trigger]
            part(term) == variant_of_kind(term.japanese_variants, kind)->0,
    ensures
        (forall|i: int|
            0 <= i < terms.len() ==> variant_of_kind(
                (#[trigger] terms[i]).japanese_variants,
                kind,
            ) is Some) ==> joined(variants_of_terms(terms), kind) == Some(
            concatenation(terms.map_values(part)),
        ),
        (exists|i: int|
            0 <= i < terms.len() && variant_of_kind(
                (#[trigger] terms[i]).japanese_variants,
                kind,
            ) is None) ==> joined(variants_of_terms(terms), kind) is None,
{
    let variants = variants_of_terms(terms);
    if forall|i: int|
        0 <= i < terms.len() ==> variant_of_kind(
            (#[trigger] terms[i]).japanese_variants,
            kind,
        ) is Some {
        assert forall|i: int| 0 <= i < variants.len() implies variant_of_kind(
            #[trigger] variants[i],
            kind,
        ) is Some by {
            assert(variant_of_kind(terms[i].japanese_variants, kind) is Some);
        }
        let parts = Seq::new(variants.len(), |i: int| variant_of_kind(variants[i], kind)->Some_0);
        assert(parts =~= terms.map_values(part)) by {
            assert forall|i: int| 0 <= i < terms.len() implies parts[i] == terms.map_values(
                part,
            )[i] by {
                assert(part(terms[i]) == variant_of_kind(terms[i].japanese_variants, kind)->0);
            }
        }
    } else {
        let i = choose|i: int|
            0 <= i < terms.len() && variant_of_kind(
                (#[trigger] terms[i]).japanese_variants,
                kind,
            ) is None;
        assert(variant_of_kind(variants[i], kind) is None);
    }
}

/// Whether a segmentation is the terms themselves: one word for each, which is its word or one of
/// its variants.
pub open spec fn are_the_terms(
    terms: Seq<LocatedQueryTermView>,
    segments: Seq<Seq<char>>,
) -> bool {
    &&& terms.len() == segments.len()
    &&& forall|i: int|
        0 <= i < terms.len() ==> {
            let term = #[trigger] terms[i];
            ||| term.value.ngram_words is None && term.value.original == segments[i]
            ||| term.japanese_variants.normalized == Some(segments[i])
            ||| term.japanese_variants.phonetic == Some(segments[i])
            ||| term.japanese_variants.romaji == Some(segments[i])
        }
}

proof fn termwise_segmentations_are_the_terms(
    terms: Seq<LocatedQueryTermView>,
    segments: Seq<Seq<char>>,
)
    ensures
        is_termwise(terms, segments) <==> are_the_terms(terms, segments),
{
    if terms.len() == segments.len() {
        assert forall|i: int| 0 <= i < terms.len() implies term_is_word(
            #[trigger] terms[i],
            segments[i],
        ) == ((terms[i].value.ngram_words is None && terms[i].value.original == segments[i])
            || terms[i].japanese_variants.normalized == Some(segments[i])
            || terms[i].japanese_variants.phonetic == Some(segments[i])
            || terms[i].japanese_variants.romaji == Some(segments[i])) by {
            unique_variants_are_the_variants(terms[i].japanese_variants, segments[i]);
        }
        if is_termwise(terms, segments) {
            assert forall|i: int| 0 <= i < terms.len() implies {
                let term = #[trigger] terms[i];
                ||| term.value.ngram_words is None && term.value.original == segments[i]
                ||| term.japanese_variants.normalized == Some(segments[i])
                ||| term.japanese_variants.phonetic == Some(segments[i])
                ||| term.japanese_variants.romaji == Some(segments[i])
            } by {
                assert(term_is_word(terms[i], segments[i]));
            }
        }
    }
}

/// The phrase that names some words.
pub open spec fn naming(words: Seq<Seq<char>>) -> Seq<Option<Seq<char>>> {
    words.map_values(|word: Seq<char>| Some(word))
}

/// Whether a segmentation is passed over: it is the terms themselves, or a phrase that no document
/// holds.
pub open spec fn is_passed_over(
    ctx: SearchContext<'_>,
    terms: Seq<LocatedQueryTermView>,
    segments: Seq<Seq<char>>,
) -> bool {
    ||| are_the_terms(terms, segments)
    ||| segments.len() != 1 && ctx.phrase_answer(naming(segments)) == Some(false)
}

/// What stands in the index for one joined variant of terms, or what is asked about it.
pub struct Standing {
    pub word: Option<Seq<char>>,
    pub phrase: Option<Seq<Option<Seq<char>>>>,
    pub asked: Option<LookupView>,
}

/// Whether something stands for a segmentation that is not passed over: its word, if it is but one;
/// its phrase, if some document holds it; or the question for that.
pub open spec fn stands_for_segments(
    ctx: SearchContext<'_>,
    segments: Seq<Seq<char>>,
    standing: Standing,
) -> bool {
    if segments.len() == 1 {
        standing == (Standing { word: Some(segments[0]), phrase: None, asked: None })
    } else if ctx.phrase_answer(naming(segments)) is Some {
        standing == (Standing { word: None, phrase: Some(naming(segments)), asked: None })
    } else {
        standing == (Standing {
            word: None,
            phrase: None,
            asked: Some(LookupView::PhraseDocids(naming(segments))),
        })
    }
}

/// Whether something stands for segmentations: it stands for the first that is not passed over, or
/// it is nothing and all are passed over.
pub open spec fn stands_for_the_first(
    ctx: SearchContext<'_>,
    terms: Seq<LocatedQueryTermView>,
    paths: Seq<Seq<Seq<char>>>,
    standing: Standing,
) -> bool {
    ||| {
        &&& standing == (Standing { word: None, phrase: None, asked: None })
        &&& forall|i: int| 0 <= i < paths.len() ==> is_passed_over(ctx, terms, #[trigger] paths[i])
    }
    ||| exists|k: int|
        0 <= k < paths.len() && stands_for_segments(ctx, #[trigger] paths[k], standing)
            && !is_passed_over(ctx, terms, paths[k]) && forall|i: int|
            0 <= i < k ==> is_passed_over(ctx, terms, #[trigger] paths[i])
}

/// Whether something stands for a joined variant: nothing for none, for an empty one, and for one
/// of more than 250 bytes.
pub open spec fn stands_for_variant(
    ctx: SearchContext<'_>,
    terms: Seq<LocatedQueryTermView>,
    variant: Option<Seq<char>>,
    standing: Standing,
) -> bool {
    if variant is None || variant->0.len() == 0 || encode_utf8(variant->0).len() > 250 {
        standing == (Standing { word: None, phrase: None, asked: None })
    } else {
        stands_for_the_first(
            ctx,
            terms,
            resegmentations(ctx.dictionary(), variant->0),
            standing,
        )
    }
}

/// What stands for a variant as a replacement.
spec fn as_replacement(standing: Standing) -> Result<Option<Replacement>, LookupView> {
    match (standing.word, standing.phrase, standing.asked) {
        (_, _, Some(lookup)) => Err(lookup),
        (Some(word), _, _) => Ok(Some(Replacement::Word(word))),
        (_, Some(phrase), _) => Ok(Some(Replacement::Phrase(phrase))),
        _ => Ok(None),
    }
}

proof fn the_first_is_the_replacement(
    ctx: SearchContext<'_>,
    terms: Seq<LocatedQueryTermView>,
    paths: Seq<Seq<Seq<char>>>,
    standing: Standing,
)
    requires
        stands_for_the_first(ctx, terms, paths, standing),
    ensures
        first_replacement(ctx, terms, paths) == as_replacement(standing),
        standing.word is Some ==> standing.phrase is None,
        standing.asked is Some ==> standing.word is None && standing.phrase is None,
    decreases paths.len(),
{
    if paths.len() > 0 {
        let rest = paths.drop_first();
        termwise_segmentations_are_the_terms(terms, paths[0]);
        assert(phrase_of(paths[0]) =~= naming(paths[0]));
        assert forall|i: int| 0 < i < paths.len() implies #[trigger] paths[i] == rest[i - 1] by {}
        assert forall|i: int| 0 <= i < rest.len() implies #[trigger] rest[i] == paths[i + 1] by {}
        if is_passed_over(ctx, terms, paths[0]) {
            if exists|k: int|
                0 <= k < paths.len() && stands_for_segments(ctx, #[trigger] paths[k], standing)
                    && !is_passed_over(ctx, terms, paths[k]) && forall|i: int|
                    0 <= i < k ==> is_passed_over(ctx, terms, #[trigger] paths[i]) {
                let k = choose|k: int|
                    0 <= k < paths.len() && stands_for_segments(ctx, #[trigger] paths[k], standing)
                        && !is_passed_over(ctx, terms, paths[k]) && forall|i: int|
                        0 <= i < k ==> is_passed_over(ctx, terms, #[trigger] paths[i]);
                assert(stands_for_segments(ctx, rest[k - 1], standing));
                assert forall|i: int| 0 <= i < k - 1 implies is_passed_over(
                    ctx,
                    terms,
                    #[trigger] rest[i],
                ) by {
                    assert(is_passed_over(ctx, terms, paths[i + 1]));
                }
            } else {
                assert forall|i: int| 0 <= i < rest.len() implies is_passed_over(
                    ctx,
                    terms,
                    #[trigger] rest[i],
                ) by {
                    assert(is_passed_over(ctx, terms, paths[i + 1]));
                }
            }
            the_first_is_the_replacement(ctx, terms, rest, standing);
        } else {
            assert(stands_for_segments(ctx, paths[0], standing));
        }
    }
}

proof fn the_standing_is_the_replacement(
    ctx: SearchContext<'_>,
    terms: Seq<LocatedQueryTermView>,
    variant: Option<Seq<char>>,
    standing: Standing,
)
    requires
        stands_for_variant(ctx, terms, variant, standing),
    ensures
        variant matches Some(compact) ==> replacement(ctx, terms, compact) == as_replacement(
            standing,
        ),
        variant is None ==> standing == (Standing { word: None, phrase: None, asked: None }),
        standing.word is Some ==> standing.phrase is None,
        standing.asked is Some ==> standing.word is None && standing.phrase is None,
{
    if let Some(compact) = variant {
        if compact.len() > 0 && encode_utf8(compact).len() <= 250 {
            the_first_is_the_replacement(
                ctx,
                terms,
                resegmentations(ctx.dictionary(), compact),
                standing,
            );
        }
    }
}

/// Whether what stands for each of some variants is among what was found.
spec fn all_are_held(
    ctx: SearchContext<'_>,
    terms: Seq<LocatedQueryTermView>,
    compacts: Seq<Seq<char>>,
    found: Replacements,
) -> bool {
    forall|compact: Seq<char>| #[trigger]
        compacts.contains(compact) ==> match replacement(ctx, terms, compact) {
            Ok(Some(Replacement::Word(word))) => found.words.contains(word),
            Ok(Some(Replacement::Phrase(phrase))) => found.phrases.contains(phrase),
            Ok(None) => true,
            Err(_) => false,
        }
}

proof fn one_more_variant(
    ctx: SearchContext<'_>,
    terms: Seq<LocatedQueryTermView>,
    compacts: Seq<Seq<char>>,
    found: Replacements,
    variant: Option<Seq<char>>,
    standing: Standing,
)
    requires
        replacements(ctx, terms, compacts) == Ok::<Replacements, LookupView>(found),
        all_are_held(ctx, terms, compacts, found),
        stands_for_variant(ctx, terms, variant, standing),
    ensures
        standing.asked matches Some(lookup) ==> replacements(
            ctx,
            terms,
            with_variant(compacts, variant),
        ) == Err::<Replacements, LookupView>(lookup),
        standing.asked is None ==> {
            let after = Replacements {
                words: with_variant(found.words, standing.word),
                phrases: with_variant(found.phrases, standing.phrase),
            };
            &&& replacements(ctx, terms, with_variant(compacts, variant)) == Ok::<
                Replacements,
                LookupView,
            >(after)
            &&& all_are_held(ctx, terms, with_variant(compacts, variant), after)
        },
{
    the_standing_is_the_replacement(ctx, terms, variant, standing);
    if let Some(compact) = variant {
        if compacts.contains(compact) {
            assert(with_variant(compacts, variant) == compacts);
        } else {
            let more = compacts.push(compact);
            assert(with_variant(compacts, variant) == more);
            assert(more.drop_last() == compacts);
            assert(more.last() == compact);
            if standing.asked is None {
                let after = Replacements {
                    words: with_variant(found.words, standing.word),
                    phrases: with_variant(found.phrases, standing.phrase),
                };
                assert forall|other: Seq<char>| #[trigger] more.contains(other) implies match replacement(
                    ctx,
                    terms,
                    other,
                ) {
                    Ok(Some(Replacement::Word(word))) => after.words.contains(word),
                    Ok(Some(Replacement::Phrase(phrase))) => after.phrases.contains(phrase),
                    Ok(None) => true,
                    Err(_) => false,
                } by {
                    let i = choose|i: int| 0 <= i < more.len() && more[i] == other;
                    if i < compacts.len() {
                        assert(compacts[i] == other);
                        assert(compacts.contains(other));
                    }
                    added_variants_are_held(found.words, standing.word);
                    added_variants_are_held(found.phrases, standing.phrase);
                }
            }
        }
    }
}

proof fn added_variants_are_held<T>(items: Seq<T>, variant: Option<T>)
    ensures
        forall|item: T| #[trigger]
            items.contains(item) ==> with_variant(items, variant).contains(item),
        variant matches Some(item) ==> with_variant(items, variant).contains(item),
{
    if let Some(added) = variant {
        if !items.contains(added) {
            let after = items.push(added);
            assert(after[items.len() as int] == added);
            assert forall|item: T| #[trigger] items.contains(item) implies after.contains(item) by {
                let i = choose|i: int| 0 <= i < items.len() && items[i] == item;
                assert(after[i] == item);
            }
        }
    }
}

proof fn questions_stay(
    ctx: SearchContext<'_>,
    terms: Seq<LocatedQueryTermView>,
    compacts: Seq<Seq<char>>,
    variant: Option<Seq<char>>,
)
    requires
        replacements(ctx, terms, compacts) is Err,
    ensures
        replacements(ctx, terms, with_variant(compacts, variant)) == replacements(
            ctx,
            terms,
            compacts,
        ),
{
    if let Some(compact) = variant {
        if !compacts.contains(compact) {
            assert(compacts.push(compact).drop_last() == compacts);
        }
    }
}

/// Terms that can be taken as one word are searched by what stands for their joined variants, in
/// the order normalized, phonetic, romaji: the words, and the phrases, each at its first place.
/// There is no term where nothing stands for them. The first of the variants that asks a question
/// asks it for all.
pub proof fn terms_are_searched_by_their_joined_variants(
    ctx: SearchContext<'_>,
    terms: Seq<LocatedQueryTermView>,
    normalized: Standing,
    phonetic: Standing,
    romaji: Standing,
)
    requires
        are_one_word(terms),
        stands_for_variant(ctx, terms, concatenated_variants(terms).normalized, normalized),
        stands_for_variant(ctx, terms, concatenated_variants(terms).phonetic, phonetic),
        stands_for_variant(ctx, terms, concatenated_variants(terms).romaji, romaji),
    ensures
        ({
            let words = SearchVariants {
                normalized: normalized.word,
                phonetic: phonetic.word,
                romaji: romaji.word,
            };
            let phrases = SearchVariants {
                normalized: normalized.phrase,
                phonetic: phonetic.phrase,
                romaji: romaji.phrase,
            };
            match (normalized.asked, phonetic.asked, romaji.asked) {
                (Some(lookup), _, _) | (None, Some(lookup), _) | (None, None, Some(lookup)) => {
                    resegmented(ctx, terms) == Err::<Option<LocatedQueryTermView>, LookupView>(
                        lookup,
                    )
                },
                (None, None, None) => {
                    &&& unique_variants(words).len() == 0 && unique_variants(phrases).len() == 0
                        ==> resegmented(ctx, terms) == Ok::<
                        Option<LocatedQueryTermView>,
                        LookupView,
                    >(None)
                    &&& unique_variants(words).len() > 0 || unique_variants(phrases).len() > 0 ==> {
                        &&& resegmented(ctx, terms) matches Ok(Some(term))
                        &&& term.value.zero_typo.alternates == unique_variants(words)
                        &&& term.value.zero_typo.alternate_phrases == unique_variants(phrases)
                    }
                },
            }
        }),
{
    let variants = concatenated_variants(terms);
    only_adjacent_words_are_merged(ctx, terms);
    let none = Seq::<Seq<char>>::empty();
    let nothing = Replacements { words: Seq::empty(), phrases: Seq::empty() };
    let one = with_variant(none, variants.normalized);
    let two = with_variant(one, variants.phonetic);
    let three = with_variant(two, variants.romaji);
    assert(three == unique_variants(variants));
    assert(all_are_held(ctx, terms, none, nothing));
    one_more_variant(ctx, terms, none, nothing, variants.normalized, normalized);
    if normalized.asked is Some {
        questions_stay(ctx, terms, one, variants.phonetic);
        questions_stay(ctx, terms, two, variants.romaji);
    } else {
        let first = Replacements {
            words: with_variant(nothing.words, normalized.word),
            phrases: with_variant(nothing.phrases, normalized.phrase),
        };
        one_more_variant(ctx, terms, one, first, variants.phonetic, phonetic);
        if phonetic.asked is Some {
            questions_stay(ctx, terms, two, variants.romaji);
        } else {
            let second = Replacements {
                words: with_variant(first.words, phonetic.word),
                phrases: with_variant(first.phrases, phonetic.phrase),
            };
            one_more_variant(ctx, terms, two, second, variants.romaji, romaji);
        }
    }
}

/// A term that stands for others is an n-gram of their words, with their texts one after the other,
/// from the start of the first to the end of the last. It tolerates no typo, is no prefix, and has
/// no synonyms. Its variants are the joined ones.
pub proof fn merged_terms_are_ngrams(ctx: SearchContext<'_>, terms: Seq<LocatedQueryTermView>)
    ensures
        resegmented(ctx, terms) matches Ok(Some(term)) ==> {
            let words = terms.map_values(|term: LocatedQueryTermView| term.value.original);
            &&& term.value.original == concatenation(words)
            &&& term.value.ngram_words == Some(words)
            &&& term.value.max_levenshtein_distance == 0
            &&& !term.value.is_prefix
            &&& term.value.ranking_span_len == 1
            &&& term.value.zero_typo.phrase is None
            &&& term.value.zero_typo.exact is None
            &&& term.value.zero_typo.prefix_of.len() == 0
            &&& term.value.zero_typo.synonyms.len() == 0
            &&& term.value.zero_typo.use_prefix_db is None
            &&& term.value.one_typo == Lazy::Init(
                OneTypoTermView { split_words: None, one_typo: Seq::empty() },
            )
            &&& term.value.two_typo == Lazy::Init(TwoTypoTermView { two_typos: Seq::empty() })
            &&& term.positions.start == terms[0].positions.start
            &&& term.positions.end == terms[terms.len() - 1].positions.end
            &&& term.japanese_variants == concatenated_variants(terms)
        },
{
    assert(words_of_terms(terms) =~= terms.map_values(
        |term: LocatedQueryTermView| term.value.original,
    ));
}

} // verus!
