//! Which phrases stand for a phrase of a query.
use vstd::prelude::*;
use vstd::utf8::encode_utf8;
use crate::context::{LookupView, SearchContext};
use crate::japanese::{compact_reading, unique_variants, SearchVariants};
use crate::merging_laws::naming;
use crate::phrase_variants::{
    alternates_of_phrase, has_variant, run_segments, variant_phrase, variant_run_end,
    variant_run_end_is_later, variant_words_from,
};
use crate::resegmentation::{
    all_have, compact_of_kind, joined, phrase_of, variant_of_kind, PhraseVariantKind,
};
use crate::segmentation::resegmentations;
use crate::text::concatenation;

verus! {

/// Whether a token has no variant at all.
pub open spec fn is_plain(token: SearchVariants<Seq<char>>) -> bool {
    token.normalized is None && token.phonetic is None && token.romaji is None
}

/// The variants of one kind of consecutive tokens, one after the other, if all of them have one.
/// The long marks of readings are expanded.
pub open spec fn joined_tokens(
    tokens: Seq<SearchVariants<Seq<char>>>,
    kind: PhraseVariantKind,
) -> Option<Seq<char>> {
    match kind {
        PhraseVariantKind::Normalized => if exists|i: int|
            0 <= i < tokens.len() && (#[trigger] tokens[i]).normalized is None {
            None
        } else {
            Some(
                compact_reading(
                    concatenation(
                        tokens.map_values(
                            |token: SearchVariants<Seq<char>>| token.normalized->Some_0,
                        ),
                    ),
                ),
            )
        },
        PhraseVariantKind::Phonetic => if exists|i: int|
            0 <= i < tokens.len() && (#[trigger] tokens[i]).phonetic is None {
            None
        } else {
            Some(
                compact_reading(
                    concatenation(
                        tokens.map_values(
                            |token: SearchVariants<Seq<char>>| token.phonetic->Some_0,
                        ),
                    ),
                ),
            )
        },
        PhraseVariantKind::Romaji => if exists|i: int|
            0 <= i < tokens.len() && (#[trigger] tokens[i]).romaji is None {
            None
        } else {
            Some(
                concatenation(
                    tokens.map_values(|token: SearchVariants<Seq<char>>| token.romaji->Some_0),
                ),
            )
        },
    }
}

proof fn tokens_are_joined(tokens: Seq<SearchVariants<Seq<char>>>, kind: PhraseVariantKind)
    ensures
        compact_of_kind(tokens, kind) == joined_tokens(tokens, kind),
{
    let parts = Seq::new(tokens.len(), |i: int| variant_of_kind(tokens[i], kind)->Some_0);
    match kind {
        PhraseVariantKind::Normalized => {
            assert(parts =~= tokens.map_values(
                |token: SearchVariants<Seq<char>>| token.normalized->Some_0,
            ));
            if all_have(tokens, kind) {
                assert forall|i: int| 0 <= i < tokens.len() implies (
                #[trigger] tokens[i]).normalized is Some by {
                    assert(variant_of_kind(tokens[i], kind) is Some);
                }
            } else {
                let i = choose|i: int|
                    0 <= i < tokens.len() && !(variant_of_kind(
                        #[trigger] tokens[i],
                        kind,
                    ) is Some);
                assert(tokens[i].normalized is None);
            }
        },
        PhraseVariantKind::Phonetic => {
            assert(parts =~= tokens.map_values(
                |token: SearchVariants<Seq<char>>| token.phonetic->Some_0,
            ));
            if all_have(tokens, kind) {
                assert forall|i: int| 0 <= i < tokens.len() implies (
                #[trigger] tokens[i]).phonetic is Some by {
                    assert(variant_of_kind(tokens[i], kind) is Some);
                }
            } else {
                let i = choose|i: int|
                    0 <= i < tokens.len() && !(variant_of_kind(
                        #[trigger] tokens[i],
                        kind,
                    ) is Some);
                assert(tokens[i].phonetic is None);
            }
        },
        PhraseVariantKind::Romaji => {
            assert(parts =~= tokens.map_values(
                |token: SearchVariants<Seq<char>>| token.romaji->Some_0,
            ));
            if all_have(tokens, kind) {
                assert forall|i: int| 0 <= i < tokens.len() implies (
                #[trigger] tokens[i]).romaji is Some by {
                    assert(variant_of_kind(tokens[i], kind) is Some);
                }
            } else {
                let i = choose|i: int|
                    0 <= i < tokens.len() && !(variant_of_kind(
                        #[trigger] tokens[i],
                        kind,
                    ) is Some);
                assert(tokens[i].romaji is None);
            }
        },
    }
}

/// No phrase stands for tokens without variants.
pub proof fn plain_phrases_have_no_variants(
    dictionary: Set<Seq<u8>>,
    tokens: Seq<SearchVariants<Seq<char>>>,
    kind: PhraseVariantKind,
)
    requires
        forall|i: int| 0 <= i < tokens.len() ==> is_plain(#[trigger] tokens[i]),
    ensures
        variant_phrase(dictionary, tokens, kind) is None,
{
    assert forall|i: int| 0 <= i < tokens.len() implies !has_variant(#[trigger] tokens[i]) by {
        assert(is_plain(tokens[i]));
    }
}

proof fn a_run_goes_to_the_end(tokens: Seq<SearchVariants<Seq<char>>>, i: int)
    requires
        0 <= i < tokens.len(),
        forall|k: int| 0 <= k < tokens.len() ==> has_variant(#[trigger] tokens[k]),
    ensures
        variant_run_end(tokens, i) == tokens.len() - 1,
    decreases tokens.len() - i,
{
    if i + 1 < tokens.len() {
        assert(has_variant(tokens[i + 1]));
        a_run_goes_to_the_end(tokens, i + 1);
    }
}

/// The phrase that stands for tokens that all have variants, taken by one kind: the words of the
/// first segmentation of what they are joined to. There is none where a token lacks this kind,
/// where nothing or more than 250 bytes are joined, and where there is no segmentation.
pub proof fn tokens_with_variants_are_segmented_together(
    dictionary: Set<Seq<u8>>,
    tokens: Seq<SearchVariants<Seq<char>>>,
    kind: PhraseVariantKind,
)
    requires
        tokens.len() > 0,
        forall|i: int| 0 <= i < tokens.len() ==> !is_plain(#[trigger] tokens[i]),
    ensures
        match joined_tokens(tokens, kind) {
            None => variant_phrase(dictionary, tokens, kind) is None,
            Some(text) => {
                let paths = resegmentations(dictionary, text);
                if text.len() == 0 || encode_utf8(text).len() > 250 || paths.len() == 0 {
                    variant_phrase(dictionary, tokens, kind) is None
                } else {
                    variant_phrase(dictionary, tokens, kind) == Some(naming(paths[0]))
                }
            },
        },
{
    assert forall|i: int| 0 <= i < tokens.len() implies has_variant(#[trigger] tokens[i]) by {
        assert(!is_plain(tokens[i]));
    }
    assert(has_variant(tokens[0]));
    a_run_goes_to_the_end(tokens, 0);
    tokens_are_joined(tokens, kind);
    assert(tokens.subrange(0, tokens.len() as int) == tokens);
    let rest = variant_words_from(dictionary, tokens, kind, tokens.len() as int);
    assert(rest == Some(Seq::<Option<Seq<char>>>::empty()));
    if let Some(segments) = run_segments(dictionary, tokens, kind) {
        assert(phrase_of(segments) + Seq::<Option<Seq<char>>>::empty() =~= naming(segments));
    }
}

/// The places that tokens take in a phrase that stands for them: unnamed ones, if they have no
/// variants.
pub open spec fn places_of(
    dictionary: Set<Seq<u8>>,
    tokens: Seq<SearchVariants<Seq<char>>>,
    kind: PhraseVariantKind,
) -> Option<Seq<Option<Seq<char>>>> {
    if forall|i: int| 0 <= i < tokens.len() ==> is_plain(#[trigger] tokens[i]) {
        Some(Seq::new(tokens.len(), |i: int| None))
    } else {
        variant_phrase(dictionary, tokens, kind)
    }
}

proof fn plain_tokens_are_unnamed(
    dictionary: Set<Seq<u8>>,
    tokens: Seq<SearchVariants<Seq<char>>>,
    kind: PhraseVariantKind,
    i: int,
)
    requires
        0 <= i <= tokens.len(),
        forall|k: int| 0 <= k < tokens.len() ==> is_plain(#[trigger] tokens[k]),
    ensures
        variant_words_from(dictionary, tokens, kind, i) == Some(
            Seq::new((tokens.len() - i) as nat, |k: int| None::<Seq<char>>),
        ),
    decreases tokens.len() - i,
{
    if i < tokens.len() {
        assert(is_plain(tokens[i]));
        plain_tokens_are_unnamed(dictionary, tokens, kind, i + 1);
        assert(seq![None::<Seq<char>>] + Seq::new(
            (tokens.len() - i - 1) as nat,
            |k: int| None::<Seq<char>>,
        ) =~= Seq::new((tokens.len() - i) as nat, |k: int| None::<Seq<char>>));
    } else {
        assert(Seq::<Option<Seq<char>>>::empty() =~= Seq::new(0, |k: int| None::<Seq<char>>));
    }
}

proof fn places_are_the_words(
    dictionary: Set<Seq<u8>>,
    tokens: Seq<SearchVariants<Seq<char>>>,
    kind: PhraseVariantKind,
)
    ensures
        places_of(dictionary, tokens, kind) == variant_words_from(dictionary, tokens, kind, 0),
{
    if forall|i: int| 0 <= i < tokens.len() ==> is_plain(#[trigger] tokens[i]) {
        plain_tokens_are_unnamed(dictionary, tokens, kind, 0);
        assert(Seq::new((tokens.len() - 0) as nat, |k: int| None::<Seq<char>>) =~= Seq::new(
            tokens.len(),
            |i: int| None::<Seq<char>>,
        ));
    } else {
        let i = choose|i: int| 0 <= i < tokens.len() && !is_plain(#[trigger] tokens[i]);
        assert(has_variant(tokens[i]));
    }
}

proof fn runs_end_before_a_gap(
    left: Seq<SearchVariants<Seq<char>>>,
    gap: SearchVariants<Seq<char>>,
    right: Seq<SearchVariants<Seq<char>>>,
    i: int,
)
    requires
        is_plain(gap),
        0 <= i < left.len(),
    ensures
        variant_run_end(left.push(gap) + right, i) == variant_run_end(left, i),
    decreases left.len() - i,
{
    let all = left.push(gap) + right;
    assert(all[i + 1] == (if i + 1 < left.len() {
        left[i + 1]
    } else {
        gap
    }));
    if i + 1 < left.len() && has_variant(left[i + 1]) {
        runs_end_before_a_gap(left, gap, right, i + 1);
    }
}

proof fn runs_end_behind_a_gap(
    before: Seq<SearchVariants<Seq<char>>>,
    right: Seq<SearchVariants<Seq<char>>>,
    i: int,
)
    requires
        0 <= i < right.len(),
    ensures
        variant_run_end(before + right, before.len() + i) == before.len() + variant_run_end(
            right,
            i,
        ),
    decreases right.len() - i,
{
    let all = before + right;
    if i + 1 < right.len() {
        assert(all[before.len() + i + 1] == right[i + 1]);
        if has_variant(right[i + 1]) {
            runs_end_behind_a_gap(before, right, i + 1);
        }
    }
}

proof fn words_behind_a_gap(
    dictionary: Set<Seq<u8>>,
    before: Seq<SearchVariants<Seq<char>>>,
    right: Seq<SearchVariants<Seq<char>>>,
    kind: PhraseVariantKind,
    i: int,
)
    requires
        0 <= i <= right.len(),
    ensures
        variant_words_from(dictionary, before + right, kind, before.len() + i)
            == variant_words_from(dictionary, right, kind, i),
    decreases right.len() - i,
{
    let all = before + right;
    if i < right.len() {
        assert(all[before.len() + i] == right[i]);
        if has_variant(right[i]) {
            variant_run_end_is_later(right, i);
            runs_end_behind_a_gap(before, right, i);
            let end = variant_run_end(right, i);
            words_behind_a_gap(dictionary, before, right, kind, end + 1);
            assert(all.subrange(before.len() + i, before.len() + end + 1) =~= right.subrange(
                i,
                end + 1,
            ));
        } else {
            words_behind_a_gap(dictionary, before, right, kind, i + 1);
        }
    }
}

proof fn words_before_a_gap(
    dictionary: Set<Seq<u8>>,
    left: Seq<SearchVariants<Seq<char>>>,
    gap: SearchVariants<Seq<char>>,
    right: Seq<SearchVariants<Seq<char>>>,
    kind: PhraseVariantKind,
    i: int,
)
    requires
        is_plain(gap),
        0 <= i <= left.len(),
    ensures
        variant_words_from(dictionary, left.push(gap) + right, kind, i) == (match (
            variant_words_from(dictionary, left, kind, i),
            variant_words_from(dictionary, right, kind, 0),
        ) {
            (Some(first), Some(second)) => Some(first.push(None) + second),
            _ => None,
        }),
    decreases left.len() - i,
{
    let all = left.push(gap) + right;
    let behind = variant_words_from(dictionary, right, kind, 0);
    if i == left.len() {
        assert(all[i] == gap);
        words_behind_a_gap(dictionary, left.push(gap), right, kind, 0);
        if let Some(second) = behind {
            assert(Seq::<Option<Seq<char>>>::empty().push(None) + second =~= seq![None] + second);
        }
    } else {
        assert(all[i] == left[i]);
        if has_variant(left[i]) {
            variant_run_end_is_later(left, i);
            runs_end_before_a_gap(left, gap, right, i);
            let end = variant_run_end(left, i);
            words_before_a_gap(dictionary, left, gap, right, kind, end + 1);
            assert(all.subrange(i, end + 1) =~= left.subrange(i, end + 1));
            if let Some(segments) = run_segments(dictionary, left.subrange(i, end + 1), kind) {
                if let (Some(first), Some(second)) = (
                    variant_words_from(dictionary, left, kind, end + 1),
                    behind,
                ) {
                    assert(phrase_of(segments) + (first.push(None) + second) =~= (phrase_of(
                        segments,
                    ) + first).push(None) + second);
                }
            }
        } else {
            words_before_a_gap(dictionary, left, gap, right, kind, i + 1);
            if let (Some(first), Some(second)) = (
                variant_words_from(dictionary, left, kind, i + 1),
                behind,
            ) {
                assert(seq![None] + (first.push(None) + second) =~= (seq![None] + first).push(None)
                    + second);
            }
        }
    }
}

/// A token without variants keeps one unnamed place in a phrase that stands for tokens. What comes
/// before it and what comes behind it are segmented each on its own.
pub proof fn tokens_without_variants_keep_their_places(
    dictionary: Set<Seq<u8>>,
    left: Seq<SearchVariants<Seq<char>>>,
    gap: SearchVariants<Seq<char>>,
    right: Seq<SearchVariants<Seq<char>>>,
    kind: PhraseVariantKind,
)
    requires
        is_plain(gap),
    ensures
        places_of(dictionary, left.push(gap) + right, kind) == (match (
            places_of(dictionary, left, kind),
            places_of(dictionary, right, kind),
        ) {
            (Some(first), Some(second)) => Some(first.push(None) + second),
            _ => None,
        }),
{
    places_are_the_words(dictionary, left, kind);
    places_are_the_words(dictionary, right, kind);
    places_are_the_words(dictionary, left.push(gap) + right, kind);
    words_before_a_gap(dictionary, left, gap, right, kind, 0);
}

/// Other phrases stand for a phrase only where no document holds it: those of its normalized, its
/// phonetic and its romaji variants, in this order and each once. Whether some document holds it is
/// asked first.
pub proof fn phrases_that_no_document_holds_have_alternates(
    ctx: SearchContext<'_>,
    original: Seq<Option<Seq<char>>>,
    tokens: Seq<SearchVariants<Seq<char>>>,
)
    ensures
        alternates_of_phrase(ctx, original, tokens) == (match ctx.phrase_answer(original) {
            None => Err(LookupView::PhraseDocids(original)),
            Some(true) => Ok(Seq::empty()),
            Some(false) => Ok(
                unique_variants(
                    SearchVariants {
                        normalized: variant_phrase(
                            ctx.dictionary(),
                            tokens,
                            PhraseVariantKind::Normalized,
                        ),
                        phonetic: variant_phrase(
                            ctx.dictionary(),
                            tokens,
                            PhraseVariantKind::Phonetic,
                        ),
                        romaji: variant_phrase(ctx.dictionary(), tokens, PhraseVariantKind::Romaji),
                    },
                ),
            ),
        }),
{
}

} // verus!
