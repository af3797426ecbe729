//! The phrases that stand for a phrase of a query, taken by the Japanese variants of its tokens.
use vstd::prelude::*;
use crate::context::{outcome, Lookup, LookupView, SearchContext};
use crate::japanese::{unique_variants, SearchVariants};
use crate::plain::{push_once, pushing_deepens, Plain};
use crate::query_term::Phrase;
use crate::resegmentation::{
    compact_of_kind, expand, join_part, joined, joined_grows, phrase_from_words, phrase_of,
    select_variant, PhraseVariantKind,
};
use crate::segmentation::{resegment_indexed_variants, resegmentations};
use crate::text::{byte_len, fits_in_key, MAX_WORD_LENGTH};

verus! {

/// Whether a token has a variant of some kind.
pub open spec fn has_variant(variants: SearchVariants<Seq<char>>) -> bool {
    variants.normalized is Some || variants.phonetic is Some || variants.romaji is Some
}

/// The last token of the run of tokens with variants that holds a token.
pub open spec fn variant_run_end(variants: Seq<SearchVariants<Seq<char>>>, i: int) -> int
    decreases variants.len() - i,
{
    if i + 1 < variants.len() && has_variant(variants[i + 1]) {
        variant_run_end(variants, i + 1)
    } else {
        i
    }
}

/// A run of tokens with variants ends at or after each of its tokens.
pub proof fn variant_run_end_is_later(variants: Seq<SearchVariants<Seq<char>>>, i: int)
    requires
        0 <= i < variants.len(),
    ensures
        i <= variant_run_end(variants, i) < variants.len(),
    decreases variants.len() - i,
{
    if i + 1 < variants.len() && has_variant(variants[i + 1]) {
        variant_run_end_is_later(variants, i + 1);
    }
}

/// The preferred segmentation of a run of tokens taken by their variants of one kind.
pub open spec fn run_segments(
    dictionary: Set<Seq<u8>>,
    run: Seq<SearchVariants<Seq<char>>>,
    kind: PhraseVariantKind,
) -> Option<Seq<Seq<char>>> {
    match compact_of_kind(run, kind) {
        None => None,
        Some(compact) => if compact.len() == 0 || !fits_in_key(compact) {
            None
        } else {
            let paths = resegmentations(dictionary, compact);
            if paths.len() == 0 {
                None
            } else {
                Some(paths[0])
            }
        },
    }
}

/// The words, from the token `i` on, of a phrase in which each run of tokens with variants is
/// segmented again; a token without variants keeps its place unnamed.
pub open spec fn variant_words_from(
    dictionary: Set<Seq<u8>>,
    variants: Seq<SearchVariants<Seq<char>>>,
    kind: PhraseVariantKind,
    i: int,
) -> Option<Seq<Option<Seq<char>>>>
    decreases variants.len() - i,
{
    if i < 0 || i >= variants.len() {
        Some(Seq::empty())
    } else if !has_variant(variants[i]) {
        match variant_words_from(dictionary, variants, kind, i + 1) {
            Some(rest) => Some(seq![None] + rest),
            None => None,
        }
    } else {
        proof {
            variant_run_end_is_later(variants, i);
        }
        let end = variant_run_end(variants, i);
        match (
            run_segments(dictionary, variants.subrange(i, end + 1), kind),
            variant_words_from(dictionary, variants, kind, end + 1),
        ) {
            (Some(segments), Some(rest)) => Some(phrase_of(segments) + rest),
            _ => None,
        }
    }
}

/// The phrase that stands for tokens taken by their variants of one kind; none where no token has a
/// variant, or where some run of tokens cannot be segmented.
pub open spec fn variant_phrase(
    dictionary: Set<Seq<u8>>,
    variants: Seq<SearchVariants<Seq<char>>>,
    kind: PhraseVariantKind,
) -> Option<Seq<Option<Seq<char>>>> {
    if exists|i: int| 0 <= i < variants.len() && has_variant(#[trigger] variants[i]) {
        variant_words_from(dictionary, variants, kind, 0)
    } else {
        None
    }
}

fn token_has_variant(variants: &SearchVariants<String>) -> (b: bool)
    ensures
        b == has_variant(variants.deep_view()),
{
    variants.normalized.is_some() || variants.phonetic.is_some() || variants.romaji.is_some()
}

/// The variants of one kind of some tokens, joined.
fn join_variants(
    variants: &Vec<SearchVariants<String>>,
    start: usize,
    end: usize,
    kind: PhraseVariantKind,
) -> (r: Option<String>)
    requires
        start <= end < variants.len(),
    ensures
        r.deep_view() == compact_of_kind(
            variants.deep_view().subrange(start as int, end + 1),
            kind,
        ),
{
    let ghost all = variants.deep_view();
    let mut compact: Option<String> = Some(String::new());
    let mut i: usize = start;
    assert(all.subrange(start as int, start as int) == Seq::<SearchVariants<Seq<char>>>::empty());
    while i <= end
        invariant
            start <= i <= end + 1,
            end < variants.len(),
            all == variants.deep_view(),
            compact.deep_view() == joined(all.subrange(start as int, i as int), kind),
        decreases end + 1 - i,
    {
        proof {
            assert(all[i as int] == variants[i as int].deep_view());
            assert(all.subrange(start as int, i + 1) == all.subrange(start as int, i as int).push(
                all[i as int],
            ));
            joined_grows(all.subrange(start as int, i as int), all[i as int], kind);
        }
        join_part(&mut compact, select_variant(&variants[i], kind));
        i = i + 1;
    }
    match kind {
        PhraseVariantKind::Romaji => compact,
        _ => expand(compact),
    }
}

/// The preferred segmentation of a run of tokens taken by their variants of one kind.
fn segment_run(
    ctx: &SearchContext<'_>,
    variants: &Vec<SearchVariants<String>>,
    start: usize,
    end: usize,
    kind: PhraseVariantKind,
) -> (r: Option<Vec<String>>)
    requires
        start <= end < variants.len(),
    ensures
        r.deep_view() == run_segments(
            ctx.dictionary(),
            variants.deep_view().subrange(start as int, end + 1),
            kind,
        ),
{
    match join_variants(variants, start, end, kind) {
        None => None,
        Some(compact) => {
            if compact.as_str().is_empty() || byte_len(compact.as_str()) > MAX_WORD_LENGTH {
                return None;
            }
            let paths = resegment_indexed_variants(ctx, compact.as_str());
            assert(paths.deep_view().len() == paths@.len());
            if paths.len() == 0 {
                None
            } else {
                assert(paths.deep_view()[0] == paths[0].deep_view());
                Some(paths[0].duplicate())
            }
        },
    }
}

/// The phrase that stands for the tokens taken by their variants of one kind.
pub fn phrase_variant(
    ctx: &SearchContext<'_>,
    variants: &Vec<SearchVariants<String>>,
    kind: PhraseVariantKind,
) -> (r: Option<Phrase>)
    ensures
        r.deep_view() == variant_phrase(ctx.dictionary(), variants.deep_view(), kind),
{
    let ghost view = variants.deep_view();
    let ghost dictionary = ctx.dictionary();
    let ghost all = variant_words_from(dictionary, view, kind, 0);
    let mut output: Vec<Option<String>> = Vec::new();
    let mut changed = false;
    let mut index: usize = 0;
    proof {
        if let Some(words) = all {
            assert(output.deep_view() + words == words);
        }
    }
    while index < variants.len()
        invariant
            index <= variants.len(),
            view == variants.deep_view(),
            dictionary == ctx.dictionary(),
            all == variant_words_from(dictionary, view, kind, 0),
            changed <==> exists|i: int| 0 <= i < index && has_variant(#[trigger] view[i]),
            all == (match variant_words_from(dictionary, view, kind, index as int) {
                Some(rest) => Some(output.deep_view() + rest),
                None => None,
            }),
        decreases variants.len() - index,
    {
        let ghost before = output;
        assert(view[index as int] == variants[index as int].deep_view());
        if !token_has_variant(&variants[index]) {
            output.push(None);
            proof {
                pushing_deepens(before, output, None);
                if let Some(rest) = variant_words_from(dictionary, view, kind, index + 1) {
                    assert(before.deep_view() + (seq![None] + rest) == output.deep_view() + rest);
                }
            }
            index = index + 1;
            continue;
        }
        let run_start: usize = index;
        let mut run_end: usize = index;
        while run_end + 1 < variants.len() && token_has_variant(&variants[run_end + 1])
            invariant
                run_start <= run_end < variants.len(),
                view == variants.deep_view(),
                variant_run_end(view, run_start as int) == variant_run_end(view, run_end as int),
            decreases variants.len() - run_end,
        {
            assert(view[run_end + 1] == variants[run_end + 1].deep_view());
            run_end = run_end + 1;
        }
        proof {
            if run_end + 1 < variants.len() {
                assert(view[run_end + 1] == variants[run_end + 1].deep_view());
            }
            assert(has_variant(view[run_start as int]));
        }
        let segments = match segment_run(ctx, variants, run_start, run_end, kind) {
            Some(segments) => segments,
            None => {
                return None;
            },
        };
        changed = true;
        let mut words = phrase_from_words(&segments).words;
        let ghost added = words;
        output.append(&mut words);
        proof {
            assert(output.deep_view() == before.deep_view() + added.deep_view());
            if let Some(rest) = variant_words_from(dictionary, view, kind, run_end + 1) {
                assert(before.deep_view() + (added.deep_view() + rest) == output.deep_view()
                    + rest);
            }
        }
        index = run_end + 1;
    }
    proof {
        assert(output.deep_view() + Seq::<Option<Seq<char>>>::empty() == output.deep_view());
    }
    if !changed {
        return None;
    }
    Some(Phrase { words: output })
}

/// The different phrases that stand for a phrase that no document holds, taken by the variants of
/// its tokens.
pub open spec fn alternates_of_phrase(
    ctx: SearchContext<'_>,
    original: Seq<Option<Seq<char>>>,
    variants: Seq<SearchVariants<Seq<char>>>,
) -> Result<Seq<Seq<Option<Seq<char>>>>, LookupView> {
    match ctx.phrase_outcome(original) {
        Err(lookup) => Err(lookup),
        Ok(true) => Ok(Seq::empty()),
        Ok(false) => Ok(
            unique_variants(
                SearchVariants {
                    normalized: variant_phrase(
                        ctx.dictionary(),
                        variants,
                        PhraseVariantKind::Normalized,
                    ),
                    phonetic: variant_phrase(
                        ctx.dictionary(),
                        variants,
                        PhraseVariantKind::Phonetic,
                    ),
                    romaji: variant_phrase(ctx.dictionary(), variants, PhraseVariantKind::Romaji),
                },
            ),
        ),
    }
}

/// The different phrases that stand for a phrase that no document holds, taken by the variants of
/// its tokens.
pub fn alternate_phrases(
    ctx: &SearchContext<'_>,
    original: &Phrase,
    variants: &Vec<SearchVariants<String>>,
) -> (r: Result<Vec<Phrase>, Lookup>)
    ensures
        outcome(r) == alternates_of_phrase(*ctx, original.deep_view(), variants.deep_view()),
{
    let mut alternates: Vec<Phrase> = Vec::new();
    assert(alternates.deep_view() == Seq::<Seq<Option<Seq<char>>>>::empty());
    match ctx.has_phrase_docids(original) {
        Err(lookup) => {
            return Err(lookup);
        },
        Ok(found) => {
            if found {
                return Ok(alternates);
            }
        },
    }
    if let Some(phrase) = phrase_variant(ctx, variants, PhraseVariantKind::Normalized) {
        push_once(&mut alternates, phrase);
    }
    if let Some(phrase) = phrase_variant(ctx, variants, PhraseVariantKind::Phonetic) {
        push_once(&mut alternates, phrase);
    }
    if let Some(phrase) = phrase_variant(ctx, variants, PhraseVariantKind::Romaji) {
        push_once(&mut alternates, phrase);
    }
    Ok(alternates)
}

} // verus!
