//! Japanese lexical variants, which indexing and query parsing share.
use vstd::prelude::*;
use vstd::utf8::is_ascii_chars;
use crate::plain::{pushed_once, pushing_deepens, Plain};
use crate::text::{contains_char, trim, trimmed};
use crate::token::{Token, TokenView};

verus! {

/// The Han characters, with the iteration mark and the ideographic zero.
pub open spec fn is_han(c: char) -> bool {
    let u = c as u32;
    ||| 0x3400 <= u <= 0x4DBF
    ||| 0x4E00 <= u <= 0x9FFF
    ||| 0xF900 <= u <= 0xFAFF
    ||| u == 0x3005
    ||| u == 0x3007
}

/// The characters of the Hiragana and Katakana blocks and of their extensions.
pub open spec fn is_kana(c: char) -> bool {
    let u = c as u32;
    ||| 0x3040 <= u <= 0x309F
    ||| 0x30A0 <= u <= 0x30FF
    ||| 0x31F0 <= u <= 0x31FF
    ||| 0x1B000 <= u <= 0x1B16F
}

/// Whether some character of a text is Han.
pub open spec fn has_han(text: Seq<char>) -> bool {
    exists|i: int| 0 <= i < text.len() && is_han(#[trigger] text[i])
}

/// Whether some character of a text is kana.
pub open spec fn has_kana(text: Seq<char>) -> bool {
    exists|i: int| 0 <= i < text.len() && is_kana(#[trigger] text[i])
}

fn han(c: char) -> (b: bool)
    ensures
        b == is_han(c),
{
    let u: u32 = c as u32;
    (0x3400 <= u && u <= 0x4DBF) || (0x4E00 <= u && u <= 0x9FFF) || (0xF900 <= u && u <= 0xFAFF)
        || u == 0x3005 || u == 0x3007
}

fn kana(c: char) -> (b: bool)
    ensures
        b == is_kana(c),
{
    let u: u32 = c as u32;
    (0x3040 <= u && u <= 0x309F) || (0x30A0 <= u && u <= 0x30FF) || (0x31F0 <= u && u <= 0x31FF)
        || (0x1B000 <= u && u <= 0x1B16F)
}

/// Whether some character of the text is Han.
pub fn contains_han(text: &str) -> (b: bool)
    ensures
        b == has_han(text@),
{
    for c in it: text.chars()
        invariant
            it.seq() == text@,
            forall|j: int| 0 <= j < it.index() ==> !is_han(#[trigger] text@[j]),
    {
        if han(c) {
            assert(is_han(text@[it.index()]));
            return true;
        }
    }
    false
}

/// Whether some character of the text is kana.
pub fn contains_kana(text: &str) -> (b: bool)
    ensures
        b == has_kana(text@),
{
    for c in it: text.chars()
        invariant
            it.seq() == text@,
            forall|j: int| 0 <= j < it.index() ==> !is_kana(#[trigger] text@[j]),
    {
        if kana(c) {
            assert(is_kana(text@[it.index()]));
            return true;
        }
    }
    false
}

/// The hiragana whose vowel is `a`.
pub const A_ROW: &'static str = "あかがさざただなはばぱまゃやらゎわぁ";

/// The hiragana whose vowel is `i`.
pub const I_ROW: &'static str = "いきぎしじちぢにひびぴみりゐぃ";

/// The hiragana whose vowel is `u`.
pub const U_ROW: &'static str = "うくぐすずつづぬふぶぷむゅゆるゔぅ";

/// The hiragana whose vowel is `e`.
pub const E_ROW: &'static str = "えけげせぜてでねへべぺめれゑぇ";

/// The hiragana whose vowel is `o`.
pub const O_ROW: &'static str = "おこごそぞとどのほぼぽもょよろをぉ";

/// The vowel that a long mark after a kana stands for.
///
/// After a kana of the `o` row it is う, as the normalization of katakana commonly expands the
/// mark (コール becomes こうる).
pub open spec fn vowel_after(previous: char) -> Option<char> {
    if A_ROW@.contains(previous) {
        Some('あ')
    } else if I_ROW@.contains(previous) {
        Some('い')
    } else if U_ROW@.contains(previous) {
        Some('う')
    } else if E_ROW@.contains(previous) {
        Some('え')
    } else if O_ROW@.contains(previous) {
        Some('う')
    } else {
        None
    }
}

/// The vowel that a long mark after the kana `previous` stands for.
pub fn prolonged_vowel(previous: char) -> (vowel: Option<char>)
    ensures
        vowel == vowel_after(previous),
{
    if contains_char(A_ROW, previous) {
        Some('あ')
    } else if contains_char(I_ROW, previous) {
        Some('い')
    } else if contains_char(U_ROW, previous) {
        Some('う')
    } else if contains_char(E_ROW, previous) {
        Some('え')
    } else if contains_char(O_ROW, previous) {
        Some('う')
    } else {
        None
    }
}

/// A kana that a following long mark can prolong: neither the long mark itself nor a combining
/// voiced or semi-voiced sound mark.
pub open spec fn is_base_kana(c: char) -> bool {
    is_kana(c) && c != 'ー' && c != '\u{3099}' && c != '\u{309A}'
}

/// The last kana of a text that a long mark after the text would prolong.
pub open spec fn last_base_kana(text: Seq<char>) -> Option<char>
    decreases text.len(),
{
    if text.len() == 0 {
        None
    } else if is_base_kana(text.last()) {
        Some(text.last())
    } else {
        last_base_kana(text.drop_last())
    }
}

/// What stands for the character `c` after an expanded text.
pub open spec fn expanded(before: Seq<char>, c: char) -> char {
    if c != 'ー' {
        c
    } else {
        match last_base_kana(before) {
            Some(kana) => match vowel_after(kana) {
                Some(vowel) => vowel,
                None => c,
            },
            None => c,
        }
    }
}

/// A reading with each long mark replaced by the vowel that it prolongs, where there is one.
pub open spec fn compact_reading(text: Seq<char>) -> Seq<char>
    decreases text.len(),
{
    if text.len() == 0 {
        text
    } else {
        let before = compact_reading(text.drop_last());
        before.push(expanded(before, text.last()))
    }
}

/// Replaces each long mark of a reading by the vowel that it prolongs, where there is one.
pub fn normalize_compact_reading(text: &str) -> (normalized: String)
    ensures
        normalized@ == compact_reading(text@),
{
    let mut normalized = String::new();
    let mut previous_kana: Option<char> = None;
    for c in it: text.chars()
        invariant
            it.seq() == text@,
            normalized@ == compact_reading(text@.take(it.index())),
            previous_kana == last_base_kana(normalized@),
    {
        let ghost before = normalized@;
        assert(text@.take(it.index() + 1).drop_last() == text@.take(it.index()));
        assert(c == text@[it.index()]);
        if c == 'ー' {
            let vowel = match previous_kana {
                Some(kana) => prolonged_vowel(kana),
                None => None,
            };
            match vowel {
                Some(vowel) => {
                    normalized.push(vowel);
                    previous_kana = Some(vowel);
                },
                None => {
                    normalized.push(c);
                },
            }
        } else {
            normalized.push(c);
            if kana(c) && c != '\u{3099}' && c != '\u{309A}' {
                previous_kana = Some(c);
            }
        }
        assert(normalized@.drop_last() == before);
    }
    assert(text@.take(text@.len() as int) == text@);
    normalized
}

/// Expanding long marks keeps the number of characters.
pub proof fn compact_reading_keeps_length(text: Seq<char>)
    ensures
        compact_reading(text).len() == text.len(),
    decreases text.len(),
{
    if text.len() > 0 {
        compact_reading_keeps_length(text.drop_last());
    }
}

/// Only long marks are replaced.
pub proof fn compact_reading_replaces_only_long_marks(text: Seq<char>, i: int)
    requires
        0 <= i < text.len(),
        text[i] != 'ー',
    ensures
        compact_reading(text).len() == text.len(),
        compact_reading(text)[i] == text[i],
    decreases text.len(),
{
    compact_reading_keeps_length(text);
    compact_reading_keeps_length(text.drop_last());
    if i < text.len() - 1 {
        compact_reading_replaces_only_long_marks(text.drop_last(), i);
    }
}

/// A long mark prolongs the last kana before it, whatever other characters, combining sound marks
/// among them, stand between the two.
pub proof fn long_marks_look_past_other_characters(text: Seq<char>, c: char)
    requires
        c != 'ー',
        !is_base_kana(c),
    ensures
        compact_reading(text.push(c).push('ー')).last() == compact_reading(
            text.push('ー'),
        ).last(),
{
    assert(text.push('ー').drop_last() == text);
    assert(text.push(c).drop_last() == text);
    assert(text.push(c).push('ー').drop_last() == text.push(c));
    let before = compact_reading(text);
    assert(compact_reading(text.push(c)) == before.push(c));
    assert(before.push(c).drop_last() == before);
}

/// What a reading expands to does not depend on what follows it.
pub proof fn compact_reading_of_a_prefix(text: Seq<char>, n: int)
    requires
        0 <= n <= text.len(),
    ensures
        compact_reading(text.take(n)) == compact_reading(text).take(n),
    decreases text.len() - n,
{
    compact_reading_keeps_length(text);
    if n == text.len() {
        assert(text.take(n) == text);
        assert(compact_reading(text).take(n) == compact_reading(text));
    } else {
        compact_reading_of_a_prefix(text, n + 1);
        compact_reading_keeps_length(text.take(n));
        assert(text.take(n + 1).drop_last() == text.take(n));
        assert(compact_reading(text.take(n + 1)).drop_last() == compact_reading(text.take(n)));
        assert(compact_reading(text).take(n + 1).drop_last() == compact_reading(text).take(n));
    }
}

/// Expanding an expanded reading changes nothing.
pub proof fn compact_reading_is_idempotent(text: Seq<char>)
    ensures
        compact_reading(compact_reading(text)) == compact_reading(text),
    decreases text.len(),
{
    if text.len() > 0 {
        compact_reading_is_idempotent(text.drop_last());
        let before = compact_reading(text.drop_last());
        assert(compact_reading(text).drop_last() == before);
    }
}

/// The forms, beside its own, under which a word can be searched for.
#[derive(Debug)]
pub struct SearchVariants<T> {
    pub normalized: Option<T>,
    pub phonetic: Option<T>,
    pub romaji: Option<T>,
}

impl<T: DeepView> DeepView for SearchVariants<T> {
    type V = SearchVariants<T::V>;

    open spec fn deep_view(&self) -> SearchVariants<T::V> {
        SearchVariants {
            normalized: self.normalized.deep_view(),
            phonetic: self.phonetic.deep_view(),
            romaji: self.romaji.deep_view(),
        }
    }
}

impl<T> Default for SearchVariants<T> {
    fn default() -> (r: Self)
        ensures
            r == (SearchVariants::<T> { normalized: None, phonetic: None, romaji: None }),
    {
        SearchVariants { normalized: None, phonetic: None, romaji: None }
    }
}

/// What applying a function to an optional value may give.
pub open spec fn mapped<T, U, F: FnMut(T) -> U>(f: F, before: Option<T>, after: Option<U>) -> bool {
    match before {
        Some(value) => after matches Some(image) && call_ensures(f, (value,), image),
        None => after is None,
    }
}

impl<T> SearchVariants<T> {
    /// Applies a function to each variant that there is.
    pub fn map<U>(self, mut f: impl FnMut(T) -> U) -> (r: SearchVariants<U>)
        requires
            self.normalized matches Some(value) ==> call_requires(f, (value,)),
            self.phonetic matches Some(value) ==> call_requires(f, (value,)),
            self.romaji matches Some(value) ==> call_requires(f, (value,)),
        ensures
            mapped(f, self.normalized, r.normalized),
            mapped(f, self.phonetic, r.phonetic),
            mapped(f, self.romaji, r.romaji),
    {
        let normalized = match self.normalized {
            Some(value) => Some(f(value)),
            None => None,
        };
        let phonetic = match self.phonetic {
            Some(value) => Some(f(value)),
            None => None,
        };
        let romaji = match self.romaji {
            Some(value) => Some(f(value)),
            None => None,
        };
        SearchVariants { normalized, phonetic, romaji }
    }
}

/// A sequence of variants extended by an optional one that it does not hold yet.
pub open spec fn with_variant<T>(variants: Seq<T>, variant: Option<T>) -> Seq<T> {
    match variant {
        Some(value) => pushed_once(variants, value),
        None => variants,
    }
}

/// The different variants, in the order normalized, phonetic, romaji.
pub open spec fn unique_variants<T>(variants: SearchVariants<T>) -> Seq<T> {
    with_variant(
        with_variant(with_variant(Seq::empty(), variants.normalized), variants.phonetic),
        variants.romaji,
    )
}

/// Extends a list of variants by an optional one, unless the list holds it.
fn push_variant<'a, T: Plain>(values: &mut Vec<&'a T>, value: &'a Option<T>)
    ensures
        final(values).deep_view() == with_variant(old(values).deep_view(), value.deep_view()),
{
    if let Some(variant) = value {
        let ghost before = *values;
        let mut i: usize = 0;
        while i < values.len()
            invariant
                *values == before,
                before == *old(values),
                value.deep_view() == Some(variant.deep_view()),
                i <= values.len(),
                forall|j: int| 0 <= j < i ==> values.deep_view()[j] != variant.deep_view(),
            decreases values.len() - i,
        {
            if values[i].same(variant) {
                assert(values.deep_view()[i as int] == variant.deep_view());
                return;
            }
            i = i + 1;
        }
        values.push(variant);
        proof {
            pushing_deepens(before, *values, variant);
        }
    }
}

impl<T: Plain> SearchVariants<T> {
    /// The different variants, in the order normalized, phonetic, romaji.
    pub fn iter_unique(&self) -> (values: Vec<&T>)
        ensures
            values.deep_view() == unique_variants(self.deep_view()),
    {
        let mut values: Vec<&T> = Vec::new();
        assert(values.deep_view() == Seq::<T::V>::empty());
        push_variant(&mut values, &self.normalized);
        push_variant(&mut values, &self.phonetic);
        push_variant(&mut values, &self.romaji);
        values
    }
}

impl<T: Plain> Plain for SearchVariants<T> {
    fn duplicate(&self) -> (r: Self) {
        SearchVariants {
            normalized: self.normalized.duplicate(),
            phonetic: self.phonetic.duplicate(),
            romaji: self.romaji.duplicate(),
        }
    }

    fn same(&self, other: &Self) -> (b: bool) {
        self.normalized.same(&other.normalized) && self.phonetic.same(&other.phonetic)
            && self.romaji.same(&other.romaji)
    }
}

/// No variant is listed twice, and each variant is listed.
pub proof fn unique_variants_are_the_variants<T>(variants: SearchVariants<T>, value: T)
    ensures
        unique_variants(variants).no_duplicates(),
        unique_variants(variants).contains(value) <==> variants.normalized == Some(value)
            || variants.phonetic == Some(value) || variants.romaji == Some(value),
{
    let none = Seq::<T>::empty();
    let one = with_variant(none, variants.normalized);
    let two = with_variant(one, variants.phonetic);
    adding_a_variant(none, variants.normalized, value);
    adding_a_variant(one, variants.phonetic, value);
    adding_a_variant(two, variants.romaji, value);
}

proof fn adding_a_variant<T>(variants: Seq<T>, variant: Option<T>, value: T)
    requires
        variants.no_duplicates(),
    ensures
        with_variant(variants, variant).no_duplicates(),
        with_variant(variants, variant).contains(value) <==> variants.contains(value) || variant
            == Some(value),
{
    if let Some(added) = variant {
        if !variants.contains(added) {
            let after = variants.push(added);
            assert(after[variants.len() as int] == added);
            if variants.contains(value) {
                let i = choose|i: int| 0 <= i < variants.len() && variants[i] == value;
                assert(after[i] == value);
            }
        }
    }
}

/// The first alternate that is not empty once trimmed and that is made of ASCII characters, or
/// of others, as asked; trimmed.
pub open spec fn first_alternate(alternates: Seq<Seq<char>>, ascii: bool) -> Option<Seq<char>>
    decreases alternates.len(),
{
    if alternates.len() == 0 {
        None
    } else {
        let alternate = trimmed(alternates[0]);
        if alternate.len() > 0 && is_ascii_chars(alternate) == ascii {
            Some(alternate)
        } else {
            first_alternate(alternates.drop_first(), ascii)
        }
    }
}

/// The variants of a token: its own kana form, and the forms that its reading gives.
pub open spec fn variants_of(token: TokenView) -> SearchVariants<Seq<char>> {
    let lemma = trimmed(token.lemma);
    let surface = if !has_han(lemma) && has_kana(lemma) {
        Some(lemma)
    } else {
        None
    };
    match token.alternates {
        None => SearchVariants { normalized: surface, phonetic: None, romaji: None },
        Some(alternates) => {
            let phonetic = first_alternate(alternates, false);
            SearchVariants {
                normalized: if has_han(lemma) {
                    phonetic
                } else {
                    surface
                },
                phonetic,
                romaji: first_alternate(alternates, true),
            }
        },
    }
}

/// The variants of a token: its own kana form, and the forms that its reading gives.
pub fn search_variants(token: &Token) -> (variants: SearchVariants<String>)
    ensures
        variants.deep_view() == variants_of(token.deep_view()),
{
    let lemma = trim(token.lemma());
    let lemma_has_han = contains_han(lemma.as_str());
    let surface_normalized = if !lemma_has_han && contains_kana(lemma.as_str()) {
        Some(lemma)
    } else {
        None
    };
    let alternates = match &token.alternates {
        None => {
            return SearchVariants {
                normalized: surface_normalized,
                phonetic: None,
                romaji: None,
            };
        },
        Some(alternates) => alternates,
    };
    let mut phonetic: Option<String> = None;
    let mut romaji: Option<String> = None;
    let ghost all = alternates.deep_view();
    let mut i: usize = 0;
    assert(all.skip(0) == all);
    while i < alternates.len()
        invariant
            i <= alternates.len(),
            all == alternates.deep_view(),
            first_alternate(all, false) == (if phonetic is Some {
                phonetic.deep_view()
            } else {
                first_alternate(all.skip(i as int), false)
            }),
            first_alternate(all, true) == (if romaji is Some {
                romaji.deep_view()
            } else {
                first_alternate(all.skip(i as int), true)
            }),
        decreases alternates.len() - i,
    {
        let alternate = trim(alternates[i].as_str());
        assert(alternate@ == trimmed(all.skip(i as int)[0]));
        assert(all.skip(i as int).drop_first() == all.skip(i + 1));
        i = i + 1;
        if alternate.as_str().is_empty() {
            continue;
        }
        if alternate.as_str().is_ascii() {
            if romaji.is_none() {
                romaji = Some(alternate);
            }
        } else {
            if phonetic.is_none() {
                phonetic = Some(alternate);
            }
        }
    }
    let normalized = if lemma_has_han {
        phonetic.clone()
    } else {
        surface_normalized
    };
    SearchVariants { normalized, phonetic, romaji }
}

} // verus!
