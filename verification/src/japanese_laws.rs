//! What holds of Japanese readings and variants.
use vstd::prelude::*;
use vstd::utf8::is_ascii_chars;
use crate::japanese::{
    compact_reading, compact_reading_keeps_length, expanded, first_alternate, is_base_kana, is_han,
    is_kana, last_base_kana, unique_variants, variants_of, vowel_after, SearchVariants, A_ROW,
    E_ROW, I_ROW, O_ROW, U_ROW,
};
use crate::text::trimmed;
use crate::token::TokenView;

verus! {

/// Han and kana are told apart by their blocks: no character is both, the ideographs, the iteration
/// mark and the ideographic zero are Han, and hiragana and katakana with their extensions are kana.
pub proof fn scripts_have_blocks(c: char)
    ensures
        !(is_han(c) && is_kana(c)),
        is_han(c) <==> ({
            let u = c as u32;
            (13312 <= u <= 19903) || (19968 <= u <= 40959) || (63744 <= u <= 64255) || c == '々' || c
                == '〇'
        }),
        is_kana(c) <==> ({
            let u = c as u32;
            (12352 <= u <= 12543) || (12784 <= u <= 12799) || (110592 <= u <= 110959)
        }),
{
    assert('々' as u32 == 0x3005);
    assert('〇' as u32 == 0x3007);
}

/// Whether a character is one of some.
pub open spec fn is_one_of(c: char, chars: Seq<char>) -> bool {
    exists|i: int| 0 <= i < chars.len() && #[trigger] chars[i] == c
}

/// The vowel that a long mark after a kana stands for is that of its row; after the last row it is
/// the third vowel. Other characters have none.
pub proof fn rows_have_vowels(c: char)
    ensures
        is_one_of(
            c,
            seq![
                'あ', 'か', 'が', 'さ', 'ざ', 'た', 'だ', 'な', 'は', 'ば', 'ぱ', 'ま', 'ゃ', 'や',
                'ら', 'ゎ', 'わ', 'ぁ',
            ],
        ) <==> vowel_after(c) == Some('あ'),
        is_one_of(
            c,
            seq![
                'い', 'き', 'ぎ', 'し', 'じ', 'ち', 'ぢ', 'に', 'ひ', 'び', 'ぴ', 'み', 'り', 'ゐ',
                'ぃ',
            ],
        ) <==> vowel_after(c) == Some('い'),
        is_one_of(
            c,
            seq![
                'う', 'く', 'ぐ', 'す', 'ず', 'つ', 'づ', 'ぬ', 'ふ', 'ぶ', 'ぷ', 'む', 'ゅ', 'ゆ',
                'る', 'ゔ', 'ぅ',
            ],
        ) || is_one_of(
            c,
            seq![
                'お', 'こ', 'ご', 'そ', 'ぞ', 'と', 'ど', 'の', 'ほ', 'ぼ', 'ぽ', 'も', 'ょ', 'よ',
                'ろ', 'を', 'ぉ',
            ],
        ) <==> vowel_after(c) == Some('う'),
        is_one_of(
            c,
            seq![
                'え', 'け', 'げ', 'せ', 'ぜ', 'て', 'で', 'ね', 'へ', 'べ', 'ぺ', 'め', 'れ', 'ゑ',
                'ぇ',
            ],
        ) <==> vowel_after(c) == Some('え'),
        vowel_after(c) matches Some(v) ==> v == 'あ' || v == 'い' || v == 'う' || v == 'え',
{
    reveal_strlit("あかがさざただなはばぱまゃやらゎわぁ");
    reveal_strlit("いきぎしじちぢにひびぴみりゐぃ");
    reveal_strlit("うくぐすずつづぬふぶぷむゅゆるゔぅ");
    reveal_strlit("えけげせぜてでねへべぺめれゑぇ");
    reveal_strlit("おこごそぞとどのほぼぽもょよろをぉ");
    let a = seq![
        'あ', 'か', 'が', 'さ', 'ざ', 'た', 'だ', 'な', 'は', 'ば', 'ぱ', 'ま', 'ゃ', 'や', 'ら',
        'ゎ', 'わ', 'ぁ',
    ];
    let i = seq![
        'い', 'き', 'ぎ', 'し', 'じ', 'ち', 'ぢ', 'に', 'ひ', 'び', 'ぴ', 'み', 'り', 'ゐ', 'ぃ',
    ];
    let u = seq![
        'う', 'く', 'ぐ', 'す', 'ず', 'つ', 'づ', 'ぬ', 'ふ', 'ぶ', 'ぷ', 'む', 'ゅ', 'ゆ', 'る',
        'ゔ', 'ぅ',
    ];
    let e = seq![
        'え', 'け', 'げ', 'せ', 'ぜ', 'て', 'で', 'ね', 'へ', 'べ', 'ぺ', 'め', 'れ', 'ゑ', 'ぇ',
    ];
    let o = seq![
        'お', 'こ', 'ご', 'そ', 'ぞ', 'と', 'ど', 'の', 'ほ', 'ぼ', 'ぽ', 'も', 'ょ', 'よ', 'ろ',
        'を', 'ぉ',
    ];
    assert(A_ROW@ =~= a);
    assert(I_ROW@ =~= i);
    assert(U_ROW@ =~= u);
    assert(E_ROW@ =~= e);
    assert(O_ROW@ =~= o);
    rows_are_disjoint(c, a, i);
    rows_are_disjoint(c, a, u);
    rows_are_disjoint(c, a, e);
    rows_are_disjoint(c, a, o);
    rows_are_disjoint(c, i, u);
    rows_are_disjoint(c, i, e);
    rows_are_disjoint(c, i, o);
    rows_are_disjoint(c, u, e);
    rows_are_disjoint(c, u, o);
    rows_are_disjoint(c, e, o);
    assert(is_one_of(c, a) <==> a.contains(c));
    assert(is_one_of(c, i) <==> i.contains(c));
    assert(is_one_of(c, u) <==> u.contains(c));
    assert(is_one_of(c, e) <==> e.contains(c));
    assert(is_one_of(c, o) <==> o.contains(c));
}

proof fn rows_are_disjoint(c: char, left: Seq<char>, right: Seq<char>)
    requires
        forall|i: int, j: int|
            #![trigger left[i], right[j]]
            0 <= i < left.len() && 0 <= j < right.len() ==> left[i] != right[j],
    ensures
        !(left.contains(c) && right.contains(c)),
{
}

proof fn last_base_kana_is_last(text: Seq<char>, j: int)
    requires
        0 <= j < text.len(),
        is_base_kana(text[j]),
        forall|k: int| j < k < text.len() ==> !is_base_kana(#[trigger] text[k]),
    ensures
        last_base_kana(text) == Some(text[j]),
    decreases text.len(),
{
    if j < text.len() - 1 {
        let before = text.drop_last();
        assert(!is_base_kana(text[text.len() - 1]));
        assert forall|k: int| j < k < before.len() implies !is_base_kana(#[trigger] before[k]) by {
            assert(before[k] == text[k]);
        }
        last_base_kana_is_last(before, j);
    }
}

proof fn no_base_kana_is_last(text: Seq<char>)
    requires
        forall|k: int| 0 <= k < text.len() ==> !is_base_kana(#[trigger] text[k]),
    ensures
        last_base_kana(text) is None,
    decreases text.len(),
{
    if text.len() > 0 {
        let before = text.drop_last();
        assert(!is_base_kana(text[text.len() - 1]));
        assert forall|k: int| 0 <= k < before.len() implies !is_base_kana(#[trigger] before[k]) by {
            assert(before[k] == text[k]);
        }
        no_base_kana_is_last(before);
    }
}

proof fn compact_reading_at(text: Seq<char>, i: int)
    requires
        0 <= i < text.len(),
    ensures
        compact_reading(text).len() == text.len(),
        compact_reading(text)[i] == expanded(compact_reading(text).take(i), text[i]),
    decreases text.len(),
{
    compact_reading_keeps_length(text);
    compact_reading_keeps_length(text.drop_last());
    let before = compact_reading(text.drop_last());
    if i == text.len() - 1 {
        assert(compact_reading(text).take(i) == before);
    } else {
        compact_reading_at(text.drop_last(), i);
        assert(compact_reading(text).take(i) == before.take(i));
    }
}

/// Whether a character can be prolonged: it is kana, and neither a long mark nor a combining sound
/// mark.
pub open spec fn can_be_prolonged(c: char) -> bool {
    is_kana(c) && c != 'ー' && c != '\u{3099}' && c != '\u{309A}'
}

/// In an expanded reading, a long mark is replaced by the vowel of the nearest kana before it that
/// can be prolonged. Where that has no vowel, or where there is none, the mark stays. Each other
/// character stays.
pub proof fn long_marks_take_the_vowel_before(text: Seq<char>, i: int, j: int)
    requires
        0 <= i < text.len(),
    ensures
        compact_reading(text).len() == text.len(),
        text[i] != 'ー' ==> compact_reading(text)[i] == text[i],
        text[i] == 'ー' && 0 <= j < i && can_be_prolonged(compact_reading(text)[j]) && (forall|
            k: int,
        |
            j < k < i ==> !can_be_prolonged(#[trigger] compact_reading(text)[k]))
            ==> compact_reading(text)[i] == (match vowel_after(compact_reading(text)[j]) {
            Some(vowel) => vowel,
            None => 'ー',
        }),
        text[i] == 'ー' && (forall|k: int|
            0 <= k < i ==> !can_be_prolonged(#[trigger] compact_reading(text)[k]))
            ==> compact_reading(text)[i] == 'ー',
{
    compact_reading_at(text, i);
    let all = compact_reading(text);
    let before = all.take(i);
    if text[i] == 'ー' && 0 <= j < i && can_be_prolonged(all[j]) && (forall|k: int|
        j < k < i ==> !can_be_prolonged(#[trigger] all[k])) {
        assert forall|k: int| j < k < before.len() implies !is_base_kana(#[trigger] before[k]) by {
            assert(before[k] == all[k]);
            assert(!can_be_prolonged(all[k]));
        }
        assert(is_base_kana(before[j])) by {
            assert(before[j] == all[j]);
        }
        last_base_kana_is_last(before, j);
    }
    if text[i] == 'ー' && (forall|k: int| 0 <= k < i ==> !can_be_prolonged(#[trigger] all[k])) {
        assert forall|k: int| 0 <= k < before.len() implies !is_base_kana(#[trigger] before[k]) by {
            assert(before[k] == all[k]);
            assert(!can_be_prolonged(all[k]));
        }
        no_base_kana_is_last(before);
    }
}

/// Variants are listed in the order normalized, phonetic, romaji, each at its first place.
pub proof fn variants_are_listed_in_order<T>(variants: SearchVariants<T>)
    ensures
        match (variants.normalized, variants.phonetic, variants.romaji) {
            (None, None, None) => unique_variants(variants) == Seq::<T>::empty(),
            (Some(a), None, None) => unique_variants(variants) == seq![a],
            (None, Some(b), None) => unique_variants(variants) == seq![b],
            (None, None, Some(c)) => unique_variants(variants) == seq![c],
            (Some(a), Some(b), None) => unique_variants(variants) == (if a == b {
                seq![a]
            } else {
                seq![a, b]
            }),
            (Some(a), None, Some(c)) => unique_variants(variants) == (if a == c {
                seq![a]
            } else {
                seq![a, c]
            }),
            (None, Some(b), Some(c)) => unique_variants(variants) == (if b == c {
                seq![b]
            } else {
                seq![b, c]
            }),
            (Some(a), Some(b), Some(c)) => {
                &&& a == b && b == c ==> unique_variants(variants) == seq![a]
                &&& a == b && b != c ==> unique_variants(variants) == seq![a, c]
                &&& a != b && (c == a || c == b) ==> unique_variants(variants) == seq![a, b]
                &&& a != b && c != a && c != b ==> unique_variants(variants) == seq![a, b, c]
            },
        },
{
    let all = unique_variants(variants);
    match (variants.normalized, variants.phonetic, variants.romaji) {
        (Some(a), Some(b), _) => {
            assert(seq![a].contains(b) == (a == b)) by {
                assert(seq![a][0] == a);
            }
            assert(seq![a].push(b) =~= seq![a, b]);
            assert(Seq::<T>::empty().push(a) =~= seq![a]);
            if let Some(c) = variants.romaji {
                assert(seq![a].contains(c) == (a == c)) by {
                    assert(seq![a][0] == a);
                }
                assert(seq![a, b].contains(c) == (a == c || b == c)) by {
                    assert(seq![a, b][0] == a && seq![a, b][1] == b);
                }
                assert(seq![a].push(c) =~= seq![a, c]);
                assert(seq![a, b].push(c) =~= seq![a, b, c]);
            }
        },
        (Some(a), None, Some(c)) => {
            assert(Seq::<T>::empty().push(a) =~= seq![a]);
            assert(seq![a].contains(c) == (a == c)) by {
                assert(seq![a][0] == a);
            }
            assert(seq![a].push(c) =~= seq![a, c]);
        },
        (None, Some(b), Some(c)) => {
            assert(Seq::<T>::empty().push(b) =~= seq![b]);
            assert(seq![b].contains(c) == (b == c)) by {
                assert(seq![b][0] == b);
            }
            assert(seq![b].push(c) =~= seq![b, c]);
        },
        (Some(a), None, None) => {
            assert(Seq::<T>::empty().push(a) =~= seq![a]);
        },
        (None, Some(b), None) => {
            assert(Seq::<T>::empty().push(b) =~= seq![b]);
        },
        (None, None, Some(c)) => {
            assert(Seq::<T>::empty().push(c) =~= seq![c]);
        },
        _ => {},
    }
}

/// Whether an alternate is the first of some that is not empty once trimmed, and that is made of
/// ASCII characters alone, or not, as asked.
pub open spec fn is_first_alternate(
    alternates: Seq<Seq<char>>,
    ascii: bool,
    k: int,
    alternate: Seq<char>,
) -> bool {
    &&& 0 <= k < alternates.len()
    &&& alternate == trimmed(alternates[k])
    &&& alternate.len() > 0
    &&& is_ascii_chars(alternate) == ascii
    &&& forall|j: int|
        0 <= j < k ==> trimmed(#[trigger] alternates[j]).len() == 0 || is_ascii_chars(
            trimmed(alternates[j]),
        ) != ascii
}

proof fn first_alternate_is_first(alternates: Seq<Seq<char>>, ascii: bool) -> (k: int)
    ensures
        first_alternate(alternates, ascii) is Some ==> is_first_alternate(
            alternates,
            ascii,
            k,
            first_alternate(alternates, ascii)->0,
        ),
        first_alternate(alternates, ascii) is None ==> forall|j: int|
            0 <= j < alternates.len() ==> trimmed(#[trigger] alternates[j]).len() == 0
                || is_ascii_chars(trimmed(alternates[j])) != ascii,
    decreases alternates.len(),
{
    if alternates.len() == 0 {
        0
    } else {
        let rest = alternates.drop_first();
        let here = trimmed(alternates[0]);
        if here.len() > 0 && is_ascii_chars(here) == ascii {
            0
        } else {
            let k = first_alternate_is_first(rest, ascii);
            assert forall|j: int|
                0 <= j < alternates.len() && (first_alternate(rest, ascii) is None || j
                    <= k) implies trimmed(#[trigger] alternates[j]).len() == 0 || is_ascii_chars(
                trimmed(alternates[j]),
            ) != ascii by {
                if j > 0 {
                    assert(rest[j - 1] == alternates[j]);
                }
            }
            k + 1
        }
    }
}

/// The variants of a token follow its script. With a Han character, whatever else it holds, it is
/// normalized to its reading, if it has one. With kana and no Han character it is normalized to
/// itself, and without either it is not normalized. Its reading is the first alternate that is
/// neither empty nor ASCII, and its Latin form the first that is ASCII and not empty.
pub proof fn variants_follow_the_script(token: TokenView)
    ensures
        ({
            let lemma = trimmed(token.lemma);
            let variants = variants_of(token);
            let some_han = exists|i: int| 0 <= i < lemma.len() && is_han(#[trigger] lemma[i]);
            let some_kana = exists|i: int| 0 <= i < lemma.len() && is_kana(#[trigger] lemma[i]);
            &&& some_han ==> variants.normalized == variants.phonetic
            &&& !some_han && some_kana ==> variants.normalized == Some(lemma)
            &&& !some_han && !some_kana ==> variants.normalized is None
            &&& token.alternates is None ==> variants.phonetic is None && variants.romaji is None
            &&& token.alternates matches Some(alternates) ==> {
                &&& match variants.phonetic {
                    Some(word) => exists|k: int| #[trigger]
                        is_first_alternate(alternates, false, k, word),
                    None => forall|j: int|
                        0 <= j < alternates.len() ==> trimmed(#[trigger] alternates[j]).len() == 0
                            || is_ascii_chars(trimmed(alternates[j])),
                }
                &&& match variants.romaji {
                    Some(word) => exists|k: int| #[trigger]
                        is_first_alternate(alternates, true, k, word),
                    None => forall|j: int|
                        0 <= j < alternates.len() ==> trimmed(#[trigger] alternates[j]).len() == 0
                            || !is_ascii_chars(trimmed(alternates[j])),
                }
            }
        }),
{
    if let Some(alternates) = token.alternates {
        let phonetic = first_alternate_is_first(alternates, false);
        let romaji = first_alternate_is_first(alternates, true);
        assert(variants_of(token).phonetic matches Some(word) ==> is_first_alternate(
            alternates,
            false,
            phonetic,
            word,
        ));
        assert(variants_of(token).romaji matches Some(word) ==> is_first_alternate(
            alternates,
            true,
            romaji,
            word,
        ));
    }
}

} // verus!
