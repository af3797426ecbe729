//! What a value of a document gives: all its words and their alternates, at their positions.
use vstd::prelude::*;
use vstd::utf8::encode_utf8;
use charabia::Language;
use crate::document::{
    codes_of, locales_of, start_position, DocumentAnswers, DocumentLookupView, DocumentTokenizer,
    DocumentView, FieldValue, LocalizedAttributesRule, LocalizedTextView, PatternMatch,
};
use crate::field_terms::{
    alternate_terms, last_position, terms_of_word, terms_of_words, FieldTermView, SearchTermKind,
};
use crate::positions::{placed_words, words_before, PlacedView};
use crate::text::trimmed;
use crate::token::{TokenKind, TokenView};
use crate::tokenizer::{code_of, pieces_of, pieces_with_allow_list};

verus! {

/// Whether a word can be a key of the index: it is not empty and has 250 bytes at most.
pub open spec fn can_be_a_key(word: Seq<char>) -> bool {
    word.len() > 0 && encode_utf8(word).len() <= 250
}

/// Whether a term is the word itself, without the white space around it.
pub open spec fn is_the_word(
    term: FieldTermView,
    field_name: Seq<char>,
    field_id: u16,
    word: PlacedView,
) -> bool {
    &&& can_be_a_key(trimmed(word.token.lemma))
    &&& word.position <= 65535
    &&& term.field_name == field_name
    &&& term.field_id == field_id
    &&& term.position == word.position
    &&& term.word == trimmed(word.token.lemma)
    &&& term.kind == SearchTermKind::Original
}

/// Whether a term is the `a`-th alternate of a word, without the white space around it.
pub open spec fn is_alternate_of(
    term: FieldTermView,
    field_name: Seq<char>,
    field_id: u16,
    word: PlacedView,
    a: int,
) -> bool {
    &&& can_be_a_key(trimmed(word.token.lemma))
    &&& word.position <= 65535
    &&& word.token.alternates matches Some(alternates)
    &&& 0 <= a < alternates.len()
    &&& trimmed(alternates[a]) != trimmed(word.token.lemma)
    &&& can_be_a_key(trimmed(alternates[a]))
    &&& term.field_name == field_name
    &&& term.field_id == field_id
    &&& term.position == word.position
    &&& term.word == trimmed(alternates[a])
    &&& term.kind == SearchTermKind::Alternate
}

proof fn every_alternate_is_listed(
    field_name: Seq<char>,
    field_id: u16,
    position: int,
    lemma: Seq<char>,
    alternates: Seq<Seq<char>>,
    term: FieldTermView,
)
    ensures
        alternate_terms(field_name, field_id, position, lemma, alternates).contains(term) <==> (
        exists|a: int|
            0 <= a < alternates.len() && trimmed(#[trigger] alternates[a]) != lemma && can_be_a_key(
                trimmed(alternates[a]),
            ) && term.word == trimmed(alternates[a])) && term.field_name == field_name
            && term.field_id == field_id && term.position == position && term.kind
            == SearchTermKind::Alternate,
    decreases alternates.len(),
{
    let all = alternate_terms(field_name, field_id, position, lemma, alternates);
    let fits = term.field_name == field_name && term.field_id == field_id && term.position
        == position && term.kind == SearchTermKind::Alternate;
    if alternates.len() > 0 {
        let first = alternates.drop_last();
        let before = alternate_terms(field_name, field_id, position, lemma, first);
        every_alternate_is_listed(field_name, field_id, position, lemma, first, term);
        let word = trimmed(alternates.last());
        let added = FieldTermView {
            field_name,
            field_id,
            position,
            word,
            kind: SearchTermKind::Alternate,
        };
        if word != lemma && can_be_a_key(word) {
            assert(all == before.push(added));
            if before.contains(term) {
                let i = choose|i: int| 0 <= i < before.len() && before[i] == term;
                assert(all[i] == term);
            }
            if term == added {
                assert(all[before.len() as int] == term);
            }
            if all.contains(term) && term != added {
                let i = choose|i: int| 0 <= i < all.len() && all[i] == term;
                assert(before[i] == term);
            }
        }
        if before.contains(term) {
            let a = choose|a: int|
                0 <= a < first.len() && trimmed(#[trigger] first[a]) != lemma && can_be_a_key(
                    trimmed(first[a]),
                ) && term.word == trimmed(first[a]);
            assert(alternates[a] == first[a]);
        }
        if all.contains(term) && !before.contains(term) {
            assert(term == added);
            assert(alternates[alternates.len() - 1] == alternates.last());
        }
        if fits && exists|a: int|
            0 <= a < alternates.len() && trimmed(#[trigger] alternates[a]) != lemma && can_be_a_key(
                trimmed(alternates[a]),
            ) && term.word == trimmed(alternates[a]) {
            let a = choose|a: int|
                0 <= a < alternates.len() && trimmed(#[trigger] alternates[a]) != lemma
                    && can_be_a_key(trimmed(alternates[a])) && term.word == trimmed(alternates[a]);
            if a < first.len() {
                assert(first[a] == alternates[a]);
                assert(before.contains(term));
            } else {
                assert(term == added);
            }
        }
    }
}

proof fn every_form_is_listed(
    field_name: Seq<char>,
    field_id: u16,
    word: PlacedView,
    term: FieldTermView,
)
    ensures
        terms_of_word(field_name, field_id, word).contains(term) <==> is_the_word(
            term,
            field_name,
            field_id,
            word,
        ) || exists|a: int| #[trigger] is_alternate_of(term, field_name, field_id, word, a),
{
    let all = terms_of_word(field_name, field_id, word);
    let lemma = trimmed(word.token.lemma);
    if can_be_a_key(lemma) && word.position <= 65535 {
        let original = FieldTermView {
            field_name,
            field_id,
            position: word.position,
            word: lemma,
            kind: SearchTermKind::Original,
        };
        assert(all[0] == original);
        if let Some(alternates) = word.token.alternates {
            let rest = alternate_terms(field_name, field_id, word.position, lemma, alternates);
            every_alternate_is_listed(
                field_name,
                field_id,
                word.position,
                lemma,
                alternates,
                term,
            );
            assert(all == seq![original] + rest);
            if all.contains(term) {
                let i = choose|i: int| 0 <= i < all.len() && all[i] == term;
                if i > 0 {
                    assert(rest[i - 1] == term);
                    assert(rest.contains(term));
                    let a = choose|a: int|
                        0 <= a < alternates.len() && trimmed(#[trigger] alternates[a]) != lemma
                            && can_be_a_key(trimmed(alternates[a])) && term.word == trimmed(
                            alternates[a],
                        );
                    assert(is_alternate_of(term, field_name, field_id, word, a));
                }
            }
            if exists|a: int| #[trigger] is_alternate_of(term, field_name, field_id, word, a) {
                let a = choose|a: int| #[trigger]
                    is_alternate_of(term, field_name, field_id, word, a);
                assert(trimmed(alternates[a]) != lemma);
                assert(rest.contains(term));
                let i = choose|i: int| 0 <= i < rest.len() && rest[i] == term;
                assert(all[i + 1] == term);
            }
        } else {
            assert(all == seq![original]);
        }
        if is_the_word(term, field_name, field_id, word) {
            assert(term == original);
        }
    }
}

/// What is indexed for some words is each of them that can be a key, and each of its alternates
/// that can be a key and is another word, whatever the script of the word. Nothing else is.
pub proof fn every_word_and_alternate_is_indexed(
    field_name: Seq<char>,
    field_id: u16,
    words: Seq<PlacedView>,
    term: FieldTermView,
)
    ensures
        terms_of_words(field_name, field_id, words).contains(term) <==> exists|k: int|
            0 <= k < words.len() && (is_the_word(term, field_name, field_id, #[trigger] words[k])
                || exists|a: int| #[trigger]
                is_alternate_of(term, field_name, field_id, words[k], a)),
    decreases words.len(),
{
    let all = terms_of_words(field_name, field_id, words);
    if words.len() > 0 {
        let first = words.drop_last();
        let before = terms_of_words(field_name, field_id, first);
        let last = terms_of_word(field_name, field_id, words.last());
        every_word_and_alternate_is_indexed(field_name, field_id, first, term);
        every_form_is_listed(field_name, field_id, words.last(), term);
        assert(all == before + last);
        assert(words.last() == words[words.len() - 1]);
        if all.contains(term) {
            let i = choose|i: int| 0 <= i < all.len() && all[i] == term;
            if i < before.len() {
                assert(before[i] == term);
                let k = choose|k: int|
                    0 <= k < first.len() && (is_the_word(
                        term,
                        field_name,
                        field_id,
                        #[trigger] first[k],
                    ) || exists|a: int| #[trigger]
                        is_alternate_of(term, field_name, field_id, first[k], a));
                assert(words[k] == first[k]);
            } else {
                assert(last[i - before.len()] == term);
            }
        }
        if exists|k: int|
            0 <= k < words.len() && (is_the_word(term, field_name, field_id, #[trigger] words[k])
                || exists|a: int| #[trigger]
                is_alternate_of(term, field_name, field_id, words[k], a)) {
            let k = choose|k: int|
                0 <= k < words.len() && (is_the_word(
                    term,
                    field_name,
                    field_id,
                    #[trigger] words[k],
                ) || exists|a: int| #[trigger]
                    is_alternate_of(term, field_name, field_id, words[k], a));
            if k < first.len() {
                assert(first[k] == words[k]);
                assert(before.contains(term));
                let i = choose|i: int| 0 <= i < before.len() && before[i] == term;
                assert(all[i] == term);
            } else {
                assert(last.contains(term));
                let i = choose|i: int| 0 <= i < last.len() && last[i] == term;
                assert(all[before.len() + i] == term);
            }
        }
    }
}

/// The last position of some words is that of the last word that can be a key, or the start where
/// there is none.
pub proof fn last_position_is_of_the_last_key(start: int, words: Seq<PlacedView>, k: int)
    ensures
        0 <= k < words.len() && can_be_a_key(trimmed(words[k].token.lemma)) && (forall|j: int|
            k < j < words.len() ==> !can_be_a_key(trimmed((#[trigger] words[j]).token.lemma)))
            ==> last_position(start, words) == words[k].position,
        (forall|j: int|
            0 <= j < words.len() ==> !can_be_a_key(trimmed((#[trigger] words[j]).token.lemma)))
            ==> last_position(start, words) == start,
    decreases words.len(),
{
    if words.len() > 0 {
        let first = words.drop_last();
        last_position_is_of_the_last_key(start, first, k);
        assert(words.last() == words[words.len() - 1]);
        if !can_be_a_key(trimmed(words.last().token.lemma)) {
            assert(forall|j: int| 0 <= j < first.len() ==> #[trigger] first[j] == words[j]);
        }
    }
}

/// The position at which a value starts: eight behind the last one of its field, or the first.
pub open spec fn value_start(positions: Map<u16, u32>, field_id: u16) -> int {
    if !positions.contains_key(field_id) {
        0
    } else if positions[field_id] > 4294967287 {
        4294967295
    } else {
        positions[field_id] + 8
    }
}

/// A value is passed over where its name does not match. Else its words are added behind the ones
/// of the document, as far as their positions are under the limit, from eight positions behind the
/// last one of the field on. The last position of the field is then that of the last of them, or
/// that at which the value starts, and that of no other field changes.
pub proof fn values_add_their_words(
    tokenizer: DocumentTokenizer,
    known: DocumentAnswers,
    name: Seq<char>,
    value: FieldValue,
    document: DocumentView,
)
    ensures
        ({
            let visited = tokenizer.visit_outcome(known, name, value, document);
            let limit = tokenizer.max_positions_per_attributes as int;
            &&& known.field_answer(name) is None ==> visited == Err::<
                (PatternMatch, DocumentView),
                DocumentLookupView,
            >(DocumentLookupView::Field(name))
            &&& known.field_answer(name) matches Some(info) ==> {
                let start = value_start(document.positions, info.id);
                let tokens = tokenizer.tokens_outcome(known, info.rule_matches, value);
                &&& info.pattern_match != PatternMatch::Match ==> visited == Ok::<
                    (PatternMatch, DocumentView),
                    DocumentLookupView,
                >((info.pattern_match, document))
                &&& info.pattern_match == PatternMatch::Match ==> {
                    &&& start < limit && tokens is Err ==> visited == Err::<
                        (PatternMatch, DocumentView),
                        DocumentLookupView,
                    >(tokens->Err_0)
                    &&& start >= limit || tokens is Ok ==> {
                        &&& visited matches Ok(after)
                        &&& after.0 == PatternMatch::Match
                        &&& after.1.positions.contains_key(info.id)
                        &&& after.1.positions.remove(info.id) == document.positions.remove(info.id)
                        &&& start >= limit || tokens == Ok::<
                            Option<Seq<TokenView>>,
                            DocumentLookupView,
                        >(None) ==> after.1.terms == document.terms && after.1.positions[info.id]
                            == start
                        &&& start < limit && tokens->Ok_0 is Some ==> {
                            let words = words_before(placed_words(start, tokens->Ok_0->0), limit);
                            &&& after.1.terms == document.terms + terms_of_words(
                                name,
                                info.id,
                                words,
                            )
                            &&& after.1.positions[info.id] == last_position(start, words) as u32
                        }
                    }
                }
            }
        }),
{
    if let Some(info) = known.field_answer(name) {
        assert(value_start(document.positions, info.id) == start_position(
            document.positions,
            info.id,
        ));
        if let Ok((_, after)) = tokenizer.visit_outcome(known, name, value, document) {
            assert(after.positions.remove(info.id) =~= document.positions.remove(info.id));
        }
    }
}

proof fn first_match_gives_locales(
    rules: Seq<LocalizedAttributesRule>,
    matches: Seq<PatternMatch>,
    k: int,
)
    ensures
        0 <= k < rules.len() && k < matches.len() && matches[k] == PatternMatch::Match && (forall|
            j: int,
        |
            0 <= j < k ==> #[trigger] matches[j] != PatternMatch::Match) ==> locales_of(
            rules,
            matches,
        ) == Some(rules[k].locales@),
        (forall|j: int|
            0 <= j < rules.len() && j < matches.len() ==> #[trigger] matches[j]
                != PatternMatch::Match) ==> locales_of(rules, matches) is None,
    decreases rules.len(),
{
    if rules.len() > 0 && matches.len() > 0 && matches[0] != PatternMatch::Match {
        let later_rules = rules.drop_first();
        let later = matches.drop_first();
        first_match_gives_locales(later_rules, later, k - 1);
        assert(forall|j: int| 0 <= j < later.len() ==> #[trigger] later[j] == matches[j + 1]);
        if 0 < k < rules.len() {
            assert(later_rules[k - 1] == rules[k]);
        }
    }
}

/// Whether tokens are the pieces of a text, each with the alternates that are given for it.
pub open spec fn are_pieces(
    tokens: Seq<TokenView>,
    pieces: Seq<(Seq<char>, TokenKind)>,
    alternates: Seq<Option<Seq<Seq<char>>>>,
) -> bool {
    &&& tokens.len() == pieces.len()
    &&& forall|i: int|
        0 <= i < tokens.len() ==> {
            &&& (#[trigger] tokens[i]).lemma == pieces[i].0
            &&& tokens[i].kind == pieces[i].1
            &&& tokens[i].alternates == (if i < alternates.len() {
                alternates[i]
            } else {
                None
            })
        }
}

/// Numbers, truth values and texts have tokens, and nothing else has. The text of the first is
/// split as the tokenizer is set up. A text is split in the languages of the first rule that its
/// field matches, or in any where there is none, and its tokens have alternates if Japanese is
/// among the languages of the rule.
pub proof fn values_have_tokens(
    tokenizer: DocumentTokenizer,
    known: DocumentAnswers,
    matches: Seq<PatternMatch>,
    value: FieldValue,
    k: int,
)
    ensures
        ({
            let tokens = tokenizer.tokens_outcome(known, matches, value);
            let rules = tokenizer.localized_attributes_rules@;
            let nothing = Seq::<Option<Seq<Seq<char>>>>::empty();
            &&& value is Null || value is Array || value is Object ==> tokens == Ok::<
                Option<Seq<TokenView>>,
                DocumentLookupView,
            >(None)
            &&& value matches FieldValue::Number(number) ==> (tokens matches Ok(Some(made))
                && are_pieces(
                made,
                pieces_of(*tokenizer.tokenizer, crate::document::text_of_number(number)),
                nothing,
            ))
            &&& value matches FieldValue::Bool(b) ==> (tokens matches Ok(Some(made)) && are_pieces(
                made,
                pieces_of(
                    *tokenizer.tokenizer,
                    if b {
                        "true"@
                    } else {
                        "false"@
                    },
                ),
                nothing,
            ))
            &&& value matches FieldValue::Text(text) ==> {
                &&& (forall|j: int|
                    0 <= j < rules.len() && j < matches.len() ==> #[trigger] matches[j]
                        != PatternMatch::Match) ==> (tokens matches Ok(Some(made)) && are_pieces(
                    made,
                    pieces_with_allow_list(*tokenizer.tokenizer, text@, None),
                    nothing,
                ))
                &&& 0 <= k < rules.len() && k < matches.len() && matches[k] == PatternMatch::Match
                    && (forall|j: int| 0 <= j < k ==> #[trigger] matches[j] != PatternMatch::Match)
                    ==> {
                    let locales = rules[k].locales@;
                    let pieces = pieces_with_allow_list(
                        *tokenizer.tokenizer,
                        text@,
                        Some(locales),
                    );
                    let japanese = exists|i: int|
                        0 <= i < locales.len() && code_of(#[trigger] locales[i]) == "jpn"@;
                    let localized = LocalizedTextView {
                        text: text@,
                        locales: locales.map_values(|language: Language| code_of(language)),
                    };
                    &&& !japanese ==> (tokens matches Ok(Some(made)) && are_pieces(
                        made,
                        pieces,
                        nothing,
                    ))
                    &&& japanese && known.alternates_answer(localized) is None ==> tokens == Err::<
                        Option<Seq<TokenView>>,
                        DocumentLookupView,
                    >(DocumentLookupView::Alternates(localized))
                    &&& japanese && known.alternates_answer(localized) is Some ==> (
                    tokens matches Ok(Some(made)) && are_pieces(
                        made,
                        pieces,
                        known.alternates_answer(localized)->0,
                    ))
                }
            }
        }),
{
    let rules = tokenizer.localized_attributes_rules@;
    first_match_gives_locales(rules, matches, k);
    if 0 <= k < rules.len() {
        let locales = rules[k].locales@;
        let codes = locales.map_values(|language: Language| code_of(language));
        assert(codes_of(locales) =~= codes);
        assert(codes.contains("jpn"@) == exists|i: int|
            0 <= i < locales.len() && code_of(#[trigger] locales[i]) == "jpn"@) by {
            if exists|i: int| 0 <= i < locales.len() && code_of(#[trigger] locales[i]) == "jpn"@ {
                let i = choose|i: int|
                    0 <= i < locales.len() && code_of(#[trigger] locales[i]) == "jpn"@;
                assert(codes[i] == "jpn"@);
            }
            if codes.contains("jpn"@) {
                let i = choose|i: int| 0 <= i < codes.len() && codes[i] == "jpn"@;
                assert(code_of(locales[i]) == "jpn"@);
            }
        }
    }
}

proof fn alternates_are_filtered(
    field_name: Seq<char>,
    field_id: u16,
    position: int,
    lemma: Seq<char>,
    alternates: Seq<Seq<char>>,
)
    ensures
        alternate_terms(field_name, field_id, position, lemma, alternates) == alternates.map_values(
            |alternate: Seq<char>| trimmed(alternate),
        ).filter(|word: Seq<char>| word != lemma && can_be_a_key(word)).map_values(
            |word: Seq<char>|
                FieldTermView {
                    field_name,
                    field_id,
                    position,
                    word,
                    kind: SearchTermKind::Alternate,
                },
        ),
    decreases alternates.len(),
{
    let trim = |alternate: Seq<char>| trimmed(alternate);
    let kept = |word: Seq<char>| word != lemma && can_be_a_key(word);
    let as_term = |word: Seq<char>|
        FieldTermView { field_name, field_id, position, word, kind: SearchTermKind::Alternate };
    reveal(Seq::filter);
    let all = alternates.map_values(trim);
    if alternates.len() == 0 {
        assert(all.filter(kept).map_values(as_term) =~= Seq::<FieldTermView>::empty());
    } else {
        alternates_are_filtered(field_name, field_id, position, lemma, alternates.drop_last());
        assert(all.drop_last() =~= alternates.drop_last().map_values(trim));
        assert(all.last() == trimmed(alternates.last()));
        let before = all.drop_last().filter(kept);
        assert(before.push(all.last()).map_values(as_term) =~= before.map_values(as_term).push(
            as_term(all.last()),
        ));
    }
}

/// A word comes first, and then its alternates in the order in which they are given.
pub proof fn words_come_before_their_alternates(
    field_name: Seq<char>,
    field_id: u16,
    word: PlacedView,
)
    requires
        can_be_a_key(trimmed(word.token.lemma)),
        word.position <= 65535,
    ensures
        ({
            let lemma = trimmed(word.token.lemma);
            let terms = terms_of_word(field_name, field_id, word);
            &&& terms.len() > 0
            &&& is_the_word(terms[0], field_name, field_id, word)
            &&& terms.drop_first() == (match word.token.alternates {
                None => Seq::empty(),
                Some(alternates) => alternates.map_values(
                    |alternate: Seq<char>| trimmed(alternate),
                ).filter(|word: Seq<char>| word != lemma && can_be_a_key(word)).map_values(
                    |alternate: Seq<char>|
                        FieldTermView {
                            field_name,
                            field_id,
                            position: word.position,
                            word: alternate,
                            kind: SearchTermKind::Alternate,
                        },
                ),
            })
        }),
{
    let lemma = trimmed(word.token.lemma);
    let terms = terms_of_word(field_name, field_id, word);
    if let Some(alternates) = word.token.alternates {
        alternates_are_filtered(field_name, field_id, word.position, lemma, alternates);
        assert(terms.drop_first() =~= alternate_terms(
            field_name,
            field_id,
            word.position,
            lemma,
            alternates,
        ));
    } else {
        assert(terms.drop_first() =~= Seq::<FieldTermView>::empty());
    }
}

/// Words are indexed one after the other.
pub proof fn words_are_indexed_in_turn(
    field_name: Seq<char>,
    field_id: u16,
    word: PlacedView,
    left: Seq<PlacedView>,
    right: Seq<PlacedView>,
)
    ensures
        terms_of_words(field_name, field_id, seq![word]) == terms_of_word(
            field_name,
            field_id,
            word,
        ),
        terms_of_words(field_name, field_id, left + right) == terms_of_words(
            field_name,
            field_id,
            left,
        ) + terms_of_words(field_name, field_id, right),
    decreases right.len(),
{
    assert(seq![word].drop_last() == Seq::<PlacedView>::empty());
    assert(terms_of_words(field_name, field_id, seq![word].drop_last()) == Seq::<
        FieldTermView,
    >::empty());
    assert(terms_of_words(field_name, field_id, seq![word]) == Seq::<FieldTermView>::empty()
        + terms_of_word(field_name, field_id, word));
    let first = terms_of_words(field_name, field_id, left);
    if right.len() == 0 {
        assert(left + right == left);
        assert(terms_of_words(field_name, field_id, right) == Seq::<FieldTermView>::empty());
        assert(first + terms_of_words(field_name, field_id, right) == first);
    } else {
        words_are_indexed_in_turn(field_name, field_id, word, left, right.drop_last());
        assert((left + right).drop_last() == left + right.drop_last());
        assert((left + right).last() == right.last());
        let middle = terms_of_words(field_name, field_id, right.drop_last());
        let last = terms_of_word(field_name, field_id, right.last());
        assert(first + (middle + last) == (first + middle) + last);
    }
}

/// The name of a field inside of another is theirs with a dot between them.
pub proof fn nested_names_have_dots(base: Seq<char>, name: Seq<char>)
    ensures
        base.len() > 0 ==> crate::document::nested_name(base, name) == base + seq!['.'] + name,
        base.len() == 0 ==> crate::document::nested_name(base, name) == name,
{
    assert(base.push('.') == base + seq!['.']);
}

} // verus!
