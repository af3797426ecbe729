//! What holds of the words of every document.
use vstd::prelude::*;
use crate::context::first_answers_stay;
use crate::document::{
    empty_document, nested_name, start_position, DocumentAnswers, DocumentLookupView,
    DocumentTokenizer, DocumentView, FieldEntry, FieldValue, LocalizedTextView, PatternMatch,
};
use crate::field_terms::{
    alternate_terms, is_indexable, last_position, terms_of_word, terms_of_words, FieldTermView,
    SearchTermKind,
};
use crate::positions::{
    placed_words, positions_grow, words_before, words_before_are_first, PlacedView, MAX_DISTANCE,
};
use crate::text::{trimmed, trimming_twice_is_trimming};

verus! {

/// Whether a word is indexed as it should: it has no white space around it, is not empty and fits
/// in a key, its position is one that is indexed, and its field is searchable.
pub open spec fn is_sound_term(
    tokenizer: DocumentTokenizer,
    known: DocumentAnswers,
    term: FieldTermView,
) -> bool {
    &&& is_indexable(term.word)
    &&& trimmed(term.word) == term.word
    &&& 0 <= term.position < tokenizer.max_positions_per_attributes
    &&& term.position <= u16::MAX
    &&& known.field_answer(term.field_name) is Some
    &&& known.field_answer(term.field_name)->0.id == term.field_id
    &&& known.field_answer(term.field_name)->0.pattern_match == PatternMatch::Match
}

/// Whether the positions in each field never fall, and a word that stands in the text is always
/// behind all the words before it.
pub open spec fn are_in_order(terms: Seq<FieldTermView>) -> bool {
    forall|i: int, j: int|
        #![trigger terms[i], terms[j]]
        0 <= i < j < terms.len() && terms[i].field_id == terms[j].field_id
            ==> terms[i].position <= terms[j].position && (terms[j].kind == SearchTermKind::Original
            ==> terms[i].position < terms[j].position)
}

/// Whether a word stands in the text and another is one of the alternates right behind it: they
/// share a position, only alternates of the first stand between them, and the other is a different
/// word.
pub open spec fn is_original_of(terms: Seq<FieldTermView>, i: int, j: int) -> bool {
    &&& 0 <= i < j < terms.len()
    &&& terms[i].kind == SearchTermKind::Original
    &&& terms[i].word != terms[j].word
    &&& forall|k: int|
        i < k <= j ==> {
            &&& (#[trigger] terms[k]).kind == SearchTermKind::Alternate
            &&& terms[k].field_id == terms[i].field_id
            &&& terms[k].position == terms[i].position
        }
}

/// Whether each alternate stands, with nothing but alternates between them, behind the word that it
/// is an alternate of, and shares its position.
pub open spec fn alternates_share_positions(terms: Seq<FieldTermView>) -> bool {
    forall|j: int|
        0 <= j < terms.len() && (#[trigger] terms[j]).kind == SearchTermKind::Alternate ==> exists|
            i: int,
        | #[trigger]
            is_original_of(terms, i, j)
}

/// Whether the words of a document are as they should, and no word is behind the last position of
/// its field.
pub open spec fn is_sound(
    tokenizer: DocumentTokenizer,
    known: DocumentAnswers,
    document: DocumentView,
) -> bool {
    &&& forall|i: int|
        0 <= i < document.terms.len() ==> is_sound_term(
            tokenizer,
            known,
            #[trigger] document.terms[i],
        )
    &&& forall|i: int|
        0 <= i < document.terms.len() ==> document.positions.contains_key(
            (#[trigger] document.terms[i]).field_id,
        ) && document.terms[i].position <= document.positions[document.terms[i].field_id]
    &&& are_in_order(document.terms)
    &&& alternates_share_positions(document.terms)
}

/// Whether words belong to one field, are as words should be, and have positions from `from` up to
/// `to`.
spec fn are_words_of(
    terms: Seq<FieldTermView>,
    field_name: Seq<char>,
    field_id: u16,
    from: int,
    to: int,
) -> bool {
    forall|i: int|
        0 <= i < terms.len() ==> {
            let term = #[trigger] terms[i];
            &&& term.field_name == field_name
            &&& term.field_id == field_id
            &&& from <= term.position <= to
            &&& term.position <= u16::MAX
            &&& is_indexable(term.word)
            &&& trimmed(term.word) == term.word
        }
}

proof fn alternates_are_words(
    field_name: Seq<char>,
    field_id: u16,
    position: int,
    lemma: Seq<char>,
    alternates: Seq<Seq<char>>,
)
    requires
        position <= u16::MAX,
    ensures
        are_words_of(
            alternate_terms(field_name, field_id, position, lemma, alternates),
            field_name,
            field_id,
            position,
            position,
        ),
        forall|i: int|
            0 <= i < alternate_terms(field_name, field_id, position, lemma, alternates).len() ==> (
            #[trigger] alternate_terms(
                field_name,
                field_id,
                position,
                lemma,
                alternates,
            )[i]).kind == SearchTermKind::Alternate && alternate_terms(
                field_name,
                field_id,
                position,
                lemma,
                alternates,
            )[i].word != lemma,
    decreases alternates.len(),
{
    if alternates.len() > 0 {
        alternates_are_words(field_name, field_id, position, lemma, alternates.drop_last());
        trimming_twice_is_trimming(alternates.last());
    }
}

proof fn terms_of_word_are_sound(field_name: Seq<char>, field_id: u16, word: PlacedView)
    ensures
        are_words_of(
            terms_of_word(field_name, field_id, word),
            field_name,
            field_id,
            word.position,
            word.position,
        ),
        are_in_order(terms_of_word(field_name, field_id, word)),
        alternates_share_positions(terms_of_word(field_name, field_id, word)),
        terms_of_word(field_name, field_id, word).len() > 0 ==> is_indexable(
            trimmed(word.token.lemma),
        ),
{
    let terms = terms_of_word(field_name, field_id, word);
    let lemma = trimmed(word.token.lemma);
    trimming_twice_is_trimming(word.token.lemma);
    if is_indexable(lemma) && word.position <= u16::MAX {
        if let Some(alternates) = word.token.alternates {
            alternates_are_words(field_name, field_id, word.position, lemma, alternates);
            let rest = alternate_terms(field_name, field_id, word.position, lemma, alternates);
            assert(forall|i: int| 1 <= i < terms.len() ==> #[trigger] terms[i] == rest[i - 1]);
        }
        assert(terms[0].kind == SearchTermKind::Original);
        assert forall|j: int|
            0 <= j < terms.len() && (#[trigger] terms[j]).kind
                == SearchTermKind::Alternate implies exists|i: int| #[trigger]
            is_original_of(terms, i, j) by {
            assert(is_original_of(terms, 0, j));
        }
    }
}

proof fn appended_terms_are_sound(first: Seq<FieldTermView>, second: Seq<FieldTermView>)
    requires
        are_in_order(first),
        are_in_order(second),
        alternates_share_positions(first),
        alternates_share_positions(second),
        forall|i: int, j: int|
            #![trigger first[i], second[j]]
            0 <= i < first.len() && 0 <= j < second.len() && first[i].field_id == second[j].field_id
                ==> first[i].position < second[j].position,
    ensures
        are_in_order(first + second),
        alternates_share_positions(first + second),
{
    let all = first + second;
    let n = first.len() as int;
    assert forall|i: int, j: int|
        #![trigger all[i], all[j]]
        0 <= i < j < all.len() && all[i].field_id == all[j].field_id implies all[i].position
        <= all[j].position && (all[j].kind == SearchTermKind::Original ==> all[i].position
        < all[j].position) by {
        if j < n {
            assert(all[i] == first[i] && all[j] == first[j]);
        } else if i >= n {
            assert(all[i] == second[i - n] && all[j] == second[j - n]);
        } else {
            assert(all[i] == first[i] && all[j] == second[j - n]);
        }
    }
    assert forall|j: int|
        0 <= j < all.len() && (#[trigger] all[j]).kind
            == SearchTermKind::Alternate implies exists|i: int| #[trigger]
        is_original_of(all, i, j) by {
        if j < n {
            assert(first[j] == all[j]);
            let i = choose|i: int| #[trigger] is_original_of(first, i, j);
            assert forall|k: int| i < k <= j implies {
                &&& (#[trigger] all[k]).kind == SearchTermKind::Alternate
                &&& all[k].field_id == all[i].field_id
                &&& all[k].position == all[i].position
            } by {
                assert(all[k] == first[k]);
            }
            assert(is_original_of(all, i, j));
        } else {
            assert(second[j - n] == all[j]);
            let i = choose|i: int| #[trigger] is_original_of(second, i, j - n);
            assert forall|k: int| i + n < k <= j implies {
                &&& (#[trigger] all[k]).kind == SearchTermKind::Alternate
                &&& all[k].field_id == all[i + n].field_id
                &&& all[k].position == all[i + n].position
            } by {
                assert(all[k] == second[k - n]);
            }
            assert(is_original_of(all, i + n, j));
        }
    }
}

proof fn terms_of_words_are_sound(
    field_name: Seq<char>,
    field_id: u16,
    start: int,
    words: Seq<PlacedView>,
    limit: int,
)
    requires
        start < limit,
        forall|i: int| 0 <= i < words.len() ==> start <= (#[trigger] words[i]).position < limit,
        forall|i: int, j: int|
            #![trigger words[i], words[j]]
            0 <= i < j < words.len() ==> words[i].position < words[j].position,
    ensures
        start <= last_position(start, words) < limit,
        are_words_of(
            terms_of_words(field_name, field_id, words),
            field_name,
            field_id,
            start,
            last_position(start, words),
        ),
        words.len() > 0 ==> last_position(start, words) <= words.last().position,
        are_in_order(terms_of_words(field_name, field_id, words)),
        alternates_share_positions(terms_of_words(field_name, field_id, words)),
    decreases words.len(),
{
    if words.len() > 0 {
        let before = words.drop_last();
        assert forall|i: int| 0 <= i < before.len() implies start <= (#[trigger] before[i]).position
            < limit by {
            assert(before[i] == words[i]);
        }
        assert forall|i: int, j: int|
            #![trigger before[i], before[j]]
            0 <= i < j < before.len() implies before[i].position < before[j].position by {
            assert(before[i] == words[i] && before[j] == words[j]);
        }
        terms_of_words_are_sound(field_name, field_id, start, before, limit);
        terms_of_word_are_sound(field_name, field_id, words.last());
        let first = terms_of_words(field_name, field_id, before);
        let second = terms_of_word(field_name, field_id, words.last());
        assert(words.last() == words[words.len() - 1]);
        if before.len() > 0 {
            assert(before.last() == words[words.len() - 2]);
        } else {
            assert(first.len() == 0);
        }
        appended_terms_are_sound(first, second);
        let all = first + second;
        assert forall|i: int| 0 <= i < all.len() implies {
            let term = #[trigger] all[i];
            &&& term.field_name == field_name
            &&& term.field_id == field_id
            &&& start <= term.position <= last_position(start, words)
            &&& term.position <= u16::MAX
            &&& is_indexable(term.word)
            &&& trimmed(term.word) == term.word
        } by {
            if i < first.len() {
                assert(all[i] == first[i]);
            } else {
                assert(all[i] == second[i - first.len()]);
            }
        }
    }
}

/// Whether the words of a field behind the first `n` words are all `MAX_DISTANCE` or more behind
/// those of the same field among the first `n`.
pub open spec fn are_apart(terms: Seq<FieldTermView>, n: int) -> bool {
    forall|i: int, j: int|
        #![trigger terms[i], terms[j]]
        0 <= i < n <= j < terms.len() && terms[i].field_id == terms[j].field_id
            ==> terms[i].position + MAX_DISTANCE <= terms[j].position
}

/// Adding the words of a value that is met keeps a document sound. They come behind the words that
/// were there, and in each field at a distance.
pub proof fn visiting_keeps_documents_sound(
    tokenizer: DocumentTokenizer,
    known: DocumentAnswers,
    name: Seq<char>,
    value: FieldValue,
    document: DocumentView,
)
    requires
        is_sound(tokenizer, known, document),
    ensures
        tokenizer.visit_outcome(known, name, value, document) matches Ok(visited) ==> {
            &&& is_sound(tokenizer, known, visited.1)
            &&& document.terms.is_prefix_of(visited.1.terms)
            &&& are_apart(visited.1.terms, document.terms.len() as int)
        },
{
    let answer = known.field_answer(name);
    if answer is Some && answer->0.pattern_match == PatternMatch::Match {
        let info = answer->0;
        let limit = tokenizer.max_positions_per_attributes as int;
        let start = start_position(document.positions, info.id);
        let tokens = tokenizer.tokens_outcome(known, info.rule_matches, value);
        if start < limit && tokens is Ok && tokens->Ok_0 is Some {
            let placed = placed_words(start, tokens->Ok_0->0);
            let words = words_before(placed, limit);
            positions_grow(start, tokens->Ok_0->0);
            words_before_are_first(placed, limit);
            assert forall|i: int| 0 <= i < words.len() implies start <= (
            #[trigger] words[i]).position < limit by {
                assert(words[i] == placed[i]);
            }
            assert forall|i: int, j: int|
                #![trigger words[i], words[j]]
                0 <= i < j < words.len() implies words[i].position < words[j].position by {
                assert(words[i] == placed[i] && words[j] == placed[j]);
            }
            terms_of_words_are_sound(name, info.id, start, words, limit);
            let added = terms_of_words(name, info.id, words);
            appended_terms_are_sound(document.terms, added);
            let all = document.terms + added;
            let visited = tokenizer.field_outcome(known, name, info, value, document)->Ok_0;
            assert(visited.terms == all);
            assert forall|i: int| 0 <= i < all.len() implies is_sound_term(
                tokenizer,
                known,
                #[trigger] all[i],
            ) && visited.positions.contains_key(all[i].field_id) && all[i].position
                <= visited.positions[all[i].field_id] by {
                if i < document.terms.len() {
                    assert(all[i] == document.terms[i]);
                } else {
                    assert(all[i] == added[i - document.terms.len()]);
                }
            }
            assert forall|i: int, j: int|
                #![trigger all[i], all[j]]
                0 <= i < document.terms.len() <= j < all.len() && all[i].field_id
                    == all[j].field_id implies all[i].position + MAX_DISTANCE
                <= all[j].position by {
                assert(all[i] == document.terms[i]);
                assert(all[j] == added[j - document.terms.len()]);
            }
        }
    }
}

/// A value of a document with the name under which it is met.
pub struct MetValue {
    pub name: Seq<char>,
    pub value: FieldValue,
}

/// The values that are met among the fields of an object from the `i`-th on, in order.
pub open spec fn met_in_entries(
    known: DocumentAnswers,
    base: Seq<char>,
    entries: Seq<FieldEntry>,
    i: int,
) -> Seq<MetValue>
    decreases entries, entries.len() - i,
{
    if i < 0 || i >= entries.len() {
        Seq::empty()
    } else {
        let name = nested_name(base, entries[i].name@);
        let value = entries[i].value;
        let inside = if known.field_answer(name) matches Some(info) && info.pattern_match
            == PatternMatch::NoMatch {
            Seq::empty()
        } else {
            met_inside(known, name, value)
        };
        seq![MetValue { name, value }] + inside + met_in_entries(known, base, entries, i + 1)
    }
}

/// The values that are met among the items of an array from the `i`-th on, in order.
pub open spec fn met_in_items(
    known: DocumentAnswers,
    base: Seq<char>,
    items: Seq<FieldValue>,
    i: int,
) -> Seq<MetValue>
    decreases items, items.len() - i,
{
    if i < 0 || i >= items.len() {
        Seq::empty()
    } else {
        let inside = if items[i] is Array || items[i] is Object {
            met_inside(known, base, items[i])
        } else {
            seq![MetValue { name: base, value: items[i] }]
        };
        inside + met_in_items(known, base, items, i + 1)
    }
}

/// The values that are met inside of an array or an object, in order. An empty one is met itself.
pub open spec fn met_inside(known: DocumentAnswers, base: Seq<char>, value: FieldValue) -> Seq<
    MetValue,
>
    decreases value, 0int,
{
    match value {
        FieldValue::Array(items) => if items@.len() == 0 {
            seq![MetValue { name: base, value }]
        } else {
            met_in_items(known, base, items@, 0)
        },
        FieldValue::Object(entries) => if entries@.len() == 0 {
            seq![MetValue { name: base, value }]
        } else {
            met_in_entries(known, base, entries@, 0)
        },
        _ => Seq::empty(),
    }
}

/// The values of a document that are met, from its `i`-th field on, in order.
pub open spec fn met_values(known: DocumentAnswers, fields: Seq<FieldEntry>, i: int) -> Seq<MetValue>
    decreases fields.len() - i,
{
    if i < 0 || i >= fields.len() {
        Seq::empty()
    } else {
        let name = fields[i].name@;
        let value = fields[i].value;
        let answer = known.field_answer(name);
        let these = if answer is Some && answer->0.pattern_match == PatternMatch::NoMatch {
            Seq::empty()
        } else if answer is Some && (value is Array || value is Object) {
            met_inside(known, name, value)
        } else {
            seq![MetValue { name, value }]
        };
        these + met_values(known, fields, i + 1)
    }
}

/// A document after some values that are met, one after the other.
pub open spec fn after_values(
    tokenizer: DocumentTokenizer,
    known: DocumentAnswers,
    values: Seq<MetValue>,
    document: DocumentView,
) -> Result<DocumentView, DocumentLookupView>
    decreases values.len(),
{
    if values.len() == 0 {
        Ok(document)
    } else {
        match tokenizer.visit_outcome(known, values[0].name, values[0].value, document) {
            Err(lookup) => Err(lookup),
            Ok((_, visited)) => after_values(tokenizer, known, values.drop_first(), visited),
        }
    }
}

proof fn after_values_of_both(
    tokenizer: DocumentTokenizer,
    known: DocumentAnswers,
    first: Seq<MetValue>,
    second: Seq<MetValue>,
    document: DocumentView,
)
    ensures
        after_values(tokenizer, known, first + second, document) == (match after_values(
            tokenizer,
            known,
            first,
            document,
        ) {
            Err(lookup) => Err(lookup),
            Ok(between) => after_values(tokenizer, known, second, between),
        }),
    decreases first.len(),
{
    let all = first + second;
    if first.len() == 0 {
        assert(all == second);
    } else {
        assert(all[0] == first[0]);
        assert(all.drop_first() == first.drop_first() + second);
        if let Ok((_, visited)) = tokenizer.visit_outcome(
            known,
            first[0].name,
            first[0].value,
            document,
        ) {
            after_values_of_both(tokenizer, known, first.drop_first(), second, visited);
        }
    }
}

proof fn after_one_value(
    tokenizer: DocumentTokenizer,
    known: DocumentAnswers,
    name: Seq<char>,
    value: FieldValue,
    document: DocumentView,
)
    ensures
        after_values(tokenizer, known, seq![MetValue { name, value }], document) == (
        match tokenizer.visit_outcome(known, name, value, document) {
            Err(lookup) => Err(lookup),
            Ok((_, visited)) => Ok(visited),
        }),
{
    let values = seq![MetValue { name, value }];
    assert(values.drop_first().len() == 0);
    if let Ok((_, visited)) = tokenizer.visit_outcome(known, name, value, document) {
        assert(after_values(tokenizer, known, values.drop_first(), visited) == Ok::<
            DocumentView,
            DocumentLookupView,
        >(visited));
    }
}

proof fn entries_are_their_values(
    tokenizer: DocumentTokenizer,
    known: DocumentAnswers,
    base: Seq<char>,
    entries: Seq<FieldEntry>,
    i: int,
    document: DocumentView,
)
    ensures
        tokenizer.entries_outcome(known, base, entries, i, document) == after_values(
            tokenizer,
            known,
            met_in_entries(known, base, entries, i),
            document,
        ),
    decreases entries, entries.len() - i,
{
    if 0 <= i < entries.len() {
        let name = nested_name(base, entries[i].name@);
        let value = entries[i].value;
        let one = seq![MetValue { name, value }];
        let inside = if known.field_answer(name) matches Some(info) && info.pattern_match
            == PatternMatch::NoMatch {
            Seq::empty()
        } else {
            met_inside(known, name, value)
        };
        let rest = met_in_entries(known, base, entries, i + 1);
        after_one_value(tokenizer, known, name, value, document);
        after_values_of_both(tokenizer, known, one + inside, rest, document);
        after_values_of_both(tokenizer, known, one, inside, document);
        if let Ok((_, visited)) = tokenizer.visit_outcome(known, name, value, document) {
            insides_are_their_values(tokenizer, known, name, value, visited);
            if let Ok(after) = after_values(tokenizer, known, inside, visited) {
                entries_are_their_values(tokenizer, known, base, entries, i + 1, after);
            }
        }
    }
}

proof fn items_are_their_values(
    tokenizer: DocumentTokenizer,
    known: DocumentAnswers,
    base: Seq<char>,
    items: Seq<FieldValue>,
    i: int,
    document: DocumentView,
)
    ensures
        tokenizer.items_outcome(known, base, items, i, document) == after_values(
            tokenizer,
            known,
            met_in_items(known, base, items, i),
            document,
        ),
    decreases items, items.len() - i,
{
    if 0 <= i < items.len() {
        let inside = if items[i] is Array || items[i] is Object {
            met_inside(known, base, items[i])
        } else {
            seq![MetValue { name: base, value: items[i] }]
        };
        let rest = met_in_items(known, base, items, i + 1);
        after_one_value(tokenizer, known, base, items[i], document);
        insides_are_their_values(tokenizer, known, base, items[i], document);
        after_values_of_both(tokenizer, known, inside, rest, document);
        if let Ok(after) = after_values(tokenizer, known, inside, document) {
            items_are_their_values(tokenizer, known, base, items, i + 1, after);
        }
    }
}

proof fn insides_are_their_values(
    tokenizer: DocumentTokenizer,
    known: DocumentAnswers,
    base: Seq<char>,
    value: FieldValue,
    document: DocumentView,
)
    ensures
        tokenizer.inside_outcome(known, base, value, document) == after_values(
            tokenizer,
            known,
            met_inside(known, base, value),
            document,
        ),
    decreases value, 0int,
{
    after_one_value(tokenizer, known, base, value, document);
    match value {
        FieldValue::Array(items) => {
            items_are_their_values(tokenizer, known, base, items@, 0, document);
        },
        FieldValue::Object(entries) => {
            entries_are_their_values(tokenizer, known, base, entries@, 0, document);
        },
        _ => {},
    }
}

/// The words of a document are those of the values that are met in it, one value after the other.
pub proof fn documents_are_their_values(
    tokenizer: DocumentTokenizer,
    known: DocumentAnswers,
    fields: Seq<FieldEntry>,
    i: int,
    document: DocumentView,
)
    ensures
        tokenizer.fields_outcome(known, fields, i, document) == after_values(
            tokenizer,
            known,
            met_values(known, fields, i),
            document,
        ),
    decreases fields.len() - i,
{
    if 0 <= i < fields.len() {
        let name = fields[i].name@;
        let value = fields[i].value;
        let answer = known.field_answer(name);
        let these = if answer is Some && answer->0.pattern_match == PatternMatch::NoMatch {
            Seq::empty()
        } else if answer is Some && (value is Array || value is Object) {
            met_inside(known, name, value)
        } else {
            seq![MetValue { name, value }]
        };
        after_one_value(tokenizer, known, name, value, document);
        insides_are_their_values(tokenizer, known, name, value, document);
        after_values_of_both(
            tokenizer,
            known,
            these,
            met_values(known, fields, i + 1),
            document,
        );
        if let Ok(after) = after_values(tokenizer, known, these, document) {
            documents_are_their_values(tokenizer, known, fields, i + 1, after);
        }
    }
}

proof fn later_values_stay_apart(
    tokenizer: DocumentTokenizer,
    known: DocumentAnswers,
    values: Seq<MetValue>,
    document: DocumentView,
)
    requires
        is_sound(tokenizer, known, document),
    ensures
        after_values(tokenizer, known, values, document) matches Ok(after) ==> {
            &&& is_sound(tokenizer, known, after)
            &&& document.terms.is_prefix_of(after.terms)
            &&& are_apart(after.terms, document.terms.len() as int)
        },
    decreases values.len(),
{
    if values.len() > 0 {
        visiting_keeps_documents_sound(
            tokenizer,
            known,
            values[0].name,
            values[0].value,
            document,
        );
        if let Ok((_, visited)) = tokenizer.visit_outcome(
            known,
            values[0].name,
            values[0].value,
            document,
        ) {
            later_values_stay_apart(tokenizer, known, values.drop_first(), visited);
            if let Ok(after) = after_values(tokenizer, known, values, document) {
                let n = document.terms.len() as int;
                assert forall|i: int, j: int|
                    #![trigger after.terms[i], after.terms[j]]
                    0 <= i < n <= j < after.terms.len() && after.terms[i].field_id
                        == after.terms[j].field_id implies after.terms[i].position + MAX_DISTANCE
                    <= after.terms[j].position by {
                    assert(after.terms[i] == visited.terms[i]);
                    if j < visited.terms.len() {
                        assert(after.terms[j] == visited.terms[j]);
                    }
                }
            }
        }
    }
}

/// The number of words of the first `k` values that are met in a document.
pub open spec fn words_of_values(
    tokenizer: DocumentTokenizer,
    known: DocumentAnswers,
    values: Seq<MetValue>,
    k: int,
) -> int {
    match after_values(tokenizer, known, values.take(k), empty_document()) {
        Ok(document) => document.terms.len() as int,
        Err(_) => 0,
    }
}

/// The words of the first values of a document come first, and the words of later values are, in
/// each field, `MAX_DISTANCE` or more behind them. So are the words of any two values.
pub proof fn values_are_kept_apart(
    tokenizer: DocumentTokenizer,
    known: DocumentAnswers,
    fields: Seq<FieldEntry>,
    k: int,
)
    requires
        0 <= k <= met_values(known, fields, 0).len(),
    ensures
        tokenizer.fields_outcome(known, fields, 0, empty_document()) matches Ok(document) ==> {
            let values = met_values(known, fields, 0);
            let n = words_of_values(tokenizer, known, values, k);
            &&& after_values(
                tokenizer,
                known,
                values.take(k),
                empty_document(),
            ) matches Ok(first)
            &&& n == first.terms.len()
            &&& first.terms.is_prefix_of(document.terms)
            &&& are_apart(document.terms, n)
        },
{
    let values = met_values(known, fields, 0);
    let empty = empty_document();
    documents_are_their_values(tokenizer, known, fields, 0, empty);
    assert(values.take(k) + values.skip(k) == values);
    after_values_of_both(tokenizer, known, values.take(k), values.skip(k), empty);
    if let Ok(first) = after_values(tokenizer, known, values.take(k), empty) {
        later_values_stay_apart(tokenizer, known, values.take(k), empty);
        later_values_stay_apart(tokenizer, known, values.skip(k), first);
    }
}

/// The words of a document belong to searchable fields, are not empty and fit in a key, and have
/// positions that are indexed. In each field they come in the order of their positions, those of
/// different values at a distance, and an alternate stands right behind the word that it stands for
/// and the other alternates of that word, and shares its position.
pub proof fn documents_are_sound(
    tokenizer: DocumentTokenizer,
    known: DocumentAnswers,
    fields: Seq<FieldEntry>,
)
    ensures
        tokenizer.fields_outcome(known, fields, 0, empty_document()) matches Ok(document) ==> {
            let values = met_values(known, fields, 0);
            &&& is_sound(tokenizer, known, document)
            &&& forall|k: int|
                0 <= k <= values.len() ==> are_apart(
                    document.terms,
                    #[trigger] words_of_values(tokenizer, known, values, k),
                )
        },
{
    let values = met_values(known, fields, 0);
    documents_are_their_values(tokenizer, known, fields, 0, empty_document());
    later_values_stay_apart(tokenizer, known, values, empty_document());
    if let Ok(document) = tokenizer.fields_outcome(known, fields, 0, empty_document()) {
        assert forall|k: int| 0 <= k <= values.len() implies are_apart(
            document.terms,
            #[trigger] words_of_values(tokenizer, known, values, k),
        ) by {
            values_are_kept_apart(tokenizer, known, fields, k);
        }
    }
}

/// Whether a question that was asked is one that is not answered, and a result that was given is
/// the same once more is known.
pub open spec fn is_steady<T>(
    known: DocumentAnswers,
    result: Result<T, DocumentLookupView>,
    later: Result<T, DocumentLookupView>,
) -> bool {
    match result {
        Err(lookup) => !known.knows(lookup),
        Ok(_) => later == result,
    }
}

/// More answers behind the same ones keep all that was known.
pub proof fn more_answers_extend(known: DocumentAnswers, more: DocumentAnswers)
    requires
        known.fields.deep_view().is_prefix_of(more.fields.deep_view()),
        known.alternates.deep_view().is_prefix_of(more.alternates.deep_view()),
    ensures
        more.extends(known),
{
    assert forall|name: Seq<char>| (#[trigger] known.field_answer(name)) is Some implies
        more.field_answer(name) == known.field_answer(name) by {
        first_answers_stay(known.fields.deep_view(), more.fields.deep_view(), name);
    }
    assert forall|text: LocalizedTextView| (#[trigger] known.alternates_answer(text)) is Some implies
        more.alternates_answer(text) == known.alternates_answer(text) by {
        first_answers_stay(known.alternates.deep_view(), more.alternates.deep_view(), text);
    }
}

proof fn visits_are_steady(
    tokenizer: DocumentTokenizer,
    known: DocumentAnswers,
    more: DocumentAnswers,
    name: Seq<char>,
    value: FieldValue,
    document: DocumentView,
)
    requires
        more.extends(known),
    ensures
        is_steady(
            known,
            tokenizer.visit_outcome(known, name, value, document),
            tokenizer.visit_outcome(more, name, value, document),
        ),
{
}

proof fn entries_are_steady(
    tokenizer: DocumentTokenizer,
    known: DocumentAnswers,
    more: DocumentAnswers,
    base: Seq<char>,
    entries: Seq<FieldEntry>,
    i: int,
    document: DocumentView,
)
    requires
        more.extends(known),
    ensures
        is_steady(
            known,
            tokenizer.entries_outcome(known, base, entries, i, document),
            tokenizer.entries_outcome(more, base, entries, i, document),
        ),
    decreases entries, entries.len() - i,
{
    if 0 <= i < entries.len() {
        let name = nested_name(base, entries[i].name@);
        let value = entries[i].value;
        visits_are_steady(tokenizer, known, more, name, value, document);
        if let Ok((pattern_match, visited)) = tokenizer.visit_outcome(known, name, value, document) {
            if pattern_match == PatternMatch::NoMatch {
                entries_are_steady(tokenizer, known, more, base, entries, i + 1, visited);
            } else {
                insides_are_steady(tokenizer, known, more, name, value, visited);
                if let Ok(after) = tokenizer.inside_outcome(known, name, value, visited) {
                    entries_are_steady(tokenizer, known, more, base, entries, i + 1, after);
                }
            }
        }
    }
}

proof fn items_are_steady(
    tokenizer: DocumentTokenizer,
    known: DocumentAnswers,
    more: DocumentAnswers,
    base: Seq<char>,
    items: Seq<FieldValue>,
    i: int,
    document: DocumentView,
)
    requires
        more.extends(known),
    ensures
        is_steady(
            known,
            tokenizer.items_outcome(known, base, items, i, document),
            tokenizer.items_outcome(more, base, items, i, document),
        ),
    decreases items, items.len() - i,
{
    if 0 <= i < items.len() {
        visits_are_steady(tokenizer, known, more, base, items[i], document);
        insides_are_steady(tokenizer, known, more, base, items[i], document);
        let inside = if items[i] is Array || items[i] is Object {
            tokenizer.inside_outcome(known, base, items[i], document)
        } else {
            match tokenizer.visit_outcome(known, base, items[i], document) {
                Err(lookup) => Err(lookup),
                Ok((_, visited)) => Ok(visited),
            }
        };
        if let Ok(after) = inside {
            items_are_steady(tokenizer, known, more, base, items, i + 1, after);
        }
    }
}

proof fn insides_are_steady(
    tokenizer: DocumentTokenizer,
    known: DocumentAnswers,
    more: DocumentAnswers,
    base: Seq<char>,
    value: FieldValue,
    document: DocumentView,
)
    requires
        more.extends(known),
    ensures
        is_steady(
            known,
            tokenizer.inside_outcome(known, base, value, document),
            tokenizer.inside_outcome(more, base, value, document),
        ),
    decreases value, 0int,
{
    visits_are_steady(tokenizer, known, more, base, value, document);
    match value {
        FieldValue::Array(items) => {
            items_are_steady(tokenizer, known, more, base, items@, 0, document);
        },
        FieldValue::Object(entries) => {
            entries_are_steady(tokenizer, known, more, base, entries@, 0, document);
        },
        _ => {},
    }
}

/// A document is split into the same words once more is known, and asks only what is not known.
pub proof fn documents_are_steady(
    tokenizer: DocumentTokenizer,
    known: DocumentAnswers,
    more: DocumentAnswers,
    fields: Seq<FieldEntry>,
    i: int,
    document: DocumentView,
)
    requires
        more.extends(known),
    ensures
        is_steady(
            known,
            tokenizer.fields_outcome(known, fields, i, document),
            tokenizer.fields_outcome(more, fields, i, document),
        ),
    decreases fields.len() - i,
{
    if 0 <= i < fields.len() {
        let name = fields[i].name@;
        let value = fields[i].value;
        visits_are_steady(tokenizer, known, more, name, value, document);
        insides_are_steady(tokenizer, known, more, name, value, document);
        if let Ok(after) = tokenizer.top_level_outcome(known, name, value, document) {
            documents_are_steady(tokenizer, known, more, fields, i + 1, after);
        }
    }
}

} // verus!
