//! The words of a document with their positions.
//!
//! Which fields of a document are searchable, and which words are Japanese alternates of the words
//! of a text, is asked for when it is needed: a function that needs an answer that is not known
//! returns the question as an error. The caller answers it, adds the answer to what is known and
//! calls the function again.
use std::collections::HashMap;
use vstd::prelude::*;
use charabia::{Language, Tokenizer};
use crate::context::{answer_to, find_answer, Answer};
use crate::field_terms::{add_terms, last_position, terms_of_words, FieldTerm, FieldTermView};
use crate::plain::{pushing_deepens, Plain};
use crate::positions::{placed_words, words_before, MAX_DISTANCE};
use crate::text::same_text;
use crate::token::{Token, TokenView};
use crate::tokenizer::{
    attach_alternates, code_of, collect_pieces, language_code, pieces_of, pieces_with_allow_list,
    tokenize, tokenize_with_allow_list, with_alternates,
};

verus! {

broadcast use vstd::std_specs::hash::group_hash_axioms;

/// How the name of a field matches a pattern.
#[derive(Debug, Clone, Copy, PartialEq, Eq, Structural)]
pub enum PatternMatch {
    /// The field matches.
    Match,
    /// A field inside of it may match.
    Parent,
    /// Neither it nor a field inside of it matches.
    NoMatch,
}

impl DeepView for PatternMatch {
    type V = PatternMatch;

    open spec fn deep_view(&self) -> PatternMatch {
        *self
    }
}

/// What is known of a field.
#[derive(Debug)]
pub struct FieldInfo {
    pub id: u16,
    /// How its name matches what is searchable.
    pub pattern_match: PatternMatch,
    /// How its name matches each of the rules on languages.
    pub rule_matches: Vec<PatternMatch>,
}

/// What is known of a field, with the matches as a sequence.
pub struct FieldInfoView {
    pub id: u16,
    pub pattern_match: PatternMatch,
    pub rule_matches: Seq<PatternMatch>,
}

impl DeepView for FieldInfo {
    type V = FieldInfoView;

    open spec fn deep_view(&self) -> FieldInfoView {
        FieldInfoView {
            id: self.id,
            pattern_match: self.pattern_match,
            rule_matches: self.rule_matches.deep_view(),
        }
    }
}

/// `serde_json::Number`, a number of a document.
#[verifier::external_type_specification]
#[verifier::external_body]
pub struct ExNumber(serde_json::Number);

/// The text of a number.
pub uninterp spec fn text_of_number(number: serde_json::Number) -> Seq<char>;

/// `serde_json::Number::to_string` writes a number in JSON. The text depends on the number alone.
#[verifier::external_body]
fn number_text(number: &serde_json::Number) -> (text: String)
    ensures
        text@ == text_of_number(*number),
{
    number.to_string()
}

/// A value of a document.
pub enum FieldValue {
    Null,
    Bool(bool),
    Number(serde_json::Number),
    Text(String),
    Array(Vec<FieldValue>),
    Object(Vec<FieldEntry>),
}

/// A field of a document, or of an object in it.
pub struct FieldEntry {
    pub name: String,
    pub value: FieldValue,
}

/// The languages that the texts of some fields are written in.
pub struct LocalizedAttributesRule {
    pub locales: Vec<Language>,
}

/// A text that may be Japanese, with the codes of the languages that it may be written in.
#[derive(Debug)]
pub struct LocalizedText {
    pub text: String,
    pub locales: Vec<String>,
}

/// A text that may be Japanese, by its characters.
pub struct LocalizedTextView {
    pub text: Seq<char>,
    pub locales: Seq<Seq<char>>,
}

impl DeepView for LocalizedText {
    type V = LocalizedTextView;

    open spec fn deep_view(&self) -> LocalizedTextView {
        LocalizedTextView { text: self.text@, locales: self.locales.deep_view() }
    }
}

impl Plain for LocalizedText {
    fn duplicate(&self) -> (r: Self) {
        LocalizedText { text: self.text.duplicate(), locales: self.locales.duplicate() }
    }

    fn same(&self, other: &Self) -> (b: bool) {
        self.text.same(&other.text) && self.locales.same(&other.locales)
    }
}

/// What is known of the fields of a document and of the Japanese texts in it.
pub struct DocumentAnswers {
    pub fields: Vec<Answer<String, FieldInfo>>,
    /// For each token of a text that may be Japanese its alternates, if it has a reading.
    pub alternates: Vec<Answer<LocalizedText, Vec<Option<Vec<String>>>>>,
}

/// A question on a document that is not answered yet.
#[derive(Debug)]
pub enum DocumentLookup {
    /// What is known of the field with this name?
    Field(String),
    /// Which are the alternates of the tokens of this text, which may be Japanese?
    Alternates(LocalizedText),
}

/// A question on a document by its characters.
pub enum DocumentLookupView {
    Field(Seq<char>),
    Alternates(LocalizedTextView),
}

impl DeepView for DocumentLookup {
    type V = DocumentLookupView;

    open spec fn deep_view(&self) -> DocumentLookupView {
        match self {
            DocumentLookup::Field(name) => DocumentLookupView::Field(name@),
            DocumentLookup::Alternates(text) => DocumentLookupView::Alternates(text.deep_view()),
        }
    }
}

impl DocumentAnswers {
    /// What is known of a field, if anything is.
    pub open spec fn field_answer(self, name: Seq<char>) -> Option<FieldInfoView> {
        answer_to(self.fields.deep_view(), name)
    }

    /// The alternates of the tokens of a text, if they are known.
    pub open spec fn alternates_answer(self, text: LocalizedTextView) -> Option<
        Seq<Option<Seq<Seq<char>>>>,
    > {
        answer_to(self.alternates.deep_view(), text)
    }

    /// Whether the answer to a question is known.
    pub open spec fn knows(self, lookup: DocumentLookupView) -> bool {
        match lookup {
            DocumentLookupView::Field(name) => self.field_answer(name) is Some,
            DocumentLookupView::Alternates(text) => self.alternates_answer(text) is Some,
        }
    }

    /// Whether all is known that was known before.
    pub open spec fn extends(self, other: DocumentAnswers) -> bool {
        &&& forall|name: Seq<char>|
            (#[trigger] other.field_answer(name)) is Some ==> self.field_answer(name)
                == other.field_answer(name)
        &&& forall|text: LocalizedTextView|
            (#[trigger] other.alternates_answer(text)) is Some ==> self.alternates_answer(text)
                == other.alternates_answer(text)
    }
}

impl Default for DocumentAnswers {
    /// Nothing is known.
    fn default() -> (r: DocumentAnswers)
        ensures
            r.fields@.len() == 0,
            r.alternates@.len() == 0,
    {
        DocumentAnswers { fields: Vec::new(), alternates: Vec::new() }
    }
}

/// The words of a document so far, and the last position in each of its fields.
pub struct DocumentTerms {
    pub positions: HashMap<u16, u32>,
    pub terms: Vec<FieldTerm>,
}

/// The words of a document so far, by their characters.
#[verifier::ext_equal]
pub struct DocumentView {
    pub positions: Map<u16, u32>,
    pub terms: Seq<FieldTermView>,
}

impl DeepView for DocumentTerms {
    type V = DocumentView;

    open spec fn deep_view(&self) -> DocumentView {
        DocumentView { positions: self.positions@, terms: self.terms.deep_view() }
    }
}

/// A result by its characters.
pub open spec fn document_outcome<T: DeepView>(result: Result<T, DocumentLookup>) -> Result<
    T::V,
    DocumentLookupView,
> {
    match result {
        Ok(value) => Ok(value.deep_view()),
        Err(lookup) => Err(lookup.deep_view()),
    }
}

/// The languages of the first rule that a field matches.
pub open spec fn locales_of(
    rules: Seq<LocalizedAttributesRule>,
    matches: Seq<PatternMatch>,
) -> Option<Seq<Language>>
    decreases rules.len(),
{
    if rules.len() == 0 || matches.len() == 0 {
        None
    } else if matches[0] == PatternMatch::Match {
        Some(rules[0].locales@)
    } else {
        locales_of(rules.drop_first(), matches.drop_first())
    }
}

/// The codes of some languages.
pub open spec fn codes_of(locales: Seq<Language>) -> Seq<Seq<char>> {
    Seq::new(locales.len(), |i: int| code_of(locales[i]))
}

fn language_codes(locales: &Vec<Language>) -> (codes: Vec<String>)
    ensures
        codes.deep_view() == codes_of(locales@),
{
    let ghost all = codes_of(locales@);
    let mut codes: Vec<String> = Vec::new();
    let mut i: usize = 0;
    while i < locales.len()
        invariant
            i <= locales.len(),
            all == codes_of(locales@),
            codes.deep_view() == all.take(i as int),
        decreases locales.len() - i,
    {
        let ghost before = codes;
        let code = language_code(&locales[i]).to_owned();
        codes.push(code);
        proof {
            pushing_deepens(before, codes, code);
            assert(all.take(i + 1) == all.take(i as int).push(all[i as int]));
        }
        i = i + 1;
    }
    assert(all.take(i as int) == all);
    codes
}

/// Whether Japanese is among some languages, given by their codes. Its code is `jpn`, and that of no
/// other language.
pub open spec fn has_japanese(codes: Seq<Seq<char>>) -> bool {
    codes.contains("jpn"@)
}

fn contains_japanese(codes: &Vec<String>) -> (b: bool)
    ensures
        b == has_japanese(codes.deep_view()),
{
    let ghost all = codes.deep_view();
    let mut i: usize = 0;
    while i < codes.len()
        invariant
            i <= codes.len(),
            all == codes.deep_view(),
            forall|j: int| 0 <= j < i ==> #[trigger] all[j] != "jpn"@,
        decreases codes.len() - i,
    {
        assert(all[i as int] == codes[i as int]@);
        if same_text(codes[i].as_str(), "jpn") {
            return true;
        }
        i = i + 1;
    }
    false
}

/// The position at which the next value of a field starts.
pub open spec fn start_position(positions: Map<u16, u32>, field_id: u16) -> int {
    if positions.contains_key(field_id) {
        if positions[field_id] + MAX_DISTANCE <= u32::MAX {
            positions[field_id] + MAX_DISTANCE
        } else {
            u32::MAX as int
        }
    } else {
        0
    }
}

/// Splits the values of documents into words.
#[derive(Clone, Copy)]
pub struct DocumentTokenizer<'a> {
    pub tokenizer: &'a Tokenizer<'a>,
    pub localized_attributes_rules: &'a Vec<LocalizedAttributesRule>,
    /// The position from which on the words of a field are left out.
    pub max_positions_per_attributes: u32,
}

impl<'a> DocumentTokenizer<'a> {
    /// The tokens of a value. Arrays, objects and null have none.
    pub open spec fn tokens_outcome(
        self,
        known: DocumentAnswers,
        rule_matches: Seq<PatternMatch>,
        value: FieldValue,
    ) -> Result<Option<Seq<TokenView>>, DocumentLookupView> {
        match value {
            FieldValue::Number(number) => Ok(
                Some(
                    with_alternates(
                        pieces_of(*self.tokenizer, text_of_number(number)),
                        Seq::empty(),
                    ),
                ),
            ),
            FieldValue::Bool(b) => Ok(
                Some(
                    with_alternates(
                        pieces_of(
                            *self.tokenizer,
                            if b {
                                "true"@
                            } else {
                                "false"@
                            },
                        ),
                        Seq::empty(),
                    ),
                ),
            ),
            FieldValue::Text(text) => {
                let locales = locales_of(self.localized_attributes_rules@, rule_matches);
                let pieces = pieces_with_allow_list(*self.tokenizer, text@, locales);
                if locales is Some && has_japanese(codes_of(locales->0)) {
                    let localized = LocalizedTextView {
                        text: text@,
                        locales: codes_of(locales->0),
                    };
                    match known.alternates_answer(localized) {
                        Some(alternates) => Ok(Some(with_alternates(pieces, alternates))),
                        None => Err(DocumentLookupView::Alternates(localized)),
                    }
                } else {
                    Ok(Some(with_alternates(pieces, Seq::empty())))
                }
            },
            _ => Ok(None),
        }
    }

    /// The languages of the first rule that a field matches.
    fn locales(&self, rule_matches: &Vec<PatternMatch>) -> (r: Option<&'a Vec<Language>>)
        ensures
            (match r {
                Some(locales) => Some(locales@),
                None => None,
            }) == locales_of(self.localized_attributes_rules@, rule_matches.deep_view()),
    {
        let rules: &'a Vec<LocalizedAttributesRule> = self.localized_attributes_rules;
        let ghost all = rules@;
        let ghost matches = rule_matches.deep_view();
        let mut i: usize = 0;
        assert(all.skip(0) == all);
        assert(matches.skip(0) == matches);
        while i < rules.len() && i < rule_matches.len()
            invariant
                i <= rules.len(),
                i <= rule_matches.len(),
                rules == self.localized_attributes_rules,
                all == rules@,
                matches == rule_matches.deep_view(),
                locales_of(all, matches) == locales_of(all.skip(i as int), matches.skip(i as int)),
            decreases rules.len() - i,
        {
            assert(all.skip(i as int).drop_first() == all.skip(i + 1));
            assert(matches.skip(i as int).drop_first() == matches.skip(i + 1));
            assert(matches.skip(i as int)[0] == rule_matches[i as int]);
            if rule_matches[i] == PatternMatch::Match {
                return Some(&rules[i].locales);
            }
            i = i + 1;
        }
        None
    }

    /// The tokens of a value.
    pub fn tokens_of(
        &self,
        known: &DocumentAnswers,
        rule_matches: &Vec<PatternMatch>,
        value: &FieldValue,
    ) -> (r: Result<Option<Vec<Token>>, DocumentLookup>)
        ensures
            document_outcome(r) == self.tokens_outcome(*known, rule_matches.deep_view(), *value),
    {
        let none: Vec<Option<Vec<String>>> = Vec::new();
        assert(none.deep_view() == Seq::<Option<Seq<Seq<char>>>>::empty());
        match value {
            FieldValue::Number(number) => {
                let text = number_text(number);
                let pieces = collect_pieces(tokenize(self.tokenizer, text.as_str()));
                Ok(Some(attach_alternates(pieces, &none)))
            },
            FieldValue::Bool(b) => {
                let text = if *b {
                    "true"
                } else {
                    "false"
                };
                let pieces = collect_pieces(tokenize(self.tokenizer, text));
                Ok(Some(attach_alternates(pieces, &none)))
            },
            FieldValue::Text(text) => {
                let locales = self.locales(rule_matches);
                let pieces = collect_pieces(
                    tokenize_with_allow_list(self.tokenizer, text.as_str(), locales),
                );
                match locales {
                    Some(locales) => {
                        let codes = language_codes(locales);
                        if contains_japanese(&codes) {
                            let localized = LocalizedText { text: text.clone(), locales: codes };
                            return match find_answer(&known.alternates, &localized) {
                                Some(alternates) => Ok(Some(attach_alternates(pieces, alternates))),
                                None => Err(DocumentLookup::Alternates(localized)),
                            };
                        }
                    },
                    None => {},
                }
                Ok(Some(attach_alternates(pieces, &none)))
            },
            _ => Ok(None),
        }
    }

    /// A document after a value of a field. The value starts behind the ones before it, and its
    /// words are indexed up to the position from which on they are left out.
    pub open spec fn field_outcome(
        self,
        known: DocumentAnswers,
        field_name: Seq<char>,
        info: FieldInfoView,
        value: FieldValue,
        document: DocumentView,
    ) -> Result<DocumentView, DocumentLookupView> {
        let start = start_position(document.positions, info.id);
        let positions = document.positions.insert(info.id, start as u32);
        if start >= self.max_positions_per_attributes {
            Ok(DocumentView { positions, terms: document.terms })
        } else {
            match self.tokens_outcome(known, info.rule_matches, value) {
                Err(lookup) => Err(lookup),
                Ok(None) => Ok(DocumentView { positions, terms: document.terms }),
                Ok(Some(tokens)) => {
                    let words = words_before(
                        placed_words(start, tokens),
                        self.max_positions_per_attributes as int,
                    );
                    Ok(
                        DocumentView {
                            positions: positions.insert(
                                info.id,
                                last_position(start, words) as u32,
                            ),
                            terms: document.terms + terms_of_words(field_name, info.id, words),
                        },
                    )
                },
            }
        }
    }

    /// Adds the words of a value of a field to a document.
    pub fn tokenize_field(
        &self,
        known: &DocumentAnswers,
        field_name: &str,
        info: &FieldInfo,
        value: &FieldValue,
        document: DocumentTerms,
    ) -> (r: Result<DocumentTerms, DocumentLookup>)
        ensures
            document_outcome(r) == self.field_outcome(
                *known,
                field_name@,
                info.deep_view(),
                *value,
                document.deep_view(),
            ),
    {
        let mut document = document;
        let start: u32 = match document.positions.get(&info.id) {
            Some(last) => last.saturating_add(MAX_DISTANCE),
            None => 0,
        };
        document.positions.insert(info.id, start);
        if start >= self.max_positions_per_attributes {
            return Ok(document);
        }
        match self.tokens_of(known, &info.rule_matches, value) {
            Err(lookup) => Err(lookup),
            Ok(None) => Ok(document),
            Ok(Some(tokens)) => {
                let position: u32 = add_terms(
                    &mut document.terms,
                    field_name,
                    info.id,
                    start,
                    &tokens,
                    self.max_positions_per_attributes,
                );
                document.positions.insert(info.id, position);
                Ok(document)
            },
        }
    }
}

/// The name of a field inside of another.
pub open spec fn nested_name(base: Seq<char>, name: Seq<char>) -> Seq<char> {
    if base.len() == 0 {
        name
    } else {
        base.push('.') + name
    }
}

fn nest(base: &str, name: &String) -> (r: String)
    ensures
        r@ == nested_name(base@, name@),
{
    if base.unicode_len() == 0 {
        name.clone()
    } else {
        let mut r = base.to_owned();
        r.push('.');
        r.append(name.as_str());
        r
    }
}

impl<'a> DocumentTokenizer<'a> {
    /// A document after a value was met under a name, and how that name matches what is
    /// searchable. The words of the value are added if the name matches.
    pub open spec fn visit_outcome(
        self,
        known: DocumentAnswers,
        name: Seq<char>,
        value: FieldValue,
        document: DocumentView,
    ) -> Result<(PatternMatch, DocumentView), DocumentLookupView> {
        match known.field_answer(name) {
            None => Err(DocumentLookupView::Field(name)),
            Some(info) => if info.pattern_match == PatternMatch::Match {
                match self.field_outcome(known, name, info, value, document) {
                    Ok(document) => Ok((info.pattern_match, document)),
                    Err(lookup) => Err(lookup),
                }
            } else {
                Ok((info.pattern_match, document))
            },
        }
    }

    /// A document after the fields of an object from the `i`-th on. A field that does not match,
    /// nor may hold one that does, is not looked into.
    pub open spec fn entries_outcome(
        self,
        known: DocumentAnswers,
        base: Seq<char>,
        entries: Seq<FieldEntry>,
        i: int,
        document: DocumentView,
    ) -> Result<DocumentView, DocumentLookupView>
        decreases entries, entries.len() - i,
    {
        if i < 0 || i >= entries.len() {
            Ok(document)
        } else {
            let name = nested_name(base, entries[i].name@);
            match self.visit_outcome(known, name, entries[i].value, document) {
                Err(lookup) => Err(lookup),
                Ok((pattern_match, document)) => {
                    let inside = if pattern_match == PatternMatch::NoMatch {
                        Ok(document)
                    } else {
                        self.inside_outcome(known, name, entries[i].value, document)
                    };
                    match inside {
                        Err(lookup) => Err(lookup),
                        Ok(document) => self.entries_outcome(known, base, entries, i + 1, document),
                    }
                },
            }
        }
    }

    /// A document after the items of an array from the `i`-th on.
    pub open spec fn items_outcome(
        self,
        known: DocumentAnswers,
        base: Seq<char>,
        items: Seq<FieldValue>,
        i: int,
        document: DocumentView,
    ) -> Result<DocumentView, DocumentLookupView>
        decreases items, items.len() - i,
    {
        if i < 0 || i >= items.len() {
            Ok(document)
        } else {
            let inside = match items[i] {
                FieldValue::Array(_) => self.inside_outcome(known, base, items[i], document),
                FieldValue::Object(_) => self.inside_outcome(known, base, items[i], document),
                _ => match self.visit_outcome(known, base, items[i], document) {
                    Err(lookup) => Err(lookup),
                    Ok((_, document)) => Ok(document),
                },
            };
            match inside {
                Err(lookup) => Err(lookup),
                Ok(document) => self.items_outcome(known, base, items, i + 1, document),
            }
        }
    }

    /// A document after what is inside of an array or an object. An empty one is met itself.
    pub open spec fn inside_outcome(
        self,
        known: DocumentAnswers,
        base: Seq<char>,
        value: FieldValue,
        document: DocumentView,
    ) -> Result<DocumentView, DocumentLookupView>
        decreases value, 0int,
    {
        match value {
            FieldValue::Array(items) => if items@.len() == 0 {
                match self.visit_outcome(known, base, value, document) {
                    Err(lookup) => Err(lookup),
                    Ok((_, document)) => Ok(document),
                }
            } else {
                self.items_outcome(known, base, items@, 0, document)
            },
            FieldValue::Object(entries) => if entries@.len() == 0 {
                match self.visit_outcome(known, base, value, document) {
                    Err(lookup) => Err(lookup),
                    Ok((_, document)) => Ok(document),
                }
            } else {
                self.entries_outcome(known, base, entries@, 0, document)
            },
            _ => Ok(document),
        }
    }

    /// Meets a value under a name.
    fn visit(
        &self,
        known: &DocumentAnswers,
        name: &String,
        value: &FieldValue,
        document: DocumentTerms,
    ) -> (r: Result<(PatternMatch, DocumentTerms), DocumentLookup>)
        ensures
            document_outcome(r) == self.visit_outcome(
                *known,
                name@,
                *value,
                document.deep_view(),
            ),
    {
        match find_answer(&known.fields, name) {
            None => Err(DocumentLookup::Field(name.clone())),
            Some(info) => if info.pattern_match == PatternMatch::Match {
                match self.tokenize_field(known, name.as_str(), info, value, document) {
                    Ok(document) => Ok((info.pattern_match, document)),
                    Err(lookup) => Err(lookup),
                }
            } else {
                Ok((info.pattern_match, document))
            },
        }
    }

    /// Adds the words of the fields of an object.
    fn tokenize_entries(
        &self,
        known: &DocumentAnswers,
        base: &String,
        entries: &Vec<FieldEntry>,
        document: DocumentTerms,
    ) -> (r: Result<DocumentTerms, DocumentLookup>)
        ensures
            document_outcome(r) == self.entries_outcome(
                *known,
                base@,
                entries@,
                0,
                document.deep_view(),
            ),
        decreases entries@, 0int,
    {
        let mut current = document;
        let mut i: usize = 0;
        while i < entries.len()
            invariant
                i <= entries.len(),
                self.entries_outcome(*known, base@, entries@, 0, document.deep_view()) == self.entries_outcome(
                    *known,
                    base@,
                    entries@,
                    i as int,
                    current.deep_view(),
                ),
            decreases entries.len() - i,
        {
            let name = nest(base.as_str(), &entries[i].name);
            match self.visit(known, &name, &entries[i].value, current) {
                Err(lookup) => {
                    return Err(lookup);
                },
                Ok((pattern_match, visited)) => {
                    current = visited;
                    if pattern_match != PatternMatch::NoMatch {
                        match self.tokenize_inside(known, &name, &entries[i].value, current) {
                            Err(lookup) => {
                                return Err(lookup);
                            },
                            Ok(walked) => {
                                current = walked;
                            },
                        }
                    }
                },
            }
            i = i + 1;
        }
        Ok(current)
    }

    /// Adds the words of the items of an array.
    fn tokenize_items(
        &self,
        known: &DocumentAnswers,
        base: &String,
        items: &Vec<FieldValue>,
        document: DocumentTerms,
    ) -> (r: Result<DocumentTerms, DocumentLookup>)
        ensures
            document_outcome(r) == self.items_outcome(
                *known,
                base@,
                items@,
                0,
                document.deep_view(),
            ),
        decreases items@, 0int,
    {
        let mut current = document;
        let mut i: usize = 0;
        while i < items.len()
            invariant
                i <= items.len(),
                self.items_outcome(*known, base@, items@, 0, document.deep_view()) == self.items_outcome(
                    *known,
                    base@,
                    items@,
                    i as int,
                    current.deep_view(),
                ),
            decreases items.len() - i,
        {
            let is_nested = matches!(items[i], FieldValue::Array(_)) || matches!(
                items[i],
                FieldValue::Object(_)
            );
            if is_nested {
                match self.tokenize_inside(known, base, &items[i], current) {
                    Err(lookup) => {
                        return Err(lookup);
                    },
                    Ok(walked) => {
                        current = walked;
                    },
                }
            } else {
                match self.visit(known, base, &items[i], current) {
                    Err(lookup) => {
                        return Err(lookup);
                    },
                    Ok((_, visited)) => {
                        current = visited;
                    },
                }
            }
            i = i + 1;
        }
        Ok(current)
    }

    /// Adds the words of what is inside of an array or an object.
    fn tokenize_inside(
        &self,
        known: &DocumentAnswers,
        base: &String,
        value: &FieldValue,
        document: DocumentTerms,
    ) -> (r: Result<DocumentTerms, DocumentLookup>)
        ensures
            document_outcome(r) == self.inside_outcome(
                *known,
                base@,
                *value,
                document.deep_view(),
            ),
        decreases value, 0int,
    {
        match value {
            FieldValue::Array(items) => if items.len() == 0 {
                match self.visit(known, base, value, document) {
                    Err(lookup) => Err(lookup),
                    Ok((_, document)) => Ok(document),
                }
            } else {
                self.tokenize_items(known, base, items, document)
            },
            FieldValue::Object(entries) => if entries.len() == 0 {
                match self.visit(known, base, value, document) {
                    Err(lookup) => Err(lookup),
                    Ok((_, document)) => Ok(document),
                }
            } else {
                self.tokenize_entries(known, base, entries, document)
            },
            _ => Ok(document),
        }
    }
}

/// A document without words.
pub open spec fn empty_document() -> DocumentView {
    DocumentView { positions: Map::empty(), terms: Seq::empty() }
}

impl<'a> DocumentTokenizer<'a> {
    /// A document after its fields from the `i`-th on.
    pub open spec fn fields_outcome(
        self,
        known: DocumentAnswers,
        fields: Seq<FieldEntry>,
        i: int,
        document: DocumentView,
    ) -> Result<DocumentView, DocumentLookupView>
        decreases fields.len() - i,
    {
        if i < 0 || i >= fields.len() {
            Ok(document)
        } else {
            match self.top_level_outcome(known, fields[i].name@, fields[i].value, document) {
                Err(lookup) => Err(lookup),
                Ok(document) => self.fields_outcome(known, fields, i + 1, document),
            }
        }
    }

    /// A document after one of its fields. A field that does not match, nor may hold one that
    /// does, is passed over.
    pub open spec fn top_level_outcome(
        self,
        known: DocumentAnswers,
        name: Seq<char>,
        value: FieldValue,
        document: DocumentView,
    ) -> Result<DocumentView, DocumentLookupView> {
        match known.field_answer(name) {
            None => Err(DocumentLookupView::Field(name)),
            Some(info) => if info.pattern_match == PatternMatch::NoMatch {
                Ok(document)
            } else {
                match value {
                    FieldValue::Array(_) => self.inside_outcome(known, name, value, document),
                    FieldValue::Object(_) => self.inside_outcome(known, name, value, document),
                    _ => match self.visit_outcome(known, name, value, document) {
                        Err(lookup) => Err(lookup),
                        Ok((_, document)) => Ok(document),
                    },
                }
            },
        }
    }

    /// Adds the words of one of the fields of a document.
    fn tokenize_top_level(
        &self,
        known: &DocumentAnswers,
        field: &FieldEntry,
        document: DocumentTerms,
    ) -> (r: Result<DocumentTerms, DocumentLookup>)
        ensures
            document_outcome(r) == self.top_level_outcome(
                *known,
                field.name@,
                field.value,
                document.deep_view(),
            ),
    {
        match find_answer(&known.fields, &field.name) {
            None => {
                return Err(DocumentLookup::Field(field.name.clone()));
            },
            Some(info) => {
                if info.pattern_match == PatternMatch::NoMatch {
                    return Ok(document);
                }
            },
        }
        let is_nested = matches!(field.value, FieldValue::Array(_)) || matches!(
            field.value,
            FieldValue::Object(_)
        );
        if is_nested {
            self.tokenize_inside(known, &field.name, &field.value, document)
        } else {
            match self.visit(known, &field.name, &field.value, document) {
                Err(lookup) => Err(lookup),
                Ok((_, document)) => Ok(document),
            }
        }
    }

    /// The words of the searchable fields of a document, with their positions.
    pub fn tokenize_document(&self, known: &DocumentAnswers, fields: &Vec<FieldEntry>) -> (r: Result<
        DocumentTerms,
        DocumentLookup,
    >)
        ensures
            document_outcome(r) == self.fields_outcome(*known, fields@, 0, empty_document()),
    {
        let mut document = DocumentTerms { positions: HashMap::new(), terms: Vec::new() };
        assert(document.deep_view() =~= empty_document());
        let mut i: usize = 0;
        while i < fields.len()
            invariant
                i <= fields.len(),
                self.fields_outcome(*known, fields@, 0, empty_document()) == self.fields_outcome(
                    *known,
                    fields@,
                    i as int,
                    document.deep_view(),
                ),
            decreases fields.len() - i,
        {
            match self.tokenize_top_level(known, &fields[i], document) {
                Err(lookup) => {
                    return Err(lookup);
                },
                Ok(walked) => {
                    document = walked;
                },
            }
            i = i + 1;
        }
        Ok(document)
    }
}

} // verus!
