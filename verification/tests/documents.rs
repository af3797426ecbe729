use std::collections::BTreeMap;

use charabia::{Language, TokenizerBuilder};
use kotoba::context::Answer;
use kotoba::document::{
    DocumentAnswers, DocumentLookup, DocumentTokenizer, FieldEntry, FieldInfo, FieldValue,
    LocalizedAttributesRule, PatternMatch,
};
use kotoba::field_terms::{FieldTerm, SearchTermKind};
use kotoba::positions::process_tokens;
use kotoba::token::{SeparatorKind, Token, TokenKind};
use kotoba::tokenizer::tokenizer_builder;

fn text(value: &str) -> FieldValue {
    FieldValue::Text(value.to_string())
}

fn number(value: u64) -> FieldValue {
    FieldValue::Number(serde_json::Number::from(value))
}

fn field(name: &str, value: FieldValue) -> FieldEntry {
    FieldEntry { name: name.to_string(), value }
}

/// Field ids are given out in the order in which fields are asked for.
struct Fields {
    names: Vec<String>,
    patterns: Vec<(&'static str, PatternMatch)>,
    rule_matches: Vec<PatternMatch>,
}

impl Fields {
    fn new(names: &[&str]) -> Fields {
        Fields {
            names: names.iter().map(|name| name.to_string()).collect(),
            patterns: Vec::new(),
            rule_matches: Vec::new(),
        }
    }

    fn info(&mut self, name: &str) -> FieldInfo {
        let id = match self.names.iter().position(|known| known == name) {
            Some(id) => id,
            None => {
                self.names.push(name.to_string());
                self.names.len() - 1
            }
        };
        let pattern_match = self
            .patterns
            .iter()
            .find(|(pattern, _)| *pattern == name)
            .map_or(PatternMatch::Match, |(_, pattern_match)| *pattern_match);
        FieldInfo { id: id as u16, pattern_match, rule_matches: self.rule_matches.clone() }
    }
}

fn tokenize(
    tokenizer: &DocumentTokenizer<'_>,
    document: &Vec<FieldEntry>,
    fields: &mut Fields,
    alternates: &[(&str, Vec<Option<Vec<String>>>)],
) -> Vec<FieldTerm> {
    let mut known = DocumentAnswers::default();
    loop {
        match tokenizer.tokenize_document(&known, document) {
            Ok(document) => return document.terms,
            Err(DocumentLookup::Field(name)) => {
                let answer = fields.info(&name);
                known.fields.push(Answer { question: name, answer });
            }
            Err(DocumentLookup::Alternates(text)) => {
                let answer = alternates
                    .iter()
                    .find(|(known, _)| *known == text.text)
                    .map(|(_, answer)| answer.clone())
                    .unwrap_or_default();
                known.alternates.push(Answer { question: text, answer });
            }
        }
    }
}

fn words(terms: &[FieldTerm]) -> Vec<(u16, u16, &str)> {
    terms.iter().map(|term| (term.field_id, term.position, term.word.as_str())).collect()
}

#[test]
fn test_tokenize_document() {
    let document = vec![
        field(
            "doggo",
            FieldValue::Object(vec![field("name", text("doggo")), field("age", number(10))]),
        ),
        field(
            "catto",
            FieldValue::Object(vec![field(
                "catto",
                FieldValue::Object(vec![field("name", text("pesti")), field("age", number(23))]),
            )]),
        ),
        field("doggo.name", FieldValue::Array(vec![text("doggo"), text("catto")])),
        field("not-me", text("UNSEARCHABLE")),
        field("me-nether", FieldValue::Object(vec![field("nope", text("unsearchable"))])),
    ];
    let mut fields = Fields::new(&["doggo", "catto", "doggo.name", "not-me", "me-nether"]);

    let mut builder = TokenizerBuilder::default();
    let tokenizer = builder.build();
    let rules = Vec::new();
    let document_tokenizer = DocumentTokenizer {
        tokenizer: &tokenizer,
        localized_attributes_rules: &rules,
        max_positions_per_attributes: 1000,
    };
    let terms = tokenize(&document_tokenizer, &document, &mut fields, &[]);

    let words: BTreeMap<[u16; 2], String> =
        terms.iter().map(|term| ([term.field_id, term.position], term.word.clone())).collect();
    let expected: BTreeMap<[u16; 2], String> = [
        ([2, 0], "doggo"),
        ([2, 8], "doggo"),
        ([2, 16], "catto"),
        ([3, 0], "unsearchable"),
        ([5, 0], "10"),
        ([7, 0], "pesti"),
        ([8, 0], "23"),
        ([9, 0], "unsearchable"),
    ]
    .into_iter()
    .map(|(key, word)| (key, word.to_string()))
    .collect();
    assert_eq!(words, expected);
}

#[test]
fn test_japanese_reading_and_romaji_are_same_position_alternates() {
    let document = vec![field("name", text("国際空港"))];
    let mut fields = Fields::new(&["name"]);
    fields.rule_matches = vec![PatternMatch::Match];
    let name_fid = 0;

    let dictionary = ["国際", "空港"];
    let mut builder = tokenizer_builder(None, None, Some(&dictionary));
    let tokenizer = builder.build();
    let rules = vec![LocalizedAttributesRule { locales: vec![Language::Jpn] }];
    let document_tokenizer = DocumentTokenizer {
        tokenizer: &tokenizer,
        localized_attributes_rules: &rules,
        max_positions_per_attributes: 1000,
    };
    let readings = vec![
        Some(vec!["こくさい".to_string(), "kokusai".to_string()]),
        Some(vec!["くうこう".to_string(), "kuukou".to_string()]),
    ];
    let terms = tokenize(&document_tokenizer, &document, &mut fields, &[("国際空港", readings)]);

    let surface_pos = terms
        .iter()
        .find(|term| {
            term.field_id == name_fid && term.word == "国際" && term.kind == SearchTermKind::Original
        })
        .map(|term| term.position)
        .expect("surface token should be indexed");
    assert!(terms.iter().any(|term| {
        term.field_id == name_fid
            && term.position == surface_pos
            && term.word == "こくさい"
            && term.kind == SearchTermKind::Alternate
    }));
    assert!(terms.iter().any(|term| {
        term.field_id == name_fid
            && term.position == surface_pos
            && term.word == "kokusai"
            && term.kind == SearchTermKind::Alternate
    }));
    assert!(terms.iter().all(|term| term.kind.is_original() == (term.kind == SearchTermKind::Original)));
    assert_eq!(
        words(&terms),
        vec![
            (0, 0, "国際"),
            (0, 0, "こくさい"),
            (0, 0, "kokusai"),
            (0, 1, "空港"),
            (0, 1, "くうこう"),
            (0, 1, "kuukou"),
        ]
    );
}

#[test]
fn alternates_are_indexed_for_japanese_fields_only() {
    let document = vec![field("name", text("国際空港"))];
    let dictionary = ["国際", "空港"];
    let mut builder = tokenizer_builder(None, None, Some(&dictionary));
    let tokenizer = builder.build();
    let readings =
        vec![Some(vec![" こくさい ".to_string(), "国際".to_string(), " ".to_string()]), None];

    // the second rule is the first that matches, and allows no Japanese
    let rules = vec![
        LocalizedAttributesRule { locales: vec![Language::Jpn] },
        LocalizedAttributesRule { locales: vec![Language::Eng] },
    ];
    let document_tokenizer = DocumentTokenizer {
        tokenizer: &tokenizer,
        localized_attributes_rules: &rules,
        max_positions_per_attributes: 1000,
    };
    let mut fields = Fields::new(&["name"]);
    fields.rule_matches = vec![PatternMatch::Parent, PatternMatch::Match];
    let terms =
        tokenize(&document_tokenizer, &document, &mut fields, &[("国際空港", readings.clone())]);
    assert_eq!(words(&terms), vec![(0, 0, "国際"), (0, 1, "空港")]);

    // empty alternates, and the word itself, are left out
    let mut fields = Fields::new(&["name"]);
    fields.rule_matches = vec![PatternMatch::Match, PatternMatch::Match];
    let terms = tokenize(&document_tokenizer, &document, &mut fields, &[("国際空港", readings)]);
    assert_eq!(words(&terms), vec![(0, 0, "国際"), (0, 0, "こくさい"), (0, 1, "空港")]);
}

#[test]
fn unknown_fields_are_asked_for() {
    let mut builder = TokenizerBuilder::default();
    let tokenizer = builder.build();
    let rules = vec![LocalizedAttributesRule { locales: vec![Language::Jpn] }];
    let document_tokenizer = DocumentTokenizer {
        tokenizer: &tokenizer,
        localized_attributes_rules: &rules,
        max_positions_per_attributes: 1000,
    };
    let document = vec![field("name", text("はし"))];
    let mut known = DocumentAnswers::default();
    match document_tokenizer.tokenize_document(&known, &document) {
        Err(DocumentLookup::Field(name)) => assert_eq!(name, "name"),
        _ => panic!("the field should be asked for"),
    }
    known.fields.push(Answer {
        question: "name".to_string(),
        answer: FieldInfo {
            id: 4,
            pattern_match: PatternMatch::Match,
            rule_matches: vec![PatternMatch::Match],
        },
    });
    match document_tokenizer.tokenize_document(&known, &document) {
        Err(DocumentLookup::Alternates(text)) => {
            assert_eq!(text.text, "はし");
            assert_eq!(text.locales, vec!["jpn"]);
        }
        _ => panic!("the alternates should be asked for"),
    }
}

#[test]
fn fields_that_do_not_match_are_left_out() {
    let mut builder = TokenizerBuilder::default();
    let tokenizer = builder.build();
    let rules = Vec::new();
    let document_tokenizer = DocumentTokenizer {
        tokenizer: &tokenizer,
        localized_attributes_rules: &rules,
        max_positions_per_attributes: 1000,
    };
    let document = vec![
        field("hidden", text("secret")),
        field(
            "dog",
            FieldValue::Object(vec![
                field("name", text("rex")),
                field("owner", FieldValue::Object(vec![field("name", text("ann"))])),
                field("tags", FieldValue::Array(vec![])),
            ]),
        ),
    ];
    let mut fields = Fields::new(&[]);
    fields.patterns = vec![
        ("hidden", PatternMatch::NoMatch),
        ("dog", PatternMatch::Parent),
        ("dog.owner", PatternMatch::NoMatch),
    ];
    let terms = tokenize(&document_tokenizer, &document, &mut fields, &[]);
    assert_eq!(terms.len(), 1);
    assert_eq!(terms[0].field_name, "dog.name");
    assert_eq!(terms[0].word, "rex");
    // what is inside of a field that does not match is not asked for
    assert_eq!(fields.names, vec!["hidden", "dog", "dog.name", "dog.owner", "dog.tags"]);
}

#[test]
fn values_of_all_kinds_have_words() {
    let mut builder = TokenizerBuilder::default();
    let tokenizer = builder.build();
    let rules = Vec::new();
    let document_tokenizer = DocumentTokenizer {
        tokenizer: &tokenizer,
        localized_attributes_rules: &rules,
        max_positions_per_attributes: 1000,
    };
    let document = vec![field(
        "all",
        FieldValue::Array(vec![
            FieldValue::Bool(true),
            FieldValue::Null,
            FieldValue::Bool(false),
            number(42),
            FieldValue::Array(vec![text("a. b c")]),
            FieldValue::Object(vec![]),
        ]),
    )];
    let mut fields = Fields::new(&[]);
    let terms = tokenize(&document_tokenizer, &document, &mut fields, &[]);
    assert_eq!(
        words(&terms),
        vec![
            (0, 0, "true"),
            (0, 16, "false"),
            (0, 24, "42"),
            (0, 32, "a"),
            (0, 40, "b"),
            (0, 41, "c"),
        ]
    );
}

#[test]
fn words_past_the_last_position_are_left_out() {
    let mut builder = TokenizerBuilder::default();
    let tokenizer = builder.build();
    let rules = Vec::new();
    let document_tokenizer = DocumentTokenizer {
        tokenizer: &tokenizer,
        localized_attributes_rules: &rules,
        max_positions_per_attributes: 10,
    };
    let document = vec![field(
        "tags",
        FieldValue::Array(vec![text("one two"), text("three four"), text("five")]),
    )];
    let mut fields = Fields::new(&[]);
    let terms = tokenize(&document_tokenizer, &document, &mut fields, &[]);
    // the second value starts 8 behind the last word of the first
    assert_eq!(words(&terms), vec![(0, 0, "one"), (0, 1, "two"), (0, 9, "three")]);
}

#[test]
fn words_that_fit_in_no_key_are_left_out() {
    let mut builder = TokenizerBuilder::default();
    let tokenizer = builder.build();
    let rules = Vec::new();
    let document_tokenizer = DocumentTokenizer {
        tokenizer: &tokenizer,
        localized_attributes_rules: &rules,
        max_positions_per_attributes: 1000,
    };
    let long = "a".repeat(251);
    let longest = "a".repeat(250);
    let document = vec![field("tags", text(&format!("x {} {}", long, longest)))];
    let mut fields = Fields::new(&[]);
    let terms = tokenize(&document_tokenizer, &document, &mut fields, &[]);
    assert_eq!(words(&terms), vec![(0, 0, "x"), (0, 2, longest.as_str())]);
}

#[test]
fn stop_words_and_separators_are_set_in_the_builder() {
    let stop_words = fst::Set::from_iter(["the"]).unwrap().as_fst().as_bytes().to_vec();
    let stop_words = fst::Set::new(stop_words.as_slice()).unwrap();
    let separators = ["#", " "];
    let mut builder = tokenizer_builder(Some(&stop_words), Some(&separators), None);
    let tokenizer = builder.build();
    let rules = Vec::new();
    let document_tokenizer = DocumentTokenizer {
        tokenizer: &tokenizer,
        localized_attributes_rules: &rules,
        max_positions_per_attributes: 1000,
    };
    let document = vec![field("tags", text("a#the b-c"))];
    let mut fields = Fields::new(&[]);
    let terms = tokenize(&document_tokenizer, &document, &mut fields, &[]);
    assert_eq!(words(&terms), vec![(0, 0, "a"), (0, 2, "b-c")]);
}

fn token(lemma: &str, kind: TokenKind) -> Token {
    Token { lemma: lemma.to_string(), kind, alternates: None }
}

fn placed(start: u32, tokens: &Vec<Token>, max: u32) -> Vec<(u32, &str)> {
    process_tokens(start, tokens, max)
        .iter()
        .map(|word| (word.position, word.token.lemma()))
        .collect()
}

#[test]
fn separators_set_the_distance_between_words() {
    let hard = TokenKind::Separator(SeparatorKind::Hard);
    let soft = TokenKind::Separator(SeparatorKind::Soft);
    let tokens = vec![
        token(". ", hard),
        token(" ", soft),
        token("one", TokenKind::Word),
        token(" ", soft),
        token("the", TokenKind::StopWord),
        token("two", TokenKind::Word),
        token("", TokenKind::Word),
        token("?", TokenKind::Unknown),
        token(". ", hard),
        token(" ", soft),
        token("three", TokenKind::Word),
        token(" ", soft),
    ];
    assert_eq!(placed(5, &tokens, 1000), vec![(5, "one"), (7, "two"), (15, "three")]);
    assert_eq!(placed(5, &tokens, 15), vec![(5, "one"), (7, "two")]);
    assert_eq!(placed(5, &tokens, 5), vec![]);
}

#[test]
fn positions_do_not_overflow() {
    let tokens = vec![
        token("one", TokenKind::Word),
        token(". ", TokenKind::Separator(SeparatorKind::Hard)),
        token("two", TokenKind::Word),
    ];
    assert_eq!(placed(u32::MAX - 1, &tokens, u32::MAX), vec![(u32::MAX - 1, "one")]);
}

#[test]
fn documents_have_the_same_words_once_more_is_known() {
    let mut builder = TokenizerBuilder::default();
    let tokenizer = builder.build();
    let rules = Vec::new();
    let document_tokenizer = DocumentTokenizer {
        tokenizer: &tokenizer,
        localized_attributes_rules: &rules,
        max_positions_per_attributes: 1000,
    };
    let document = vec![field("name", text("one two"))];
    let info = |id: u16| FieldInfo {
        id,
        pattern_match: PatternMatch::Match,
        rule_matches: Vec::new(),
    };
    let mut known = DocumentAnswers::default();
    known.fields.push(Answer { question: "name".to_string(), answer: info(3) });
    let before = document_tokenizer.tokenize_document(&known, &document).unwrap().terms;
    known.fields.push(Answer { question: "name".to_string(), answer: info(4) });
    known.fields.push(Answer { question: "other".to_string(), answer: info(5) });
    let after = document_tokenizer.tokenize_document(&known, &document).unwrap().terms;
    assert_eq!(words(&before), vec![(3, 0, "one"), (3, 1, "two")]);
    assert_eq!(words(&before), words(&after));
}

#[test]
fn values_of_a_field_are_kept_apart() {
    let mut builder = TokenizerBuilder::default();
    let tokenizer = builder.build();
    let rules = Vec::new();
    let document_tokenizer = DocumentTokenizer {
        tokenizer: &tokenizer,
        localized_attributes_rules: &rules,
        max_positions_per_attributes: 1000,
    };
    let document = vec![
        field("a", FieldValue::Array(vec![text("one two"), text(""), text("three")])),
        field("b", text("four")),
        field("a", text("five")),
    ];
    let mut fields = Fields::new(&[]);
    let terms = tokenize(&document_tokenizer, &document, &mut fields, &[]);
    assert_eq!(
        words(&terms),
        vec![(0, 0, "one"), (0, 1, "two"), (0, 17, "three"), (1, 0, "four"), (0, 25, "five")]
    );
}
