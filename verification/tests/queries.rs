use kotoba::context::{Answer, IndexAnswers, Lookup, SearchContext};
use kotoba::parse_query::{
    located_query_terms, located_query_terms_from_tokens, make_ngram, number_of_typos_allowed,
    read_tokens, ExtractedTokens, QueryReader, Word,
};
use kotoba::query_term::{Lazy, LocatedQueryTerm, Phrase, QueryTerm, ZeroTypoTerm};
use kotoba::token::{SeparatorKind, Token, TokenKind};

/// An index that holds some words, phrases and synonyms.
struct Index {
    words: Vec<&'static str>,
    phrases: Vec<Vec<&'static str>>,
    synonyms: Vec<(Vec<&'static str>, Vec<Vec<&'static str>>)>,
    asked: Vec<String>,
}

impl Index {
    fn new(words: &[&'static str]) -> Index {
        let mut words = words.to_vec();
        words.sort();
        Index { words, phrases: Vec::new(), synonyms: Vec::new(), asked: Vec::new() }
    }

    fn bytes(&self) -> Vec<u8> {
        fst::Set::from_iter(self.words.iter()).unwrap().as_fst().as_bytes().to_vec()
    }

    fn answer(&mut self, answers: &mut IndexAnswers, lookup: Lookup) {
        self.asked.push(format!("{:?}", lookup));
        match lookup {
            Lookup::PhraseDocids(phrase) => {
                let words: Vec<&str> =
                    phrase.words.iter().flatten().map(|word| word.as_str()).collect();
                let answer = self.phrases.iter().any(|held| *held == words);
                answers.phrase_docids.push(Answer { question: phrase, answer });
            }
            Lookup::ContainsWord(word) => {
                let answer = self.words.iter().any(|held| *held == word);
                answers.contains_word.push(Answer { question: word, answer });
            }
            Lookup::WordTerm(query) => {
                let exact = self.words.iter().any(|held| *held == query.word);
                let alternates = if exact {
                    Vec::new()
                } else {
                    query
                        .alternates
                        .iter()
                        .filter(|word| self.words.iter().any(|held| held == word))
                        .cloned()
                        .collect()
                };
                let answer = QueryTerm {
                    original: query.word.clone(),
                    ngram_words: None,
                    max_levenshtein_distance: query.max_typo,
                    is_prefix: query.is_prefix,
                    ranking_span_len: 1,
                    zero_typo: ZeroTypoTerm {
                        exact: if exact { Some(query.word.clone()) } else { None },
                        alternates,
                        ..ZeroTypoTerm::default()
                    },
                    one_typo: Lazy::Uninit,
                    two_typo: Lazy::Uninit,
                };
                answers.word_terms.push(Answer { question: query, answer });
            }
            Lookup::Synonyms(words) => {
                let answer = self
                    .synonyms
                    .iter()
                    .find(|(of, _)| words.iter().map(|word| word.as_str()).eq(of.iter().copied()))
                    .map(|(_, synonyms)| {
                        synonyms
                            .iter()
                            .map(|synonym| synonym.iter().map(|word| word.to_string()).collect())
                            .collect()
                    })
                    .unwrap_or_default();
                answers.synonyms.push(Answer { question: words, answer });
            }
        }
    }
}

fn context(words: &[u8]) -> SearchContext<'_> {
    SearchContext {
        words_fst: fst::Set::new(words).unwrap(),
        authorize_typos: true,
        min_word_len_one_typo: 5,
        min_word_len_two_typos: 9,
        exact_words: None,
        prefix_search: true,
        answers: IndexAnswers::default(),
    }
}

fn read(index: &mut Index, tokens: &Vec<Token>, limit: Option<usize>, japanese: bool) -> QueryReader {
    let bytes = index.bytes();
    let mut ctx = context(&bytes);
    loop {
        match read_tokens(&ctx, tokens, limit, japanese) {
            Ok(reader) => return reader,
            Err(lookup) => index.answer(&mut ctx.answers, lookup),
        }
    }
}

fn word(lemma: &str) -> Token {
    Token { lemma: lemma.to_string(), kind: TokenKind::Word, alternates: None }
}

fn japanese(lemma: &str, alternates: &[&str]) -> Token {
    Token {
        lemma: lemma.to_string(),
        kind: TokenKind::Word,
        alternates: Some(alternates.iter().map(|word| word.to_string()).collect()),
    }
}

fn stop_word(lemma: &str) -> Token {
    Token { lemma: lemma.to_string(), kind: TokenKind::StopWord, alternates: None }
}

fn soft(lemma: &str) -> Token {
    Token {
        lemma: lemma.to_string(),
        kind: TokenKind::Separator(SeparatorKind::Soft),
        alternates: None,
    }
}

fn hard(lemma: &str) -> Token {
    Token {
        lemma: lemma.to_string(),
        kind: TokenKind::Separator(SeparatorKind::Hard),
        alternates: None,
    }
}

fn located(term: &LocatedQueryTerm) -> (&str, u16, u16, bool) {
    (term.value.original.as_str(), term.positions.start, term.positions.end, term.value.is_prefix)
}

fn terms(reader: &QueryReader) -> Vec<(&str, u16, u16, bool)> {
    reader.query_terms.iter().map(located).collect()
}

fn phrase_words(phrase: &Phrase) -> Vec<Option<&str>> {
    phrase.words.iter().map(|word| word.as_deref()).collect()
}

#[test]
fn start_with_hard_separator() {
    let mut index = Index::new(&["split", "this", "world", "westfali", "westfalia", "the"]);
    let mut builder = charabia::TokenizerBuilder::default();
    let tokenizer = builder.build();
    let tokens = tokenizer.tokenize(".");
    let bytes = index.bytes();
    let ctx = context(&bytes);
    let ExtractedTokens { query_terms, .. } = located_query_terms_from_tokens(
        &ctx,
        tokens,
        &Vec::new(),
        None,
        false,
        |terms: &Vec<LocatedQueryTerm>, _| {
            assert!(terms.is_empty());
            Ok(((), Vec::new()))
        },
    )
    .unwrap();
    assert!(query_terms.is_empty());

    // a hard separator does not overflow the position either
    let reader = read(&mut index, &vec![hard(". "), word("world")], None, false);
    assert_eq!(terms(&reader), vec![("world", 7, 7, true)]);
}

#[test]
fn texts_are_tokenized_and_read() {
    let mut index = Index::new(&["hello", "world"]);
    let mut builder = charabia::TokenizerBuilder::default();
    let tokenizer = builder.build();
    let bytes = index.bytes();
    let mut ctx = context(&bytes);
    let readings = vec![None, None, Some(vec!["せかい".to_string()])];
    let extracted = loop {
        let result = located_query_terms_from_tokens(
            &ctx,
            tokenizer.tokenize("Hello Wórld. -\"the Hello\" -WORLD"),
            &readings,
            None,
            true,
            |terms: &Vec<LocatedQueryTerm>, _| {
                Ok((terms.iter().map(|term| term.value.original.clone()).collect::<Vec<_>>(), Vec::new()))
            },
        );
        match result {
            Ok(extracted) => break extracted,
            Err(lookup) => index.answer(&mut ctx.answers, lookup),
        }
    };
    assert_eq!(extracted.graph, vec!["hello", "world"]);
    let negative: Vec<_> = extracted.negative_phrases.iter().map(located).collect();
    assert_eq!(negative, vec![("the hello", 9, 10, false)]);
    match extracted.negative_words.as_slice() {
        [Word::Original(word)] => assert_eq!(word, "world"),
        _ => panic!("one negative word is expected"),
    }
    assert!(index.asked.iter().any(|question| question.contains("せかい")));
}

#[test]
fn words_become_terms_and_the_last_may_be_a_prefix() {
    let mut index = Index::new(&["hello", "world"]);
    let tokens = vec![word("hello"), soft(" "), stop_word("the"), soft(" "), word("wor")];
    let reader = read(&mut index, &tokens, None, false);
    assert_eq!(terms(&reader), vec![("hello", 0, 0, false), ("wor", 2, 2, true)]);
    assert_eq!(reader.query_terms[0].value.zero_typo.exact.as_deref(), Some("hello"));
    assert_eq!(reader.query_terms[0].value.max_levenshtein_distance, 1);
    assert_eq!(reader.query_terms[1].value.max_levenshtein_distance, 0);

    // a stop word at the end is a term
    let reader = read(&mut index, &vec![word("hello"), soft(" "), stop_word("the")], None, false);
    assert_eq!(terms(&reader), vec![("hello", 0, 0, false), ("the", 1, 1, true)]);

    // what follows the last word makes it no prefix
    let reader = read(&mut index, &vec![word("hello"), soft(" ")], None, false);
    assert_eq!(terms(&reader), vec![("hello", 0, 0, false)]);
}

#[test]
fn hard_separators_move_the_position() {
    let mut index = Index::new(&["hello", "world"]);
    let tokens = vec![word("hello"), hard(". "), word("world"), soft(" ")];
    let reader = read(&mut index, &tokens, None, false);
    assert_eq!(terms(&reader), vec![("hello", 0, 0, false), ("world", 8, 8, false)]);
}

#[test]
fn empty_tokens_are_skipped() {
    let mut index = Index::new(&["hello"]);
    let tokens = vec![word(""), word("hello"), word("")];
    let reader = read(&mut index, &tokens, None, false);
    assert_eq!(terms(&reader), vec![("hello", 0, 0, false)]);
}

#[test]
fn quotes_make_phrases() {
    let mut index = Index::new(&["sun", "flower", "the"]);
    let tokens = vec![
        soft("\""),
        stop_word("the"),
        word("sun"),
        soft(" "),
        stop_word("the"),
        word("flower"),
        soft("\" "),
        word("sun"),
    ];
    let reader = read(&mut index, &tokens, None, false);
    assert_eq!(
        terms(&reader),
        vec![("sun flower", 1, 3, false), ("sun", 4, 4, true)]
    );
    let phrase = reader.query_terms[0].value.zero_typo.phrase.as_ref().unwrap();
    assert_eq!(phrase_words(phrase), vec![None, Some("sun"), None, Some("flower")]);

    // a phrase that is not closed ends with the query
    let reader = read(&mut index, &vec![soft("\""), word("sun")], None, false);
    assert_eq!(terms(&reader), vec![("sun", 0, 0, false)]);
    assert!(reader.query_terms[0].value.zero_typo.phrase.is_some());

    // a phrase of stop words is none
    let reader = read(&mut index, &vec![soft("\""), stop_word("the"), soft("\"")], None, false);
    assert!(reader.query_terms.is_empty());

    // two quotes close and open, three close, and open and close
    let tokens = vec![soft("\""), word("sun"), soft("\"\""), word("flower"), soft("\"")];
    let reader = read(&mut index, &tokens, None, false);
    assert_eq!(terms(&reader), vec![("sun", 0, 0, false), ("flower", 1, 1, false)]);
    let tokens = vec![soft("\""), word("sun"), soft("\"\"\""), word("flower")];
    let reader = read(&mut index, &tokens, None, false);
    assert_eq!(terms(&reader), vec![("sun", 0, 0, false), ("flower", 1, 1, true)]);
    assert!(reader.query_terms[1].value.zero_typo.phrase.is_none());
}

#[test]
fn hard_separators_split_phrases() {
    let mut index = Index::new(&["sun", "flower"]);
    let tokens = vec![soft("\""), word("sun"), hard(". "), word("flower"), soft("\"")];
    let reader = read(&mut index, &tokens, None, false);
    assert_eq!(terms(&reader), vec![("sun", 0, 0, false), ("flower", 8, 8, false)]);
    assert!(reader.query_terms.iter().all(|term| term.value.zero_typo.phrase.is_some()));
}

#[test]
fn a_lone_minus_negates() {
    let mut index = Index::new(&["sun", "flower"]);
    let tokens = vec![word("sun"), soft(" "), soft("-"), word("flower"), soft(" ")];
    let reader = read(&mut index, &tokens, None, false);
    assert_eq!(terms(&reader), vec![("sun", 0, 0, false)]);
    match reader.negative_words.as_slice() {
        [Word::Original(word)] => assert_eq!(word, "flower"),
        _ => panic!("one negative word is expected"),
    }

    // without white space before it, it is a separator like others
    let tokens = vec![word("sun"), soft("-"), word("flower"), soft(" ")];
    let reader = read(&mut index, &tokens, None, false);
    assert_eq!(terms(&reader), vec![("sun", 0, 0, false), ("flower", 1, 1, false)]);
    assert!(reader.negative_words.is_empty());

    // a phrase can be negated, and stays negative after a hard separator
    let tokens = vec![
        soft("-"),
        soft("\""),
        word("sun"),
        hard(". "),
        word("flower"),
        soft("\" "),
        word("sun"),
    ];
    let reader = read(&mut index, &tokens, None, false);
    assert_eq!(terms(&reader), vec![("sun", 9, 9, true)]);
    let negative: Vec<_> = reader.negative_phrases.iter().map(located).collect();
    assert_eq!(negative, vec![("sun", 0, 0, false), ("flower", 8, 8, false)]);
}

#[test]
fn negated_words_keep_their_indexed_variants_out() {
    // the index does not hold the kana form, but its reading in other letters
    let mut index = Index::new(&["hashi", "橋"]);
    let tokens = vec![soft("-"), japanese("はし", &["はし", "hashi"])];
    let reader = read(&mut index, &tokens, None, true);
    match reader.negative_words.as_slice() {
        [Word::Original(word), Word::Variant(variant)] => {
            assert_eq!(word, "はし");
            assert_eq!(variant, "hashi");
        }
        _ => panic!("a word and a variant are expected"),
    }

    // variants are looked for only where that is asked for
    let reader = read(&mut index, &tokens, None, false);
    assert_eq!(reader.negative_words.len(), 1);

    // a word that the index holds is negated alone
    let tokens = vec![soft("-"), japanese("橋", &["はし", "hashi"])];
    let reader = read(&mut index, &tokens, None, true);
    assert_eq!(reader.negative_words.len(), 1);
}

#[test]
fn terms_are_limited_in_number() {
    let mut index = Index::new(&["a", "b", "c"]);
    let tokens = vec![word("a"), soft(" "), word("b"), soft(" "), word("c")];
    let reader = read(&mut index, &tokens, Some(2), false);
    assert_eq!(terms(&reader), vec![("a", 0, 0, false), ("b", 1, 1, false)]);
    let reader = read(&mut index, &tokens, Some(0), false);
    assert!(reader.query_terms.is_empty());
}

#[test]
fn tokens_are_limited_in_number() {
    let mut index = Index::new(&["a"]);
    let mut tokens: Vec<Token> = (0..1001).map(|_| word("a")).collect();
    let reader = read(&mut index, &tokens, None, false);
    assert_eq!(reader.query_terms.len(), 1000);
    assert_eq!(reader.query_terms[999].positions.start, 999);
    assert!(reader.query_terms[999].value.is_prefix);
    tokens.truncate(1000);
    assert_eq!(terms(&read(&mut index, &tokens, None, false)), terms(&reader));
}

#[test]
fn separators_alone_ask_for_nothing() {
    let mut index = Index::new(&[]);
    let tokens = vec![soft("\""), hard(". "), soft("-"), soft("\"\""), soft(" "), soft("-")];
    let reader = read(&mut index, &tokens, None, true);
    assert!(reader.query_terms.is_empty());
    assert!(reader.negative_words.is_empty());
    assert!(reader.negative_phrases.is_empty());
    assert!(index.asked.is_empty());
}

#[test]
fn words_carry_their_japanese_variants() {
    let mut index = Index::new(&["こくさい"]);
    let tokens = vec![japanese("国際", &["こくさい", "kokusai"]), soft(" ")];
    let reader = read(&mut index, &tokens, None, true);
    let term = &reader.query_terms[0];
    assert_eq!(term.japanese_variants.normalized.as_deref(), Some("こくさい"));
    assert_eq!(term.japanese_variants.phonetic.as_deref(), Some("こくさい"));
    assert_eq!(term.japanese_variants.romaji.as_deref(), Some("kokusai"));
    assert_eq!(term.value.zero_typo.exact, None);
    assert_eq!(term.value.zero_typo.alternates, vec!["こくさい"]);
}

#[test]
fn phrases_have_alternates_where_no_document_holds_them() {
    let mut index = Index::new(&["国際", "空港", "こくさい", "くうこう", "kokusai", "kuukou"]);
    let tokens = vec![
        soft("\""),
        japanese("こくさいくうこう", &["こくさいくうこう", "kokusaikuukou"]),
        soft("\""),
    ];
    let reader = read(&mut index, &tokens, None, true);
    let alternates: Vec<_> = reader.query_terms[0]
        .value
        .zero_typo
        .alternate_phrases
        .iter()
        .map(phrase_words)
        .collect();
    assert_eq!(
        alternates,
        vec![
            vec![Some("こくさい"), Some("くうこう")],
            vec![Some("kokusai"), Some("kuukou")],
        ]
    );

    // none where a document holds the phrase
    index.phrases.push(vec!["こくさいくうこう"]);
    let reader = read(&mut index, &tokens, None, true);
    assert!(reader.query_terms[0].value.zero_typo.alternate_phrases.is_empty());

    // none where Japanese is not searched for, and nothing is asked
    index.asked.clear();
    let reader = read(&mut index, &tokens, None, false);
    assert!(reader.query_terms[0].value.zero_typo.alternate_phrases.is_empty());
    assert!(index.asked.is_empty());
}

#[test]
fn the_graph_is_built_of_the_terms() {
    let mut index = Index::new(&["sun", "flower"]);
    let bytes = index.bytes();
    let mut ctx = context(&bytes);
    let tokens = vec![word("sun"), soft(" "), soft("-"), word("flower")];
    let extracted = loop {
        let result = located_query_terms(
            &ctx,
            &tokens,
            None,
            true,
            |terms: &Vec<LocatedQueryTerm>, japanese_search_enabled| {
                assert!(japanese_search_enabled);
                Ok((terms.len(), Vec::new()))
            },
        );
        match result {
            Ok(extracted) => break extracted,
            Err(lookup) => index.answer(&mut ctx.answers, lookup),
        }
    };
    assert_eq!(extracted.graph, 1);
    assert!(extracted.query_terms.is_empty());
    assert_eq!(extracted.negative_words.len(), 1);

    // what the graph asks for is asked
    let result = located_query_terms(
        &ctx,
        &tokens,
        None,
        true,
        |_: &Vec<LocatedQueryTerm>, _| -> Result<((), Vec<LocatedQueryTerm>), Lookup> {
            Err(Lookup::ContainsWord("moon".to_string()))
        },
    );
    match result {
        Err(Lookup::ContainsWord(word)) => assert_eq!(word, "moon"),
        _ => panic!("the question of the graph is expected"),
    }
}

#[test]
fn questions_are_asked_one_at_a_time() {
    let index = Index::new(&["sun"]);
    let bytes = index.bytes();
    let ctx = context(&bytes);
    match read_tokens(&ctx, &vec![word("sunny")], None, true) {
        Err(Lookup::WordTerm(query)) => {
            assert_eq!(query.word, "sunny");
            assert!(query.alternates.is_empty());
            assert_eq!(query.max_typo, 1);
            assert!(query.is_prefix);
            assert!(!query.is_ngram);
        }
        _ => panic!("the term of the word should be asked for"),
    }
    match read_tokens(&ctx, &vec![soft("-"), word("sun")], None, true) {
        Err(Lookup::ContainsWord(word)) => assert_eq!(word, "sun"),
        _ => panic!("whether the word is indexed should be asked"),
    }
    match read_tokens(&ctx, &vec![soft("\""), word("sun"), soft("\"")], None, true) {
        Err(Lookup::PhraseDocids(phrase)) => assert_eq!(phrase_words(&phrase), vec![Some("sun")]),
        _ => panic!("whether the phrase is held should be asked"),
    }
}

fn ngram(index: &mut Index, terms: &[LocatedQueryTerm]) -> Option<LocatedQueryTerm> {
    let bytes = index.bytes();
    let mut ctx = context(&bytes);
    loop {
        let result = {
            let typos = number_of_typos_allowed(&ctx);
            make_ngram(&ctx, terms, &typos)
        };
        match result {
            Ok(term) => return term,
            Err(lookup) => index.answer(&mut ctx.answers, lookup),
        }
    }
}

#[test]
fn ngrams_join_adjacent_terms() {
    let mut index = Index::new(&["sunflower"]);
    index.synonyms.push((
        vec!["sun", "flower"],
        vec![vec!["helianthus"], vec!["girasol", "plant"], vec!["helianthus"]],
    ));
    let tokens = vec![word("sun"), soft(" "), word("flower")];
    let reader = read(&mut index, &tokens, None, false);
    let term = ngram(&mut index, &reader.query_terms).unwrap();
    assert_eq!(located(&term), ("sunflower", 0, 1, true));
    assert_eq!(term.value.ngram_words, Some(vec!["sun".to_string(), "flower".to_string()]));
    // nine characters allow two typos, and the second word costs one
    assert_eq!(term.value.max_levenshtein_distance, 1);
    assert_eq!(term.value.ranking_span_len, 2);
    assert_eq!(term.value.zero_typo.exact.as_deref(), Some("sunflower"));
    let synonyms: Vec<_> = term.value.zero_typo.synonyms.iter().map(phrase_words).collect();
    assert_eq!(synonyms, vec![vec![Some("helianthus")], vec![Some("girasol"), Some("plant")]]);
    assert!(index.asked.iter().any(|question| question.contains("is_ngram: true")));
    assert!(index.asked.iter().any(|question| question.starts_with("Synonyms")));
}

#[test]
fn ngrams_need_adjacent_words() {
    let mut index = Index::new(&["sun", "flower"]);
    // a hard separator keeps them apart
    let reader =
        read(&mut index, &vec![word("sun"), hard(". "), word("flower"), soft(" ")], None, false);
    assert!(ngram(&mut index, &reader.query_terms).is_none());
    // a phrase is no word
    let tokens = vec![soft("\""), word("sun"), soft("\" "), word("flower"), soft(" ")];
    let reader = read(&mut index, &tokens, None, false);
    assert!(ngram(&mut index, &reader.query_terms).is_none());
    // nor does a text fit that is too long
    let long = "a".repeat(126);
    let tokens = vec![word(&long), soft(" "), word(&long), soft(" ")];
    let reader = read(&mut index, &tokens, None, false);
    assert!(ngram(&mut index, &reader.query_terms).is_none());
    assert!(ngram(&mut index, &reader.query_terms[..1]).is_some());
}

#[test]
fn queries_read_the_same_once_more_is_known() {
    let mut index = Index::new(&["sun", "flower"]);
    let tokens = vec![word("sun"), soft(" "), word("flower"), soft(" "), soft("-"), word("moon")];
    let bytes = index.bytes();
    let mut ctx = context(&bytes);
    let before = loop {
        match read_tokens(&ctx, &tokens, None, true) {
            Ok(reader) => break reader,
            Err(lookup) => index.answer(&mut ctx.answers, lookup),
        }
    };
    // no question is asked twice
    let mut asked = index.asked.clone();
    asked.sort();
    asked.dedup();
    assert_eq!(asked.len(), index.asked.len());

    index.answer(&mut ctx.answers, Lookup::ContainsWord("moon".to_string()));
    index.answer(&mut ctx.answers, Lookup::ContainsWord("sun".to_string()));
    ctx.answers.contains_word.push(Answer { question: "moon".to_string(), answer: true });
    let after = read_tokens(&ctx, &tokens, None, true).unwrap();
    assert_eq!(terms(&before), terms(&after));
    assert_eq!(before.negative_words.len(), after.negative_words.len());
}

#[test]
fn terms_come_in_the_order_of_their_positions() {
    let mut index = Index::new(&["a"]);
    let tokens = vec![
        hard(". "),
        word("a"),
        soft("\""),
        stop_word("the"),
        word("a"),
        soft(" "),
        word("a"),
        hard(".\" "),
        word("a"),
        soft("\""),
        word("a"),
    ];
    let reader = read(&mut index, &tokens, None, false);
    assert_eq!(
        terms(&reader),
        vec![
            ("a", 7, 7, false),
            ("a a", 9, 10, false),
            ("a", 18, 18, false),
            ("a", 19, 19, false),
        ]
    );
}

#[test]
fn limited_queries_have_the_first_terms() {
    let mut index = Index::new(&["a", "b", "c"]);
    let tokens = vec![
        word("a"),
        soft(" \""),
        word("b"),
        word("c"),
        soft("\" "),
        soft("-"),
        word("b"),
        soft(" "),
        word("c"),
    ];
    let all = read(&mut index, &tokens, None, false);
    assert_eq!(terms(&all).len(), 3);
    for limit in 0..5 {
        let some = read(&mut index, &tokens, Some(limit), false);
        assert_eq!(terms(&some), terms(&all)[..limit.min(3)]);
        assert!(some.negative_words.len() <= all.negative_words.len());
    }
}

#[test]
fn open_quotes_are_closed_at_the_end() {
    let mut index = Index::new(&["sun", "flower"]);
    for tokens in [
        vec![word("sun"), soft(" \""), word("flower"), stop_word("the"), word("sun")],
        vec![soft("-"), soft("\""), word("flower")],
        vec![word("sun"), soft(" \"")],
    ] {
        let open = read(&mut index, &tokens, None, true);
        let mut closed = tokens;
        closed.push(soft("\""));
        let closed = read(&mut index, &closed, None, true);
        assert_eq!(terms(&open), terms(&closed));
        let negative: Vec<_> = open.negative_phrases.iter().map(located).collect();
        assert_eq!(negative, closed.negative_phrases.iter().map(located).collect::<Vec<_>>());
    }
}
