use kotoba::context::{Answer, IndexAnswers, Lookup, SearchContext};
use kotoba::japanese::SearchVariants;
use kotoba::query_term::{Lazy, LocatedQueryTerm, Phrase, Positions, QueryTerm, ZeroTypoTerm};
use kotoba::candidates::{resegmentation_candidates, ResegmentationCandidate};
use kotoba::phrase_variants::{alternate_phrases, phrase_variant};
use kotoba::resegmentation::{
    concatenate_variants, make_resegmentation, original_terms_have_phrase_match,
    segmentation_is_already_termwise, term_has_indexed_representation, PhraseVariantKind,
};
use kotoba::segmentation::resegment_indexed_variants;

fn word_set(words: &[&str]) -> Vec<u8> {
    let mut sorted = words.to_vec();
    sorted.sort();
    fst::Set::from_iter(sorted).unwrap().as_fst().as_bytes().to_vec()
}

fn context(words: &[u8]) -> SearchContext<'_> {
    SearchContext {
        words_fst: fst::Set::new(words).unwrap(),
        authorize_typos: true,
        min_word_len_one_typo: 5,
        min_word_len_two_typos: 9,
        exact_words: None,
        prefix_search: true,
        answers: IndexAnswers::default(),
    }
}

/// Answers all questions on phrases; documents hold the given ones.
fn settle<T>(
    ctx: &mut SearchContext<'_>,
    held: &[&[&str]],
    ask: impl Fn(&SearchContext<'_>) -> Result<T, Lookup>,
) -> T {
    loop {
        match ask(ctx) {
            Ok(value) => return value,
            Err(Lookup::PhraseDocids(phrase)) => {
                let words = phrase_words(&phrase);
                let answer = held
                    .iter()
                    .any(|phrase| words.iter().flatten().copied().eq(phrase.iter().copied()));
                ctx.answers.phrase_docids.push(Answer { question: phrase, answer });
            }
            Err(lookup) => panic!("unexpected question {:?}", lookup),
        }
    }
}

fn phrase_words(phrase: &Phrase) -> Vec<Option<&str>> {
    phrase.words.iter().map(|word| word.as_deref()).collect()
}

fn variants(normalized: &str, romaji: Option<&str>) -> SearchVariants<String> {
    SearchVariants {
        normalized: Some(normalized.to_string()),
        phonetic: Some(normalized.to_string()),
        romaji: romaji.map(|word| word.to_string()),
    }
}

fn kana(word: &str, position: u16, indexed: bool) -> LocatedQueryTerm {
    LocatedQueryTerm {
        value: QueryTerm {
            original: word.to_string(),
            ngram_words: None,
            max_levenshtein_distance: 0,
            is_prefix: false,
            ranking_span_len: 1,
            zero_typo: ZeroTypoTerm {
                exact: if indexed { Some(word.to_string()) } else { None },
                ..ZeroTypoTerm::default()
            },
            one_typo: Lazy::Uninit,
            two_typo: Lazy::Uninit,
        },
        positions: Positions { start: position, end: position },
        japanese_variants: variants(word, None),
    }
}

#[test]
fn texts_are_split_into_indexed_words() {
    let words = word_set(&["きの", "きのこ", "こいぬ", "いぬ", "の", "き", "こ"]);
    let ctx = context(&words);
    let paths = resegment_indexed_variants(&ctx, "きのこいぬ");
    assert_eq!(
        paths,
        vec![
            vec!["きのこ", "いぬ"],
            vec!["きの", "こいぬ"],
            vec!["きの", "こ", "いぬ"],
            vec!["き", "の", "こいぬ"],
            vec!["き", "の", "こ", "いぬ"],
        ]
    );
    assert!(resegment_indexed_variants(&ctx, "").is_empty());
    assert!(resegment_indexed_variants(&ctx, "きのねこ").is_empty());
}

#[test]
fn at_most_five_segmentations_are_kept() {
    let words = word_set(&["a", "aa", "aaa", "aaaa"]);
    let ctx = context(&words);
    let paths = resegment_indexed_variants(&ctx, "aaaa");
    assert_eq!(
        paths,
        vec![
            vec!["aaaa"],
            vec!["aaa", "a"],
            vec!["aa", "aa"],
            vec!["a", "aaa"],
            vec!["aa", "a", "a"],
        ]
    );
}

#[test]
fn words_are_measured_in_bytes() {
    // 84 characters of three bytes each do not fit in a key
    let long = "あ".repeat(84);
    let short = "あ".repeat(83);
    let words = word_set(&[long.as_str(), short.as_str(), "あ"]);
    let ctx = context(&words);
    assert_eq!(resegment_indexed_variants(&ctx, &long)[0], vec![short.as_str(), "あ"]);
    assert_eq!(resegment_indexed_variants(&ctx, &short)[0], vec![short.as_str()]);
}

#[test]
fn variants_are_joined_where_all_terms_have_them() {
    let mut first = kana("すー", 0, false);
    let second = kana("ぱー", 1, false);
    let joined = concatenate_variants(&[kana("すー", 0, false), kana("ぱー", 1, false)]);
    assert_eq!(joined.normalized.as_deref(), Some("すうぱあ"));
    assert_eq!(joined.phonetic.as_deref(), Some("すうぱあ"));
    assert_eq!(joined.romaji, None);
    first.japanese_variants.phonetic = None;
    first.japanese_variants.romaji = Some("su-".to_string());
    let joined = concatenate_variants(&[first, second]);
    assert_eq!(joined.normalized.as_deref(), Some("すうぱあ"));
    assert_eq!(joined.phonetic, None);
    assert_eq!(joined.romaji, None);
    let nothing = concatenate_variants(&[]);
    assert_eq!(nothing.normalized.as_deref(), Some(""));
}

#[test]
fn segmentations_may_be_the_terms_themselves() {
    let terms = [kana("きの", 0, true), kana("こいぬ", 1, true)];
    let same = ["きの".to_string(), "こいぬ".to_string()];
    let other = ["きのこ".to_string(), "いぬ".to_string()];
    assert!(segmentation_is_already_termwise(&terms, &same));
    assert!(!segmentation_is_already_termwise(&terms, &other));
    assert!(!segmentation_is_already_termwise(&terms, &same[..1]));
    // a variant of the term counts as the term
    let mut surface = kana("橋", 0, true);
    surface.japanese_variants = variants("はし", Some("hashi"));
    assert!(segmentation_is_already_termwise(&[surface], &["hashi".to_string()]));
}

#[test]
fn terms_are_indexed_by_themselves_or_by_alternates() {
    assert!(term_has_indexed_representation(&kana("いぬ", 0, true)));
    let mut term = kana("いぬ", 0, false);
    assert!(!term_has_indexed_representation(&term));
    term.value.zero_typo.alternates.push("犬".to_string());
    assert!(term_has_indexed_representation(&term));
}

#[test]
fn a_later_segmentation_is_tried() {
    let words = word_set(&["きの", "きのこ", "こいぬ", "いぬ"]);
    let mut ctx = context(&words);
    let terms = [kana("きの", 0, true), kana("こいぬ", 1, true)];
    let term =
        settle(&mut ctx, &[&["きのこ", "いぬ"]], |ctx| make_resegmentation(ctx, &terms)).unwrap();
    assert_eq!(term.value.original, "きのこいぬ");
    assert_eq!(term.value.ngram_words, Some(vec!["きの".to_string(), "こいぬ".to_string()]));
    assert_eq!(term.positions, Positions { start: 0, end: 1 });
    assert_eq!(term.value.ranking_span_len, 1);
    assert!(term.value.zero_typo.alternates.is_empty());
    let phrases: Vec<_> = term.value.zero_typo.alternate_phrases.iter().map(phrase_words).collect();
    assert_eq!(phrases, vec![vec![Some("きのこ"), Some("いぬ")]]);
    assert_eq!(term.japanese_variants.normalized.as_deref(), Some("きのこいぬ"));

    // the preferred segmentation stands in no document, the next one does
    let terms = [kana("きのこい", 0, false), kana("ぬ", 1, false)];
    let mut ctx = context(&words);
    let term =
        settle(&mut ctx, &[&["きの", "こいぬ"]], |ctx| make_resegmentation(ctx, &terms)).unwrap();
    let phrases: Vec<_> = term.value.zero_typo.alternate_phrases.iter().map(phrase_words).collect();
    assert_eq!(phrases, vec![vec![Some("きの"), Some("こいぬ")]]);
    assert_eq!(ctx.answers.phrase_docids.len(), 2);

    // no document holds any
    let mut ctx = context(&words);
    assert!(settle(&mut ctx, &[], |ctx| make_resegmentation(ctx, &terms)).is_none());
    assert!(settle(&mut ctx, &[], |ctx| make_resegmentation(ctx, &[])).is_none());
}

#[test]
fn one_word_needs_no_document() {
    let words = word_set(&["こくさいくうこう", "kokusaikuukou"]);
    let ctx = context(&words);
    let mut terms = [kana("こくさい", 3, false), kana("くうこう", 4, false)];
    terms[0].japanese_variants = variants("こくさい", Some("kokusai"));
    terms[1].japanese_variants = variants("くうこう", Some("kuukou"));
    let term = make_resegmentation(&ctx, &terms).unwrap().unwrap();
    assert_eq!(term.value.zero_typo.alternates, vec!["こくさいくうこう", "kokusaikuukou"]);
    assert_eq!(term.positions, Positions { start: 3, end: 4 });
}

#[test]
fn terms_with_a_gap_are_not_merged() {
    let words = word_set(&["こくさいくうこう"]);
    let ctx = context(&words);
    let terms = [kana("こくさい", 0, false), kana("くうこう", 8, false)];
    assert!(make_resegmentation(&ctx, &terms).unwrap().is_none());
    // nor is a phrase
    let mut terms = [kana("こくさい", 0, false), kana("くうこう", 1, false)];
    terms[1].value.zero_typo.phrase = Some(Phrase { words: vec![Some("くうこう".to_string())] });
    assert!(make_resegmentation(&ctx, &terms).unwrap().is_none());
    // nor is an n-gram
    let mut terms = [kana("こくさい", 0, false), kana("くうこう", 1, false)];
    terms[1].value.ngram_words = Some(vec!["くう".to_string(), "こう".to_string()]);
    assert!(make_resegmentation(&ctx, &terms).unwrap().is_none());
    assert_eq!(original_terms_have_phrase_match(&ctx, &terms).unwrap(), false);
}

fn spans(candidates: &[ResegmentationCandidate]) -> Vec<(usize, usize, usize)> {
    candidates
        .iter()
        .map(|candidate| (candidate.attach_at, candidate.start_idx, candidate.end_idx))
        .collect()
}

#[test]
fn candidates_span_the_terms_that_are_missing() {
    // each pair, and the whole, is a word of the index
    let words = word_set(&["いろ", "ろは", "いろは", "ろはに", "いろはに"]);
    let ctx = context(&words);
    let terms = [
        kana("い", 0, true),
        kana("ろ", 1, false),
        kana("は", 2, true),
        kana("に", 3, true),
    ];
    let candidates = resegmentation_candidates(&ctx, &terms).unwrap();
    // shorter ones come first, and among equal ones those with fewer terms before; three at most
    assert_eq!(spans(&candidates), vec![(3, 1, 2), (3, 0, 1), (3, 1, 3)]);
    assert_eq!(candidates[0].term.value.zero_typo.alternates, vec!["ろは"]);
    assert_eq!(candidates[0].term.positions, Positions { start: 1, end: 2 });
}

#[test]
fn indexed_runs_are_resegmented_as_a_whole() {
    let words = word_set(&["きの", "きのこ", "こいぬ", "いぬ"]);
    let terms = [kana("きの", 0, true), kana("こいぬ", 1, true)];
    let mut ctx = context(&words);
    let candidates = settle(&mut ctx, &[&["きのこ", "いぬ"]], |ctx| {
        resegmentation_candidates(ctx, &terms)
    });
    assert_eq!(spans(&candidates), vec![(1, 0, 1)]);

    // not where some document holds the terms as they are
    let mut ctx = context(&words);
    let candidates = settle(&mut ctx, &[&["きのこ", "いぬ"], &["きの", "こいぬ"]], |ctx| {
        resegmentation_candidates(ctx, &terms)
    });
    assert!(candidates.is_empty());
}

#[test]
fn gaps_and_other_scripts_end_a_run() {
    let words = word_set(&["いろ", "はに"]);
    let ctx = context(&words);
    let mut latin = kana("x", 2, false);
    latin.japanese_variants = SearchVariants::default();
    let terms = [
        kana("い", 0, false),
        kana("ろ", 1, false),
        latin,
        kana("は", 3, false),
        kana("に", 4, false),
        kana("い", 12, false),
        kana("ろ", 13, false),
    ];
    let candidates = resegmentation_candidates(&ctx, &terms).unwrap();
    assert_eq!(spans(&candidates), vec![(1, 0, 1), (4, 3, 4), (6, 5, 6)]);
    assert!(resegmentation_candidates(&ctx, &[]).unwrap().is_empty());
}

#[test]
fn runs_that_are_too_long_have_no_candidates() {
    let words = word_set(&["い", "ろ"]);
    let ctx = context(&words);
    // sixteen missing terms are not too many, seventeen are
    let many: Vec<LocatedQueryTerm> = (0..17).map(|i| kana("は", i, false)).collect();
    assert!(resegmentation_candidates(&ctx, &many).unwrap().is_empty());
    let word = "は".repeat(16);
    let words = word_set(&[word.as_str()]);
    let ctx = context(&words);
    assert_eq!(spans(&resegmentation_candidates(&ctx, &many[..16]).unwrap()), vec![(15, 0, 15)]);
    assert!(resegmentation_candidates(&ctx, &many).unwrap().is_empty());
}

#[test]
fn phrases_are_made_of_variants() {
    let words = word_set(&["こく", "さい", "こくさい", "hashi"]);
    let ctx = context(&words);
    let none = SearchVariants::default();
    let tokens = vec![variants("こく", None), variants("さい", None), none];
    let phrase = phrase_variant(&ctx, &tokens, PhraseVariantKind::Normalized).unwrap();
    assert_eq!(phrase_words(&phrase), vec![Some("こくさい"), None]);
    // not all tokens have the variant
    assert!(phrase_variant(&ctx, &tokens, PhraseVariantKind::Romaji).is_none());
    // no token has a variant
    let none = vec![SearchVariants::default()];
    assert!(phrase_variant(&ctx, &none, PhraseVariantKind::Normalized).is_none());
    // the index does not hold the words
    let other = vec![variants("はし", Some("hashi"))];
    assert!(phrase_variant(&ctx, &other, PhraseVariantKind::Phonetic).is_none());

    let mut ctx = context(&words);
    let original = Phrase { words: vec![Some("はし".to_string())] };
    let alternates = settle(&mut ctx, &[], |ctx| alternate_phrases(ctx, &original, &other));
    let alternates: Vec<_> = alternates.iter().map(phrase_words).collect();
    assert_eq!(alternates, vec![vec![Some("hashi")]]);
    let mut ctx = context(&words);
    assert!(settle(&mut ctx, &[&["はし"]], |ctx| alternate_phrases(ctx, &original, &other))
        .is_empty());
}

#[test]
fn answers_that_are_added_change_no_result() {
    let words = word_set(&["きの", "きのこ", "こいぬ", "いぬ"]);
    let mut ctx = context(&words);
    let terms = [kana("きの", 0, true), kana("こいぬ", 1, true)];
    let held: [&[&str]; 1] = [&["きのこ", "いぬ"]];
    let before = settle(&mut ctx, &held, |ctx| resegmentation_candidates(ctx, &terms));
    ctx.answers.phrase_docids.push(Answer {
        question: Phrase { words: vec![Some("きのこ".to_string()), Some("いぬ".to_string())] },
        answer: false,
    });
    let after = resegmentation_candidates(&ctx, &terms).unwrap();
    assert_eq!(spans(&before), spans(&after));
    assert_eq!(
        before[0].term.value.zero_typo.alternate_phrases.len(),
        after[0].term.value.zero_typo.alternate_phrases.len()
    );
}

#[test]
fn segmentations_that_are_not_kept_have_no_fewer_words() {
    let words = word_set(&["a", "aa", "aaa"]);
    let ctx = context(&words);
    let paths = resegment_indexed_variants(&ctx, "aaaaaa");
    assert_eq!(paths.len(), 5);
    assert_eq!(paths[0], vec!["aaa", "aaa"]);
    // the best of those that are left out
    let path = vec!["a", "aaa", "aa"];
    assert!(!paths.iter().any(|kept| *kept == path));
    for kept in &paths {
        assert!(kept.len() < path.len() || kept.len() == path.len() && kept[0].len() >= 1);
    }

    // all are returned where they are few
    let words = word_set(&["a", "aa"]);
    let ctx = context(&words);
    let paths = resegment_indexed_variants(&ctx, "aaa");
    assert_eq!(paths, vec![vec!["aa", "a"], vec!["a", "aa"], vec!["a", "a", "a"]]);
}

#[test]
fn nothing_is_found_twice() {
    // the normalized and the phonetic variant give the same word
    let words = word_set(&["いろ", "iro"]);
    let ctx = context(&words);
    let mut terms = [kana("い", 0, false), kana("ろ", 1, false)];
    terms[0].japanese_variants = variants("い", Some("i"));
    terms[1].japanese_variants = variants("ろ", Some("ro"));
    terms[1].japanese_variants.phonetic = Some("ろー".to_string());
    let term = make_resegmentation(&ctx, &terms).unwrap().unwrap();
    assert_eq!(term.value.zero_typo.alternates, vec!["いろ", "iro"]);
}
