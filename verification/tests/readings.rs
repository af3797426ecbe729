use kotoba::japanese::{
    contains_han, contains_kana, normalize_compact_reading, search_variants, SearchVariants,
};
use kotoba::token::{Token, TokenKind};

#[test]
fn compact_reading_expands_prolonged_sound_marks() {
    assert_eq!(normalize_compact_reading("くーる"), "くうる");
    assert_eq!(normalize_compact_reading("すーぱー"), "すうぱあ");
    assert_eq!(normalize_compact_reading("ぱーてぃー"), "ぱあてぃい");
}

#[test]
fn compact_reading_expands_each_row() {
    assert_eq!(normalize_compact_reading("かーきーくーけーこー"), "かあきいくうけえこう");
    // a mark after a vowel that a mark gave prolongs that vowel
    assert_eq!(normalize_compact_reading("こーー"), "こうう");
    // nothing before a mark to prolong
    assert_eq!(normalize_compact_reading("ーあ"), "ーあ");
    assert_eq!(normalize_compact_reading("んー"), "んー");
    assert_eq!(normalize_compact_reading(""), "");
    assert_eq!(normalize_compact_reading("cool"), "cool");
}

#[test]
fn compact_reading_looks_past_what_is_no_kana() {
    // a combining mark, and what is no kana, leave the kana before it to be prolonged
    assert_eq!(normalize_compact_reading("か\u{3099}ー"), "か\u{3099}あ");
    assert_eq!(normalize_compact_reading("かxー"), "かxあ");
}

#[test]
fn compact_reading_of_a_compact_reading_is_the_same() {
    let text = "すーぱーxーんー";
    let once = normalize_compact_reading(text);
    assert_eq!(normalize_compact_reading(&once), once);
    assert_eq!(once.chars().count(), text.chars().count());
}

#[test]
fn scripts_are_told_apart() {
    assert!(contains_han("国際"));
    assert!(contains_han("々"));
    assert!(contains_han("〇"));
    assert!(!contains_han("はし"));
    assert!(contains_kana("はし"));
    assert!(contains_kana("ハシ"));
    assert!(contains_kana("xㇰ"));
    assert!(!contains_kana("橋 hashi"));
    assert!(!contains_kana(""));
}

fn variants(lemma: &str, alternates: Option<&[&str]>) -> [Option<String>; 3] {
    let token = Token {
        lemma: lemma.to_string(),
        kind: TokenKind::Word,
        alternates: alternates
            .map(|alternates| alternates.iter().map(|word| word.to_string()).collect()),
    };
    let variants = search_variants(&token);
    [variants.normalized, variants.phonetic, variants.romaji]
}

fn owned(words: [Option<&str>; 3]) -> [Option<String>; 3] {
    words.map(|word| word.map(|word| word.to_string()))
}

#[test]
fn tokens_have_search_variants() {
    let none: Option<&[&str]> = None;
    assert_eq!(variants("hashi", none), owned([None, None, None]));
    assert_eq!(variants(" はし ", none), owned([Some("はし"), None, None]));
    assert_eq!(variants("橋はし", none), owned([None, None, None]));
    assert_eq!(
        variants("橋", Some(&["", " はし ", "きょう", "hashi", "hasi"])),
        owned([Some("はし"), Some("はし"), Some("hashi")])
    );
    assert_eq!(
        variants("ハシ", Some(&["hashi", "はし"])),
        owned([Some("ハシ"), Some("はし"), Some("hashi")])
    );
    assert_eq!(variants("橋", Some(&["hashi"])), owned([None, None, Some("hashi")]));
}

#[test]
fn variants_are_listed_once() {
    let variants = SearchVariants {
        normalized: Some("はし".to_string()),
        phonetic: Some("はし".to_string()),
        romaji: Some("hashi".to_string()),
    };
    assert_eq!(variants.iter_unique(), vec!["はし", "hashi"]);
    let lengths = variants.map(|word: String| word.len() as u8);
    assert_eq!(lengths.normalized, Some(6));
    assert_eq!(lengths.phonetic, Some(6));
    assert_eq!(lengths.romaji, Some(5));
    let none: SearchVariants<String> = SearchVariants::default();
    assert!(none.iter_unique().is_empty());
}
