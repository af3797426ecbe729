use kotoba::context::{IndexAnswers, SearchContext};
use kotoba::parse_query::number_of_typos_allowed;

fn word_set(words: &[&str]) -> Vec<u8> {
    let mut sorted = words.to_vec();
    sorted.sort();
    fst::Set::from_iter(sorted).unwrap().as_fst().as_bytes().to_vec()
}

fn context<'a>(words: &'a [u8], exact_words: Option<&'a [u8]>) -> SearchContext<'a> {
    SearchContext {
        words_fst: fst::Set::new(words).unwrap(),
        authorize_typos: true,
        min_word_len_one_typo: 5,
        min_word_len_two_typos: 9,
        exact_words: exact_words.map(|bytes| fst::Set::new(bytes).unwrap()),
        prefix_search: true,
        answers: IndexAnswers::default(),
    }
}

#[test]
fn test_unicode_typo_tolerance_fixed() {
    let words = word_set(&["split", "this", "world"]);
    let ctx = context(&words, None);
    let nbr_typos = number_of_typos_allowed(&ctx);

    // 5 characters, 5 bytes
    let ascii_typos = nbr_typos("doggy");
    // 5 characters, 10 bytes
    let cyrillic_typos = nbr_typos("собак");

    assert_eq!(
        ascii_typos, cyrillic_typos,
        "Words with same character count should get same typo tolerance"
    );
    assert_eq!(ascii_typos, 1, "5-character word should get 1 typo tolerance");
    assert_eq!(cyrillic_typos, 1, "5-character word should get 1 typo tolerance");
}

#[test]
fn test_various_unicode_scripts() {
    let words = word_set(&["split", "this", "world"]);
    let ctx = context(&words, None);
    let nbr_typos = number_of_typos_allowed(&ctx);

    let five_char_words = vec![("doggy", "ASCII"), ("café!", "Accented"), ("собак", "Cyrillic")];
    let expected_typos = 1;
    for (word, script) in five_char_words {
        let typos = nbr_typos(word);
        assert_eq!(
            typos, expected_typos,
            "{} word '{}' should get {} typo(s)",
            script, word, expected_typos
        );
    }
}

#[test]
fn typos_grow_with_the_number_of_characters() {
    let words = word_set(&[]);
    let ctx = context(&words, None);
    let nbr_typos = number_of_typos_allowed(&ctx);
    assert_eq!(nbr_typos(""), 0);
    assert_eq!(nbr_typos("dogs"), 0);
    assert_eq!(nbr_typos("doggy"), 1);
    assert_eq!(nbr_typos("doggydog"), 1);
    assert_eq!(nbr_typos("doggydogs"), 2);
    assert_eq!(nbr_typos("собакисоб"), 2);
}

#[test]
fn exact_words_have_no_typos() {
    let words = word_set(&[]);
    let exact = word_set(&["doggy", "собакисоб"]);
    let ctx = context(&words, Some(&exact));
    let nbr_typos = number_of_typos_allowed(&ctx);
    assert_eq!(nbr_typos("doggy"), 0);
    assert_eq!(nbr_typos("собакисоб"), 0);
    assert_eq!(nbr_typos("kitty"), 1);
}

#[test]
fn typos_can_be_turned_off() {
    let words = word_set(&[]);
    let mut ctx = context(&words, None);
    ctx.authorize_typos = false;
    let nbr_typos = number_of_typos_allowed(&ctx);
    assert_eq!(nbr_typos("doggydogs"), 0);
}
