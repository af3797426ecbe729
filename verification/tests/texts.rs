use kotoba::ordering::{insert_path, is_preferred};
use kotoba::plain::{push_once, Plain};
use kotoba::text::{
    byte_len, chars_of, concatenate, contains_char, count_char, is_whitespace, last_char, same_text,
    trim,
};

#[test]
fn white_space_is_what_unicode_says() {
    for c in '\u{0}'..=char::MAX {
        assert_eq!(is_whitespace(c), c.is_whitespace(), "{:?}", c);
    }
}

#[test]
fn texts_are_trimmed() {
    for text in ["", " ", " a ", "a\u{3000}b\u{3000}", "\t\na", "a", "\u{200b}a"] {
        let once = trim(text);
        assert_eq!(once, text.trim());
        assert_eq!(trim(&once), once);
    }
}

#[test]
fn texts_are_measured_and_searched() {
    assert_eq!(byte_len("はし"), 6);
    assert_eq!(byte_len("hashi"), 5);
    assert_eq!(chars_of("はし"), vec!['は', 'し']);
    assert!(contains_char("はし", 'し'));
    assert!(!contains_char("はし", 'い'));
    assert_eq!(count_char("a\"b\"\"", '"'), 3);
    assert_eq!(count_char("", '"'), 0);
    assert_eq!(last_char("はし"), Some('し'));
    assert_eq!(last_char(""), None);
    assert!(same_text("はし", "はし"));
    assert!(!same_text("はし", "は"));
    assert_eq!(concatenate(&["は".to_string(), "し".to_string()]), "はし");
    assert_eq!(concatenate(&[]), "");
}

fn path(words: &[&str]) -> Vec<String> {
    words.iter().map(|word| word.to_string()).collect()
}

#[test]
fn paths_are_preferred_in_a_total_order() {
    // in the order of preference: fewer words, a longer first word, then the order of the words
    let paths = [
        path(&["aaaa"]),
        path(&["いろ", "は"]),
        path(&["aaa", "a"]),
        path(&["ab", "aa"]),
        path(&["ab", "ab"]),
        path(&["い", "ろ", "は"]),
        path(&["a", "a", "aa"]),
        path(&["a", "aa", "a"]),
    ];
    for (i, left) in paths.iter().enumerate() {
        for (j, right) in paths.iter().enumerate() {
            assert_eq!(is_preferred(left, right), i <= j, "{:?} {:?}", left, right);
        }
    }
    let mut sorted = Vec::new();
    for path in paths.iter().rev() {
        insert_path(&mut sorted, path.clone());
    }
    assert_eq!(sorted, paths[..sorted.len()]);
}

#[test]
fn items_are_pushed_once() {
    let mut items = vec!["a".to_string()];
    push_once(&mut items, "b".to_string());
    push_once(&mut items, "a".to_string());
    assert_eq!(items, vec!["a", "b"]);
    assert!(items.same(&items.duplicate()));
    assert!(!items.same(&Vec::new()));
    assert!(!Some(true).same(&None));
}
