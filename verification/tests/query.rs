use friz::query::{is_white_space, query_terms, split_words};

#[test]
fn white_space_is_that_of_unicode() {
    for code in 0..=0x10_ffff {
        if let Some(c) = char::from_u32(code) {
            assert_eq!(is_white_space(c), c.is_whitespace());
        }
    }
}

#[test]
fn words_stand_between_white_space() {
    for text in ["", "  ", "a", " a", "a ", "foo bar", " \tfoo\u{a0}b\u{2003} x\n", "\u{e9} \u{3000}z"] {
        let expected: Vec<&str> = text.split_whitespace().collect();
        assert_eq!(split_words(text), expected);
    }
}

#[test]
fn terms_are_in_lower_case() {
    assert_eq!(query_terms("SRC  Main.RS"), vec!["src", "main.rs"]);
    assert_eq!(query_terms("\u{c9}T\u{c9}"), vec!["\u{e9}t\u{e9}"]);
    assert!(query_terms(" ").is_empty());
}

#[test]
fn each_word_is_put_in_lower_case_by_itself() {
    // A sigma at the end of a word has a form of its own.
    assert_eq!(query_terms("\u{39f}\u{3a3} A"), vec!["\u{3bf}\u{3c2}", "a"]);
}
