use friz::find::{find_from, is_in};

#[test]
fn the_first_offset_is_found() {
    assert_eq!(find_from(b"abcabc", b"bc", 0), Some(1));
    assert_eq!(find_from(b"abcabc", b"bc", 2), Some(4));
    assert_eq!(find_from(b"abcabc", b"bc", 5), None);
    assert_eq!(find_from(b"abcabc", b"bc", 9), None);
    assert_eq!(find_from(b"abc", b"abcd", 0), None);
}

#[test]
fn nothing_is_found_everywhere() {
    assert_eq!(find_from(b"abc", b"", 0), Some(0));
    assert_eq!(find_from(b"abc", b"", 3), Some(3));
    assert_eq!(find_from(b"", b"", 0), Some(0));
    assert!(is_in(b"", b""));
}

#[test]
fn the_search_agrees_with_that_of_str() {
    for hay in ["", "a", "abab", "aabaa", "src/main.rs", "\u{e9}a\u{e9}"] {
        for pat in ["", "a", "b", "ab", "aa", "main", "\u{e9}", "rs "] {
            assert_eq!(find_from(hay.as_bytes(), pat.as_bytes(), 0), hay.find(pat));
            assert_eq!(is_in(hay.as_bytes(), pat.as_bytes()), hay.contains(pat));
        }
    }
}
