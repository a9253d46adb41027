use friz::matching::{match_line, tail_of, MatchIndices};

fn terms(texts: &[&str]) -> Vec<String> {
    texts.iter().map(|text| text.to_string()).collect()
}

fn matched(line: &str, texts: &[&str]) -> Option<MatchIndices> {
    match_line(7, line, &line.to_lowercase(), &terms(texts))
}

#[test]
fn the_tail_is_the_last_segment() {
    assert_eq!(tail_of(b"src/bin/main.rs"), b"main.rs");
    assert_eq!(tail_of(b"src/bin//"), b"bin");
    assert_eq!(tail_of(b"main.rs"), b"main.rs");
    assert_eq!(tail_of(b"/etc"), b"etc");
    assert_eq!(tail_of(b"///"), b"///");
    assert_eq!(tail_of(b""), b"");
}

#[test]
fn a_match_says_where_and_how_well() {
    assert_eq!(
        matched("src/Main.rs", &["main"]),
        Some(MatchIndices { index: 7, score: 23989, indices: vec![4, 5, 6, 7], exact: true })
    );
    assert_eq!(
        matched("src/Main.rs", &["src"]),
        Some(MatchIndices { index: 7, score: 19989, indices: vec![0, 1, 2], exact: true })
    );
}

#[test]
fn every_term_must_stand_in_the_line() {
    assert!(matched("src/main.rs", &["main", "src"]).is_some());
    assert!(matched("src/main.rs", &["main", "lib"]).is_none());
    assert!(matched("", &["a"]).is_none());
}

#[test]
fn no_terms_match_every_line() {
    assert_eq!(
        matched("abc", &[]),
        Some(MatchIndices { index: 7, score: 19997, indices: vec![], exact: true })
    );
}

#[test]
fn highlights_of_terms_run_together() {
    let found = matched("abcab", &["ab", "bc", "ab"]).unwrap();
    assert_eq!(found.indices, vec![0, 1, 2, 3, 4]);
}

#[test]
fn hits_of_one_term_do_not_overlap() {
    assert_eq!(matched("aaaaa", &["aa"]).unwrap().indices, vec![0, 1, 2, 3]);
}

#[test]
fn only_the_start_of_a_hit_is_marked_where_the_lower_case_text_is_of_another_length() {
    // A capital I with a dot becomes an i and a dot above it: two bytes become three.
    let line = "\u{130}ab";
    assert_ne!(line.len(), line.to_lowercase().len());
    assert_eq!(matched(line, &["ab"]).unwrap().indices, vec![3]);
}

#[test]
fn an_empty_term_stands_everywhere() {
    assert_eq!(matched("abc", &[""]).unwrap().indices, Vec::<usize>::new());
    let found = match_line(0, "abc", "", &terms(&[""])).unwrap();
    assert_eq!(found.indices, vec![0]);
}
