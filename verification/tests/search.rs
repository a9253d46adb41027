use friz::matching::MatchIndices;
use friz::search::{conclude, search, search_chunk, search_if_current, search_unless_stale, Found};
use friz::store::{Lines, CHUNK_SIZE};
use std::sync::atomic::AtomicUsize;

fn strings(texts: &[&str]) -> Vec<String> {
    texts.iter().map(|text| text.to_string()).collect()
}

fn store(lines: Vec<String>) -> Lines {
    let mut result = Lines::new();
    for chunk in lines.chunks(CHUNK_SIZE) {
        result.push_chunk(chunk.to_vec());
    }
    result
}

fn found_lines(query: &str, lines: &Lines) -> Vec<String> {
    let found = search(query, lines, &AtomicUsize::new(3), 3).unwrap();
    assert_eq!(found.searched(), lines.len());
    found.matches().iter().map(|m| lines.get(m.index as usize).to_string()).collect()
}

fn entry(score: u16, index: u32) -> MatchIndices {
    MatchIndices { index, score, indices: vec![], exact: true }
}

#[test]
fn a_search_heeds_neither_case_nor_the_order_of_words() {
    let lines = store(strings(&["README.md", "src/main.rs", "src/lib.rs", "Main/src", "other"]));
    assert_eq!(found_lines("SRC", &lines), vec!["Main/src", "src/lib.rs", "src/main.rs"]);
    assert_eq!(found_lines("main src", &lines), vec!["Main/src", "src/main.rs"]);
    assert_eq!(found_lines("src MAIN", &lines), vec!["Main/src", "src/main.rs"]);
    assert_eq!(found_lines("nothing", &lines), Vec::<String>::new());
}

#[test]
fn more_words_find_less() {
    let lines = store(strings(&["ab", "a", "b", "ba"]));
    assert_eq!(found_lines("a", &lines), vec!["a", "ab", "ba"]);
    assert_eq!(found_lines("a b", &lines), vec!["ab", "ba"]);
}

#[test]
fn terms_in_the_last_segment_come_first() {
    let lines = store(strings(&["a/foo/bar", "a/bar/foo", "a/baz/foofoo/"]));
    assert_eq!(found_lines("foo", &lines), vec!["a/bar/foo", "a/baz/foofoo/", "a/foo/bar"]);
}

#[test]
fn a_search_goes_through_all_chunks() {
    let lines = store((0..2 * CHUNK_SIZE + 5).map(|i| format!("line {}", i)).collect());
    let found = search("0 line 40", &lines, &AtomicUsize::new(0), 0).unwrap();
    let expected: Vec<u32> = (0..(2 * CHUNK_SIZE + 5) as u32)
        .filter(|i| i.to_string().contains('0') && i.to_string().contains("40"))
        .collect();
    let mut indices: Vec<u32> = found.matches().iter().map(|m| m.index).collect();
    for pair in found.matches().windows(2) {
        assert!((u16::MAX - pair[0].score, pair[0].index) < (u16::MAX - pair[1].score, pair[1].index));
    }
    indices.sort();
    assert_eq!(indices, expected);
    assert!(indices.contains(&(2 * CHUNK_SIZE as u32 + 4)));
}

#[test]
fn a_chunk_gives_its_matches_in_order() {
    let found = search_chunk(2, &strings(&["b", "xa", "A"]), &strings(&["a"]));
    let keys: Vec<(u32, u16)> = found.iter().map(|m| (m.index, m.score)).collect();
    assert_eq!(keys, vec![(40_001, 23_998), (40_002, 23_999)]);
}

#[test]
fn a_search_for_an_old_version_is_given_up() {
    let lines = store(strings(&["a"]));
    assert!(search("a", &lines, &AtomicUsize::new(2), 1).is_none());
    assert!(search("a", &Lines::new(), &AtomicUsize::new(2), 1).is_none());
    let chunk = strings(&["a"]);
    assert!(search_if_current(0, &chunk, &chunk, 4, 5).is_none());
    assert_eq!(search_if_current(0, &chunk, &chunk, 5, 5).unwrap().len(), 1);
    assert!(search_unless_stale(0, &chunk, &chunk, &AtomicUsize::new(4), 5).is_none());
    assert_eq!(search_unless_stale(0, &chunk, &chunk, &AtomicUsize::new(5), 5).unwrap().len(), 1);
}

#[test]
fn a_search_ends_with_all_chunks_or_with_nothing() {
    let parts = vec![Some(vec![entry(1, 0), entry(5, 1)]), Some(vec![entry(3, 2)])];
    assert_eq!(conclude(parts.clone(), 9, 9), Some(vec![entry(5, 1), entry(3, 2), entry(1, 0)]));
    assert_eq!(conclude(parts, 8, 9), None);
    assert_eq!(conclude(vec![Some(vec![entry(1, 0)]), None], 9, 9), None);
    assert_eq!(conclude(vec![], 9, 9), Some(vec![]));
}

#[test]
fn nothing_is_found_in_no_lines() {
    let found = Found::nothing();
    assert_eq!(found.searched(), 0);
    assert!(found.into_matches().is_empty());
}
