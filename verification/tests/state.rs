use friz::keys::Action;
use friz::search::{search, Found};
use friz::state::{delete_segment, Outcome, State};
use std::sync::atomic::AtomicUsize;

fn with_lines(lines: &[&str]) -> State {
    let mut state = State::new();
    state.add_chunk(lines.iter().map(|line| line.to_string()).collect());
    state
}

fn type_text(state: &mut State, text: &str) {
    for c in text.chars() {
        assert_eq!(state.apply(Action::Insert(c), false), Outcome::Continue);
    }
}

fn run_search(state: &mut State) {
    let version = state.query_version();
    let found = search(state.query(), state.lines(), &AtomicUsize::new(version), version).unwrap();
    assert!(state.publish(version, found));
}

#[test]
fn a_new_state_is_empty() {
    let mut state = State::new();
    assert_eq!(state.total_results(), 0);
    assert_eq!(state.settle(), 0);
    assert_eq!(state.query(), "");
    assert_eq!(state.apply(Action::Accept, false), Outcome::Continue);
}

#[test]
fn lines_change_what_shows_and_with_a_query_what_is_searched() {
    let mut state = with_lines(&["a", "b"]);
    assert_eq!((state.ui_version(), state.query_version()), (1, 0));
    assert_eq!(state.total_results(), 2);
    let mut typed = State::new();
    type_text(&mut typed, "x");
    assert_eq!((typed.ui_version(), typed.query_version()), (1, 1));
    typed.add_chunk(vec!["x".to_string()]);
    assert_eq!((typed.ui_version(), typed.query_version()), (2, 2));
    assert_eq!(typed.total_results(), 0);
    state.settle();
    assert_eq!(state.ui_version(), 1);
}

#[test]
fn without_a_query_the_selected_line_is_accepted() {
    let mut state = with_lines(&["a", "b", "c"]);
    assert_eq!(state.apply(Action::Up, false), Outcome::Continue);
    assert_eq!(state.selection_index(), 1);
    assert_eq!(state.apply(Action::Accept, false), Outcome::Accept("b".to_string()));
}

#[test]
fn with_a_query_the_selected_match_is_accepted() {
    let mut state = with_lines(&["other", "src/main.rs", "main"]);
    type_text(&mut state, "MAIN");
    assert_eq!(state.total_results(), 0);
    run_search(&mut state);
    assert_eq!(state.total_results(), 2);
    assert_eq!(state.apply(Action::Accept, false), Outcome::Accept("main".to_string()));
    state.apply(Action::Down, true);
    assert_eq!(state.line_of_result(1), 1);
    assert_eq!(state.apply(Action::Accept, true), Outcome::Accept("src/main.rs".to_string()));
}

#[test]
fn the_selection_moves_within_the_results() {
    let mut state = with_lines(&["a", "b"]);
    state.apply(Action::Down, false);
    assert_eq!((state.selection_index(), state.ui_version()), (0, 1));
    state.apply(Action::Up, false);
    assert_eq!((state.selection_index(), state.ui_version()), (1, 2));
    state.apply(Action::Up, false);
    assert_eq!((state.selection_index(), state.ui_version()), (1, 2));
    state.apply(Action::Down, false);
    assert_eq!((state.selection_index(), state.ui_version()), (0, 3));
}

#[test]
fn in_reverse_the_keys_move_the_other_way() {
    let mut state = with_lines(&["a", "b"]);
    state.apply(Action::Up, true);
    assert_eq!(state.selection_index(), 0);
    state.apply(Action::Down, true);
    assert_eq!(state.selection_index(), 1);
    state.apply(Action::Up, true);
    assert_eq!(state.selection_index(), 0);
}

#[test]
fn a_selection_behind_the_results_is_settled() {
    let mut state = with_lines(&["ab", "b", "c"]);
    type_text(&mut state, "b");
    run_search(&mut state);
    state.apply(Action::Up, false);
    type_text(&mut state, "x");
    state.apply(Action::DeleteChar, false);
    assert_eq!(state.selection_index(), 1);
    type_text(&mut state, " a");
    run_search(&mut state);
    assert_eq!(state.selection_index(), 0);
    let mut all = with_lines(&["a", "b", "c"]);
    all.apply(Action::Up, false);
    all.apply(Action::Up, false);
    assert_eq!(all.selection_index(), 2);
    type_text(&mut all, "b");
    let version = all.settle();
    assert_eq!((all.selection_index(), all.ui_version()), (2, version));
}

#[test]
fn a_stale_selection_is_put_on_the_last_result() {
    let mut state = with_lines(&["a", "b", "ab"]);
    type_text(&mut state, "a");
    run_search(&mut state);
    assert_eq!(state.total_results(), 2);
    state.apply(Action::DeleteChar, false);
    state.apply(Action::Up, false);
    state.apply(Action::Up, false);
    assert_eq!(state.selection_index(), 2);
    type_text(&mut state, "a");
    let before = state.ui_version();
    assert_eq!(state.settle(), before + 1);
    assert_eq!(state.selection_index(), 1);
    assert_eq!(state.settle(), before + 1);
}

#[test]
fn cancelling_gives_no_line() {
    let mut state = with_lines(&["a"]);
    assert_eq!(state.apply(Action::Cancel, false), Outcome::Cancel);
    assert_eq!(state.apply(Action::Ignore, false), Outcome::Continue);
    assert_eq!(state.ui_version(), 1);
}

#[test]
fn backspace_deletes_one_character() {
    let mut state = State::new();
    type_text(&mut state, "a\u{e9}");
    state.apply(Action::DeleteChar, false);
    assert_eq!(state.query(), "a");
    state.apply(Action::DeleteChar, false);
    state.apply(Action::DeleteChar, false);
    assert_eq!(state.query(), "");
    assert_eq!((state.ui_version(), state.query_version()), (5, 5));
}

#[test]
fn segments_are_deleted_up_to_a_slash_or_a_space() {
    for (query, rest) in [
        ("src/main", "src/"),
        ("src/main/", "src/"),
        ("src/main / /", "src/"),
        ("foo bar", "foo "),
        ("foo  bar", "foo  "),
        ("foo", ""),
        ("foo/", ""),
        ("/", ""),
        ("//foo", "//"),
        ("", ""),
        ("\u{e9}/\u{4e2d}\u{6587}", "\u{e9}/"),
    ] {
        assert_eq!(delete_segment(query), rest);
    }
    let mut state = State::new();
    type_text(&mut state, "src/main");
    state.apply(Action::DeleteSegment, false);
    assert_eq!(state.query(), "src/");
    assert_eq!(state.query_version(), 9);
}

#[test]
fn stale_results_are_dropped() {
    let mut state = with_lines(&["a"]);
    type_text(&mut state, "a");
    let version = state.query_version();
    let found = search("a", state.lines(), &AtomicUsize::new(version), version).unwrap();
    type_text(&mut state, "b");
    let before = state.ui_version();
    assert!(!state.publish(version, found));
    assert_eq!(state.total_results(), 0);
    assert_eq!(state.ui_version(), before);
    assert!(state.publish(state.query_version(), Found::nothing()));
    assert_eq!(state.ui_version(), before + 1);
    assert!(state.matches().is_empty());
}
