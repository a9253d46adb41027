use friz::keys::Action;
use friz::schedule::{SearchCursor, SearchStep};
use friz::state::State;

#[test]
fn a_search_is_due_once_for_each_change() {
    let mut state = State::new();
    let mut cursor = SearchCursor::new();
    assert_eq!(cursor.poll(&state), SearchStep::Idle);
    state.add_chunk(vec!["a".to_string(); 20_000]);
    assert_eq!(cursor.poll(&state), SearchStep::Idle);
    state.apply(Action::Insert('a'), false);
    assert_eq!(cursor.poll(&state), SearchStep::Search(1));
    assert_eq!(cursor.poll(&state), SearchStep::Idle);
    state.add_chunk(vec!["b".to_string()]);
    assert_eq!(cursor.poll(&state), SearchStep::Search(2));
    state.apply(Action::DeleteChar, false);
    assert_eq!(cursor.poll(&state), SearchStep::Clear(3));
    assert_eq!(cursor.poll(&state), SearchStep::Idle);
}

#[test]
fn a_move_of_the_selection_calls_for_no_search() {
    let mut state = State::new();
    state.add_chunk(vec!["a".to_string(), "b".to_string()]);
    let mut cursor = SearchCursor::new();
    state.apply(Action::Up, false);
    assert_eq!(state.selection_index(), 1);
    assert_eq!(cursor.poll(&state), SearchStep::Idle);
}
