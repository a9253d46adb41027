use friz::keys::{action_of, Action, KeyCode, KeyModifiers};

const NONE: KeyModifiers = KeyModifiers { control: false, alt: false, other: false };
const CONTROL: KeyModifiers = KeyModifiers { control: true, alt: false, other: false };
const ALT: KeyModifiers = KeyModifiers { control: false, alt: true, other: false };
const SHIFT: KeyModifiers = KeyModifiers { control: false, alt: false, other: true };
const CONTROL_SHIFT: KeyModifiers = KeyModifiers { control: true, alt: false, other: true };

#[test]
fn shortcuts() {
    assert_eq!(action_of(KeyCode::Enter, NONE), Action::Accept);
    assert_eq!(action_of(KeyCode::Esc, NONE), Action::Cancel);
    assert_eq!(action_of(KeyCode::Char('c'), CONTROL), Action::Cancel);
    assert_eq!(action_of(KeyCode::Up, NONE), Action::Up);
    assert_eq!(action_of(KeyCode::Char('p'), CONTROL), Action::Up);
    assert_eq!(action_of(KeyCode::Down, NONE), Action::Down);
    assert_eq!(action_of(KeyCode::Char('n'), CONTROL), Action::Down);
    assert_eq!(action_of(KeyCode::Backspace, NONE), Action::DeleteChar);
    assert_eq!(action_of(KeyCode::Backspace, CONTROL), Action::DeleteSegment);
    assert_eq!(action_of(KeyCode::Char('w'), CONTROL), Action::DeleteSegment);
    assert_eq!(action_of(KeyCode::Char('h'), CONTROL), Action::DeleteSegment);
}

#[test]
fn characters_are_typed() {
    assert_eq!(action_of(KeyCode::Char('c'), NONE), Action::Insert('c'));
    assert_eq!(action_of(KeyCode::Char('C'), SHIFT), Action::Insert('C'));
    assert_eq!(action_of(KeyCode::Char('\u{e9}'), NONE), Action::Insert('\u{e9}'));
}

#[test]
fn other_keys_mean_nothing() {
    assert_eq!(action_of(KeyCode::Char('x'), CONTROL), Action::Ignore);
    assert_eq!(action_of(KeyCode::Char('c'), ALT), Action::Ignore);
    assert_eq!(action_of(KeyCode::Char('c'), CONTROL_SHIFT), Action::Ignore);
    assert_eq!(action_of(KeyCode::Other, NONE), Action::Ignore);
}

#[test]
fn modifiers_matter_only_where_they_are_asked_for() {
    assert_eq!(action_of(KeyCode::Esc, CONTROL_SHIFT), Action::Cancel);
    assert_eq!(action_of(KeyCode::Enter, ALT), Action::Accept);
    assert_eq!(action_of(KeyCode::Up, SHIFT), Action::Up);
    assert_eq!(action_of(KeyCode::Backspace, CONTROL_SHIFT), Action::DeleteChar);
    assert!(CONTROL.is_control_alone());
    assert!(!CONTROL_SHIFT.is_control_alone());
}
