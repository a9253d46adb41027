//! What the keys mean.
use vstd::prelude::*;

verus! {

/// A key.
#[derive(Clone, Copy, Debug, PartialEq, Eq, Structural)]
pub enum KeyCode {
    Esc,
    Enter,
    Up,
    Down,
    Backspace,
    Char(char),
    /// Any other key.
    Other,
}

/// What is held down with a key.
#[derive(Clone, Copy, Debug, PartialEq, Eq, Structural)]
pub struct KeyModifiers {
    pub control: bool,
    pub alt: bool,
    /// Anything else: shift and the like.
    pub other: bool,
}

impl KeyModifiers {
    /// Control, and nothing else, is held down.
    pub open spec fn control_alone(self) -> bool {
        self.control && !self.alt && !self.other
    }

    /// Whether control, and nothing else, is held down.
    pub fn is_control_alone(&self) -> (yes: bool)
        ensures
            yes == self.control_alone(),
    {
        self.control && !self.alt && !self.other
    }
}

/// What a key asks for.
#[derive(Clone, Copy, Debug, PartialEq, Eq, Structural)]
pub enum Action {
    /// Leave without a selection.
    Cancel,
    /// Leave with the selected line.
    Accept,
    /// Move the selection up on the screen.
    Up,
    /// Move the selection down on the screen.
    Down,
    /// Delete the last segment of the query.
    DeleteSegment,
    /// Delete the last character of the query.
    DeleteChar,
    /// Append a character to the query.
    Insert(char),
    /// Nothing.
    Ignore,
}

/// What the key asks for.
pub open spec fn action_for(code: KeyCode, modifiers: KeyModifiers) -> Action {
    match code {
        KeyCode::Esc => Action::Cancel,
        KeyCode::Enter => Action::Accept,
        KeyCode::Up => Action::Up,
        KeyCode::Down => Action::Down,
        KeyCode::Backspace => if modifiers.control_alone() {
            Action::DeleteSegment
        } else {
            Action::DeleteChar
        },
        KeyCode::Char(c) => if modifiers.control_alone() {
            if c == 'c' {
                Action::Cancel
            } else if c == 'p' {
                Action::Up
            } else if c == 'n' {
                Action::Down
            } else if c == 'w' || c == 'h' {
                Action::DeleteSegment
            } else {
                Action::Ignore
            }
        } else if modifiers.control || modifiers.alt {
            Action::Ignore
        } else {
            Action::Insert(c)
        },
        KeyCode::Other => Action::Ignore,
    }
}

/// What a key asks for.
pub fn action_of(code: KeyCode, modifiers: KeyModifiers) -> (action: Action)
    ensures
        action == action_for(code, modifiers),
{
    let control: bool = modifiers.is_control_alone();
    match code {
        KeyCode::Esc => Action::Cancel,
        KeyCode::Enter => Action::Accept,
        KeyCode::Up => Action::Up,
        KeyCode::Down => Action::Down,
        KeyCode::Backspace => {
            if control {
                Action::DeleteSegment
            } else {
                Action::DeleteChar
            }
        },
        KeyCode::Char(c) => {
            if control && c == 'c' {
                Action::Cancel
            } else if control && c == 'p' {
                Action::Up
            } else if control && c == 'n' {
                Action::Down
            } else if control && (c == 'w' || c == 'h') {
                Action::DeleteSegment
            } else if !modifiers.control && !modifiers.alt {
                Action::Insert(c)
            } else {
                Action::Ignore
            }
        },
        KeyCode::Other => Action::Ignore,
    }
}

/// Escape, enter and the arrows mean the same whatever is held down with them.
pub proof fn law_keys_that_mean_one_thing(modifiers: KeyModifiers)
    ensures
        action_for(KeyCode::Esc, modifiers) == Action::Cancel,
        action_for(KeyCode::Enter, modifiers) == Action::Accept,
        action_for(KeyCode::Up, modifiers) == Action::Up,
        action_for(KeyCode::Down, modifiers) == Action::Down,
        action_for(KeyCode::Other, modifiers) == Action::Ignore,
{
}

/// A character is typed as it is exactly where neither control nor alt is held down.
pub proof fn law_characters_are_typed(c: char, modifiers: KeyModifiers)
    ensures
        !modifiers.control && !modifiers.alt ==> action_for(KeyCode::Char(c), modifiers)
            == Action::Insert(c),
        modifiers.control || modifiers.alt ==> action_for(KeyCode::Char(c), modifiers) !is Insert,
{
}

/// With control, and nothing else, `c` cancels, `p` goes up, `n` goes down, `w` and `h`
/// delete a segment as the backspace key then does, and every other character means
/// nothing. With more than control held down, or with alt, no character means anything, and
/// the backspace key deletes a character.
pub proof fn law_control_keys(c: char, modifiers: KeyModifiers)
    ensures
        ({
            let alone = KeyModifiers { control: true, alt: false, other: false };
            &&& action_for(KeyCode::Char('c'), alone) == Action::Cancel
            &&& action_for(KeyCode::Char('p'), alone) == Action::Up
            &&& action_for(KeyCode::Char('n'), alone) == Action::Down
            &&& action_for(KeyCode::Char('w'), alone) == Action::DeleteSegment
            &&& action_for(KeyCode::Char('h'), alone) == Action::DeleteSegment
            &&& action_for(KeyCode::Backspace, alone) == Action::DeleteSegment
            &&& c != 'c' && c != 'p' && c != 'n' && c != 'w' && c != 'h' ==> action_for(
                KeyCode::Char(c),
                alone,
            ) == Action::Ignore
            &&& modifiers != alone ==> action_for(KeyCode::Backspace, modifiers)
                == Action::DeleteChar
            &&& modifiers != alone && (modifiers.control || modifiers.alt) ==> action_for(
                KeyCode::Char(c),
                modifiers,
            ) == Action::Ignore
        }),
{
}

} // verus!
