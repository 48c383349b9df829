use vstd::prelude::*;

verus! {

/// What the game does on a key press.
#[derive(Clone, Copy, Debug, PartialEq, Eq, Structural)]
pub enum Action {
    /// Leave the game.
    Quit,
    /// Try to move the player by `(dy, dx)`.
    Move(isize, isize),
    /// Nothing.
    Ignore,
}

/// The action for a key press: `q` quits; `w`, `s`, `a`, `d` move up, down,
/// left and right; any other key, or a key that is not a character (`None`),
/// does nothing.
pub fn action_for_key(key: Option<char>) -> (a: Action)
    ensures
        a == match key {
            Some('q') => Action::Quit,
            Some('w') => Action::Move(-1isize, 0isize),
            Some('s') => Action::Move(1isize, 0isize),
            Some('a') => Action::Move(0isize, -1isize),
            Some('d') => Action::Move(0isize, 1isize),
            _ => Action::Ignore,
        },
{
    match key {
        Some('q') => Action::Quit,
        Some('w') => Action::Move(-1, 0),
        Some('s') => Action::Move(1, 0),
        Some('a') => Action::Move(0, -1),
        Some('d') => Action::Move(0, 1),
        _ => Action::Ignore,
    }
}

} // verus!
