//! What the player asks for: keys, and the actions they stand for.

use vstd::prelude::*;

verus! {

/// How long one wait for a key lasts at most, in milliseconds.
pub const POLL_MILLIS: u64 = 100;

/// What the player asks the game to do.
#[derive(Clone, Copy, Debug, PartialEq, Eq)]
pub enum UserAction {
    MoveUp,
    MoveDown,
    MoveLeft,
    MoveRight,
    Quit,
    /// Nothing: no key came in time, or one that the game does not know.
    NoOp,
}

/// A key of the keyboard, as far as the game tells keys apart.
#[derive(Clone, Copy, Debug, PartialEq, Eq)]
pub enum Key {
    Up,
    Down,
    Left,
    Right,
    Esc,
    /// A key that types a character.
    Char(char),
    /// Any other key.
    Other,
}

/// What came of waiting for the terminal.
#[derive(Clone, Copy, Debug, PartialEq, Eq)]
pub enum Input {
    /// Nothing happened within the time allowed.
    Timeout,
    /// A key was pressed.
    Pressed(Key),
    /// Something else happened, such as a resize.
    Other,
}

/// The action that a key stands for: the arrow keys and `w`, `s`, `a`, `d`
/// move, Escape and `q` quit, and every other key does nothing.
pub fn map_key(key: Key) -> (action: UserAction)
    ensures
        action is MoveUp <==> key is Up || key == Key::Char('w'),
        action is MoveDown <==> key is Down || key == Key::Char('s'),
        action is MoveLeft <==> key is Left || key == Key::Char('a'),
        action is MoveRight <==> key is Right || key == Key::Char('d'),
        action is Quit <==> key is Esc || key == Key::Char('q'),
{
    match key {
        Key::Up => UserAction::MoveUp,
        Key::Down => UserAction::MoveDown,
        Key::Left => UserAction::MoveLeft,
        Key::Right => UserAction::MoveRight,
        Key::Esc => UserAction::Quit,
        Key::Char(c) => {
            if c == 'w' {
                UserAction::MoveUp
            } else if c == 's' {
                UserAction::MoveDown
            } else if c == 'a' {
                UserAction::MoveLeft
            } else if c == 'd' {
                UserAction::MoveRight
            } else if c == 'q' {
                UserAction::Quit
            } else {
                UserAction::NoOp
            }
        },
        Key::Other => UserAction::NoOp,
    }
}

/// The action that an input stands for: that of the key where a key was
/// pressed, and nothing otherwise.
pub fn map_input(input: Input) -> (action: UserAction)
    ensures
        action is MoveUp <==> input == Input::Pressed(Key::Up) || input == Input::Pressed(
            Key::Char('w'),
        ),
        action is MoveDown <==> input == Input::Pressed(Key::Down) || input == Input::Pressed(
            Key::Char('s'),
        ),
        action is MoveLeft <==> input == Input::Pressed(Key::Left) || input == Input::Pressed(
            Key::Char('a'),
        ),
        action is MoveRight <==> input == Input::Pressed(Key::Right) || input == Input::Pressed(
            Key::Char('d'),
        ),
        action is Quit <==> input == Input::Pressed(Key::Esc) || input == Input::Pressed(
            Key::Char('q'),
        ),
{
    match input {
        Input::Pressed(key) => map_key(key),
        Input::Timeout => UserAction::NoOp,
        Input::Other => UserAction::NoOp,
    }
}

/// The action that a key stands for in a session that reads the keyboard
/// raw: as `map_key` says, and `c` with the control key held quits too.
pub fn map_session_key(key: Key, control: bool) -> (action: UserAction)
    ensures
        action is MoveUp <==> !(control && key == Key::Char('c')) && (key is Up || key
            == Key::Char('w')),
        action is MoveDown <==> !(control && key == Key::Char('c')) && (key is Down || key
            == Key::Char('s')),
        action is MoveLeft <==> !(control && key == Key::Char('c')) && (key is Left || key
            == Key::Char('a')),
        action is MoveRight <==> !(control && key == Key::Char('c')) && (key is Right || key
            == Key::Char('d')),
        action is Quit <==> key is Esc || key == Key::Char('q') || (control && key == Key::Char(
            'c',
        )),
{
    if control {
        if let Key::Char(c) = key {
            if c == 'c' {
                return UserAction::Quit;
            }
        }
    }
    map_key(key)
}

} // verus!
