//! The keys the game reacts to, and what the game loop does next.
use vstd::prelude::*;

verus! {

/// A key press, as the game loop hands it over.
#[derive(Clone, Copy, Debug, PartialEq, Eq, Structural)]
pub enum Key {
    Char(char),
    Up,
    Down,
    Left,
    Right,
    Enter,
    Esc,
    /// Any other key, which the game ignores.
    Other,
}

/// What the game loop does after a key.
#[derive(Clone, Copy, Debug, PartialEq, Eq, Structural)]
pub enum Action {
    /// Draw again and wait for the next key.
    Continue,
    /// Save the settings and leave.
    Quit,
}

pub open spec fn is_up(k: Key) -> bool {
    k == Key::Char('w') || k == Key::Up
}

pub open spec fn is_down(k: Key) -> bool {
    k == Key::Char('s') || k == Key::Down
}

pub open spec fn is_left(k: Key) -> bool {
    k == Key::Char('a') || k == Key::Left
}

pub open spec fn is_right(k: Key) -> bool {
    k == Key::Char('d') || k == Key::Right
}

pub open spec fn is_flag(k: Key) -> bool {
    k == Key::Char(' ') || k == Key::Char('f') || k == Key::Char('F')
}

pub open spec fn is_restart(k: Key) -> bool {
    k == Key::Char('r') || k == Key::Char('R')
}

pub open spec fn is_back(k: Key) -> bool {
    k == Key::Char('q') || k == Key::Char('Q') || k == Key::Esc
}

pub open spec fn is_leave(k: Key) -> bool {
    k == Key::Char('4') || k == Key::Esc
}

} // verus!
