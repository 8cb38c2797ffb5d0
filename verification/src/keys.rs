//! Key presses as the interactive pickers read them.
use vstd::prelude::*;

verus! {

/// The key that was pressed.
#[derive(Clone, Copy, PartialEq, Eq, Structural)]
pub enum KeyCode {
    Esc,
    Enter,
    Up,
    Down,
    Left,
    Right,
    Backspace,
    Char(char),
    Other,
}

/// A key press with the modifier keys held at the time.
#[derive(Clone, Copy, PartialEq, Eq, Structural)]
pub struct Key {
    pub code: KeyCode,
    pub ctrl: bool,
    pub alt: bool,
}

} // verus!
