//! What the reader is told by the keyboard.

use vstd::prelude::*;

verus! {

#[derive(Debug, Clone, Copy, PartialEq, Eq, Structural)]
pub enum Key {
    Char(char),
    Enter,
    Esc,
    Backspace,
    Tab,
    Up,
    Down,
    Left,
    Right,
    PageUp,
    PageDown,
    /// A key that nothing is bound to.
    Other,
}

/// A key, and whether it was pressed together with Ctrl.
#[derive(Debug, Clone, Copy, PartialEq, Eq, Structural)]
pub struct KeyPress {
    pub key: Key,
    pub ctrl: bool,
}

/// A key on its own.
pub open spec fn alone(key: Key) -> KeyPress {
    KeyPress { key, ctrl: false }
}

impl KeyPress {
    pub fn plain(key: Key) -> (r: Self)
        ensures
            r == alone(key),
    {
        KeyPress { key, ctrl: false }
    }
}

} // verus!
