//! The text-input screen: a buffer edited in two sub-modes, and the pending
//! continuation the finished text resolves.

use vstd::prelude::*;

use crate::text::pop_char;
use crate::text::push_char;

use super::Key;
use super::ModeReturns;

verus! {

/// The two sub-modes of the input screen: in `Normal` the buffer is fixed,
/// in `Editing` key presses change it.
pub enum EditMode {
    Normal,
    Editing,
}

/// The text-input screen: the buffer, the sub-mode, and the continuation
/// describing what to do with the finished text.
pub struct InputMode {
    pub input: String,
    pub edit_mode: EditMode,
    pub next: Box<ModeReturns>,
}

/// How one key press acts on the input screen. In `Normal`, `e` starts
/// editing and `q` quits. In `Editing`, `Esc` returns to `Normal`, `Enter`
/// resolves the continuation with the buffer as the chosen filename,
/// printable keys append to the buffer and backspace removes its last
/// character.
pub open spec fn input_key_post(
    m0: InputMode,
    m1: InputMode,
    key: Key,
    r: Option<ModeReturns>,
) -> bool {
    m1.next == m0.next && match m0.edit_mode {
        EditMode::Normal => match key {
            Key::Char(c) => if c == 'e' {
                m1.input == m0.input && m1.edit_mode is Editing && r is None
            } else if c == 'q' {
                m1 == m0 && r == Some(ModeReturns::Quit)
            } else {
                m1 == m0 && r is None
            },
            _ => m1 == m0 && r is None,
        },
        EditMode::Editing => match key {
            Key::Enter => m1 == m0 && (r matches Some(ModeReturns::GoToDetails(Some(f)))
                && f@ == m0.input@),
            Key::Esc => m1.input == m0.input && m1.edit_mode is Normal && r is None,
            Key::Char(c) => m1.input@ == m0.input@.push(c) && m1.edit_mode is Editing
                && r is None,
            Key::Backspace => m1.edit_mode is Editing && r is None && m1.input@ == if m0.input@.len()
                > 0 {
                m0.input@.drop_last()
            } else {
                m0.input@
            },
            _ => m1 == m0 && r is None,
        },
    }
}

impl InputMode {
    /// A fresh input screen: empty buffer, `Normal` sub-mode, and the given
    /// continuation.
    pub fn new(next: Box<ModeReturns>) -> (r: InputMode)
        ensures
            r.input@ == Seq::<char>::empty(),
            r.edit_mode is Normal,
            r.next == next,
    {
        InputMode { input: String::new(), edit_mode: EditMode::Normal, next }
    }

    /// Apply one key press to the input screen. Only the continuation that
    /// leads to the detail screen is in scope here.
    pub fn handle_key(&mut self, key: Key) -> (r: Option<ModeReturns>)
        requires
            *old(self).next matches ModeReturns::GoToDetails(_),
        ensures
            *final(self).next matches ModeReturns::GoToDetails(_),
            input_key_post(*old(self), *final(self), key, r),
    {
        match self.edit_mode {
            EditMode::Normal => {
                match key {
                    Key::Char(c) => {
                        if c == 'e' {
                            self.edit_mode = EditMode::Editing;
                            None
                        } else if c == 'q' {
                            Some(ModeReturns::Quit)
                        } else {
                            None
                        }
                    },
                    _ => None,
                }
            },
            EditMode::Editing => {
                match key {
                    Key::Enter => {
                        let chosen = self.input.clone();
                        Some(ModeReturns::GoToDetails(Some(chosen)))
                    },
                    Key::Esc => {
                        self.edit_mode = EditMode::Normal;
                        None
                    },
                    Key::Char(c) => {
                        push_char(&mut self.input, c);
                        None
                    },
                    Key::Backspace => {
                        pop_char(&mut self.input);
                        None
                    },
                    _ => None,
                }
            },
        }
    }
}

} // verus!
