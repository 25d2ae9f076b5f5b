//! The screen modes of the application and their transitions.
//!
//! Each screen owns its state; pressing a key either changes that state or
//! yields a [`ModeReturns`] transition, which the surrounding runtime loop
//! interprets: quitting, opening the text-input screen, or opening the
//! detail screen for a chosen file.

mod detail;
mod input;
mod menu;

pub use detail::DetailMode;
pub use detail::spec_detail_key;
pub use input::EditMode;
pub use input::InputMode;
pub use menu::MenuMode;
pub use menu::spec_execute_option;
pub use menu::spec_menu_key;

use vstd::prelude::*;

verus! {

/// What a mode hands back to the runtime loop: end the program, move to the
/// text-input screen (carrying the follow-up transition), or move to the
/// detail screen for the named file.
pub enum ModeReturns {
    Quit,
    GoToDetails(Option<String>),
    GoToInput(Box<ModeReturns>),
}

/// One key press, as the modes understand it. Keys the modes ignore arrive
/// as `Other`.
pub enum Key {
    Char(char),
    Enter,
    Esc,
    Backspace,
    Left,
    Right,
    Up,
    Down,
    Home,
    End,
    Other,
}

/// The active screen: a closed set of three variants, dispatched by `match`.
pub enum Mode {
    Menu(MenuMode),
    Input(InputMode),
    Detail(DetailMode),
}

impl Mode {
    /// Well-formedness of the active screen: navigation states keep their
    /// invariant, and the input screen carries the one continuation that is
    /// in scope.
    pub open spec fn wf(self) -> bool {
        match self {
            Mode::Menu(m) => m.tree.inv(),
            Mode::Input(m) => *m.next matches ModeReturns::GoToDetails(_),
            Mode::Detail(m) => m.tree.inv(),
        }
    }

    /// Dispatch one key press to the active screen.
    pub fn handle_key(&mut self, key: Key) -> (r: Option<ModeReturns>)
        requires
            old(self).wf(),
        ensures
            final(self).wf(),
            match *old(self) {
                Mode::Menu(m0) => *final(self) matches Mode::Menu(m1) && ({
                    let (t1, rr) = spec_menu_key(m0.tree@, key);
                    m1.tree@ == t1 && r == rr
                }),
                Mode::Detail(m0) => *final(self) matches Mode::Detail(m1) && ({
                    let (t1, rr) = spec_detail_key(m0.tree@, key);
                    m1.tree@ == t1 && r == rr && m1.filename == m0.filename
                }),
                Mode::Input(m0) => *final(self) matches Mode::Input(m1)
                    && input::input_key_post(m0, m1, key, r),
            },
    {
        match self {
            Mode::Menu(m) => m.handle_key(key),
            Mode::Input(m) => m.handle_key(key),
            Mode::Detail(m) => m.handle_key(key),
        }
    }
}

} // verus!
