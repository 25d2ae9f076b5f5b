//! The main menu: a two-entry navigation state and the transitions its
//! entries stand for.

use vstd::prelude::*;

use crate::tree::Node;
use crate::tree::StatefulTree;
use crate::tree::TreeView;
use crate::tree::lemma_views_of;
use crate::tree::spec_down;
use crate::tree::spec_first;
use crate::tree::spec_last;
use crate::tree::spec_left;
use crate::tree::spec_right;
use crate::tree::spec_up;

use super::Key;
use super::ModeReturns;

verus! {

/// The main menu screen: a navigation state over the fixed entries
/// `Open File` and `Exit`.
pub struct MenuMode {
    pub tree: StatefulTree,
}

/// What choosing a menu entry yields: the first entry leads to the text
/// input screen (to go on to the detail screen), every other entry exits;
/// with nothing selected, nothing happens.
pub open spec fn spec_execute_option(sel: Seq<usize>) -> Option<ModeReturns> {
    if sel.len() == 0 {
        None
    } else if sel[0] == 0 {
        Some(ModeReturns::GoToInput(Box::new(ModeReturns::GoToDetails(None))))
    } else {
        Some(ModeReturns::Quit)
    }
}

/// How one key press acts on the menu: `q` quits, `Enter` chooses the
/// selected entry, and the movement keys drive the navigation state.
pub open spec fn spec_menu_key(t: TreeView, key: Key) -> (TreeView, Option<ModeReturns>) {
    match key {
        Key::Char(c) => if c == 'q' {
            (t, Some(ModeReturns::Quit))
        } else {
            (t, None)
        },
        Key::Enter => (t, spec_execute_option(t.selected)),
        Key::Left => (spec_left(t), None),
        Key::Right => (spec_right(t), None),
        Key::Down => (spec_down(t), None),
        Key::Up => (spec_up(t), None),
        Key::Home => (spec_first(t), None),
        Key::End => (spec_last(t), None),
        _ => (t, None),
    }
}

/// From the menu, choosing any entry other than the first — in the fixed
/// two-entry menu, the `Exit` entry — always yields the quit transition and
/// leaves the state alone, whatever navigation happened before.
pub proof fn lemma_menu_exit_quits(t: TreeView)
    requires
        t.selected.len() > 0,
        t.selected[0] != 0,
    ensures
        spec_menu_key(t, Key::Enter).1 == Some(ModeReturns::Quit),
        spec_menu_key(t, Key::Enter).0 == t,
{
}

impl MenuMode {
    /// A fresh menu: the two entries as leaves, the first one selected.
    pub fn new() -> (r: MenuMode)
        ensures
            r.tree.inv(),
            r.tree@.items.len() == 2,
            r.tree@.items[0].label == "Open File"@,
            r.tree@.items[0].leaf,
            r.tree@.items[0].children.len() == 0,
            r.tree@.items[1].label == "Exit"@,
            r.tree@.items[1].leaf,
            r.tree@.items[1].children.len() == 0,
            r.tree@.expanded =~= Set::<Seq<usize>>::empty(),
            r.tree@.selected =~= seq![0usize],
    {
        let mut items: Vec<Node> = Vec::new();
        let n0 = Node::new_leaf("Open File".to_owned());
        let n1 = Node::new_leaf("Exit".to_owned());
        let ghost v0 = n0@;
        let ghost v1 = n1@;
        items.push(n0);
        items.push(n1);
        proof {
            lemma_views_of(items@);
            assert(items@[0]@ == v0);
            assert(items@[1]@ == v1);
        }
        let tree = StatefulTree::with_items(items);
        MenuMode { tree }
    }

    /// The transition the selected entry stands for.
    pub fn execute_option(&self) -> (r: Option<ModeReturns>)
        ensures
            r == spec_execute_option(self.tree@.selected),
    {
        if self.tree.selected.len() == 0 {
            None
        } else {
            let first = self.tree.selected[0];
            if first == 0 {
                Some(ModeReturns::GoToInput(Box::new(ModeReturns::GoToDetails(None))))
            } else {
                Some(ModeReturns::Quit)
            }
        }
    }

    /// Apply one key press to the menu.
    pub fn handle_key(&mut self, key: Key) -> (r: Option<ModeReturns>)
        requires
            old(self).tree.inv(),
        ensures
            final(self).tree.inv(),
            ({
                let (t1, rr) = spec_menu_key(old(self).tree@, key);
                final(self).tree@ == t1 && r == rr
            }),
    {
        match key {
            Key::Char(c) => {
                if c == 'q' {
                    Some(ModeReturns::Quit)
                } else {
                    None
                }
            },
            Key::Enter => self.execute_option(),
            Key::Left => {
                self.tree.left();
                None
            },
            Key::Right => {
                self.tree.right();
                None
            },
            Key::Down => {
                self.tree.down();
                None
            },
            Key::Up => {
                self.tree.up();
                None
            },
            Key::Home => {
                self.tree.first();
                None
            },
            Key::End => {
                self.tree.last();
                None
            },
            _ => None,
        }
    }
}

} // verus!
