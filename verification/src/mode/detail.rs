//! The detail screen: the parsed document as a collapsible tree.

use vstd::prelude::*;

use crate::parsing::format_strings;
use crate::parsing::group_lines;
use crate::parsing::lines_views;
use crate::parsing::spec_format;
use crate::parsing::spec_group;
use crate::parsing::spec_split;
use crate::parsing::split_strings;
use crate::tree::Node;
use crate::tree::StatefulTree;
use crate::tree::TreeView;
use crate::tree::lemma_views_of;
use crate::tree::spec_down;
use crate::tree::spec_first;
use crate::tree::spec_last;
use crate::tree::spec_left;
use crate::tree::spec_right;
use crate::tree::spec_toggle;
use crate::tree::spec_up;

use super::Key;
use super::ModeReturns;

verus! {

/// The detail screen: the name of the viewed file and the navigation state
/// over its parsed content.
pub struct DetailMode {
    pub filename: String,
    pub tree: StatefulTree,
}

/// The tree the detail screen shows for a document rendering: the rendering
/// formatted, split into lines, and grouped into one root node.
pub open spec fn spec_built_root(content: Seq<char>) -> crate::tree::NodeView {
    spec_group(None, spec_split(spec_format(content)), 0).0
}

/// How one key press acts on the detail screen: `q` quits, `Enter` and the
/// space key toggle the selected node, and the movement keys drive the
/// navigation state.
pub open spec fn spec_detail_key(t: TreeView, key: Key) -> (TreeView, Option<ModeReturns>) {
    match key {
        Key::Char(c) => if c == 'q' {
            (t, Some(ModeReturns::Quit))
        } else if c == '\n' || c == ' ' {
            (spec_toggle(t), None)
        } else {
            (t, None)
        },
        Key::Enter => (spec_toggle(t), None),
        Key::Left => (spec_left(t), None),
        Key::Right => (spec_right(t), None),
        Key::Down => (spec_down(t), None),
        Key::Up => (spec_up(t), None),
        Key::Home => (spec_first(t), None),
        Key::End => (spec_last(t), None),
        _ => (t, None),
    }
}

impl DetailMode {
    /// A fresh detail screen for the named file, whose document rendering is
    /// handed in as `content`: the rendering is formatted, split and grouped
    /// into the displayed tree, with its root selected.
    pub fn new(filename: &String, content: String) -> (r: DetailMode)
        ensures
            r.filename@ == filename@,
            r.tree.inv(),
            r.tree@.items =~= seq![spec_built_root(content@)],
            r.tree@.expanded =~= Set::<Seq<usize>>::empty(),
            r.tree@.selected =~= seq![0usize],
    {
        let ghost content0 = content@;
        let formatted = format_strings(content);
        let lines = split_strings(formatted);
        proof {
            assert(lines@.map_values(|t: String| t@) =~= lines_views(lines@));
            assert(lines_views(lines@) == spec_split(spec_format(content0)));
        }
        let mut pos: usize = 0;
        let root = group_lines(None, &lines, &mut pos);
        let mut items: Vec<Node> = Vec::new();
        items.push(root);
        proof {
            lemma_views_of(items@);
        }
        let tree = StatefulTree::with_items(items);
        proof {
            assert(tree@.items =~= seq![spec_built_root(content0)]);
        }
        DetailMode { filename: filename.clone(), tree }
    }

    /// Apply one key press to the detail screen.
    pub fn handle_key(&mut self, key: Key) -> (r: Option<ModeReturns>)
        requires
            old(self).tree.inv(),
        ensures
            final(self).tree.inv(),
            final(self).filename == old(self).filename,
            ({
                let (t1, rr) = spec_detail_key(old(self).tree@, key);
                final(self).tree@ == t1 && r == rr
            }),
    {
        match key {
            Key::Char(c) => {
                if c == 'q' {
                    Some(ModeReturns::Quit)
                } else if c == '\n' || c == ' ' {
                    self.tree.toggle();
                    None
                } else {
                    None
                }
            },
            Key::Enter => {
                self.tree.toggle();
                None
            },
            Key::Left => {
                self.tree.left();
                None
            },
            Key::Right => {
                self.tree.right();
                None
            },
            Key::Down => {
                self.tree.down();
                None
            },
            Key::Up => {
                self.tree.up();
                None
            },
            Key::Home => {
                self.tree.first();
                None
            },
            Key::End => {
                self.tree.last();
                None
            },
            _ => None,
        }
    }
}

} // verus!
