//! A terminal viewer library: it turns a bracket-delimited textual dump into a
//! collapsible tree of labeled nodes and tracks which nodes are expanded and
//! which is selected, together with the screen modes (menu, text input, detail
//! view) that drive the application.
//!
//! Rendering, terminal setup and the source-document parser are external
//! collaborators; the logic here is pure and fully verified.

pub mod mode;
pub mod parsing;
mod text;
pub mod tree;
