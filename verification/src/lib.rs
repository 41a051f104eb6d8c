//! Shows the contents of a directory as a tree of lines, the way `tree`
//! does: directories before files, a connector in front of every entry,
//! hidden entries muted, and nothing below the directories whose names
//! are excluded.
//!
//! The library reads nothing and prints nothing. It is handed what a read
//! of a directory gave and hands back the lines to print:
//!
//! - [`entry`] orders the entries of one directory;
//! - [`style`] and [`line`] build the text of one line;
//! - [`exclude`] holds the names that are not descended into;
//! - [`tree`] shows a tree that is held in memory;
//! - [`walk`] shows a tree while the caller reads it, one step at a time;
//! - [`replay`] proves that the two show the same lines.

pub mod entry;
pub mod exclude;
pub mod line;
pub mod replay;
pub mod style;
pub mod tree;
pub mod walk;

pub use entry::sort_entities;
pub use tree::print_tree;
