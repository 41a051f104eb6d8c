//! The text of one line of the tree and of the indentation below it.

use vstd::prelude::*;
use vstd::string::StringExecFns;
use crate::style::{formatted_name, styled_name};

verus! {

/// The glyph in front of an entry: a corner for the last of its siblings,
/// a tee for every other.
pub open spec fn connector(is_last: bool) -> Seq<char> {
    if is_last {
        "└── "@
    } else {
        "├── "@
    }
}

/// What the lines below a directory carry in the directory's own column:
/// blanks below the last of its siblings, a vertical bar below every other.
pub open spec fn continuation(is_last: bool) -> Seq<char> {
    if is_last {
        "    "@
    } else {
        "│   "@
    }
}

/// The line of an entry: the prefix of its level, its connector, a blank,
/// and its styled name.
pub open spec fn line_text(prefix: Seq<char>, name: Seq<char>, is_dir: bool, is_last: bool) -> Seq<
    char,
> {
    prefix + connector(is_last) + " "@ + styled_name(name, is_dir)
}

/// The prefix of the lines below a directory.
pub open spec fn child_prefix_text(prefix: Seq<char>, is_last: bool) -> Seq<char> {
    prefix + continuation(is_last)
}

/// The contents of an entry are shown if it is a directory whose name is
/// not excluded.
pub open spec fn descends(name: Seq<char>, is_dir: bool, exclude: Set<Seq<char>>) -> bool {
    is_dir && !exclude.contains(name)
}

/// Builds the line of an entry.
pub fn entry_line(prefix: &str, name: &str, is_dir: bool, is_last: bool) -> (line: String)
    ensures
        line@ == line_text(prefix@, name@, is_dir, is_last),
{
    let mut line = String::from_str(prefix);
    if is_last {
        line.append("└── ");
    } else {
        line.append("├── ");
    }
    line.append(" ");
    let shown = formatted_name(name, is_dir);
    line.append(shown.as_str());
    line
}

/// Builds the prefix of the lines below a directory.
pub fn child_prefix(prefix: &str, is_last: bool) -> (below: String)
    ensures
        below@ == child_prefix_text(prefix@, is_last),
{
    let mut below = String::from_str(prefix);
    if is_last {
        below.append("    ");
    } else {
        below.append("│   ");
    }
    below
}

/// The two connectors are the corner and the tee, and they differ.
pub proof fn lemma_connectors_differ()
    ensures
        connector(true) == "└── "@,
        connector(false) == "├── "@,
        connector(true) != connector(false),
        connector(true).len() == 4,
        connector(false).len() == 4,
{
    reveal_strlit("└── ");
    reveal_strlit("├── ");
    assert(connector(true)[0] == '└');
    assert(connector(false)[0] == '├');
}

} // verus!
