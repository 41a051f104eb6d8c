use dirtree::entry::ReadError;
use dirtree::exclude::ExclusionSet;
use dirtree::line::{child_prefix, entry_line};
use dirtree::style::{formatted_name, hidden, tone, Tone};
use dirtree::print_tree;
use dirtree::tree::Tree;

fn file(name: &str) -> Option<Tree> {
    Some(Tree::File { name: name.to_string() })
}

fn dir(name: &str, children: Vec<Option<Tree>>) -> Option<Tree> {
    Some(Tree::Directory { name: name.to_string(), listing: Ok(children) })
}

fn excluding(names: &[&str]) -> ExclusionSet {
    let mut set = ExclusionSet::new();
    for name in names {
        set.insert(name);
    }
    set
}

#[test]
fn a_name_is_hidden_if_it_starts_with_a_dot() {
    assert!(hidden(".git"));
    assert!(hidden("."));
    assert!(!hidden("git."));
    assert!(!hidden(""));
    assert!(!hidden("a.b"));
}

#[test]
fn hidden_wins_over_directory() {
    assert_eq!(tone(".git", true), Some(Tone::Muted));
    assert_eq!(tone(".env", false), Some(Tone::Muted));
    assert_eq!(tone("src", true), Some(Tone::Accent));
    assert_eq!(tone("main.rs", false), None);
}

#[test]
fn names_are_styled_by_kind() {
    assert_eq!(formatted_name("main.rs", false), "main.rs");
    assert_eq!(formatted_name("src", true), "\x1b[34msrc/\x1b[0m");
    assert_eq!(formatted_name(".git", true), "\x1b[90m.git/\x1b[0m");
    assert_eq!(formatted_name(".env", false), "\x1b[90m.env\x1b[0m");
}

#[test]
fn a_line_is_prefix_connector_blank_and_name() {
    assert_eq!(entry_line("", "b.txt", false, true), "└──  b.txt");
    assert_eq!(entry_line("", "b.txt", false, false), "├──  b.txt");
    assert_eq!(entry_line("│   ", "a", true, false), "│   ├──  \x1b[34ma/\x1b[0m");
    assert_eq!(entry_line("    ", ".x", false, true), "    └──  \x1b[90m.x\x1b[0m");
}

#[test]
fn the_prefix_grows_by_four_columns() {
    assert_eq!(child_prefix("", true), "    ");
    assert_eq!(child_prefix("", false), "│   ");
    assert_eq!(child_prefix("│   ", true), "│       ");
    assert_eq!(child_prefix("    ", false), "    │   ");
}

#[test]
fn the_standard_set_holds_the_usual_names() {
    let set = ExclusionSet::standard();
    for name in [
        "target",
        ".git",
        ".venv",
        "node_modules",
        "build",
        ".gradle",
        "__pycache__",
        ".cache",
        ".config",
        ".dart_tool",
        ".mypy_cache",
        ".firebase",
        ".idea",
    ] {
        assert!(set.contains(name), "{}", name);
    }
    assert!(!set.contains("src"));
    assert!(!set.contains("builder"));
    assert!(!set.contains("buil"));
    assert!(!set.contains(""));
}

#[test]
fn a_new_set_excludes_nothing_until_a_name_is_inserted() {
    let mut set = ExclusionSet::new();
    assert!(!set.contains("target"));
    set.insert("target");
    assert!(set.contains("target"));
    assert!(!set.contains("Target"));
}

#[test]
fn a_directory_and_a_file() {
    let root = vec![file("b.txt"), dir("a", vec![])];
    let lines = print_tree(Ok(root), "", &excluding(&[]));
    assert_eq!(lines, vec!["├──  \x1b[34ma/\x1b[0m", "└──  b.txt"]);
}

#[test]
fn an_excluded_directory_is_shown_without_its_contents() {
    let root = vec![dir("node_modules", vec![file("index.js")]), file("x.txt")];
    let lines = print_tree(Ok(root), "", &excluding(&["node_modules"]));
    assert_eq!(lines, vec!["├──  \x1b[34mnode_modules/\x1b[0m", "└──  x.txt"]);
}

#[test]
fn a_hidden_directory_is_muted_and_still_entered() {
    let root = vec![dir(".git", vec![file(".keep")])];
    let lines = print_tree(Ok(root), "", &excluding(&[]));
    assert_eq!(
        lines,
        vec!["└──  \x1b[90m.git/\x1b[0m", "    └──  \x1b[90m.keep\x1b[0m"]
    );
    let root = vec![dir(".git", vec![file("HEAD")]), file("z")];
    let lines = print_tree(Ok(root), "", &excluding(&[]));
    assert_eq!(
        lines,
        vec!["├──  \x1b[90m.git/\x1b[0m", "│   └──  HEAD", "└──  z"]
    );
}

#[test]
fn a_hidden_excluded_directory_is_still_muted() {
    let root = vec![dir(".git", vec![file("HEAD")])];
    let lines = print_tree(Ok(root), "", &excluding(&[".git"]));
    assert_eq!(lines, vec!["└──  \x1b[90m.git/\x1b[0m"]);
}

#[test]
fn exclusion_goes_by_the_bare_name_at_any_depth() {
    let root = vec![dir(
        "src",
        vec![dir("build", vec![file("out.o")]), dir("builder", vec![file("mod.rs")])],
    )];
    let lines = print_tree(Ok(root), "", &excluding(&["build"]));
    assert_eq!(
        lines,
        vec![
            "└──  \x1b[34msrc/\x1b[0m",
            "    ├──  \x1b[34mbuild/\x1b[0m",
            "    └──  \x1b[34mbuilder/\x1b[0m",
            "        └──  mod.rs",
        ]
    );
}

#[test]
fn one_line_for_each_entry_outside_excluded_directories() {
    let root = vec![
        file("a"),
        dir("d1", vec![file("b"), dir("d2", vec![file("c"), file("d")])]),
        dir("skip", vec![file("e"), file("f"), dir("g", vec![file("h")])]),
        None,
        dir("empty", vec![]),
    ];
    let lines = print_tree(Ok(root), "", &excluding(&["skip"]));
    assert_eq!(lines.len(), 8);
}

#[test]
fn the_prefix_is_put_before_every_line() {
    let root = vec![dir("d", vec![file("f")]), file("g")];
    let lines = print_tree(Ok(root), ">> ", &excluding(&[]));
    assert_eq!(
        lines,
        vec![">> ├──  \x1b[34md/\x1b[0m", ">> │   └──  f", ">> └──  g"]
    );
}

#[test]
fn an_unreadable_directory_has_no_lines() {
    let lines = print_tree(Err(ReadError::PermissionDenied), "", &excluding(&[]));
    assert!(lines.is_empty());
    let root = vec![
        Some(Tree::Directory { name: "locked".to_string(), listing: Err(ReadError::PermissionDenied) }),
        file("open"),
    ];
    let lines = print_tree(Ok(root), "", &excluding(&[]));
    assert_eq!(lines, vec!["├──  \x1b[34mlocked/\x1b[0m", "└──  open"]);
}

#[test]
fn an_empty_directory_has_no_lines() {
    let lines = print_tree(Ok(vec![]), "", &excluding(&[]));
    assert!(lines.is_empty());
}

#[test]
fn an_unresolved_record_has_no_line() {
    let root = vec![None, file("a"), None];
    let lines = print_tree(Ok(root), "", &excluding(&[]));
    assert_eq!(lines, vec!["└──  a"]);
}
