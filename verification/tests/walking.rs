use dirtree::entry::{Entry, ReadError};
use dirtree::exclude::ExclusionSet;
use dirtree::tree::{print_tree, Listing, Tree};
use dirtree::walk::{Step, TreeWalk};

fn file(name: &str) -> Option<Tree> {
    Some(Tree::File { name: name.to_string() })
}

fn dir(name: &str, children: Vec<Option<Tree>>) -> Option<Tree> {
    Some(Tree::Directory { name: name.to_string(), listing: Ok(children) })
}

fn locked(name: &str) -> Option<Tree> {
    Some(Tree::Directory { name: name.to_string(), listing: Err(ReadError::PermissionDenied) })
}

fn excluding(names: &[&str]) -> ExclusionSet {
    let mut set = ExclusionSet::new();
    for name in names {
        set.insert(name);
    }
    set
}

/// What a read of a directory with this listing gives.
fn read(listing: &Listing) -> Result<Vec<Option<Entry>>, ReadError> {
    match listing {
        Err(error) => Err(*error),
        Ok(records) => Ok(records
            .iter()
            .map(|record| match record {
                None => None,
                Some(Tree::File { name }) => Some(Entry { name: name.clone(), is_dir: false }),
                Some(Tree::Directory { name, .. }) => {
                    Some(Entry { name: name.clone(), is_dir: true })
                }
            })
            .collect()),
    }
}

/// What a read of the directory at `path` below `root` gives.
fn read_at(root: &Listing, path: &[String]) -> Result<Vec<Option<Entry>>, ReadError> {
    let mut here = root;
    for name in path {
        let records = match here {
            Ok(records) => records,
            Err(_) => return Err(ReadError::NotFound),
        };
        let found = records.iter().find_map(|record| match record {
            Some(Tree::Directory { name: n, listing }) if n == name => Some(listing),
            _ => None,
        });
        here = match found {
            Some(listing) => listing,
            None => return Err(ReadError::NotFound),
        };
    }
    read(here)
}

/// Runs a walk over `root` and collects what it prints and what it opens.
fn walk(root: &Listing, prefix: &str, exclude: &ExclusionSet) -> (Vec<String>, Vec<Vec<String>>) {
    let mut lines = Vec::new();
    let mut opened = Vec::new();
    let mut walk = TreeWalk::new(prefix);
    assert!(walk.awaits_listing());
    walk.enter(read(root));
    loop {
        assert!(!walk.awaits_listing());
        match walk.advance(exclude) {
            Step::Done => break,
            Step::Line { text } => lines.push(text),
            Step::Open { text, path } => {
                lines.push(text);
                assert!(walk.awaits_listing());
                walk.enter(read_at(root, &path));
                opened.push(path);
            }
        }
    }
    assert_eq!(walk.advance(exclude), Step::Done);
    (lines, opened)
}

fn sample() -> Listing {
    Ok(vec![
        file("a"),
        dir("d1", vec![file("b"), dir("d2", vec![file("c"), file(".d")]), file("e")]),
        None,
        dir("skip", vec![file("f"), dir("g", vec![file("h")])]),
        locked("locked"),
        dir(".hidden", vec![file("i")]),
        dir("empty", vec![]),
        file("z"),
    ])
}

#[test]
fn a_walk_prints_a_directory_and_a_file() {
    let root: Listing = Ok(vec![file("b.txt"), dir("a", vec![])]);
    let (lines, opened) = walk(&root, "", &excluding(&[]));
    assert_eq!(lines, vec!["├──  \x1b[34ma/\x1b[0m", "└──  b.txt"]);
    assert_eq!(opened, vec![vec!["a".to_string()]]);
}

#[test]
fn a_walk_does_not_open_an_excluded_directory() {
    let root: Listing = Ok(vec![dir("node_modules", vec![file("index.js")]), file("x.txt")]);
    let (lines, opened) = walk(&root, "", &excluding(&["node_modules"]));
    assert_eq!(lines, vec!["├──  \x1b[34mnode_modules/\x1b[0m", "└──  x.txt"]);
    assert!(opened.is_empty());
}

#[test]
fn a_walk_opens_a_hidden_directory_that_is_not_excluded() {
    let root: Listing = Ok(vec![dir(".git", vec![file(".keep")])]);
    let (lines, opened) = walk(&root, "", &excluding(&[]));
    assert_eq!(
        lines,
        vec!["└──  \x1b[90m.git/\x1b[0m", "    └──  \x1b[90m.keep\x1b[0m"]
    );
    assert_eq!(opened, vec![vec![".git".to_string()]]);
}

#[test]
fn a_walk_prints_what_the_tree_in_memory_prints() {
    let root = sample();
    for names in [&[][..], &["skip"][..], &["d1", ".hidden"][..], &["d2", "empty", "z"][..]] {
        let exclude = excluding(names);
        for prefix in ["", "│   "] {
            let (lines, _) = walk(&root, prefix, &exclude);
            assert_eq!(lines, print_tree(sample(), prefix, &exclude));
        }
    }
}

#[test]
fn a_walk_opens_directories_by_the_names_that_lead_to_them() {
    let (lines, opened) = walk(&sample(), "", &excluding(&["skip"]));
    assert_eq!(lines.len(), 13);
    let expected: Vec<Vec<String>> = [
        &["d1"][..],
        &["d1", "d2"][..],
        &["locked"][..],
        &[".hidden"][..],
        &["empty"][..],
    ]
    .iter()
    .map(|path| path.iter().map(|name| name.to_string()).collect())
    .collect();
    assert_eq!(opened, expected);
}

#[test]
fn a_walk_over_an_unreadable_root_is_done_at_once() {
    let mut walk = TreeWalk::new("");
    walk.enter(Err(ReadError::NotFound));
    assert_eq!(walk.advance(&excluding(&[])), Step::Done);
}

#[test]
fn a_walk_that_gets_no_listing_is_done_at_once() {
    let mut walk = TreeWalk::new("");
    assert_eq!(walk.advance(&excluding(&[])), Step::Done);
    assert!(!walk.awaits_listing());
}

#[test]
fn a_directory_that_gets_no_listing_is_passed_over() {
    let exclude = excluding(&[]);
    let mut walk = TreeWalk::new("");
    walk.enter(read(&Ok(vec![dir("d", vec![file("inside")]), file("f")])));
    assert_eq!(
        walk.advance(&exclude),
        Step::Open { text: "├──  \x1b[34md/\x1b[0m".to_string(), path: vec!["d".to_string()] }
    );
    assert!(walk.awaits_listing());
    assert_eq!(walk.advance(&exclude), Step::Line { text: "└──  f".to_string() });
    assert!(!walk.awaits_listing());
    assert_eq!(walk.advance(&exclude), Step::Done);
}

#[test]
fn a_listing_that_was_not_asked_for_changes_nothing() {
    let exclude = excluding(&[]);
    let mut walk = TreeWalk::new("");
    walk.enter(read(&Ok(vec![file("a"), file("b")])));
    walk.enter(read(&Ok(vec![file("c")])));
    assert_eq!(walk.advance(&exclude), Step::Line { text: "├──  a".to_string() });
    walk.enter(read(&Ok(vec![file("d")])));
    assert_eq!(walk.advance(&exclude), Step::Line { text: "└──  b".to_string() });
    assert_eq!(walk.advance(&exclude), Step::Done);
}

#[test]
fn the_lines_below_a_directory_continue_its_column() {
    let root: Listing = Ok(vec![
        dir("first", vec![dir("inner", vec![file("x")]), file("y")]),
        dir("last", vec![file("w")]),
    ]);
    let (lines, _) = walk(&root, "", &excluding(&[]));
    assert_eq!(
        lines,
        vec![
            "├──  \x1b[34mfirst/\x1b[0m",
            "│   ├──  \x1b[34minner/\x1b[0m",
            "│   │   └──  x",
            "│   └──  y",
            "└──  \x1b[34mlast/\x1b[0m",
            "    └──  w",
        ]
    );
}
