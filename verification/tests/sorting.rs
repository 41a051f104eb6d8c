use dirtree::entry::{Entry, ReadError};
use dirtree::sort_entities;

fn dir(name: &str) -> Entry {
    Entry { name: name.to_string(), is_dir: true }
}

fn file(name: &str) -> Entry {
    Entry { name: name.to_string(), is_dir: false }
}

/// What reading `path` gives in a file system that holds one empty
/// directory and nothing else.
fn read(path: &str) -> Result<Vec<Option<Entry>>, ReadError> {
    match path {
        "/empty" => Ok(Vec::new()),
        _ => Err(ReadError::NotFound),
    }
}

#[test]
fn test_sort_entities() {
    let listing = vec![
        Some(file("file1.txt")),
        Some(dir("dir1")),
        Some(file("file2.log")),
        Some(dir("dir2")),
    ];

    let sorted_entries = sort_entities(Ok(listing)).unwrap();

    let expected = vec![dir("dir1"), dir("dir2"), file("file1.txt"), file("file2.log")];
    assert_eq!(sorted_entries, expected);
}

#[test]
fn test_sort_entities_empty_directory() {
    let sorted_entries = sort_entities(read("/empty")).unwrap();
    assert!(sorted_entries.is_empty());
}

#[test]
fn test_sort_entities_invalid_path() {
    let invalid_path = "/this/path/does/not/exist";
    let result = sort_entities(read(invalid_path));
    assert!(result.is_err());
}

#[test]
fn failed_read_is_handed_on_unchanged() {
    for error in [
        ReadError::NotFound,
        ReadError::PermissionDenied,
        ReadError::NotADirectory,
        ReadError::Other,
    ] {
        let listing: Result<Vec<Option<Entry>>, ReadError> = Err(error);
        assert_eq!(sort_entities(listing), Err(error));
    }
}

#[test]
fn unresolved_records_are_left_out() {
    let listing = vec![None, Some(file("a")), None, Some(dir("b")), None];
    assert_eq!(sort_entities(Ok(listing)), Ok(vec![dir("b"), file("a")]));
}

#[test]
fn only_unresolved_records_give_an_empty_result() {
    let listing: Vec<Option<Entry>> = vec![None, None];
    assert_eq!(sort_entities(Ok(listing)), Ok(vec![]));
}

#[test]
fn each_group_keeps_the_order_of_enumeration() {
    let listing = vec![
        Some(dir("z")),
        Some(file("y")),
        Some(dir("a")),
        Some(file("b")),
        Some(dir("m")),
    ];
    assert_eq!(
        sort_entities(Ok(listing)),
        Ok(vec![dir("z"), dir("a"), dir("m"), file("y"), file("b")])
    );
}

#[test]
fn every_entry_comes_out_exactly_once() {
    let names = ["c", "a", "c", "b", "a"];
    let listing: Vec<Option<Entry>> = names
        .iter()
        .enumerate()
        .map(|(i, name)| Some(if i % 2 == 0 { dir(name) } else { file(name) }))
        .collect();
    let sorted = sort_entities(Ok(listing.clone())).unwrap();
    assert_eq!(sorted.len(), names.len());
    for record in listing {
        let entry = record.unwrap();
        let before = names
            .iter()
            .enumerate()
            .filter(|(i, name)| **name == entry.name && (i % 2 == 0) == entry.is_dir)
            .count();
        let after = sorted.iter().filter(|e| **e == entry).count();
        assert_eq!(before, after);
    }
    let first_file = sorted.iter().position(|e| !e.is_dir).unwrap();
    assert!(sorted[first_file..].iter().all(|e| !e.is_dir));
    assert!(sorted[..first_file].iter().all(|e| e.is_dir));
}
