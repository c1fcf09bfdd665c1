use std::path::PathBuf;

use find_duplicates::hasher::HashError;
use find_duplicates::index::{DuplicateGroup, Index};
use find_duplicates::record::{file_records, Hashed};
use find_duplicates::FileIndex;

fn record(hash: &str, path: &str) -> FileIndex {
    FileIndex::new(hash.to_string(), PathBuf::from(path))
}

fn paths(group: &DuplicateGroup) -> Vec<String> {
    let mut found = Vec::new();
    let mut i = 0;
    while let Some(member) = group.member(i) {
        found.push(member.path.display().to_string());
        i += 1;
    }
    found
}

fn shape(index: &Index) -> Vec<(String, Vec<String>)> {
    let mut found = Vec::new();
    let mut i = 0;
    while let Some(group) = index.group(i) {
        found.push((group.fingerprint().clone(), paths(group)));
        i += 1;
    }
    found
}

fn pair(hash: &str, members: &[&str]) -> (String, Vec<String>) {
    (hash.to_string(), members.iter().map(|m| m.to_string()).collect())
}

#[test]
fn a_new_record_has_its_hash_and_path_and_no_size() {
    let made = record("abc", "dir/file.txt");
    assert_eq!(made.hash, "abc");
    assert_eq!(made.path, PathBuf::from("dir/file.txt"));
    assert_eq!(made.size, None);
}

#[test]
fn a_copy_of_a_record_is_the_same_record() {
    let made = FileIndex { hash: "abc".to_string(), path: PathBuf::from("p"), size: Some(5) };
    let copy = made.clone();
    assert_eq!(copy.hash, "abc");
    assert_eq!(copy.path, PathBuf::from("p"));
    assert_eq!(copy.size, Some(5));
}

#[test]
fn an_empty_index_has_no_groups() {
    let index = Index::new();
    assert_eq!(index.len(), 0);
    assert!(index.group(0).is_none());
    assert!(index.duplicates().is_empty());
    assert_eq!(index.find(&"h".to_string()), None);
}

#[test]
fn records_are_filed_under_their_fingerprints() {
    let records = vec![
        record("h1", "a"),
        record("h2", "b"),
        record("h1", "c"),
        record("h3", "d"),
        record("h2", "e"),
        record("h1", "f"),
    ];
    let index = Index::build(&records);
    assert_eq!(
        shape(&index),
        vec![pair("h1", &["a", "c", "f"]), pair("h2", &["b", "e"]), pair("h3", &["d"])]
    );
    assert_eq!(index.len(), 3);
    assert_eq!(index.find(&"h2".to_string()), Some(1));
    assert_eq!(index.find(&"h4".to_string()), None);
}

#[test]
fn insert_appends_to_the_group_or_opens_one() {
    let mut index = Index::new();
    index.insert(record("h1", "a"));
    assert_eq!(shape(&index), vec![pair("h1", &["a"])]);
    index.insert(record("h2", "b"));
    assert_eq!(shape(&index), vec![pair("h1", &["a"]), pair("h2", &["b"])]);
    index.insert(record("h1", "c"));
    assert_eq!(shape(&index), vec![pair("h1", &["a", "c"]), pair("h2", &["b"])]);
}

#[test]
fn building_is_inserting_one_by_one() {
    let records = vec![record("x", "1"), record("y", "2"), record("x", "3")];
    let built = Index::build(&records);
    let mut folded = Index::new();
    for r in records.iter() {
        folded.insert(r.clone());
    }
    assert_eq!(shape(&built), shape(&folded));
}

#[test]
fn only_groups_of_two_or_more_are_surfaced() {
    let records = vec![
        record("h1", "a"),
        record("h2", "b"),
        record("h1", "c"),
        record("h3", "d"),
        record("h4", "e"),
        record("h4", "f"),
        record("h4", "g"),
    ];
    let index = Index::build(&records);
    let shown = index.duplicates();
    assert_eq!(shown.len(), 2);
    assert_eq!(shown[0].fingerprint(), "h1");
    assert_eq!(paths(&shown[0]), vec!["a", "c"]);
    assert_eq!(shown[1].fingerprint(), "h4");
    assert_eq!(paths(&shown[1]), vec!["e", "f", "g"]);
    assert!(shown.iter().all(|g| g.is_surfaced() && g.len() > 1));
}

#[test]
fn a_group_of_one_is_never_surfaced() {
    let index = Index::build(&vec![record("h1", "a"), record("h2", "b")]);
    assert!(index.duplicates().is_empty());
    assert!(!index.group(0).unwrap().is_surfaced());
}

#[test]
fn the_members_of_a_group_do_not_depend_on_the_order_of_arrival() {
    let forward = vec![record("h1", "a"), record("h2", "b"), record("h1", "c"), record("h2", "d")];
    let backward = vec![record("h2", "d"), record("h1", "c"), record("h2", "b"), record("h1", "a")];
    let first = Index::build(&forward);
    let second = Index::build(&backward);
    let mut one = shape(&first);
    let mut two = shape(&second);
    for group in one.iter_mut().chain(two.iter_mut()) {
        group.1.sort();
    }
    one.sort();
    two.sort();
    assert_eq!(one, two);
    assert_eq!(shape(&first)[0], pair("h1", &["a", "c"]));
    assert_eq!(shape(&second)[0], pair("h2", &["d", "b"]));
}

#[test]
fn a_member_is_struck_and_the_others_stay() {
    let records = vec![record("h1", "a"), record("h2", "b"), record("h1", "c"), record("h1", "d")];
    let mut index = Index::build(&records);
    let struck = index.remove_member(0, 1).unwrap();
    assert_eq!(struck.path, PathBuf::from("c"));
    assert_eq!(struck.hash, "h1");
    assert_eq!(shape(&index), vec![pair("h1", &["a", "d"]), pair("h2", &["b"])]);
}

#[test]
fn striking_what_is_not_there_changes_nothing() {
    let records = vec![record("h1", "a"), record("h2", "b"), record("h1", "c")];
    let mut index = Index::build(&records);
    assert!(index.remove_member(0, 2).is_none());
    assert!(index.remove_member(2, 0).is_none());
    assert!(index.remove_member(1, 1).is_none());
    assert_eq!(shape(&index), vec![pair("h1", &["a", "c"]), pair("h2", &["b"])]);
}

#[test]
fn a_group_keeps_its_place_when_its_last_member_is_struck() {
    let mut index = Index::build(&vec![record("h1", "a"), record("h2", "b")]);
    assert_eq!(index.remove_member(0, 0).unwrap().path, PathBuf::from("a"));
    assert_eq!(shape(&index), vec![pair("h1", &[]), pair("h2", &["b"])]);
    index.insert(record("h1", "again"));
    assert_eq!(shape(&index), vec![pair("h1", &["again"]), pair("h2", &["b"])]);
}

#[test]
fn a_group_of_one_holds_its_first_record() {
    let group = DuplicateGroup::new(record("h9", "only"));
    assert_eq!(group.fingerprint(), "h9");
    assert_eq!(group.len(), 1);
    assert_eq!(group.member(0).unwrap().path, PathBuf::from("only"));
    assert!(group.member(1).is_none());
    assert!(!group.is_surfaced());
}

#[test]
fn files_without_fingerprint_have_no_record() {
    let files = vec![
        Hashed { path: PathBuf::from("a.txt"), outcome: Ok("h1".to_string()) },
        Hashed {
            path: PathBuf::from("b.txt"),
            outcome: Err(HashError::Unreadable("vanished".to_string())),
        },
        Hashed { path: PathBuf::from("c.txt"), outcome: Ok("h1".to_string()) },
        Hashed { path: PathBuf::from("d.txt"), outcome: Err(HashError::TooLong) },
    ];
    let records = file_records(&files);
    assert_eq!(records.len(), 2);
    assert_eq!(records[0].path, PathBuf::from("a.txt"));
    assert_eq!(records[0].hash, "h1");
    assert_eq!(records[0].size, None);
    assert_eq!(records[1].path, PathBuf::from("c.txt"));
    let index = Index::build(&records);
    assert_eq!(shape(&index), vec![pair("h1", &["a.txt", "c.txt"])]);
}
