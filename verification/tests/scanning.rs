use std::path::PathBuf;

use find_duplicates::scanner::{
    get_directories_entries, inaccessible_entries, scan_roots, EntryKind, Walked,
};

fn entry(path: &str, kind: EntryKind) -> Walked {
    Walked::Entry { path: PathBuf::from(path), kind }
}

fn paths(names: &[&str]) -> Vec<PathBuf> {
    names.iter().map(PathBuf::from).collect()
}

fn sample_walk() -> Vec<Walked> {
    vec![
        entry("root", EntryKind::Directory),
        entry("root/a.txt", EntryKind::File),
        entry("root/sub", EntryKind::Directory),
        Walked::Inaccessible("root/locked: permission denied".to_string()),
        entry("root/sub/b.txt", EntryKind::File),
        entry("root/sub/link", EntryKind::Symlink),
        entry("root/sub/pipe", EntryKind::Other),
        entry("root/sub/deep/deeper/c.bin", EntryKind::File),
        Walked::Inaccessible("root/gone: no such file".to_string()),
    ]
}

#[test]
fn only_regular_files_are_discovered() {
    assert_eq!(
        get_directories_entries(&sample_walk()),
        paths(&["root/a.txt", "root/sub/b.txt", "root/sub/deep/deeper/c.bin"])
    );
}

#[test]
fn an_empty_walk_discovers_nothing() {
    assert!(get_directories_entries(&Vec::new()).is_empty());
    assert!(inaccessible_entries(&Vec::new()).is_empty());
}

#[test]
fn a_walk_without_files_discovers_nothing() {
    let walk = vec![
        entry("root", EntryKind::Directory),
        entry("root/link", EntryKind::Symlink),
        Walked::Inaccessible("root/x: permission denied".to_string()),
    ];
    assert!(get_directories_entries(&walk).is_empty());
}

#[test]
fn an_inaccessible_entry_does_not_stop_the_walk() {
    let walk = vec![
        Walked::Inaccessible("first: permission denied".to_string()),
        entry("after.txt", EntryKind::File),
    ];
    assert_eq!(get_directories_entries(&walk), paths(&["after.txt"]));
}

#[test]
fn files_are_not_filtered_by_their_names() {
    let walk = vec![
        entry("r/.hidden", EntryKind::File),
        entry("r/no_extension", EntryKind::File),
        entry("r/archive.tar.gz", EntryKind::File),
    ];
    assert_eq!(
        get_directories_entries(&walk),
        paths(&["r/.hidden", "r/no_extension", "r/archive.tar.gz"])
    );
}

#[test]
fn the_reasons_of_inaccessible_entries_are_kept_in_order() {
    assert_eq!(
        inaccessible_entries(&sample_walk()),
        vec!["root/locked: permission denied", "root/gone: no such file"]
    );
}

#[test]
fn roots_are_scanned_one_after_the_other() {
    let walks = vec![
        vec![entry("one", EntryKind::Directory), entry("one/a.txt", EntryKind::File)],
        Vec::new(),
        vec![entry("two/b.txt", EntryKind::File), entry("two/c.txt", EntryKind::File)],
    ];
    assert_eq!(scan_roots(&walks), paths(&["one/a.txt", "two/b.txt", "two/c.txt"]));
}

#[test]
fn overlapping_roots_discover_a_file_twice() {
    let walks = vec![
        vec![entry("top/a.txt", EntryKind::File), entry("top/sub/b.txt", EntryKind::File)],
        vec![entry("top/sub/b.txt", EntryKind::File)],
    ];
    assert_eq!(scan_roots(&walks), paths(&["top/a.txt", "top/sub/b.txt", "top/sub/b.txt"]));
}

#[test]
fn no_roots_discover_nothing() {
    assert!(scan_roots(&Vec::new()).is_empty());
}

#[test]
fn a_path_is_handed_on_as_it_was_met() {
    let walk = vec![entry("some dir/odd \"name\"\n.txt", EntryKind::File)];
    assert_eq!(get_directories_entries(&walk), paths(&["some dir/odd \"name\"\n.txt"]));
}
