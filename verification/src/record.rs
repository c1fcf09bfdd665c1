//! The record kept for every discovered regular file.

use vstd::prelude::*;
use std::path::PathBuf;
use crate::hasher::HashError;
use crate::path::{clone_path, path_debug};

verus! {

/// What a [`FileIndex`] stands for in contracts.
pub struct FileIndexView {
    pub hash: Seq<char>,
    /// The path as it is shown.
    pub path: Seq<char>,
    pub size: Option<u64>,
}

/// One discovered regular file: where it is and the fingerprint of its content.
///
/// A record is made once and never changed. `size` is informational only and
/// plays no part in grouping.
#[derive(Debug)]
pub struct FileIndex {
    pub hash: String,
    pub path: PathBuf,
    pub size: Option<u64>,
}

impl View for FileIndex {
    type V = FileIndexView;

    open spec fn view(&self) -> FileIndexView {
        FileIndexView { hash: self.hash@, path: path_debug(self.path), size: self.size }
    }
}

impl Clone for FileIndex {
    fn clone(&self) -> (copy: Self)
        ensures
            copy == *self,
    {
        FileIndex { hash: self.hash.clone(), path: clone_path(&self.path), size: self.size }
    }
}

impl FileIndex {
    /// A record for the file at `path` whose content has the fingerprint `hash`.
    /// The size is left unknown.
    pub fn new(hash: String, path: PathBuf) -> (record: Self)
        ensures
            record.hash == hash,
            record.path == path,
            record.size is None,
    {
        FileIndex { hash, path, size: None }
    }
}

/// The views of a sequence of records, in the same order.
pub open spec fn views(records: Seq<FileIndex>) -> Seq<FileIndexView> {
    records.map_values(|r: FileIndex| r@)
}

/// A discovered file after the attempt to fingerprint it.
#[derive(Debug)]
pub struct Hashed {
    pub path: PathBuf,
    /// The fingerprint, or why there is none.
    pub outcome: Result<String, HashError>,
}

/// The record of a file that has its fingerprint.
pub open spec fn record_of(hashed: Hashed) -> FileIndexView {
    FileIndexView { hash: hashed.outcome->Ok_0@, path: path_debug(hashed.path), size: None }
}

/// The records of the files that have a fingerprint, in the order of their
/// discovery. A file without one is left out, and the others stay.
pub open spec fn records_of(files: Seq<Hashed>) -> Seq<FileIndexView> {
    files.filter(|hashed: Hashed| hashed.outcome is Ok).map_values(
        |hashed: Hashed| record_of(hashed),
    )
}

/// One more file adds its record if it has a fingerprint.
pub proof fn lemma_records_push(files: Seq<Hashed>, hashed: Hashed)
    ensures
        records_of(files.push(hashed)) == if hashed.outcome is Ok {
            records_of(files).push(record_of(hashed))
        } else {
            records_of(files)
        },
{
    reveal(Seq::filter);
    assert(files.push(hashed).drop_last() =~= files);
    if hashed.outcome is Ok {
        assert(records_of(files.push(hashed)) =~= records_of(files).push(record_of(hashed)));
    }
}

/// The records of the files that have a fingerprint, in the order of their
/// discovery. A file that could not be fingerprinted has no record, and
/// takes no other file's record away.
pub fn file_records(files: &Vec<Hashed>) -> (records: Vec<FileIndex>)
    ensures
        views(records@) == records_of(files@),
{
    let mut records: Vec<FileIndex> = Vec::new();
    let mut i: usize = 0;
    proof {
        reveal(Seq::filter);
        assert(views(records@) =~= records_of(files@.take(0)));
    }
    while i < files.len()
        invariant
            i <= files@.len(),
            views(records@) == records_of(files@.take(i as int)),
        decreases files@.len() - i,
    {
        let ghost so_far = views(records@);
        proof {
            lemma_records_push(files@.take(i as int), files@[i as int]);
            assert(files@.take(i + 1) =~= files@.take(i as int).push(files@[i as int]));
        }
        match &files[i].outcome {
            Ok(hash) => {
                let record = FileIndex::new(hash.clone(), clone_path(&files[i].path));
                records.push(record);
                assert(views(records@) =~= so_far.push(record@));
            },
            Err(_) => {},
        }
        i = i + 1;
    }
    assert(files@.take(i as int) =~= files@);
    records
}

} // verus!
