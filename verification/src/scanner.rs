//! The directory scanner's rule: which of the entries that a recursive walk
//! meets count as discovered files.

use vstd::prelude::*;
use std::path::PathBuf;
use crate::path::clone_path;

verus! {

/// What kind of thing a directory entry is. A symbolic link is a link,
/// whatever it points to.
#[derive(Clone, Copy, Debug, PartialEq, Eq, Structural)]
pub enum EntryKind {
    File,
    Directory,
    Symlink,
    Other,
}

/// One step of a recursive walk below a root directory.
#[derive(Debug)]
pub enum Walked {
    /// The walk met an entry.
    Entry { path: PathBuf, kind: EntryKind },
    /// The walk could not get at an entry; the text says why.
    Inaccessible(String),
}

/// Whether a step of a walk discovers a file: it does when it meets an entry
/// that is a regular file.
pub open spec fn discovers(step: Walked) -> bool {
    step matches Walked::Entry { kind, .. } && kind == EntryKind::File
}

/// The paths of the regular files that a walk meets, in the order of the
/// walk. The order is that of the walk handed in; where the walk follows the
/// order of the directory entries, it may differ from run to run.
pub open spec fn regular_files(walk: Seq<Walked>) -> Seq<PathBuf> {
    walk.filter(|step: Walked| discovers(step)).map_values(|step: Walked| step->path)
}

/// The reasons for which a walk could not get at an entry, in the order of
/// the walk.
pub open spec fn failures(walk: Seq<Walked>) -> Seq<Seq<char>> {
    walk.filter(|step: Walked| step is Inaccessible).map_values(
        |step: Walked| step->Inaccessible_0@,
    )
}

/// What a sequence of strings stands for in contracts.
pub open spec fn texts(lines: Seq<String>) -> Seq<Seq<char>> {
    lines.map_values(|line: String| line@)
}

/// One more step adds its path to the discovered files if it discovers one.
proof fn lemma_regular_files_push(walk: Seq<Walked>, step: Walked)
    ensures
        regular_files(walk.push(step)) == if discovers(step) {
            regular_files(walk).push(step->path)
        } else {
            regular_files(walk)
        },
{
    reveal(Seq::filter);
    assert(walk.push(step).drop_last() =~= walk);
    if discovers(step) {
        assert(regular_files(walk.push(step)) =~= regular_files(walk).push(step->path));
    }
}

/// One more step adds its reason to the failures if it is one.
proof fn lemma_failures_push(walk: Seq<Walked>, step: Walked)
    ensures
        failures(walk.push(step)) == if step is Inaccessible {
            failures(walk).push(step->Inaccessible_0@)
        } else {
            failures(walk)
        },
{
    reveal(Seq::filter);
    assert(walk.push(step).drop_last() =~= walk);
    if step is Inaccessible {
        assert(failures(walk.push(step)) =~= failures(walk).push(step->Inaccessible_0@));
    }
}

/// The files that a walk below one root discovers: the paths of the entries
/// that are regular files, in the order of the walk. Directories, links and
/// special files are left out, and an entry that the walk could not get at is
/// passed over.
pub fn get_directories_entries(walk: &Vec<Walked>) -> (files: Vec<PathBuf>)
    ensures
        files@ == regular_files(walk@),
{
    let mut files: Vec<PathBuf> = Vec::new();
    let mut i: usize = 0;
    proof {
        reveal(Seq::filter);
        assert(files@ =~= regular_files(walk@.take(0)));
    }
    while i < walk.len()
        invariant
            i <= walk@.len(),
            files@ == regular_files(walk@.take(i as int)),
        decreases walk@.len() - i,
    {
        proof {
            lemma_regular_files_push(walk@.take(i as int), walk@[i as int]);
            assert(walk@.take(i + 1) =~= walk@.take(i as int).push(walk@[i as int]));
        }
        match &walk[i] {
            Walked::Entry { path, kind } => {
                if *kind == EntryKind::File {
                    files.push(clone_path(path));
                }
            },
            Walked::Inaccessible(_) => {},
        }
        i = i + 1;
    }
    assert(walk@.take(i as int) =~= walk@);
    files
}

/// Why a walk below one root could not get at some entries: the reasons, in
/// the order of the walk. They are for the operator to see; the walk itself
/// goes on.
pub fn inaccessible_entries(walk: &Vec<Walked>) -> (reasons: Vec<String>)
    ensures
        texts(reasons@) == failures(walk@),
{
    let mut reasons: Vec<String> = Vec::new();
    let mut i: usize = 0;
    proof {
        reveal(Seq::filter);
        assert(texts(reasons@) =~= failures(walk@.take(0)));
    }
    while i < walk.len()
        invariant
            i <= walk@.len(),
            texts(reasons@) == failures(walk@.take(i as int)),
        decreases walk@.len() - i,
    {
        let ghost so_far = texts(reasons@);
        proof {
            lemma_failures_push(walk@.take(i as int), walk@[i as int]);
            assert(walk@.take(i + 1) =~= walk@.take(i as int).push(walk@[i as int]));
        }
        match &walk[i] {
            Walked::Entry { .. } => {},
            Walked::Inaccessible(reason) => {
                reasons.push(reason.clone());
                assert(texts(reasons@) =~= so_far.push(reason@));
            },
        }
        i = i + 1;
    }
    assert(walk@.take(i as int) =~= walk@);
    reasons
}

/// The files discovered below several roots: each root's files in the order
/// of its walk, one root after the other. A file that two walks meet is
/// listed twice.
pub open spec fn discovered(walks: Seq<Vec<Walked>>) -> Seq<PathBuf> {
    walks.map_values(|walk: Vec<Walked>| regular_files(walk@)).flatten()
}

/// The files that the walks below several roots discover, root after root.
/// Nothing is left out where roots overlap: a file that two walks meet is
/// listed once for each.
pub fn scan_roots(walks: &Vec<Vec<Walked>>) -> (files: Vec<PathBuf>)
    ensures
        files@ == discovered(walks@),
{
    let mut files: Vec<PathBuf> = Vec::new();
    let mut i: usize = 0;
    assert(files@ =~= discovered(walks@.take(0)));
    while i < walks.len()
        invariant
            i <= walks@.len(),
            files@ == discovered(walks@.take(i as int)),
        decreases walks@.len() - i,
    {
        let ghost done = walks@.take(i as int).map_values(
            |walk: Vec<Walked>| regular_files(walk@),
        );
        let mut found = get_directories_entries(&walks[i]);
        let ghost found_paths = found@;
        files.append(&mut found);
        proof {
            assert(walks@.take(i + 1).map_values(|walk: Vec<Walked>| regular_files(walk@))
                =~= done.push(found_paths));
            done.lemma_flatten_push(found_paths);
        }
        i = i + 1;
    }
    assert(walks@.take(i as int) =~= walks@);
    files
}

} // verus!
