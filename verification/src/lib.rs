//! Finds files with byte-identical content and decides, group by group, which
//! redundant copy an operator has chosen to remove.
//!
//! The work goes from the roots to the removal in four steps: the scanner
//! keeps the regular files that a walk meets, the hasher gives each file the
//! fingerprint of its content, the index files the records under their
//! fingerprints, and the resolution loop shows every group of two or more to
//! the operator and acts on the answer.
//!
//! The crate holds the logic only: every read, print and removal is left to
//! the caller, who hands in what a walk met and what a read gave, and gets
//! back the lines to print and the path to remove. Paths are carried through
//! as the operating system gave them.

pub mod path;
pub mod record;
pub mod hasher;
pub mod index;
pub mod scanner;
pub mod selection;
pub mod report;
pub mod resolution;

pub use record::FileIndex;
pub use record::FileIndexView;
pub use scanner::get_directories_entries;
