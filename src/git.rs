//! Version-control status of an entry, as the status provider reports it.

use vstd::prelude::*;

verus! {

/// A simplified representation of a file's status in the repository.
#[derive(Debug, Clone, Copy, PartialEq, Eq, Hash, Structural)]
pub enum FileStatus {
    Modified,
    New,
    Deleted,
    Renamed,
    Typechange,
    Untracked,
    Conflicted,
}

impl FileStatus {
    /// The one-character tag shown in the status column.
    pub open spec fn tag(self) -> char {
        match self {
            FileStatus::Modified => 'M',
            FileStatus::New => 'A',
            FileStatus::Deleted => 'D',
            FileStatus::Renamed => 'R',
            FileStatus::Typechange => 'T',
            FileStatus::Untracked => '?',
            FileStatus::Conflicted => 'C',
        }
    }

    /// Returns the character symbol for the status.
    pub fn get_char(&self) -> (c: char)
        ensures
            c == self.tag(),
    {
        match self {
            FileStatus::Modified => 'M',
            FileStatus::New => 'A',
            FileStatus::Deleted => 'D',
            FileStatus::Renamed => 'R',
            FileStatus::Typechange => 'T',
            FileStatus::Untracked => '?',
            FileStatus::Conflicted => 'C',
        }
    }
}

/// Bits of a repository status word, as libgit2 lays them out.
pub const INDEX_NEW: u32 = 1;
pub const INDEX_MODIFIED: u32 = 2;
pub const INDEX_DELETED: u32 = 4;
pub const INDEX_RENAMED: u32 = 8;
pub const INDEX_TYPECHANGE: u32 = 16;
pub const WT_NEW: u32 = 128;
pub const WT_MODIFIED: u32 = 256;
pub const WT_DELETED: u32 = 512;
pub const WT_TYPECHANGE: u32 = 1024;
pub const WT_RENAMED: u32 = 2048;
pub const CONFLICTED: u32 = 32768;

pub open spec fn has_bit(bits: u32, bit: u32) -> bool {
    bits & bit != 0
}

/// The status that a status word stands for: the first of these flags that
/// is set decides, index changes before working-tree changes.
pub open spec fn status_of_bits(bits: u32) -> Option<FileStatus> {
    if has_bit(bits, CONFLICTED) {
        Some(FileStatus::Conflicted)
    } else if has_bit(bits, INDEX_NEW) {
        Some(FileStatus::New)
    } else if has_bit(bits, INDEX_MODIFIED) {
        Some(FileStatus::Modified)
    } else if has_bit(bits, INDEX_DELETED) {
        Some(FileStatus::Deleted)
    } else if has_bit(bits, INDEX_RENAMED) {
        Some(FileStatus::Renamed)
    } else if has_bit(bits, INDEX_TYPECHANGE) {
        Some(FileStatus::Typechange)
    } else if has_bit(bits, WT_NEW) {
        Some(FileStatus::Untracked)
    } else if has_bit(bits, WT_MODIFIED) {
        Some(FileStatus::Modified)
    } else if has_bit(bits, WT_DELETED) {
        Some(FileStatus::Deleted)
    } else if has_bit(bits, WT_RENAMED) {
        Some(FileStatus::Renamed)
    } else if has_bit(bits, WT_TYPECHANGE) {
        Some(FileStatus::Typechange)
    } else {
        None
    }
}

/// Converts a repository status word into the simplified status; `None`
/// for an entry with no notable status.
pub fn git_to_file_status(bits: u32) -> (r: Option<FileStatus>)
    ensures
        r == status_of_bits(bits),
{
    if bits & CONFLICTED != 0 {
        Some(FileStatus::Conflicted)
    } else if bits & INDEX_NEW != 0 {
        Some(FileStatus::New)
    } else if bits & INDEX_MODIFIED != 0 {
        Some(FileStatus::Modified)
    } else if bits & INDEX_DELETED != 0 {
        Some(FileStatus::Deleted)
    } else if bits & INDEX_RENAMED != 0 {
        Some(FileStatus::Renamed)
    } else if bits & INDEX_TYPECHANGE != 0 {
        Some(FileStatus::Typechange)
    } else if bits & WT_NEW != 0 {
        Some(FileStatus::Untracked)
    } else if bits & WT_MODIFIED != 0 {
        Some(FileStatus::Modified)
    } else if bits & WT_DELETED != 0 {
        Some(FileStatus::Deleted)
    } else if bits & WT_RENAMED != 0 {
        Some(FileStatus::Renamed)
    } else if bits & WT_TYPECHANGE != 0 {
        Some(FileStatus::Typechange)
    } else {
        None
    }
}

/// The status lookup of a repository: paths relative to its root, each with
/// its status, and the root itself.
pub struct GitRepoStatus {
    pub cache: Vec<(String, FileStatus)>,
    pub root: String,
}

/// The status recorded for `path` in `cache`: that of the first pair whose
/// path is `path`, or `None` where no pair has it.
pub open spec fn lookup(cache: Seq<(String, FileStatus)>, path: Seq<char>) -> Option<FileStatus>
    decreases cache.len(),
{
    if cache.len() == 0 {
        None
    } else if cache[0].0@ == path {
        Some(cache[0].1)
    } else {
        lookup(cache.drop_first(), path)
    }
}

impl GitRepoStatus {
    /// The status of the entry at `path`, relative to the repository root.
    pub fn status_for(&self, path: &String) -> (r: Option<FileStatus>)
        ensures
            r == lookup(self.cache@, path@),
    {
        let mut i: usize = 0;
        assert(self.cache@.skip(0) =~= self.cache@);
        while i < self.cache.len()
            invariant
                i <= self.cache@.len(),
                lookup(self.cache@, path@) == lookup(self.cache@.skip(i as int), path@),
            decreases self.cache@.len() - i,
        {
            assert(self.cache@.skip(i as int).drop_first() =~= self.cache@.skip(i + 1));
            if self.cache[i].0 == *path {
                return Some(self.cache[i].1);
            }
            i = i + 1;
        }
        None
    }
}

} // verus!
