//! Entries of the tree and their kinds and version-control statuses.
use vstd::prelude::*;

use crate::path::{copy_path, path_view, PathBytes};

verus! {

/// What a node of the tree is.
#[derive(Clone, Copy, Debug, PartialEq, Eq, Structural)]
pub enum EntryKind {
    File,
    Directory,
    Symlink,
    /// A directory whose children have not been scanned yet.
    UnloadedDirectory,
    /// A directory whose scan is under way.
    PendingDirectory,
}

/// Version-control status of a file, ordered `Added < Modified < Conflict`.
#[derive(Clone, Copy, Debug, PartialEq, Eq, Structural)]
pub enum GitFileStatus {
    Added,
    Modified,
    Conflict,
}

pub open spec fn kind_is_dir(k: EntryKind) -> bool {
    k == EntryKind::Directory || k == EntryKind::UnloadedDirectory || k
        == EntryKind::PendingDirectory
}

impl EntryKind {
    pub fn is_dir(&self) -> (r: bool)
        ensures
            r == kind_is_dir(*self),
    {
        match self {
            EntryKind::Directory | EntryKind::UnloadedDirectory | EntryKind::PendingDirectory => true,
            _ => false,
        }
    }

    pub fn is_file(&self) -> (r: bool)
        ensures
            r == (*self == EntryKind::File),
    {
        match self {
            EntryKind::File => true,
            _ => false,
        }
    }
}

/// The rank of a status in the order `None < Added < Modified < Conflict`.
pub open spec fn status_rank(s: Option<GitFileStatus>) -> nat {
    match s {
        None => 0,
        Some(GitFileStatus::Added) => 1,
        Some(GitFileStatus::Modified) => 2,
        Some(GitFileStatus::Conflict) => 3,
    }
}

/// The mathematical value of an entry.
pub struct EntryView {
    pub id: u64,
    pub path: Seq<Seq<u8>>,
    pub kind: EntryKind,
    pub inode: u64,
    pub mtime: u64,
    pub is_ignored: bool,
    pub is_external: bool,
    pub git_status: Option<GitFileStatus>,
}

/// One node of the tree.
#[derive(Clone, Debug, PartialEq, Eq)]
pub struct Entry {
    pub id: u64,
    pub path: PathBytes,
    pub kind: EntryKind,
    pub inode: u64,
    pub mtime: u64,
    pub is_ignored: bool,
    pub is_external: bool,
    pub git_status: Option<GitFileStatus>,
}

impl View for Entry {
    type V = EntryView;

    open spec fn view(&self) -> EntryView {
        EntryView {
            id: self.id,
            path: path_view(&self.path),
            kind: self.kind,
            inode: self.inode,
            mtime: self.mtime,
            is_ignored: self.is_ignored,
            is_external: self.is_external,
            git_status: self.git_status,
        }
    }
}

impl Entry {
    /// A copy of this entry.
    pub fn copy(&self) -> (r: Entry)
        ensures
            r@ == self@,
    {
        Entry {
            id: self.id,
            path: copy_path(&self.path),
            kind: self.kind,
            inode: self.inode,
            mtime: self.mtime,
            is_ignored: self.is_ignored,
            is_external: self.is_external,
            git_status: self.git_status,
        }
    }

    pub fn is_dir(&self) -> (r: bool)
        ensures
            r == kind_is_dir(self.kind),
    {
        self.kind.is_dir()
    }
}

/// The values of a sequence of entries.
pub open spec fn entries_view(v: Seq<Entry>) -> Seq<EntryView> {
    v.map_values(|e: Entry| e@)
}

} // verus!
