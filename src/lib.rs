//! An incrementally maintained model of a directory tree: ordered entries,
//! ignore rules that cascade down the tree, version-control statuses that
//! propagate to directories, and update envelopes that replicate snapshots.
pub mod engine;
pub mod entry;
pub mod identity;
pub mod ignore;
pub mod path;
pub mod repository;
pub mod snapshot;
pub mod status;

pub use engine::{Worktree, WorktreeError};
pub use entry::{Entry, EntryKind, GitFileStatus};
pub use ignore::{parse_ignore_file, IgnoreFile, IgnoreStack};
pub use path::{parse_path, PathBytes};
pub use repository::{repository_for_path, work_directories, work_directory_for_dot_git, Repository};
pub use snapshot::{Snapshot, UpdateEnvelope};
pub use status::propagate_git_statuses;
