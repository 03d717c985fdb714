//! The messages by which a worktree is shared.
use vstd::prelude::*;

verus! {

/// A point in time: seconds and nanoseconds since the epoch.
#[derive(Copy, Clone, PartialEq, Eq, Debug, Structural)]
pub struct Timestamp {
    pub seconds: u64,
    pub nanos: u32,
}

/// An entry of a worktree.
#[derive(Debug, PartialEq, Eq)]
pub struct Entry {
    pub id: u64,
    pub is_dir: bool,
    pub path: String,
    pub inode: u64,
    pub mtime: Option<Timestamp>,
    pub is_symlink: bool,
    pub is_ignored: bool,
}

/// What changed in a worktree.
#[derive(Debug, PartialEq, Eq)]
pub struct UpdateWorktree {
    pub project_id: u64,
    pub worktree_id: u64,
    pub abs_path: String,
    pub root_name: String,
    pub updated_entries: Vec<Entry>,
    pub removed_entries: Vec<u64>,
    pub scan_id: u64,
    pub is_last_update: bool,
}

/// What a worktree is known by.
#[derive(Debug, PartialEq, Eq)]
pub struct WorktreeMetadata {
    pub id: u64,
    pub root_name: String,
    pub visible: bool,
    pub abs_path: String,
}

/// A file of a worktree.
#[derive(Debug, PartialEq, Eq)]
pub struct File {
    pub worktree_id: u64,
    pub entry_id: u64,
    pub path: String,
    pub mtime: Option<Timestamp>,
    pub is_deleted: bool,
}

/// How many errors and warnings a file has.
#[derive(Debug, PartialEq, Eq)]
pub struct DiagnosticSummary {
    pub path: String,
    pub language_server_id: u64,
    pub error_count: u32,
    pub warning_count: u32,
}

/// How the errors and warnings of a file changed.
#[derive(Debug, PartialEq, Eq)]
pub struct UpdateDiagnosticSummary {
    pub project_id: u64,
    pub worktree_id: u64,
    pub summary: Option<DiagnosticSummary>,
}

/// The version of a buffer that a replica has seen.
#[derive(Copy, Clone, PartialEq, Eq, Debug, Structural)]
pub struct VectorClockEntry {
    pub replica_id: u32,
    pub timestamp: u32,
}

/// The file of a buffer changed.
#[derive(Debug, PartialEq, Eq)]
pub struct UpdateBufferFile {
    pub project_id: u64,
    pub buffer_id: u64,
    pub file: Option<File>,
}

/// A buffer is to be saved.
#[derive(Debug, PartialEq, Eq)]
pub struct SaveBuffer {
    pub project_id: u64,
    pub buffer_id: u64,
    pub version: Vec<VectorClockEntry>,
}

/// A buffer was saved.
#[derive(Debug, PartialEq, Eq)]
pub struct BufferSaved {
    pub project_id: u64,
    pub buffer_id: u64,
    pub version: Vec<VectorClockEntry>,
    pub mtime: Option<Timestamp>,
    pub fingerprint: String,
}

/// How the lines of a text end.
#[derive(Copy, Clone, PartialEq, Eq, Debug, Structural)]
pub enum LineEnding {
    Unix,
    Windows,
}

/// A buffer was read anew from its file.
#[derive(Debug, PartialEq, Eq)]
pub struct BufferReloaded {
    pub project_id: u64,
    pub buffer_id: u64,
    pub version: Vec<VectorClockEntry>,
    pub mtime: Option<Timestamp>,
    pub fingerprint: String,
    pub line_ending: LineEnding,
}

} // verus!
