//! Files of worktrees, as buffers know them.
use crate::entry::{Entry, WorktreeError};
use crate::ids::{ProjectEntryId, WorktreeId};
use crate::path::{file_name_of, join_text, nested_in, Path};
use crate::path_text::text_behind;
use crate::proto;
use crate::proto::{LineEnding, Timestamp, VectorClockEntry};
use crate::refresh::absolute_text;
use crate::worktree::Worktree;
use std::sync::Arc;
use vstd::prelude::*;

verus! {

/// A file of a worktree.
#[derive(Debug)]
pub struct File {
    /// The number of the worktree.
    pub worktree: usize,
    pub path: Arc<Path>,
    pub mtime: Timestamp,
    pub entry_id: ProjectEntryId,
    pub is_local: bool,
    pub is_deleted: bool,
}

impl Clone for File {
    fn clone(&self) -> (r: Self)
        ensures
            r == *self,
    {
        File {
            worktree: self.worktree,
            path: self.path.clone(),
            mtime: self.mtime,
            entry_id: self.entry_id,
            is_local: self.is_local,
            is_deleted: self.is_deleted,
        }
    }
}

/// Whether a message describes a file.
pub open spec fn is_file_message(file: File, m: proto::File) -> bool {
    &&& m.worktree_id == file.worktree
    &&& m.entry_id == file.entry_id@
    &&& m.path@ == file.path@
    &&& m.mtime == Some(file.mtime)
    &&& m.is_deleted == file.is_deleted
}

/// Whether a file is the one that a message describes.
pub open spec fn is_file_of_message(m: proto::File, handle: usize, file: File) -> bool {
    &&& file.worktree == handle
    &&& file.path@ == m.path@
    &&& m.mtime == Some(file.mtime)
    &&& file.entry_id@ == m.entry_id as usize
    &&& !file.is_local
    &&& file.is_deleted == m.is_deleted
}

/// A message that describes a file gives a file back that differs from it only in the worktree
/// that it belongs to, and in that it is not local.
pub proof fn law_file_message_round_trip(file: File, m: proto::File, handle: usize, back: File)
    requires
        is_file_message(file, m),
        is_file_of_message(m, handle, back),
    ensures
        back.path@ == file.path@,
        back.path.comps() == file.path.comps(),
        back.mtime == file.mtime,
        back.entry_id@ == file.entry_id@,
        back.is_deleted == file.is_deleted,
{
}

/// The text of the path by which a worktree is shown: its name where it is visible, and else its
/// absolute path, with the home directory of the user written as `~` where the worktree is local
/// and lies in it.
pub open spec fn shown_path(
    visible: bool,
    is_local: bool,
    name: Seq<char>,
    abs_path: Arc<Path>,
    home: Path,
) -> Seq<char> {
    if visible {
        join_text(Seq::empty(), name)
    } else if is_local && nested_in(abs_path.comps(), home.comps()) {
        join_text(
            join_text(Seq::empty(), seq!['~']),
            text_behind(abs_path@, home.comps().len() as int),
        )
    } else {
        join_text(Seq::empty(), abs_path@)
    }
}

impl File {
    /// Whether the file is that of an entry of a local worktree.
    pub open spec fn is_for_entry(&self, worktree: usize, e: Entry) -> bool {
        &&& self.worktree == worktree
        &&& self.path == e.path
        &&& self.mtime == e.mtime
        &&& self.entry_id == e.id
        &&& self.is_local
        &&& !self.is_deleted
    }

    /// The file of an entry of a local worktree.
    pub fn for_entry(worktree: usize, entry: Entry) -> (r: Self)
        ensures
            r.is_for_entry(worktree, entry),
    {
        File {
            worktree,
            path: entry.path,
            mtime: entry.mtime,
            entry_id: entry.id,
            is_local: true,
            is_deleted: false,
        }
    }

    /// The file where it is one of the local file system.
    pub fn as_local(&self) -> (r: Option<&File>)
        ensures
            r == if self.is_local {
                Some(self)
            } else {
                None
            },
    {
        if self.is_local {
            Some(self)
        } else {
            None
        }
    }

    /// When the file was last changed.
    pub fn mtime(&self) -> (r: Timestamp)
        ensures
            r == self.mtime,
    {
        self.mtime
    }

    /// The path of the file, relative to the root of its worktree.
    pub fn path(&self) -> (r: &Arc<Path>)
        ensures
            *r == self.path,
    {
        &self.path
    }

    /// The path by which the file is shown.
    pub fn full_path(&self, worktree: &Worktree, home: &Path) -> (r: Path)
        ensures
            ({
                let shown = shown_path(
                    worktree.shown(),
                    worktree is Local,
                    worktree.snap().name(),
                    worktree.snap().root_path(),
                    *home,
                );
                r@ == if self.path.comps().len() > 0 {
                    join_text(shown, self.path@)
                } else {
                    shown
                }
            }),
    {
        proof {
            reveal_strlit("");
            reveal_strlit("~");
        }
        let empty = Path::new("");
        assert(empty@ =~= Seq::<char>::empty());
        let mut full_path: Path;
        if worktree.is_visible() {
            full_path = empty.join(&Path::new(worktree.root_name()));
        } else {
            let path = worktree.abs_path();
            let in_home: Option<Path> = if worktree.is_local() {
                path.strip_prefix(home)
            } else {
                None
            };
            match in_home {
                Some(rest) => {
                    let tilde = Path::new("~");
                    assert(tilde@ =~= seq!['~']);
                    full_path = empty.join(&tilde).join(&rest);
                },
                None => {
                    full_path = empty.join(&path);
                },
            }
        }
        if self.path.depth() > 0 {
            full_path = full_path.join(&self.path);
        }
        full_path
    }

    /// The last name of the path of the file. A file that is the root of its worktree has the
    /// name of the worktree.
    pub fn file_name(&self, worktree: &Worktree) -> (r: String)
        ensures
            r@ == match file_name_of(self.path.comps()) {
                Some(name) => name,
                None => worktree.snap().name(),
            },
    {
        match self.path.file_name() {
            Some(name) => name,
            None => worktree.root_name_string(),
        }
    }

    /// Whether the file is gone.
    pub fn is_deleted(&self) -> (r: bool)
        ensures
            r == self.is_deleted,
    {
        self.is_deleted
    }

    /// The message that describes the file.
    pub fn to_proto(&self) -> (r: proto::File)
        ensures
            is_file_message(*self, r),
    {
        proto::File {
            worktree_id: self.worktree as u64,
            entry_id: self.entry_id.to_proto(),
            path: self.path.to_text(),
            mtime: Some(self.mtime),
            is_deleted: self.is_deleted,
        }
    }

    /// The absolute path of the file.
    pub fn abs_path(&self, worktree: &Worktree) -> (r: Path)
        requires
            worktree is Local,
        ensures
            r@ == join_text(worktree.snap().root_path()@, self.path@),
    {
        worktree.abs_path().join(&self.path)
    }

    /// The path to read to load the file.
    pub fn load(&self, worktree: &Worktree) -> (r: Path)
        requires
            worktree is Local,
        ensures
            r@ == absolute_text(worktree.snap().root_path()@, self.path@),
    {
        if self.path.file_name().is_some() {
            worktree.abs_path().join(&self.path)
        } else {
            Path::new(worktree.abs_path().as_str())
        }
    }

    /// The message that a buffer was read anew from its file, where the worktree is shared.
    pub fn buffer_reloaded(
        &self,
        worktree: &Worktree,
        buffer_id: u64,
        version: Vec<VectorClockEntry>,
        fingerprint: String,
        line_ending: LineEnding,
        mtime: Timestamp,
    ) -> (r: Option<proto::BufferReloaded>)
        requires
            worktree is Local,
        ensures
            r is Some <==> worktree->Local_0.shared_in() is Some,
            r matches Some(m) ==> {
                &&& m.project_id == worktree->Local_0.shared_in()->0
                &&& m.buffer_id == buffer_id
                &&& m.version@ == version@
                &&& m.mtime == Some(mtime)
                &&& m.fingerprint@ == fingerprint@
                &&& m.line_ending == line_ending
            },
    {
        let project: Option<u64> = match worktree {
            Worktree::Local(local) => local.shared_project(),
            Worktree::Remote(_) => None,
        };
        match project {
            Some(project_id) => Some(
                proto::BufferReloaded {
                    project_id,
                    buffer_id,
                    version,
                    mtime: Some(mtime),
                    fingerprint,
                    line_ending,
                },
            ),
            None => None,
        }
    }

    /// The file that a message describes. `handle` is the number of the worktree here. A worktree
    /// that is not a remote one, another worktree than that of the message, and a message without
    /// a modification time are refused, in this order.
    pub fn from_proto(proto: proto::File, worktree: &Worktree, handle: usize) -> (r: Result<
        Self,
        WorktreeError,
    >)
        ensures
            match r {
                Ok(file) => {
                    &&& worktree is Remote
                    &&& proto.worktree_id == worktree.snap().tree_id()
                    &&& is_file_of_message(proto, handle, file)
                },
                Err(WorktreeError::NotRemote) => !(worktree is Remote),
                Err(WorktreeError::WorktreeMismatch) => worktree is Remote && proto.worktree_id
                    != worktree.snap().tree_id(),
                Err(WorktreeError::NoTimestamp) => {
                    &&& worktree is Remote
                    &&& proto.worktree_id == worktree.snap().tree_id()
                    &&& proto.mtime is None
                },
                Err(_) => false,
            },
    {
        if !worktree.is_remote() {
            return Err(WorktreeError::NotRemote);
        }
        if worktree.id().to_proto() != proto.worktree_id {
            return Err(WorktreeError::WorktreeMismatch);
        }
        match proto.mtime {
            Some(mtime) => Ok(
                File {
                    worktree: handle,
                    path: Arc::new(Path::new(proto.path.as_str())),
                    mtime,
                    entry_id: ProjectEntryId::from_proto(proto.entry_id),
                    is_local: false,
                    is_deleted: proto.is_deleted,
                },
            ),
            None => Err(WorktreeError::NoTimestamp),
        }
    }

    /// The identifier of the worktree of the file.
    pub fn worktree_id(&self, worktree: &Worktree) -> (r: WorktreeId)
        ensures
            r@ == worktree.snap().tree_id(),
    {
        worktree.id()
    }

    /// The identifier of the entry of the file, where the file is not gone.
    pub fn project_entry_id(&self) -> (r: Option<ProjectEntryId>)
        ensures
            r == if self.is_deleted {
                None
            } else {
                Some(self.entry_id)
            },
    {
        if self.is_deleted {
            None
        } else {
            Some(self.entry_id)
        }
    }
}

} // verus!
