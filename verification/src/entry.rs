//! The entries of a worktree.
use crate::char_bag::CharBag;
use crate::ids::{next_number, ProjectEntryId};
use crate::path::{names_lt, KeyOrder, Path};
use crate::path_lemmas::{
    lemma_names_lt_irreflexive, lemma_names_lt_total, lemma_names_lt_transitive,
};
use crate::proto;
use crate::proto::Timestamp;
use crate::sum_tree::KeyedItem;
use crate::text::lower_text;
use std::sync::Arc;
use vstd::prelude::*;

verus! {

/// Why a worktree refuses a request.
#[derive(Debug, PartialEq, Eq)]
pub enum WorktreeError {
    /// An update removes an entry that is not there.
    UnknownEntry(u64),
    /// An entry of an update has no modification time.
    MissingMtime,
    /// The worktree of a file is not a remote one.
    NotRemote,
    /// A file belongs to another worktree.
    WorktreeMismatch,
    /// A file has no modification time.
    NoTimestamp,
    /// The file system says nothing of a path that was just written.
    MissingMetadata,
}

/// What an entry is. A directory whose contents have not been read yet is pending.
#[derive(Debug, PartialEq, Eq)]
pub enum EntryKind {
    PendingDir,
    Dir,
    File(CharBag),
}

impl Clone for EntryKind {
    fn clone(&self) -> (r: Self)
        ensures
            r == *self,
    {
        match self {
            EntryKind::PendingDir => EntryKind::PendingDir,
            EntryKind::Dir => EntryKind::Dir,
            EntryKind::File(bag) => EntryKind::File(bag.clone()),
        }
    }
}

/// What the file system says of a path.
#[derive(Copy, Clone, PartialEq, Eq, Debug, Structural)]
pub struct Metadata {
    pub inode: u64,
    pub mtime: Timestamp,
    pub is_symlink: bool,
    pub is_dir: bool,
}

/// A file or directory of a worktree. Its path is relative to the root of the worktree.
#[derive(Debug)]
pub struct Entry {
    pub id: ProjectEntryId,
    pub kind: EntryKind,
    pub path: Arc<Path>,
    pub inode: u64,
    pub mtime: Timestamp,
    pub is_symlink: bool,
    pub is_ignored: bool,
}

impl Clone for Entry {
    fn clone(&self) -> (r: Self)
        ensures
            r == *self,
    {
        Entry {
            id: self.id,
            kind: self.kind.clone(),
            path: self.path.clone(),
            inode: self.inode,
            mtime: self.mtime,
            is_symlink: self.is_symlink,
            is_ignored: self.is_ignored,
        }
    }
}

/// The characters that a fuzzy search finds in a path: those of the root and those of the path,
/// in lower case.
pub open spec fn path_chars(root: Seq<char>, path: Seq<char>) -> Seq<char> {
    root + lower_text(path)
}

/// Gathers the characters that a fuzzy search finds in a path.
pub fn char_bag_for_path(root_char_bag: &CharBag, path: &Path) -> (r: CharBag)
    ensures
        r@ == path_chars(root_char_bag@, path@),
{
    let mut result = root_char_bag.clone();
    result.extend(path.as_str());
    result
}

/// What an entry that a message describes is: a directory, or a file with the characters of its
/// path.
pub open spec fn kind_of_message(root: Seq<char>, e: proto::Entry, kind: EntryKind) -> bool {
    if e.is_dir {
        kind is Dir
    } else {
        kind matches EntryKind::File(bag) && bag@ == path_chars(root, e.path@)
    }
}

/// Whether an entry is the one that a message describes.
pub open spec fn is_entry_of_message(root: Seq<char>, m: proto::Entry, e: Entry) -> bool {
    &&& e.id@ == m.id as usize
    &&& kind_of_message(root, m, e.kind)
    &&& e.path@ == m.path@
    &&& e.inode == m.inode
    &&& m.mtime == Some(e.mtime)
    &&& e.is_symlink == m.is_symlink
    &&& e.is_ignored == m.is_ignored
}

/// Whether a message describes an entry.
pub open spec fn is_message_of_entry(e: Entry, m: proto::Entry) -> bool {
    &&& m.id == e.id@
    &&& m.is_dir == !e.is_file_entry()
    &&& m.path@ == e.path@
    &&& m.inode == e.inode
    &&& m.mtime == Some(e.mtime)
    &&& m.is_symlink == e.is_symlink
    &&& m.is_ignored == e.is_ignored
}

impl Entry {
    /// Whether the entry is a file.
    pub open spec fn is_file_entry(&self) -> bool {
        self.kind is File
    }

    /// The components of the path of the entry.
    pub open spec fn comps(&self) -> Seq<Seq<char>> {
        self.path.comps()
    }

    /// The entry for what the file system says of a path. It takes its identifier from a
    /// counter. A directory is pending until it is read, and nothing is ignored at first.
    pub fn new(
        path: Arc<Path>,
        metadata: &Metadata,
        next_entry_id: &mut usize,
        root_char_bag: &CharBag,
    ) -> (r: Self)
        ensures
            r.id@ == *old(next_entry_id),
            *final(next_entry_id) == next_number(*old(next_entry_id)),
            is_new_entry(r, path@, *metadata, root_char_bag@),
            r.path == path,
    {
        let kind = if metadata.is_dir {
            EntryKind::PendingDir
        } else {
            EntryKind::File(char_bag_for_path(root_char_bag, &path))
        };
        Entry {
            id: ProjectEntryId::new(next_entry_id),
            kind,
            path,
            inode: metadata.inode,
            mtime: metadata.mtime,
            is_symlink: metadata.is_symlink,
            is_ignored: false,
        }
    }

    /// Whether the entry is a directory, read or not.
    pub fn is_dir(&self) -> (r: bool)
        ensures
            r == (self.kind is Dir || self.kind is PendingDir),
            r == !self.is_file_entry(),
    {
        match self.kind {
            EntryKind::Dir => true,
            EntryKind::PendingDir => true,
            EntryKind::File(_) => false,
        }
    }

    /// Whether the entry is a file.
    pub fn is_file(&self) -> (r: bool)
        ensures
            r == self.is_file_entry(),
    {
        match self.kind {
            EntryKind::File(_) => true,
            _ => false,
        }
    }

    /// The message that describes the entry.
    pub fn to_proto(&self) -> (r: proto::Entry)
        ensures
            is_message_of_entry(*self, r),
    {
        proto::Entry {
            id: self.id.to_proto(),
            is_dir: self.is_dir(),
            path: self.path.to_text(),
            inode: self.inode,
            mtime: Some(self.mtime),
            is_symlink: self.is_symlink,
            is_ignored: self.is_ignored,
        }
    }

    /// The entry that a message describes. A message without a modification time is refused.
    pub fn try_from(root_char_bag: &CharBag, entry: proto::Entry) -> (r: Result<
        Self,
        WorktreeError,
    >)
        ensures
            r is Ok <==> entry.mtime is Some,
            r matches Ok(e) ==> is_entry_of_message(root_char_bag@, entry, e),
            r matches Err(error) ==> error == WorktreeError::MissingMtime,
    {
        match entry.mtime {
            Some(mtime) => {
                let path = Path::new(entry.path.as_str());
                let kind = if entry.is_dir {
                    EntryKind::Dir
                } else {
                    EntryKind::File(char_bag_for_path(root_char_bag, &path))
                };
                Ok(
                    Entry {
                        id: ProjectEntryId::from_proto(entry.id),
                        kind,
                        path: Arc::new(path),
                        inode: entry.inode,
                        mtime,
                        is_symlink: entry.is_symlink,
                        is_ignored: entry.is_ignored,
                    },
                )
            },
            None => Err(WorktreeError::MissingMtime),
        }
    }

    /// How much the entry counts.
    pub fn summary(&self) -> (r: EntrySummary)
        ensures
            r.counts() == entry_counts(*self),
            r.last_path() == self.path@,
    {
        let visible_count: usize = if self.is_ignored { 0 } else { 1 };
        let file_count: usize;
        let visible_file_count: usize;
        if self.is_file() {
            file_count = 1;
            visible_file_count = visible_count;
        } else {
            file_count = 0;
            visible_file_count = 0;
        }
        EntrySummary {
            max_path: self.path.clone(),
            count: 1,
            visible_count,
            file_count,
            visible_file_count,
        }
    }
}

/// Whether an entry is the one that is made for what the file system says of a path, before it is
/// known whether it is ignored.
pub open spec fn is_new_entry(e: Entry, path: Seq<char>, metadata: Metadata, root: Seq<char>) -> bool {
    is_entry_for(e, path, metadata, root) && !e.is_ignored
}

/// Whether an entry tells what the file system says of a path.
pub open spec fn is_entry_for(e: Entry, path: Seq<char>, metadata: Metadata, root: Seq<char>) -> bool {
    &&& if metadata.is_dir {
        e.kind is PendingDir
    } else {
        e.kind matches EntryKind::File(bag) && bag@ == path_chars(root, path)
    }
    &&& e.path@ == path
    &&& e.inode == metadata.inode
    &&& e.mtime == metadata.mtime
    &&& e.is_symlink == metadata.is_symlink
}

/// A message that describes an entry gives that entry back, but for a pending directory, which
/// comes back as one that was read.
pub proof fn law_entry_message_round_trip(root: Seq<char>, e: Entry, m: proto::Entry, back: Entry)
    requires
        is_message_of_entry(e, m),
        is_entry_of_message(root, m, back),
        e.kind matches EntryKind::File(bag) ==> bag@ == path_chars(root, e.path@),
    ensures
        back.id@ == e.id@,
        back.path@ == e.path@,
        back.inode == e.inode,
        back.mtime == e.mtime,
        back.is_symlink == e.is_symlink,
        back.is_ignored == e.is_ignored,
        back.is_file_entry() == e.is_file_entry(),
        back.kind matches EntryKind::File(bag) ==> e.kind matches EntryKind::File(bag2) && bag@
            == bag2@,
{
}

/// The numbers of entries that a traversal can count: all of them, those that are not ignored,
/// the files, and the files that are not ignored.
#[verifier::ext_equal]
pub struct Counts {
    pub count: nat,
    pub visible_count: nat,
    pub file_count: nat,
    pub visible_file_count: nat,
}

impl Counts {
    pub open spec fn zero() -> Counts {
        Counts { count: 0, visible_count: 0, file_count: 0, visible_file_count: 0 }
    }

    pub open spec fn plus(self, other: Counts) -> Counts {
        Counts {
            count: self.count + other.count,
            visible_count: self.visible_count + other.visible_count,
            file_count: self.file_count + other.file_count,
            visible_file_count: self.visible_file_count + other.visible_file_count,
        }
    }

    /// The number for a traversal that takes directories and ignored entries or not.
    pub open spec fn select(self, include_dirs: bool, include_ignored: bool) -> nat {
        if include_ignored {
            if include_dirs {
                self.count
            } else {
                self.file_count
            }
        } else {
            if include_dirs {
                self.visible_count
            } else {
                self.visible_file_count
            }
        }
    }

    /// Whether the numbers fit in `usize`.
    pub open spec fn fits(self) -> bool {
        &&& self.count <= usize::MAX
        &&& self.visible_count <= usize::MAX
        &&& self.file_count <= usize::MAX
        &&& self.visible_file_count <= usize::MAX
    }
}

/// How much one entry counts.
pub open spec fn entry_counts(e: Entry) -> Counts {
    Counts {
        count: 1,
        visible_count: if e.is_ignored {
            0
        } else {
            1
        },
        file_count: if e.is_file_entry() {
            1
        } else {
            0
        },
        visible_file_count: if e.is_file_entry() && !e.is_ignored {
            1
        } else {
            0
        },
    }
}

/// How much a list of entries counts.
pub open spec fn total_counts(s: Seq<Entry>) -> Counts
    decreases s.len(),
{
    if s.len() == 0 {
        Counts::zero()
    } else {
        total_counts(s.drop_last()).plus(entry_counts(s.last()))
    }
}

/// How much a run of entries counts, and the path of its last one.
#[derive(Debug)]
pub struct EntrySummary {
    pub(crate) max_path: Arc<Path>,
    pub(crate) count: usize,
    pub(crate) visible_count: usize,
    pub(crate) file_count: usize,
    pub(crate) visible_file_count: usize,
}

impl Default for EntrySummary {
    fn default() -> (r: Self)
        ensures
            r.counts() == Counts::zero(),
            r.last_path() == Seq::<char>::empty(),
    {
        proof {
            reveal_strlit("");
        }
        let path = Path::new("");
        assert(path@ =~= Seq::<char>::empty());
        EntrySummary {
            max_path: Arc::new(path),
            count: 0,
            visible_count: 0,
            file_count: 0,
            visible_file_count: 0,
        }
    }
}

impl EntrySummary {
    /// The numbers of the summary.
    pub closed spec fn counts(&self) -> Counts {
        Counts {
            count: self.count as nat,
            visible_count: self.visible_count as nat,
            file_count: self.file_count as nat,
            visible_file_count: self.visible_file_count as nat,
        }
    }

    /// The path of the last entry of the run.
    pub closed spec fn last_path(&self) -> Seq<char> {
        self.max_path@
    }

    pub(crate) proof fn lemma_counts(&self)
        ensures
            self.counts() == (Counts {
                count: self.count as nat,
                visible_count: self.visible_count as nat,
                file_count: self.file_count as nat,
                visible_file_count: self.visible_file_count as nat,
            }),
            self.last_path() == self.max_path@,
    {
    }

    /// Adds the summary of the run that follows.
    pub fn add_summary(&mut self, rhs: &Self)
        requires
            old(self).counts().plus(rhs.counts()).fits(),
        ensures
            final(self).counts() == old(self).counts().plus(rhs.counts()),
            final(self).last_path() == rhs.last_path(),
    {
        self.max_path = rhs.max_path.clone();
        self.count = self.count + rhs.count;
        self.visible_count = self.visible_count + rhs.visible_count;
        self.file_count = self.file_count + rhs.file_count;
        self.visible_file_count = self.visible_file_count + rhs.visible_file_count;
    }

    /// The number of files.
    pub fn file_count(&self) -> (r: usize)
        ensures
            r == self.counts().file_count,
    {
        self.file_count
    }

    /// The number of files that are not ignored.
    pub fn visible_file_count(&self) -> (r: usize)
        ensures
            r == self.counts().visible_file_count,
    {
        self.visible_file_count
    }
}

/// The key by which an entry is found: its path, by components.
#[derive(Debug)]
pub struct PathKey(Arc<Path>);

impl View for PathKey {
    type V = Seq<Seq<char>>;

    closed spec fn view(&self) -> Seq<Seq<char>> {
        self.0.comps()
    }
}

impl Clone for PathKey {
    fn clone(&self) -> (r: Self)
        ensures
            r == *self,
    {
        PathKey(self.0.clone())
    }
}

impl Default for PathKey {
    fn default() -> (r: Self)
        ensures
            r@ == crate::path::components(Seq::empty()),
    {
        proof {
            reveal_strlit("");
        }
        let path = Path::new("");
        assert(path@ =~= Seq::<char>::empty());
        PathKey(Arc::new(path))
    }
}

impl PathKey {
    /// The key of a path.
    pub fn new(path: Arc<Path>) -> (r: Self)
        ensures
            r@ == path.comps(),
    {
        PathKey(path)
    }

    /// The path of the key.
    pub fn path(&self) -> (r: &Path)
        ensures
            r.comps() == self@,
    {
        &self.0
    }
}

impl KeyedItem for Entry {
    type Key = Path;

    type OwnedKey = PathKey;

    type K = Seq<Seq<char>>;

    open spec fn item_key(&self) -> Seq<Seq<char>> {
        self.comps()
    }

    open spec fn key_of(key: &Path) -> Seq<Seq<char>> {
        key.comps()
    }

    open spec fn kept_key(key: &PathKey) -> Seq<Seq<char>> {
        key@
    }

    open spec fn key_lt(a: Seq<Seq<char>>, b: Seq<Seq<char>>) -> bool {
        names_lt(a, b)
    }

    proof fn lemma_key_irreflexive(a: Seq<Seq<char>>) {
        lemma_names_lt_irreflexive(a);
    }

    proof fn lemma_key_transitive(a: Seq<Seq<char>>, b: Seq<Seq<char>>, c: Seq<Seq<char>>) {
        lemma_names_lt_transitive(a, b, c);
    }

    proof fn lemma_key_total(a: Seq<Seq<char>>, b: Seq<Seq<char>>) {
        lemma_names_lt_total(a, b);
    }

    fn key(&self) -> &Path {
        &self.path
    }

    fn borrow_key(key: &PathKey) -> &Path {
        &key.0
    }

    fn compare_key(&self, key: &Path) -> KeyOrder {
        self.path.compare(key)
    }
}

/// What a snapshot keeps of an entry to find it by its identifier, and to tell whether it
/// changed.
#[derive(Debug)]
pub struct PathEntry {
    pub id: ProjectEntryId,
    pub path: Arc<Path>,
    pub is_ignored: bool,
    pub scan_id: usize,
}

impl Clone for PathEntry {
    fn clone(&self) -> (r: Self)
        ensures
            r == *self,
    {
        PathEntry {
            id: self.id,
            path: self.path.clone(),
            is_ignored: self.is_ignored,
            scan_id: self.scan_id,
        }
    }
}

impl KeyedItem for PathEntry {
    type Key = ProjectEntryId;

    type OwnedKey = ProjectEntryId;

    type K = usize;

    open spec fn item_key(&self) -> usize {
        self.id@
    }

    open spec fn key_of(key: &ProjectEntryId) -> usize {
        key@
    }

    open spec fn kept_key(key: &ProjectEntryId) -> usize {
        key@
    }

    open spec fn key_lt(a: usize, b: usize) -> bool {
        a < b
    }

    proof fn lemma_key_irreflexive(a: usize) {
    }

    proof fn lemma_key_transitive(a: usize, b: usize, c: usize) {
    }

    proof fn lemma_key_total(a: usize, b: usize) {
    }

    fn key(&self) -> &ProjectEntryId {
        &self.id
    }

    fn borrow_key(key: &ProjectEntryId) -> &ProjectEntryId {
        key
    }

    fn compare_key(&self, key: &ProjectEntryId) -> KeyOrder {
        let a: usize = self.id.to_usize();
        let b: usize = key.to_usize();
        if a < b {
            KeyOrder::Less
        } else if a == b {
            KeyOrder::Same
        } else {
            KeyOrder::Greater
        }
    }
}

} // verus!
