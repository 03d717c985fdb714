//! What a worktree of the local file system holds at one time: its entries, the ignore files and
//! the git repositories that were found, and the identifiers of what was removed.
use crate::entry::{Entry, EntryKind, PathEntry, PathKey};
use crate::gitignore::{build_gitignore, file_verdicts, gitignore_verdicts, Verdicts};
use crate::ids::ProjectEntryId;
use crate::ignore_stack::{
    dot_git, gitignore_name, is_ignored_by, no_rules, with_layer, IgnoreRules, IgnoreStack, Layer,
};
use crate::inodes::InodeSet;
use crate::outermost::{is_among, sorted_paths};
use crate::path::{
    are_ancestors, components, file_name_of, join_text, lemma_prefix_well_named, names_lt,
    nested_in, render, root_length, KeyOrder, Path,
};
use crate::path_text::{text_of_first, trimmed};
use crate::path_lemmas::{
    lemma_components_render, lemma_components_well_named, lemma_join_last, lemma_join_same,
    lemma_names_lt_asymmetric, lemma_names_lt_irreflexive, lemma_names_lt_total,
    lemma_names_lt_transitive, lemma_nested_is_after, lemma_prefixes_nest,
};
use crate::snapshot::{
    entries_by_id, entries_by_path, ids_between, ids_in, kept_of, lemma_ids_between_block,
    lemma_ids_between_push, lemma_take_out_subtree, paths_in, ById, ByPath, Snapshot,
};
use crate::sum_tree::{
    by_key, inserts, lemma_edits_push, lemma_filter_sorted, lemma_no_edits, removes, Edit,
    KeyedItem, SumTree,
};
use ignore::gitignore::Gitignore;
use std::sync::Arc;
use vstd::prelude::*;

verus! {

/// A git repository of a worktree.
#[derive(Debug)]
pub struct GitRepositoryEntry {
    /// The number by which the opened repository is found.
    pub repo: u64,
    /// The scan that last found a change in the repository.
    pub scan_id: usize,
    /// The directory that holds the `.git` file or directory.
    pub content_path: Arc<Path>,
    /// The `.git` directory.
    pub git_dir_path: Arc<Path>,
}

impl Clone for GitRepositoryEntry {
    fn clone(&self) -> (r: Self)
        ensures
            r == *self,
    {
        GitRepositoryEntry {
            repo: self.repo,
            scan_id: self.scan_id,
            content_path: self.content_path.clone(),
            git_dir_path: self.git_dir_path.clone(),
        }
    }
}

impl GitRepositoryEntry {
    /// Whether a path lies in the repository. The path is relative to the root of the worktree.
    pub fn manages(&self, path: &Path) -> (r: bool)
        ensures
            r == nested_in(path.comps(), self.content_path.comps()),
    {
        path.starts_with(&self.content_path)
    }

    /// Whether a path lies in the `.git` directory of the repository. The path is relative to
    /// the root of the worktree.
    pub fn in_dot_git(&self, path: &Path) -> (r: bool)
        ensures
            r == nested_in(path.comps(), self.git_dir_path.comps()),
    {
        path.starts_with(&self.git_dir_path)
    }
}

impl KeyedItem for GitRepositoryEntry {
    type Key = Path;

    type OwnedKey = PathKey;

    type K = Seq<Seq<char>>;

    open spec fn item_key(&self) -> Seq<Seq<char>> {
        self.content_path.comps()
    }

    open spec fn key_of(key: &Path) -> Seq<Seq<char>> {
        key.comps()
    }

    open spec fn kept_key(key: &PathKey) -> Seq<Seq<char>> {
        key@
    }

    open spec fn key_lt(a: Seq<Seq<char>>, b: Seq<Seq<char>>) -> bool {
        names_lt(a, b)
    }

    proof fn lemma_key_irreflexive(a: Seq<Seq<char>>) {
        lemma_names_lt_irreflexive(a);
    }

    proof fn lemma_key_transitive(a: Seq<Seq<char>>, b: Seq<Seq<char>>, c: Seq<Seq<char>>) {
        lemma_names_lt_transitive(a, b, c);
    }

    proof fn lemma_key_total(a: Seq<Seq<char>>, b: Seq<Seq<char>>) {
        lemma_names_lt_total(a, b);
    }

    fn key(&self) -> &Path {
        &self.content_path
    }

    fn borrow_key(key: &PathKey) -> &Path {
        key.path()
    }

    fn compare_key(&self, key: &Path) -> KeyOrder {
        self.content_path.compare(key)
    }
}

/// An ignore file: the directory that holds it, its rules, and the scan that last found a change
/// in it.
#[derive(Debug)]
pub struct IgnoreFile {
    pub(crate) parent_abs_path: Arc<Path>,
    pub(crate) ignore: Arc<Gitignore>,
    pub(crate) scan_id: usize,
}

impl Clone for IgnoreFile {
    fn clone(&self) -> (r: Self)
        ensures
            r == *self,
    {
        IgnoreFile {
            parent_abs_path: self.parent_abs_path.clone(),
            ignore: self.ignore.clone(),
            scan_id: self.scan_id,
        }
    }
}

impl KeyedItem for IgnoreFile {
    type Key = Path;

    type OwnedKey = PathKey;

    type K = Seq<Seq<char>>;

    open(crate) spec fn item_key(&self) -> Seq<Seq<char>> {
        self.parent_abs_path.comps()
    }

    open spec fn key_of(key: &Path) -> Seq<Seq<char>> {
        key.comps()
    }

    open spec fn kept_key(key: &PathKey) -> Seq<Seq<char>> {
        key@
    }

    open spec fn key_lt(a: Seq<Seq<char>>, b: Seq<Seq<char>>) -> bool {
        names_lt(a, b)
    }

    proof fn lemma_key_irreflexive(a: Seq<Seq<char>>) {
        lemma_names_lt_irreflexive(a);
    }

    proof fn lemma_key_transitive(a: Seq<Seq<char>>, b: Seq<Seq<char>>, c: Seq<Seq<char>>) {
        lemma_names_lt_transitive(a, b, c);
    }

    proof fn lemma_key_total(a: Seq<Seq<char>>, b: Seq<Seq<char>>) {
        lemma_names_lt_total(a, b);
    }

    fn key(&self) -> &Path {
        &self.parent_abs_path
    }

    fn borrow_key(key: &PathKey) -> &Path {
        key.path()
    }

    fn compare_key(&self, key: &Path) -> KeyOrder {
        self.parent_abs_path.compare(key)
    }
}

/// The identifier that the entry with an inode had before it was removed.
#[derive(Copy, Clone, PartialEq, Eq, Debug, Structural)]
pub struct RemovedEntry {
    pub(crate) inode: u64,
    pub(crate) id: ProjectEntryId,
}

impl KeyedItem for RemovedEntry {
    type Key = u64;

    type OwnedKey = u64;

    type K = u64;

    open(crate) spec fn item_key(&self) -> u64 {
        self.inode
    }

    open spec fn key_of(key: &u64) -> u64 {
        *key
    }

    open spec fn kept_key(key: &u64) -> u64 {
        *key
    }

    open spec fn key_lt(a: u64, b: u64) -> bool {
        a < b
    }

    proof fn lemma_key_irreflexive(a: u64) {
    }

    proof fn lemma_key_transitive(a: u64, b: u64, c: u64) {
    }

    proof fn lemma_key_total(a: u64, b: u64) {
    }

    fn key(&self) -> &u64 {
        &self.inode
    }

    fn borrow_key(key: &u64) -> &u64 {
        key
    }

    fn compare_key(&self, key: &u64) -> KeyOrder {
        if self.inode < *key {
            KeyOrder::Less
        } else if self.inode == *key {
            KeyOrder::Same
        } else {
            KeyOrder::Greater
        }
    }
}

/// What an ignore file says, and the scan that last found a change in it.
pub struct IgnoreRule {
    /// The directory that holds it, as it is written.
    pub text: Seq<char>,
    pub verdicts: Verdicts,
    pub scan_id: usize,
}

/// Ignore files by the directories that hold them.
pub type Ignores = Map<Seq<Seq<char>>, IgnoreRule>;

/// Git repositories by the directories that hold them.
pub type Repos = Map<Seq<Seq<char>>, GitRepositoryEntry>;

/// Identifiers of removed entries by their inodes.
pub type Removed = Map<u64, usize>;

impl IgnoreFile {
    pub open(crate) spec fn rule(&self) -> IgnoreRule {
        IgnoreRule {
            text: trimmed(self.parent_abs_path@),
            verdicts: gitignore_verdicts(*self.ignore),
            scan_id: self.scan_id,
        }
    }
}

/// What becomes of the ignore files where the one of a directory is found. A directory that is
/// known already stays written as it is.
pub open spec fn with_ignore(
    ignores: Ignores,
    dir: Seq<char>,
    verdicts: Verdicts,
    scan_id: usize,
) -> Ignores {
    let key = components(dir);
    ignores.insert(
        key,
        IgnoreRule {
            text: if ignores.contains_key(key) {
                ignores[key].text
            } else {
                trimmed(dir)
            },
            verdicts,
            scan_id,
        },
    )
}

/// A snapshot of a worktree of the local file system.
#[derive(Debug)]
pub struct LocalSnapshot {
    pub(crate) ignores_by_parent_abs_path: SumTree<IgnoreFile>,
    pub(crate) git_repositories: SumTree<GitRepositoryEntry>,
    pub(crate) removed_entry_ids: SumTree<RemovedEntry>,
    pub(crate) snapshot: Snapshot,
}

impl Clone for LocalSnapshot {
    fn clone(&self) -> (r: Self)
        ensures
            r.same_as(*self),
            self.wf() ==> r.wf(),
    {
        let r = LocalSnapshot {
            ignores_by_parent_abs_path: self.ignores_by_parent_abs_path.clone(),
            git_repositories: self.git_repositories.clone(),
            removed_entry_ids: self.removed_entry_ids.clone(),
            snapshot: self.snapshot.clone(),
        };
        assert(r.ignores_by_parent_abs_path@ =~= self.ignores_by_parent_abs_path@);
        assert(r.git_repositories@ =~= self.git_repositories@);
        assert(r.removed_entry_ids@ =~= self.removed_entry_ids@);
        r
    }
}

impl LocalSnapshot {
    /// The entries.
    pub open(crate) spec fn snap(&self) -> Snapshot {
        self.snapshot
    }

    /// The ignore files by the directories that hold them.
    pub open(crate) spec fn ignores(&self) -> Ignores {
        by_key(self.ignores_by_parent_abs_path@).map_values(|f: IgnoreFile| f.rule())
    }

    /// The git repositories in the order of the directories that hold them.
    pub open(crate) spec fn repos(&self) -> Seq<GitRepositoryEntry> {
        self.git_repositories@
    }

    /// The git repositories by the directories that hold them.
    pub open spec fn repo_map(&self) -> Repos {
        by_key(self.repos())
    }

    /// The identifiers of removed entries by their inodes.
    pub open(crate) spec fn removed(&self) -> Removed {
        by_key(self.removed_entry_ids@).map_values(|r: RemovedEntry| r.id@)
    }

    /// The entries by their paths.
    pub open spec fn paths_map(&self) -> ByPath {
        self.snap().paths_map()
    }

    /// What is kept of the entries, by their identifiers.
    pub open spec fn ids_map(&self) -> ById {
        self.snap().ids_map()
    }

    /// The number of the last scan that began.
    pub open spec fn scan(&self) -> usize {
        self.snap().scan()
    }

    /// The text of the absolute path of the worktree.
    pub open spec fn root_text(&self) -> Seq<char> {
        self.snap().root_path()@
    }

    /// Whether everything stands in order.
    pub open(crate) spec fn wf(&self) -> bool {
        &&& self.snapshot.wf()
        &&& self.ignores_by_parent_abs_path.wf()
        &&& self.git_repositories.wf()
        &&& self.removed_entry_ids.wf()
    }

    /// Whether nothing but the entries, ignore files, repositories and removed identifiers
    /// changed.
    pub open spec fn same_scan(&self, other: LocalSnapshot) -> bool {
        &&& self.snap().same_tree(other.snap())
        &&& self.scan() == other.scan()
        &&& self.snap().completed_scan() == other.snap().completed_scan()
    }

    /// Whether two snapshots hold the same.
    pub open spec fn same_as(&self, other: LocalSnapshot) -> bool {
        &&& self.snap().same_as(other.snap())
        &&& self.ignores() == other.ignores()
        &&& self.repos() == other.repos()
        &&& self.removed() == other.removed()
    }

    /// Whether nothing but the numbers of scans changed.
    pub open spec fn is_rescanned(&self, other: LocalSnapshot) -> bool {
        &&& self.snap().same_tree(other.snap())
        &&& self.snap().list() == other.snap().list()
        &&& self.snap().id_list() == other.snap().id_list()
        &&& self.ignores() == other.ignores()
        &&& self.repos() == other.repos()
        &&& self.removed() == other.removed()
    }

    /// A snapshot with the given entries and nothing else.
    pub fn new(snapshot: Snapshot) -> (r: Self)
        requires
            snapshot.wf(),
        ensures
            r.wf(),
            r.snap() == snapshot,
            r.ignores() == Ignores::empty(),
            r.repos() == Seq::<GitRepositoryEntry>::empty(),
            r.removed() == Removed::empty(),
    {
        let r = LocalSnapshot {
            ignores_by_parent_abs_path: SumTree::new(),
            git_repositories: SumTree::new(),
            removed_entry_ids: SumTree::new(),
            snapshot,
        };
        assert(r.ignores() =~= Ignores::empty());
        assert(r.removed() =~= Removed::empty());
        r
    }

    /// The entries.
    pub fn snapshot(&self) -> (r: &Snapshot)
        ensures
            *r == self.snap(),
    {
        &self.snapshot
    }

    /// Notes that a scan begins.
    pub fn scan_started(&mut self)
        requires
            old(self).wf(),
            old(self).scan() < usize::MAX,
        ensures
            final(self).wf(),
            final(self).scan() == old(self).scan() + 1,
            final(self).is_rescanned(*old(self)),
            final(self).snap().completed_scan() == old(self).snap().completed_scan(),
    {
        self.snapshot.scan_started();
    }

    /// Notes that the scan that began last has ended.
    pub fn scan_completed(&mut self)
        requires
            old(self).wf(),
        ensures
            final(self).wf(),
            final(self).scan() == old(self).scan(),
            final(self).is_rescanned(*old(self)),
            final(self).snap().completed_scan() == old(self).scan(),
    {
        self.snapshot.scan_completed();
    }

    /// The directories whose ignore files are known, in the order of their paths and written as they
    /// are known.
    pub fn ignore_parents(&self) -> (r: Vec<Arc<Path>>)
        requires
            self.wf(),
        ensures
            sorted_paths(r@),
            forall|dir: Seq<Seq<char>>|
                #![trigger is_among(dir, r@)]
                is_among(dir, r@) <==> self.ignores().contains_key(dir),
            forall|i: int|
                #![trigger r@[i]]
                0 <= i < r@.len() ==> self.ignores()[r@[i].comps()].text == trimmed(r@[i]@),
    {
        let ghost s = self.ignores_by_parent_abs_path@;
        let mut r: Vec<Arc<Path>> = Vec::new();
        let mut i: usize = 0;
        while i < self.ignores_by_parent_abs_path.len()
            invariant
                i <= s.len(),
                s == self.ignores_by_parent_abs_path@,
                r@.len() == i,
                forall|k: int| #![trigger r@[k]] 0 <= k < i ==> r@[k] == s[k].parent_abs_path,
            decreases s.len() - i,
        {
            r.push(self.ignores_by_parent_abs_path.item(i).parent_abs_path.clone());
            i = i + 1;
        }
        proof {
            assert forall|a: int, b: int| #![trigger r@[a], r@[b]] 0 <= a < b < r@.len() implies names_lt(
                r@[a].comps(),
                r@[b].comps(),
            ) by {
                assert(IgnoreFile::key_lt(s[a].item_key(), s[b].item_key()));
            }
            assert forall|dir: Seq<Seq<char>>| #![trigger is_among(dir, r@)] is_among(
                dir,
                r@,
            ) <==> self.ignores().contains_key(dir) by {
                if is_among(dir, r@) {
                    let k = choose|k: int| #![trigger r@[k]] 0 <= k < r@.len() && r@[k].comps() == dir;
                    crate::sum_tree::lemma_item_with(s, k);
                }
                if self.ignores().contains_key(dir) {
                    let k = crate::sum_tree::lemma_key_index(s, dir);
                    assert(r@[k].comps() == dir);
                }
            }
            assert forall|k: int| #![trigger r@[k]] 0 <= k < r@.len() implies self.ignores()[r@[k].comps()].text
                == trimmed(r@[k]@) by {
                crate::sum_tree::lemma_item_with(s, k);
            }
        }
        r
    }

    /// The git repositories in the order of the directories that hold them.
    pub fn git_repo_entries(&self) -> (r: &[GitRepositoryEntry])
        ensures
            r@ == self.repos(),
    {
        self.git_repositories.as_slice()
    }
}

/// The identifier that an entry gets when it is put in: that of a removed entry with its inode, or
/// else that of the entry at its path, or else its own.
pub open spec fn reused_id(removed: Removed, paths: ByPath, e: Entry) -> usize {
    if removed.contains_key(e.inode) {
        removed[e.inode]
    } else if paths.contains_key(e.comps()) {
        paths[e.comps()].id@
    } else {
        e.id@
    }
}

/// Whether an entry is another one but for its identifier.
pub open spec fn same_but_id(r: Entry, e: Entry) -> bool {
    &&& r.kind == e.kind
    &&& r.path == e.path
    &&& r.inode == e.inode
    &&& r.mtime == e.mtime
    &&& r.is_symlink == e.is_symlink
    &&& r.is_ignored == e.is_ignored
}

/// Whether an entry is what another one becomes when it is put in: it takes an identifier over,
/// and a directory that was not read yet stays what it was where it is there already.
pub open spec fn is_put_in(removed: Removed, paths: ByPath, e: Entry, r: Entry) -> bool {
    &&& r.id@ == reused_id(removed, paths, e)
    &&& same_but_id(
        r,
        Entry {
            kind: if e.kind is PendingDir && paths.contains_key(e.comps()) {
                paths[e.comps()].kind
            } else {
                e.kind
            },
            ..e
        },
    )
}

/// The components of the absolute path of what lies at a relative path.
pub open spec fn abs_comps(root: Seq<char>, path: Seq<char>) -> Seq<Seq<char>> {
    components(join_text(root, path))
}

/// Whether an entry is an ignore file.
pub open spec fn is_ignore_file(e: Entry) -> bool {
    e.is_file_entry() && file_name_of(e.comps()) == Some(gitignore_name())
}

/// What becomes of the ignore files where an entry is put in: where it is an ignore file with
/// contents that can be used, its rules are those of its directory from then on.
pub open spec fn ignores_with(
    ignores: Ignores,
    root: Seq<char>,
    e: Entry,
    contents: Option<Seq<char>>,
    scan_id: usize,
) -> Ignores {
    let file = join_text(root, e.path@);
    if is_ignore_file(e) && contents is Some {
        match file_verdicts(file, contents->0) {
            Some(verdicts) => with_ignore(
                ignores,
                text_of_first(file, components(file).len() - 1),
                verdicts,
                scan_id,
            ),
            None => ignores,
        }
    } else {
        ignores
    }
}

/// Whether a snapshot is what another one becomes where an entry is put in and becomes `r`.
/// `contents` is the text of the entry where it is an ignore file that can be read.
pub open spec fn is_with_entry(
    before: LocalSnapshot,
    e: Entry,
    contents: Option<Seq<char>>,
    r: Entry,
    after: LocalSnapshot,
) -> bool {
    &&& is_put_in(before.removed(), before.paths_map(), e, r)
    &&& after.paths_map() == before.paths_map().insert(r.comps(), r)
    &&& after.ids_map() == before.ids_map().insert(r.id@, kept_of(r, before.scan()))
    &&& after.ignores() == ignores_with(
        before.ignores(),
        before.root_text(),
        e,
        contents,
        before.scan(),
    )
    &&& after.removed() == before.removed().remove(e.inode)
    &&& after.repos() == before.repos()
    &&& after.same_scan(before)
}

impl LocalSnapshot {
    /// Puts an ignore file in.
    pub(crate) fn insert_ignore(&mut self, parent_abs_path: Arc<Path>, ignore: Arc<Gitignore>, scan_id: usize)
        requires
            old(self).wf(),
        ensures
            final(self).wf(),
            final(self).ignores() == with_ignore(
                old(self).ignores(),
                parent_abs_path@,
                gitignore_verdicts(*ignore),
                scan_id,
            ),
            final(self).snap() == old(self).snap(),
            final(self).repos() == old(self).repos(),
            final(self).removed() == old(self).removed(),
    {
        let ghost key = parent_abs_path.comps();
        let kept = match self.ignores_by_parent_abs_path.get(&parent_abs_path) {
            Some(found) => {
                proof {
                    crate::sum_tree::lemma_key_index(self.ignores_by_parent_abs_path@, key);
                }
                found.parent_abs_path.clone()
            },
            None => parent_abs_path,
        };
        assert(kept.comps() == key);
        let file = IgnoreFile { parent_abs_path: kept, ignore, scan_id };
        let _ = self.ignores_by_parent_abs_path.insert_or_replace(file);
        assert(self.ignores() =~= old(self).ignores().insert(file.item_key(), file.rule()));
    }

    /// Gives an entry the identifier that it had before: that of a removed entry with its inode,
    /// which is then used up, or that of the entry at its path.
    pub fn reuse_entry_id(&mut self, entry: &mut Entry)
        requires
            old(self).wf(),
        ensures
            final(self).wf(),
            final(entry).id@ == reused_id(old(self).removed(), old(self).paths_map(), *old(entry)),
            same_but_id(*final(entry), *old(entry)),
            final(self).removed() == old(self).removed().remove(old(entry).inode),
            final(self).snap() == old(self).snap(),
            final(self).ignores() == old(self).ignores(),
            final(self).repos() == old(self).repos(),
    {
        let ghost before = self.removed();
        let found = self.removed_entry_ids.remove(&entry.inode);
        assert(self.removed() =~= before.remove(entry.inode));
        match found {
            Some(removed) => {
                entry.id = removed.id;
            },
            None => {
                match self.snapshot.entry_for_path(&entry.path) {
                    Some(existing) => {
                        entry.id = existing.id;
                    },
                    None => {},
                }
            },
        }
    }

    /// Puts an entry in and gives back what it became. `contents` is the text of the file where
    /// the entry is an ignore file that can be read.
    pub fn insert_entry(&mut self, entry: Entry, contents: Option<&str>) -> (r: Entry)
        requires
            old(self).wf(),
        ensures
            final(self).wf(),
            is_with_entry(
                *old(self),
                entry,
                match contents {
                    Some(t) => Some(t@),
                    None => None,
                },
                r,
                *final(self),
            ),
    {
        let mut entry = entry;
        let scan_id: usize = self.snapshot.scan_id;
        proof {
            reveal_strlit(".gitignore");
            assert(".gitignore"@ =~= gitignore_name());
        }
        if entry.is_file() && entry.path.file_name_is(".gitignore") {
            match contents {
                Some(contents) => {
                    let abs_path = self.snapshot.abs_path.join(&entry.path);
                    proof {
                        lemma_join_last(self.snapshot.abs_path@, entry.path@);
                    }
                    match (build_gitignore(&abs_path, contents), abs_path.parent()) {
                        (Ok(ignore), Some(parent)) => {
                            self.insert_ignore(Arc::new(parent), Arc::new(ignore), scan_id);
                        },
                        _ => {},
                    }
                },
                None => {},
            }
        }
        self.reuse_entry_id(&mut entry);
        let pending: bool = match entry.kind {
            EntryKind::PendingDir => true,
            _ => false,
        };
        if pending {
            match self.snapshot.entries_by_path.get(&entry.path) {
                Some(existing) => {
                    entry.kind = existing.kind.clone();
                },
                None => {},
            }
        }
        let kept = PathEntry {
            id: entry.id,
            path: entry.path.clone(),
            is_ignored: entry.is_ignored,
            scan_id,
        };
        let _ = self.snapshot.entries_by_path.insert_or_replace(entry.clone());
        let _ = self.snapshot.entries_by_id.insert_or_replace(kept);
        entry
    }
}

/// The entries that lie in a path, in order.
pub open spec fn entries_in(s: Seq<Entry>, base: Seq<Seq<char>>) -> Seq<Entry> {
    s.filter(|e: Entry| nested_in(e.comps(), base))
}

/// The identifiers of removed entries once more entries are removed: of two that had one inode,
/// the greater identifier is kept.
pub open spec fn removed_with(removed: Removed, gone: Seq<Entry>) -> Removed
    decreases gone.len(),
{
    if gone.len() == 0 {
        removed
    } else {
        let before = removed_with(removed, gone.drop_last());
        let e = gone.last();
        before.insert(
            e.inode,
            if before.contains_key(e.inode) && before[e.inode] > e.id@ {
                before[e.inode]
            } else {
                e.id@
            },
        )
    }
}

/// What becomes of the ignore files where a path is removed: that of its directory is noted as
/// changed where the path is that of an ignore file.
pub open spec fn ignores_without(
    ignores: Ignores,
    root: Seq<char>,
    path: Seq<Seq<char>>,
    scan_id: usize,
) -> Ignores {
    let dir = abs_comps(root, render(path.drop_last()));
    if file_name_of(path) == Some(gitignore_name()) && ignores.contains_key(dir) {
        ignores.insert(dir, IgnoreRule { scan_id, ..ignores[dir] })
    } else {
        ignores
    }
}

/// What becomes of the repositories where a path is removed: where it is named `.git`, those
/// whose `.git` directory is the directory that holds it are noted as changed.
pub open spec fn repos_without(
    repos: Seq<GitRepositoryEntry>,
    path: Seq<Seq<char>>,
    scan_id: usize,
) -> Seq<GitRepositoryEntry> {
    if file_name_of(path) == Some(dot_git()) {
        repos.map_values(
            |r: GitRepositoryEntry|
                if r.git_dir_path.comps() == path.drop_last() {
                    GitRepositoryEntry { scan_id, ..r }
                } else {
                    r
                },
        )
    } else {
        repos
    }
}

/// Whether a snapshot is what another one becomes where everything that lies in a path is taken
/// out.
pub open spec fn is_without_path(
    before: LocalSnapshot,
    path: Seq<Seq<char>>,
    after: LocalSnapshot,
) -> bool {
    &&& after.paths_map() == before.paths_map().remove_keys(paths_in(path))
    &&& after.ids_map() == before.ids_map().remove_keys(ids_in(before.paths_map(), path))
    &&& after.removed() == removed_with(before.removed(), entries_in(before.snap().list(), path))
    &&& after.ignores() == ignores_without(
        before.ignores(),
        before.root_text(),
        path,
        before.scan(),
    )
    &&& after.repos() == repos_without(before.repos(), path, before.scan())
    &&& after.same_scan(before)
}

/// What lies in a path, where it is known between which places it stands.
pub proof fn lemma_entries_in_block(s: Seq<Entry>, base: Seq<Seq<char>>, from: int, to: int)
    requires
        0 <= from <= to <= s.len(),
        forall|j: int|
            #![trigger s[j]]
            0 <= j < s.len() ==> (nested_in(s[j].comps(), base) <==> from <= j < to),
    ensures
        entries_in(s, base) == s.subrange(from, to),
    decreases s.len(),
{
    reveal(Seq::filter);
    if s.len() == 0 {
        assert(s.subrange(from, to) =~= Seq::empty());
    } else {
        let t = s.drop_last();
        let n = s.len() - 1;
        assert forall|j: int| #![trigger t[j]] 0 <= j < t.len() implies (nested_in(
            t[j].comps(),
            base,
        ) <==> from <= j < to) by {
            assert(t[j] == s[j]);
        }
        assert(s[n] == s.last());
        if to == s.len() && from < to {
            assert forall|j: int| #![trigger t[j]] 0 <= j < t.len() implies (nested_in(
                t[j].comps(),
                base,
            ) <==> from <= j < n) by {
                assert(t[j] == s[j]);
            }
            lemma_entries_in_block(t, base, from, n);
            assert(t.subrange(from, n).push(s.last()) =~= s.subrange(from, to));
        } else if from == to {
            assert forall|j: int| #![trigger t[j]] 0 <= j < t.len() implies (nested_in(
                t[j].comps(),
                base,
            ) <==> 0 <= j < 0) by {
                assert(t[j] == s[j]);
            }
            lemma_entries_in_block(t, base, 0, 0);
            assert(t.subrange(0, 0) =~= s.subrange(from, to));
        } else {
            lemma_entries_in_block(t, base, from, to);
            assert(t.subrange(from, to) =~= s.subrange(from, to));
        }
    }
}

impl LocalSnapshot {
    /// Takes out everything that lies in a path. The identifiers of what leaves are kept for
    /// entries with the same inodes, and an ignore file or repository that is touched is noted as
    /// changed by the current scan.
    pub fn remove_path(&mut self, path: &Path)
        requires
            old(self).wf(),
        ensures
            final(self).wf(),
            is_without_path(*old(self), path.comps(), *final(self)),
    {
        let ghost s = self.snapshot.list();
        let ghost ids = self.snapshot.ids_map();
        let ghost base = path.comps();
        let (from, to) = self.snapshot.subtree_range(path);
        let gone = self.snapshot.entries_by_path.remove_range(from, to);
        proof {
            lemma_take_out_subtree(s, base, from as int);
            lemma_ids_between_block(s, base, from as int, to as int);
            lemma_entries_in_block(s, base, from as int, to as int);
            lemma_no_edits::<PathEntry>();
            assert(gone@.take(0) =~= Seq::empty());
            assert(ids_between(s, from as int, from as int) =~= Set::empty());
        }
        let mut edits: Vec<Edit<PathEntry>> = Vec::new();
        let mut i: usize = 0;
        while i < gone.len()
            invariant
                i <= gone.len(),
                from + gone.len() == to,
                to <= s.len(),
                gone@ == s.subrange(from as int, to as int),
                self.wf(),
                self.snapshot.paths_map() == old(self).paths_map().remove_keys(paths_in(base)),
                self.ids_map() == ids,
                self.same_scan(*old(self)),
                self.ignores() == old(self).ignores(),
                self.repos() == old(self).repos(),
                self.removed() == removed_with(old(self).removed(), gone@.take(i as int)),
                forall|id: usize|
                    #![trigger removes(edits@, id)]
                    removes(edits@, id) <==> ids_between(s, from as int, from + i).contains(id),
                inserts(edits@) == ById::empty(),
            decreases gone.len() - i,
        {
            let entry = &gone[i];
            let ghost before = self.removed();
            let mut id = entry.id;
            match self.removed_entry_ids.get(&entry.inode) {
                Some(removed) => {
                    if removed.id.to_usize() > id.to_usize() {
                        id = removed.id;
                    }
                },
                None => {},
            }
            let _ = self.removed_entry_ids.insert_or_replace(
                RemovedEntry { inode: entry.inode, id },
            );
            let edit = Edit::Remove(entry.id);
            proof {
                assert(gone@.take(i + 1).drop_last() =~= gone@.take(i as int));
                assert(self.removed() =~= before.insert(entry.inode, id@));
                lemma_edits_push(edits@, edit);
                lemma_ids_between_push(s, from as int, from + i);
                assert(gone@[i as int] == s[from + i]);
                assert forall|k: usize| #![trigger removes(edits@.push(edit), k)] removes(
                    edits@.push(edit),
                    k,
                ) <==> ids_between(s, from as int, from + i + 1).contains(k) by {
                    assert(removes(edits@, k) <==> ids_between(s, from as int, from + i).contains(k));
                }
            }
            edits.push(edit);
            i = i + 1;
        }
        assert(gone@.take(gone@.len() as int) =~= gone@);
        self.snapshot.entries_by_id.edit(edits);
        assert(self.ids_map() =~= ids.remove_keys(ids_in(old(self).paths_map(), base))) by {
            assert forall|id: usize| #[trigger] self.ids_map().contains_key(id) <==> ids.remove_keys(
                ids_in(old(self).paths_map(), base),
            ).contains_key(id) by {
                assert(removes(edits@, id) <==> ids_between(s, from as int, to as int).contains(id));
            }
        }
        proof {
            reveal_strlit(".gitignore");
            assert(".gitignore"@ =~= gitignore_name());
            reveal_strlit(".git");
            assert(".git"@ =~= dot_git());
            assert(gitignore_name() != dot_git()) by {
                assert(gitignore_name().len() != dot_git().len());
            }
        }
        if path.file_name_is(".gitignore") {
            match path.parent() {
                Some(parent) => {
                    let abs_parent_path = self.snapshot.abs_path.join(&parent);
                    proof {
                        lemma_components_well_named(path@);
                        lemma_prefix_well_named(base, base.len() - 1);
                        assert(base.take(base.len() - 1) =~= base.drop_last());
                        lemma_components_render(base.drop_last());
                        lemma_join_same(self.root_text(), parent@, render(base.drop_last()));
                    }
                    self.touch_ignore(&abs_parent_path);
                },
                None => {},
            }
        } else if path.file_name_is(".git") {
            match path.parent() {
                Some(parent) => {
                    self.touch_repos(&parent);
                },
                None => {},
            }
        }
    }

    /// Notes that the ignore file of a directory was changed by the current scan.
    fn touch_ignore(&mut self, abs_path: &Path)
        requires
            old(self).wf(),
        ensures
            final(self).wf(),
            final(self).ignores() == if old(self).ignores().contains_key(abs_path.comps()) {
                old(self).ignores().insert(
                    abs_path.comps(),
                    IgnoreRule {
                        scan_id: old(self).scan(),
                        ..old(self).ignores()[abs_path.comps()]
                    },
                )
            } else {
                old(self).ignores()
            },
            final(self).snap() == old(self).snap(),
            final(self).repos() == old(self).repos(),
            final(self).removed() == old(self).removed(),
    {
        let ghost before = self.ignores();
        match self.ignores_by_parent_abs_path.get(abs_path) {
            Some(found) => {
                let mut file = found.clone();
                file.scan_id = self.snapshot.scan_id;
                proof {
                    crate::sum_tree::lemma_key_index(
                        self.ignores_by_parent_abs_path@,
                        abs_path.comps(),
                    );
                }
                let _ = self.ignores_by_parent_abs_path.insert_or_replace(file);
                assert(self.ignores() =~= before.insert(abs_path.comps(), file.rule()));
            },
            None => {},
        }
    }

    /// Notes that the repositories with a `.git` directory were changed by the current scan.
    fn touch_repos(&mut self, git_dir_path: &Path)
        requires
            old(self).wf(),
        ensures
            final(self).wf(),
            final(self).repos() == old(self).repos().map_values(
                |r: GitRepositoryEntry|
                    if r.git_dir_path.comps() == git_dir_path.comps() {
                        GitRepositoryEntry { scan_id: old(self).scan(), ..r }
                    } else {
                        r
                    },
            ),
            final(self).snap() == old(self).snap(),
            final(self).ignores() == old(self).ignores(),
            final(self).removed() == old(self).removed(),
    {
        let ghost before = self.repos();
        let ghost after = before.map_values(
            |r: GitRepositoryEntry|
                if r.git_dir_path.comps() == git_dir_path.comps() {
                    GitRepositoryEntry { scan_id: old(self).scan(), ..r }
                } else {
                    r
                },
        );
        let mut i: usize = 0;
        assert(after.take(0) + before.skip(0) =~= before);
        while i < self.git_repositories.len()
            invariant
                i <= before.len(),
                self.repos().len() == before.len(),
                before == old(self).repos(),
                self.wf(),
                self.snap() == old(self).snap(),
                self.ignores() == old(self).ignores(),
                self.removed() == old(self).removed(),
                after == before.map_values(
                    |r: GitRepositoryEntry|
                        if r.git_dir_path.comps() == git_dir_path.comps() {
                            GitRepositoryEntry { scan_id: old(self).scan(), ..r }
                        } else {
                            r
                        },
                ),
                self.repos() == after.take(i as int) + before.skip(i as int),
            decreases before.len() - i,
        {
            let repo = self.git_repositories.item(i);
            assert(*repo == before[i as int]);
            if repo.git_dir_path.same(git_dir_path) {
                let mut touched = repo.clone();
                touched.scan_id = self.snapshot.scan_id;
                self.git_repositories.set(i, touched);
            }
            assert(self.repos() =~= after.take(i + 1) + before.skip(i + 1));
            i = i + 1;
        }
        assert(self.repos() =~= after);
    }
}

/// The inodes of entries.
pub open spec fn inodes_of(es: Seq<Entry>) -> Set<u64> {
    Set::new(|n: u64| exists|i: int| #![trigger es[i]] 0 <= i < es.len() && es[i].inode == n)
}

/// Whether entries are others but for the identifiers that they take over, one after the other.
pub open spec fn reuses_ids(removed: Removed, paths: ByPath, es: Seq<Entry>, rs: Seq<Entry>) -> bool {
    &&& rs.len() == es.len()
    &&& forall|i: int|
        #![trigger rs[i]]
        0 <= i < rs.len() ==> same_but_id(rs[i], es[i]) && rs[i].id@ == reused_id(
            removed.remove_keys(inodes_of(es.take(i))),
            paths,
            es[i],
        )
}

/// Whether a directory that is read is the `.git` directory of a repository that is not known
/// yet.
pub open spec fn finds_repo(repos: Repos, dir: Seq<Seq<char>>) -> bool {
    file_name_of(dir) == Some(dot_git()) && !repos.contains_key(dir.drop_last())
}

/// Whether a snapshot is what another one becomes where a directory was read: the directory is
/// not pending any more, and its children are there under the identifiers that they had before.
pub open spec fn is_populated(
    before: LocalSnapshot,
    dir: Seq<Seq<char>>,
    es: Seq<Entry>,
    rs: Seq<Entry>,
    after: LocalSnapshot,
) -> bool {
    &&& reuses_ids(before.removed(), before.paths_map(), es, rs)
    &&& after.paths_map() == before.paths_map().insert(
        dir,
        Entry { kind: EntryKind::Dir, ..before.paths_map()[dir] },
    ).union_prefer_right(entries_by_path(rs))
    &&& after.ids_map() == before.ids_map().union_prefer_right(entries_by_id(rs, before.scan()))
    &&& after.removed() == before.removed().remove_keys(inodes_of(es))
}

/// Whether a snapshot is what another one becomes where a directory was read that may be gone by
/// now. `ignore` is what the ignore file of the directory says, and `repo` the repository that
/// was opened where the directory is the `.git` directory of a new one.
pub open spec fn is_dir_populated(
    before: LocalSnapshot,
    path: Arc<Path>,
    es: Seq<Entry>,
    ignore: Option<Verdicts>,
    repo: Option<u64>,
    after: LocalSnapshot,
) -> bool {
    let dir = path.comps();
    &&& after.same_scan(before)
    &&& !before.paths_map().contains_key(dir) ==> after.same_as(before)
    &&& before.paths_map().contains_key(dir) ==> {
        &&& exists|rs: Seq<Entry>| #[trigger] is_populated(before, dir, es, rs, after)
        &&& after.ignores() == match ignore {
            Some(verdicts) => with_ignore(
                before.ignores(),
                join_text(before.root_text(), path@),
                verdicts,
                before.scan(),
            ),
            None => before.ignores(),
        }
        &&& if finds_repo(before.repo_map(), dir) && repo is Some {
            is_repo_added(before.repo_map(), path, repo->0, after.repo_map())
        } else {
            after.repos() == before.repos()
        }
    }
}

/// Whether repositories are others and one more, with the given `.git` directory.
pub open spec fn is_repo_added(before: Repos, git_dir: Arc<Path>, repo: u64, after: Repos) -> bool {
    let dir = git_dir.comps().drop_last();
    let found = after[dir];
    &&& after == before.insert(dir, found)
    &&& found.repo == repo
    &&& found.scan_id == 0
    &&& found.content_path.comps() == dir
    &&& found.git_dir_path == git_dir
}

impl LocalSnapshot {
    /// The path of the repository that has to be opened before a directory is populated.
    pub fn repo_to_open(&self, parent_path: &Path) -> (r: Option<Path>)
        requires
            self.wf(),
        ensures
            r is Some <==> self.paths_map().contains_key(parent_path.comps()) && finds_repo(
                self.repo_map(),
                parent_path.comps(),
            ),
            r matches Some(p) ==> p@ == join_text(self.root_text(), parent_path@),
    {
        proof {
            reveal_strlit(".git");
            assert(".git"@ =~= dot_git());
        }
        if self.snapshot.entry_for_path(parent_path).is_none() {
            return None;
        }
        if !parent_path.file_name_is(".git") {
            return None;
        }
        match parent_path.parent() {
            Some(content_path) => {
                if self.git_repositories.get(&content_path).is_some() {
                    None
                } else {
                    Some(self.snapshot.abs_path.join(parent_path))
                }
            },
            None => None,
        }
    }

    /// Puts in the entries of a directory that was read, and its ignore file where it has one. A
    /// directory that is gone by now is left alone. `repo` is the repository that was opened
    /// where the directory is the `.git` directory of a new one.
    pub fn populate_dir(
        &mut self,
        parent_path: Arc<Path>,
        entries: Vec<Entry>,
        ignore: Option<Arc<Gitignore>>,
        repo: Option<u64>,
    )
        requires
            old(self).wf(),
            old(self).paths_map().contains_key(parent_path.comps()) ==> old(
                self,
            ).paths_map()[parent_path.comps()].kind is PendingDir,
        ensures
            final(self).wf(),
            is_dir_populated(
                *old(self),
                parent_path,
                entries@,
                match ignore {
                    Some(g) => Some(gitignore_verdicts(*g)),
                    None => None,
                },
                repo,
                *final(self),
            ),
    {
        let ghost paths = self.paths_map();
        let ghost ids = self.ids_map();
        let ghost dir = parent_path.comps();
        let ghost removed = self.removed();
        let ghost repos = self.repo_map();
        let scan_id: usize = self.snapshot.scan_id;
        let mut parent_entry = match self.snapshot.entry_for_path(&parent_path) {
            Some(entry) => entry.clone(),
            None => {
                return;
            },
        };
        match ignore {
            Some(ignore) => {
                let abs_path = self.snapshot.abs_path.join(&parent_path);
                self.insert_ignore(Arc::new(abs_path), ignore, scan_id);
            },
            None => {},
        }
        parent_entry.kind = EntryKind::Dir;
        assert(parent_entry == (Entry { kind: EntryKind::Dir, ..paths[dir] }));
        proof {
            reveal_strlit(".git");
            assert(".git"@ =~= dot_git());
        }
        if parent_path.file_name_is(".git") {
            match (parent_path.parent(), repo) {
                (Some(content_path), Some(repo)) => {
                    if self.git_repositories.get(&content_path).is_none() {
                        let found = GitRepositoryEntry {
                            repo,
                            scan_id: 0,
                            content_path: Arc::new(content_path),
                            git_dir_path: parent_path.clone(),
                        };
                        let _ = self.git_repositories.insert_or_replace(found);
                        assert(self.repo_map()[dir.drop_last()] == found);
                    }
                },
                _ => {},
            }
        }
        let ghost between = *self;
        let ghost es = entries@;
        let ghost mut rs: Seq<Entry> = Seq::empty();
        let parent_edit = Edit::Insert(parent_entry);
        let mut path_edits: Vec<Edit<Entry>> = Vec::new();
        let mut id_edits: Vec<Edit<PathEntry>> = Vec::new();
        proof {
            lemma_no_edits::<Entry>();
            lemma_no_edits::<PathEntry>();
            lemma_edits_push(path_edits@, parent_edit);
            assert(removed.remove_keys(inodes_of(es.take(0))) =~= removed);
        }
        path_edits.push(parent_edit);
        let ghost first = ByPath::empty().insert(dir, parent_entry);
        assert(inserts(path_edits@) =~= first.union_prefer_right(entries_by_path(rs)));
        for child in it: entries
            invariant
                it.seq() == es,
                self.wf(),
                self.snap() == between.snap(),
                self.ignores() == between.ignores(),
                self.repos() == between.repos(),
                self.removed() == removed.remove_keys(inodes_of(es.take(it.index()))),
                paths == between.paths_map(),
                scan_id == between.scan(),
                rs.len() == it.index(),
                reuses_ids(removed, paths, es.take(it.index()), rs),
                forall|p: Seq<Seq<char>>| #![trigger removes(path_edits@, p)] !removes(path_edits@, p),
                forall|id: usize| #![trigger removes(id_edits@, id)] !removes(id_edits@, id),
                inserts(path_edits@) == first.union_prefer_right(entries_by_path(rs)),
                inserts(id_edits@) == entries_by_id(rs, scan_id),
        {
            let ghost j = it.index();
            let mut entry = child;
            assert(es[j] == entry);
            self.reuse_entry_id(&mut entry);
            let kept = PathEntry {
                id: entry.id,
                path: entry.path.clone(),
                is_ignored: entry.is_ignored,
                scan_id,
            };
            proof {
                let next = rs.push(entry);
                assert(next.drop_last() =~= rs);
                lemma_inodes_push(es, j);
                assert(self.removed() =~= removed.remove_keys(inodes_of(es.take(j + 1))));
                assert forall|k: int| #![trigger next[k]] 0 <= k < next.len() implies same_but_id(
                    next[k],
                    es.take(j + 1)[k],
                ) && next[k].id@ == reused_id(
                    removed.remove_keys(inodes_of(es.take(j + 1).take(k))),
                    paths,
                    es.take(j + 1)[k],
                ) by {
                    assert(es.take(j + 1).take(k) =~= es.take(k));
                    if k < j {
                        assert(next[k] == rs[k]);
                        assert(es.take(j).take(k) =~= es.take(k));
                        assert(es.take(j)[k] == es[k]);
                    }
                }
                lemma_edits_push(id_edits@, Edit::Insert(kept));
                lemma_edits_push(path_edits@, Edit::Insert(entry));
                assert(first.union_prefer_right(entries_by_path(rs)).insert(entry.comps(), entry)
                    =~= first.union_prefer_right(entries_by_path(next)));
                rs = next;
            }
            id_edits.push(Edit::Insert(kept));
            path_edits.push(Edit::Insert(entry));
        }
        assert(es.take(es.len() as int) =~= es);
        self.snapshot.entries_by_path.edit(path_edits);
        self.snapshot.entries_by_id.edit(id_edits);
        proof {
            assert(self.paths_map() =~= paths.insert(dir, parent_entry).union_prefer_right(
                entries_by_path(rs),
            ));
            assert(self.ids_map() =~= ids.union_prefer_right(entries_by_id(rs, scan_id)));
            assert(is_populated(*old(self), dir, es, rs, *self));
        }
    }
}

/// The inodes of entries with one more.
proof fn lemma_inodes_push(es: Seq<Entry>, j: int)
    requires
        0 <= j < es.len(),
    ensures
        inodes_of(es.take(j + 1)) == inodes_of(es.take(j)).insert(es[j].inode),
{
    let a = es.take(j);
    let b = es.take(j + 1);
    assert forall|n: u64| inodes_of(b).contains(n) <==> inodes_of(a).insert(es[j].inode).contains(
        n,
    ) by {
        if inodes_of(b).contains(n) {
            let i = choose|i: int| #![trigger b[i]] 0 <= i < b.len() && b[i].inode == n;
            if i < j {
                assert(a[i] == b[i]);
            }
        }
        if inodes_of(a).contains(n) {
            let i = choose|i: int| #![trigger a[i]] 0 <= i < a.len() && a[i].inode == n;
            assert(b[i] == a[i]);
        }
        assert(b[j] == es[j]);
    }
    assert(inodes_of(b) =~= inodes_of(a).insert(es[j].inode));
}

/// The inodes of the entries above a path.
pub open spec fn ancestor_inodes(paths: ByPath, path: Seq<Seq<char>>) -> Set<u64> {
    Set::new(
        |n: u64|
            exists|k: int|
                #![trigger path.take(k)]
                root_length(path) <= k < path.len() && paths.contains_key(path.take(k))
                    && paths[path.take(k)].inode == n,
    )
}

/// What applies in a directory, by what applies to the directory itself: where the directory is
/// ignored, so is everything in it; else its ignore file comes on top.
pub open spec fn rules_in(ignores: Ignores, before: IgnoreRules, dir: Seq<char>) -> IgnoreRules {
    let key = components(dir);
    if is_ignored_by(before, dir, true) {
        IgnoreRules::All
    } else if ignores.contains_key(key) {
        with_layer(before, Layer { base: key, verdicts: ignores[key].verdicts })
    } else {
        before
    }
}

/// What applies to a path by the directories above it that have fewer than `n` components.
pub open spec fn rules_above(ignores: Ignores, path: Seq<char>, n: int) -> IgnoreRules
    decreases n,
{
    if n <= root_length(components(path)) {
        no_rules()
    } else {
        rules_in(ignores, rules_above(ignores, path, n - 1), text_of_first(path, n - 1))
    }
}

/// What applies to a path by all directories above it.
pub open spec fn rules_for(ignores: Ignores, path: Seq<char>) -> IgnoreRules {
    rules_above(ignores, path, components(path).len() as int)
}

/// Whether a path is ignored by the ignore files above it.
pub open spec fn path_ignored(ignores: Ignores, path: Seq<char>, is_dir: bool) -> bool {
    is_ignored_by(rules_for(ignores, path), path, is_dir)
}

impl LocalSnapshot {
    /// The inodes of the entries above a path.
    pub fn ancestor_inodes_for_path(&self, path: &Path) -> (r: InodeSet)
        requires
            self.wf(),
        ensures
            r@ == ancestor_inodes(self.paths_map(), path.comps()),
    {
        let ghost c = path.comps();
        let ghost paths = self.paths_map();
        let ancestors = path.ancestors();
        let mut inodes = InodeSet::default();
        let mut i: usize = 0;
        assert(inodes@ =~= inodes_above(paths, c, c.len() as int));
        while i < ancestors.len()
            invariant
                i <= ancestors.len(),
                self.wf(),
                c == path.comps(),
                paths == self.paths_map(),
                are_ancestors(ancestors@, path@),
                inodes@ == inodes_above(paths, c, c.len() - i),
            decreases ancestors.len() - i,
        {
            let ghost k = c.len() - 1 - i;
            assert(ancestors@[i as int].comps() == c.take(k));
            match self.snapshot.entry_for_path(&ancestors[i]) {
                Some(entry) => {
                    inodes.insert(entry.inode);
                },
                None => {},
            }
            proof {
                lemma_inodes_above(paths, c, k);
            }
            i = i + 1;
        }
        assert(inodes@ =~= ancestor_inodes(paths, c));
        inodes
    }

    /// The ignore files that apply at an absolute path. Where the path is ignored, everything in
    /// it is.
    pub fn ignore_stack_for_abs_path(&self, abs_path: &Path, is_dir: bool) -> (r: IgnoreStack)
        requires
            self.wf(),
        ensures
            r@ == if path_ignored(self.ignores(), abs_path@, is_dir) {
                IgnoreRules::All
            } else {
                rules_for(self.ignores(), abs_path@)
            },
    {
        let ghost t = abs_path@;
        let ghost c = abs_path.comps();
        let ghost ignores = self.ignores();
        let ancestors = abs_path.ancestors();
        let mut ignore_stack = IgnoreStack::none();
        let mut i: usize = ancestors.len();
        while i > 0
            invariant
                i <= ancestors.len(),
                self.wf(),
                t == abs_path@,
                c == abs_path.comps(),
                ignores == self.ignores(),
                are_ancestors(ancestors@, t),
                ignore_stack@ == rules_above(ignores, t, c.len() - i),
            decreases i,
        {
            i = i - 1;
            let ancestor = &ancestors[i];
            let ghost n = c.len() - i;
            assert(ancestor.comps() == c.take(n - 1));
            if ignore_stack.is_abs_path_ignored(ancestor, true) {
                ignore_stack = IgnoreStack::all();
            } else {
                match self.ignores_by_parent_abs_path.get(ancestor) {
                    Some(file) => {
                        ignore_stack = ignore_stack.append(ancestor.clone(), file.ignore.clone());
                    },
                    None => {},
                }
            }
        }
        if ignore_stack.is_abs_path_ignored(abs_path, is_dir) {
            ignore_stack = IgnoreStack::all();
        }
        ignore_stack
    }

    /// The innermost repository that a path lies in.
    pub fn repo_for(&self, path: &Path) -> (r: Option<GitRepositoryEntry>)
        requires
            self.wf(),
        ensures
            r is Some <==> is_managed(self.repos(), path.comps()),
            r is None ==> forall|j: int|
                #![trigger self.repos()[j]]
                0 <= j < self.repos().len() ==> !nested_in(
                    path.comps(),
                    self.repos()[j].content_path.comps(),
                ),
            r matches Some(repo) ==> {
                &&& self.repos().contains(repo)
                &&& nested_in(path.comps(), repo.content_path.comps())
                &&& forall|j: int|
                    #![trigger self.repos()[j]]
                    0 <= j < self.repos().len() && nested_in(
                        path.comps(),
                        self.repos()[j].content_path.comps(),
                    ) ==> nested_in(
                        repo.content_path.comps(),
                        self.repos()[j].content_path.comps(),
                    )
            },
    {
        let ghost s = self.repos();
        let mut i: usize = self.git_repositories.len();
        while i > 0
            invariant
                i <= s.len(),
                s == self.repos(),
                self.wf(),
                forall|j: int|
                    #![trigger s[j]]
                    i <= j < s.len() ==> !nested_in(path.comps(), s[j].content_path.comps()),
            decreases i,
        {
            i = i - 1;
            let repo = self.git_repositories.item(i);
            if repo.manages(path) {
                assert(s[i as int] == *repo);
                assert(is_managed(s, path.comps()));
                assert forall|j: int|
                    #![trigger s[j]]
                    0 <= j < s.len() && nested_in(
                        path.comps(),
                        s[j].content_path.comps(),
                    ) implies nested_in(repo.content_path.comps(), s[j].content_path.comps()) by {
                    let a = repo.content_path.comps();
                    let b = s[j].content_path.comps();
                    if j < i {
                        assert(names_lt(b, a));
                        if a.len() < b.len() {
                            lemma_prefixes_nest(path.comps(), b, a);
                            lemma_nested_is_after(b, a);
                            lemma_names_lt_asymmetric(b, a);
                        }
                    }
                    lemma_prefixes_nest(path.comps(), a, b);
                }
                return Some(repo.clone());
            }
        }
        None
    }

    /// The place of the first repository in whose `.git` directory a path lies.
    fn dot_git_index(&self, path: &Path) -> (r: Option<usize>)
        ensures
            match r {
                Some(i) => is_first_in_dot_git(self.repos(), path.comps(), i as int),
                None => forall|j: int|
                    #![trigger self.repos()[j]]
                    0 <= j < self.repos().len() ==> !nested_in(
                        path.comps(),
                        self.repos()[j].git_dir_path.comps(),
                    ),
            },
    {
        let mut i: usize = 0;
        while i < self.git_repositories.len()
            invariant
                i <= self.repos().len(),
                forall|j: int|
                    #![trigger self.repos()[j]]
                    0 <= j < i ==> !nested_in(path.comps(), self.repos()[j].git_dir_path.comps()),
            decreases self.repos().len() - i,
        {
            if self.git_repositories.item(i).in_dot_git(path) {
                return Some(i);
            }
            i = i + 1;
        }
        None
    }

    /// The repository in whose `.git` directory a path lies.
    pub fn in_dot_git(&self, path: &Path) -> (r: Option<&GitRepositoryEntry>)
        ensures
            r is Some <==> is_in_git_dir(self.repos(), path.comps()),
            match r {
                Some(repo) => exists|i: int|
                    #![trigger self.repos()[i]]
                    is_first_in_dot_git(self.repos(), path.comps(), i) && self.repos()[i] == *repo,
                None => forall|j: int|
                    #![trigger self.repos()[j]]
                    0 <= j < self.repos().len() ==> !nested_in(
                        path.comps(),
                        self.repos()[j].git_dir_path.comps(),
                    ),
            },
    {
        match self.dot_git_index(path) {
            Some(i) => Some(self.git_repositories.item(i)),
            None => None,
        }
    }

    /// Notes that the repository in whose `.git` directory a path lies was changed by the current
    /// scan, and gives its number back.
    pub fn touch_dot_git(&mut self, path: &Path) -> (r: Option<u64>)
        requires
            old(self).wf(),
        ensures
            final(self).wf(),
            are_repos_touched(
                old(self).repos(),
                path.comps(),
                old(self).scan(),
                r,
                final(self).repos(),
            ),
            final(self).snap() == old(self).snap(),
            final(self).ignores() == old(self).ignores(),
            final(self).removed() == old(self).removed(),
    {
        match self.dot_git_index(path) {
            Some(i) => {
                let mut touched = self.git_repositories.item(i).clone();
                touched.scan_id = self.snapshot.scan_id;
                let repo: u64 = touched.repo;
                self.git_repositories.set(i, touched);
                assert(is_first_in_dot_git(old(self).repos(), path.comps(), i as int));
                Some(repo)
            },
            None => None,
        }
    }

    /// Drops the repositories whose `.git` directory is gone.
    pub fn update_git_repositories(&mut self)
        requires
            old(self).wf(),
        ensures
            final(self).wf(),
            final(self).repos() == repos_left(old(self).repos(), old(self).paths_map()),
            final(self).snap() == old(self).snap(),
            final(self).ignores() == old(self).ignores(),
            final(self).removed() == old(self).removed(),
    {
        let ghost s = self.repos();
        let ghost paths = self.paths_map();
        let ghost keep = |r: GitRepositoryEntry| paths.contains_key(r.git_dir_path.comps());
        let mut kept: Vec<GitRepositoryEntry> = Vec::new();
        let mut i: usize = 0;
        proof {
            reveal(Seq::filter);
            assert(s.take(0) =~= Seq::empty());
        }
        while i < self.git_repositories.len()
            invariant
                i <= s.len(),
                s == self.repos(),
                *self == *old(self),
                self.wf(),
                paths == self.paths_map(),
                keep == (|r: GitRepositoryEntry| paths.contains_key(r.git_dir_path.comps())),
                kept@ == s.take(i as int).filter(keep),
            decreases s.len() - i,
        {
            let repo = self.git_repositories.item(i);
            proof {
                reveal(Seq::filter);
                assert(s.take(i + 1).drop_last() =~= s.take(i as int));
            }
            if self.snapshot.entry_for_path(&repo.git_dir_path).is_some() {
                kept.push(repo.clone());
            }
            i = i + 1;
        }
        proof {
            assert(s.take(s.len() as int) =~= s);
            lemma_filter_sorted(s, keep);
        }
        self.git_repositories = SumTree::from_sorted(kept);
    }
}

/// Whether repositories are others where the first one in whose `.git` directory a path lies is
/// noted as changed by a scan. `r` is the number of that repository.
pub open spec fn are_repos_touched(
    before: Seq<GitRepositoryEntry>,
    path: Seq<Seq<char>>,
    scan_id: usize,
    r: Option<u64>,
    after: Seq<GitRepositoryEntry>,
) -> bool {
    match r {
        Some(repo) => exists|i: int|
            {
                &&& #[trigger] is_first_in_dot_git(before, path, i)
                &&& repo == before[i].repo
                &&& after == before.update(i, GitRepositoryEntry { scan_id, ..before[i] })
            },
        None => after == before && forall|j: int|
            #![trigger before[j]]
            0 <= j < before.len() ==> !nested_in(path, before[j].git_dir_path.comps()),
    }
}

/// The repositories whose `.git` directory is there.
pub open spec fn repos_left(repos: Seq<GitRepositoryEntry>, paths: ByPath) -> Seq<GitRepositoryEntry> {
    repos.filter(|r: GitRepositoryEntry| paths.contains_key(r.git_dir_path.comps()))
}

/// Whether a path lies in one of some repositories.
pub open spec fn is_managed(repos: Seq<GitRepositoryEntry>, path: Seq<Seq<char>>) -> bool {
    exists|j: int|
        #![trigger repos[j]]
        0 <= j < repos.len() && nested_in(path, repos[j].content_path.comps())
}

/// Whether a path lies in the `.git` directory of one of some repositories.
pub open spec fn is_in_git_dir(repos: Seq<GitRepositoryEntry>, path: Seq<Seq<char>>) -> bool {
    exists|j: int|
        #![trigger repos[j]]
        0 <= j < repos.len() && nested_in(path, repos[j].git_dir_path.comps())
}

/// Whether a place is that of the first repository in whose `.git` directory a path lies.
pub open spec fn is_first_in_dot_git(
    repos: Seq<GitRepositoryEntry>,
    path: Seq<Seq<char>>,
    i: int,
) -> bool {
    &&& 0 <= i < repos.len()
    &&& nested_in(path, repos[i].git_dir_path.comps())
    &&& forall|j: int|
        #![trigger repos[j]]
        0 <= j < i ==> !nested_in(path, repos[j].git_dir_path.comps())
}

/// The inodes of the entries above a path that have at least `n` components.
spec fn inodes_above(paths: ByPath, path: Seq<Seq<char>>, n: int) -> Set<u64> {
    Set::new(
        |i: u64|
            exists|k: int|
                #![trigger path.take(k)]
                n <= k < path.len() && paths.contains_key(path.take(k)) && paths[path.take(k)].inode
                    == i,
    )
}

proof fn lemma_inodes_above(paths: ByPath, path: Seq<Seq<char>>, n: int)
    requires
        0 <= n < path.len(),
    ensures
        inodes_above(paths, path, n) == if paths.contains_key(path.take(n)) {
            inodes_above(paths, path, n + 1).insert(paths[path.take(n)].inode)
        } else {
            inodes_above(paths, path, n + 1)
        },
{
    let a = inodes_above(paths, path, n);
    let b = inodes_above(paths, path, n + 1);
    assert forall|i: u64| a.contains(i) <==> b.contains(i) || (paths.contains_key(path.take(n))
        && paths[path.take(n)].inode == i) by {
        if a.contains(i) {
            let k = choose|k: int|
                #![trigger path.take(k)]
                n <= k < path.len() && paths.contains_key(path.take(k)) && paths[path.take(k)].inode
                    == i;
            if k > n {
                assert(n + 1 <= k < path.len() && paths.contains_key(path.take(k)));
            }
        }
        if b.contains(i) {
            let k = choose|k: int|
                #![trigger path.take(k)]
                n + 1 <= k < path.len() && paths.contains_key(path.take(k))
                    && paths[path.take(k)].inode == i;
            assert(n <= k < path.len() && paths.contains_key(path.take(k)));
        }
    }
    if paths.contains_key(path.take(n)) {
        assert(a =~= b.insert(paths[path.take(n)].inode));
    } else {
        assert(a =~= b);
    }
}

} // verus!
