//! How one path that was just written is brought into a snapshot.
use crate::entry::{is_entry_for, Entry, Metadata, WorktreeError};
use crate::ids::next_number;
use crate::local_snapshot::{is_with_entry, is_without_path, path_ignored, LocalSnapshot};
use crate::path::{components, file_name_of, join_text, Path};
use std::sync::Arc;
use vstd::prelude::*;

verus! {

/// The text of the absolute path of what lies at a relative path. A path without a file name is
/// that of the root.
pub open spec fn absolute_text(root: Seq<char>, path: Seq<char>) -> Seq<char> {
    if file_name_of(components(path)) is Some {
        join_text(root, path)
    } else {
        root
    }
}

/// Whether an entry is the one that is put in for a path that was written.
pub open spec fn is_written_entry(
    e: Entry,
    before: LocalSnapshot,
    path: Arc<Path>,
    metadata: Metadata,
    id: usize,
) -> bool {
    &&& is_entry_for(e, path@, metadata, before.snap().root_chars())
    &&& e.id@ == id
    &&& e.path == path
    &&& e.is_ignored == path_ignored(
        before.ignores(),
        absolute_text(before.root_text(), path@),
        metadata.is_dir,
    )
}

/// Whether a snapshot is what another one becomes where a path was written: what lies in the path
/// that it was moved from goes, and the entry `e` for the path comes and becomes `r`, in a scan of
/// its own.
pub open spec fn is_refreshed(
    before: LocalSnapshot,
    e: Entry,
    old_path: Option<Arc<Path>>,
    contents: Option<Seq<char>>,
    r: Entry,
    after: LocalSnapshot,
    removed: LocalSnapshot,
    started: LocalSnapshot,
    inserted: LocalSnapshot,
) -> bool {
    &&& match old_path {
        Some(path) => is_without_path(before, path.comps(), removed),
        None => removed == before,
    }
    &&& started.is_rescanned(removed)
    &&& started.scan() == removed.scan() + 1
    &&& is_with_entry(started, e, contents, r, inserted)
    &&& after.is_rescanned(inserted)
    &&& after.scan() == before.scan() + 1
    &&& after.snap().completed_scan() == before.scan() + 1
}

/// Whether a snapshot is what another one becomes where a path was written, and `r` is the entry
/// that comes.
pub open spec fn makes_entry(
    before: LocalSnapshot,
    path: Arc<Path>,
    old_path: Option<Arc<Path>>,
    metadata: Metadata,
    contents: Option<Seq<char>>,
    id: usize,
    r: Entry,
    after: LocalSnapshot,
) -> bool {
    exists|e: Entry, removed: LocalSnapshot, started: LocalSnapshot, inserted: LocalSnapshot|
        {
            &&& #[trigger] is_refreshed(
                before,
                e,
                old_path,
                contents,
                r,
                after,
                removed,
                started,
                inserted,
            )
            &&& is_written_entry(e, before, path, metadata, id)
        }
}

impl LocalSnapshot {
    /// The absolute path of what lies at a relative path.
    pub fn absolutize(&self, path: &Path) -> (r: Path)
        ensures
            r@ == absolute_text(self.root_text(), path@),
    {
        if path.file_name().is_some() {
            self.snapshot.abs_path.join(path)
        } else {
            Path::new(self.snapshot.abs_path.as_str())
        }
    }

    /// Brings in a path that was just written, and takes out the path that it was moved from
    /// where there is one. Gives back the entry. `contents` is the text of the file where it is
    /// an ignore file.
    pub fn refresh_entry(
        &mut self,
        path: Arc<Path>,
        old_path: Option<Arc<Path>>,
        metadata: Option<Metadata>,
        contents: Option<&str>,
        next_entry_id: &mut usize,
    ) -> (r: Result<Entry, WorktreeError>)
        requires
            old(self).wf(),
            old(self).scan() < usize::MAX,
        ensures
            final(self).wf(),
            match r {
                Ok(entry) => {
                    &&& metadata is Some
                    &&& *final(next_entry_id) == next_number(*old(next_entry_id))
                    &&& makes_entry(
                        *old(self),
                        path,
                        old_path,
                        metadata->0,
                        text(contents),
                        *old(next_entry_id),
                        entry,
                        *final(self),
                    )
                },
                Err(error) => {
                    &&& error == WorktreeError::MissingMetadata
                    &&& metadata is None
                    &&& *final(self) == *old(self)
                    &&& *final(next_entry_id) == *old(next_entry_id)
                },
            },
    {
        let metadata = match metadata {
            Some(metadata) => metadata,
            None => {
                return Err(WorktreeError::MissingMetadata);
            },
        };
        let abs_path = self.absolutize(&path);
        let mut entry = Entry::new(
            path.clone(),
            &metadata,
            next_entry_id,
            &self.snapshot.root_char_bag,
        );
        let is_dir: bool = entry.is_dir();
        let ignore_stack = self.ignore_stack_for_abs_path(&abs_path, is_dir);
        entry.is_ignored = ignore_stack.is_abs_path_ignored(&abs_path, is_dir);
        let ghost e = entry;
        match &old_path {
            Some(old_path) => {
                self.remove_path(old_path);
            },
            None => {},
        }
        let ghost removed = *self;
        self.scan_started();
        let ghost started = *self;
        let inserted_entry = self.insert_entry(entry, contents);
        let ghost inserted = *self;
        self.scan_completed();
        proof {
            assert(is_written_entry(e, *old(self), path, metadata, *old(next_entry_id)));
            assert(is_refreshed(
                *old(self),
                e,
                old_path,
                text(contents),
                inserted_entry,
                *self,
                removed,
                started,
                inserted,
            ));
        }
        Ok(inserted_entry)
    }
}

/// What a string holds, where there is one.
pub open spec fn text(contents: Option<&str>) -> Option<Seq<char>> {
    match contents {
        Some(t) => Some(t@),
        None => None,
    }
}

} // verus!
