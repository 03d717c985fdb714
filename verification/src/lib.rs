//! The file tree of a project: what it holds, how it is kept up to date and how it is shared.
pub mod change_laws;
pub mod changed_repos;
pub mod char_bag;
pub mod diagnostics;
pub mod dir_laws;
pub mod entry;
pub mod entry_laws;
pub mod event_laws;
pub mod event_status_laws;
pub mod events;
pub mod file;
pub mod gitignore;
pub mod history_laws;
pub mod ids;
pub mod ignore_laws;
pub mod ignore_stack;
pub mod inodes;
pub mod local_snapshot;
pub mod local_worktree;
pub mod mark_laws;
pub mod order_laws;
pub mod outermost;
pub mod path;
pub mod path_laws;
pub mod path_lemmas;
pub mod path_map;
pub mod path_text;
pub mod proto;
pub mod reading_laws;
pub mod reflect_laws;
pub mod refresh;
pub mod remote_worktree;
pub mod rename_laws;
pub mod repo_laws;
pub mod rule_laws;
pub mod scan_laws;
pub mod scan_loop;
pub mod scanner;
pub mod share;
pub mod sharing_laws;
pub mod snapshot;
pub mod snapshot_laws;
pub mod status_laws;
pub mod statuses;
pub mod sum_tree;
pub mod text;
pub mod traversal;
pub mod update;
pub mod walk_laws;
pub mod worktree;
pub mod worktree_laws;
