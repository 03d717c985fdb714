# worktree

The file tree of a project: the files and directories that a scan of the file system finds, kept
up to date as the file system changes, with the files that git ignores marked, and shared with
other hosts by updates.

`src/` is a library whose functions carry contracts that Verus proves. It touches neither the file
system nor the network. Where either is needed, a function says what is to be done, and takes what
came of it.

- `text`, `path`, `path_text`, `path_lemmas`, `ids`, `char_bag`, `inodes`, `proto`: texts, paths,
  identifiers and messages.
- `sum_tree`, `path_map`: lists of items in the order of their keys.
- `entry`, `snapshot`, `traversal`: the entries of a worktree and walks over them.
- `gitignore`, `ignore_stack`: the rules of ignore files. The `ignore` crate reads and matches the
  globs; what is believed of it stands in `gitignore`.
- `local_snapshot`, `scanner`, `events`, `statuses`, `refresh`, `outermost`, `scan_loop`: how a
  scan, and the changes of the file system, become entries.
- `update`, `share`, `changed_repos`: what one snapshot says of an older one, and how it is sent.
- `local_worktree`, `remote_worktree`, `worktree`, `file`, `diagnostics`: worktrees and the files
  in them.
- `walk_laws`, `entry_laws`, `ignore_laws`, `status_laws`, `scan_laws`, `event_laws`,
  `event_status_laws`, `reading_laws`: what each step of a scan, and of the handling of events,
  keeps.
- `reflect_laws`, `history_laws`, `order_laws`, `rename_laws`, `mark_laws`: what holds of the
  library as a whole. After a first scan and any number of batches of events, a snapshot reflects
  the file system, with three exceptions: where an ignore file that could be used becomes one that
  cannot be, its old rules stay; what events bring in below a directory that a scan does not enter,
  such as one that a link leads back to, is there though no scan would find it; and where an event
  writes a path otherwise than with one slash between two names, ignore files are asked about the
  path as it is written. An update brings a copy of any of these snapshots up to any later one.

`app/` is ordinary Rust around the library: it reads the file system, watches it, and talks to
other hosts. `tests/` runs the library on a file system in memory.
