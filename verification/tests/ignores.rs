//! Ignore files, stacked.
use std::sync::Arc;
use worktree::gitignore::{build_gitignore, GitignoreError};
use worktree::ignore_stack::IgnoreStack;
use worktree::path::Path;

fn arc(text: &str) -> Arc<Path> {
    Arc::new(Path::new(text))
}

fn with_file(stack: &IgnoreStack, dir: &str, contents: &str) -> IgnoreStack {
    let file = Path::new(dir).join(&Path::new(".gitignore"));
    let ignore = build_gitignore(&file, contents).unwrap();
    stack.append(arc(dir), Arc::new(ignore))
}

fn ignores(stack: &IgnoreStack, path: &str, is_dir: bool) -> bool {
    stack.is_abs_path_ignored(&Path::new(path), is_dir)
}

#[test]
fn a_stack_without_files_ignores_git_directories_only() {
    let stack = IgnoreStack::none();
    assert!(!ignores(&stack, "/r/a", false));
    assert!(ignores(&stack, "/r/.git", true));
    assert!(!ignores(&stack, "/r/.git", false));
    assert!(!stack.is_all());
    assert!(IgnoreStack::all().is_all());
    assert!(ignores(&IgnoreStack::all(), "/r/a", false));
}

#[test]
fn rules_are_relative_to_their_directory() {
    let stack = with_file(&IgnoreStack::none(), "/r", "# note\n\na/b\n*.o\n/top\nonly-dirs/\n");
    assert!(ignores(&stack, "/r/a/b", false));
    assert!(!ignores(&stack, "/r/c/a/b", false));
    assert!(ignores(&stack, "/r/c/x.o", false));
    assert!(ignores(&stack, "/r/top", false));
    assert!(!ignores(&stack, "/r/c/top", false));
    assert!(ignores(&stack, "/r/only-dirs", true));
    assert!(!ignores(&stack, "/r/only-dirs", false));
    assert!(!ignores(&stack, "/elsewhere/x.o", false));
    assert!(!ignores(&stack, "/r/# note", false));
}

#[test]
fn paths_are_matched_as_they_are_written() {
    let stack = with_file(&IgnoreStack::none(), "/r", "a/b\n*.o\n");
    assert!(ignores(&stack, "/r/a/b", false));
    assert!(!ignores(&stack, "/r/a//b", false));
    assert!(!ignores(&stack, "/r/a/./b", false));
    assert!(ignores(&stack, "/r//a/b", false));
    assert!(ignores(&stack, "/r/a/b/", false));
    assert!(ignores(&stack, "/r/a//x.o", false));
    let written = with_file(&IgnoreStack::none(), "/r//", "a/b\n");
    assert!(ignores(&written, "/r/a/b", false));
}

#[test]
fn the_nearest_file_decides() {
    let outer = with_file(&IgnoreStack::none(), "/r", "*.o\n");
    let inner = with_file(&outer, "/r/d", "!keep.o\n");
    assert!(ignores(&inner, "/r/d/x.o", false));
    assert!(!ignores(&inner, "/r/d/keep.o", false));
    assert!(ignores(&inner, "/r/keep.o", false));
    assert!(with_file(&IgnoreStack::all(), "/r", "!*\n").is_all());
}

#[test]
fn bad_lines_are_named() {
    assert_eq!(
        build_gitignore(&Path::new("/r/.gitignore"), "ok\n[z-a]\n{b\n").unwrap_err(),
        GitignoreError::BadLine(1)
    );
    assert!(build_gitignore(&Path::new("/r/.gitignore"), "").is_ok());
}

#[test]
fn rules_can_be_too_large() {
    let contents: String = "?".repeat(1_000_000);
    assert_eq!(
        build_gitignore(&Path::new("/r/.gitignore"), &contents).unwrap_err(),
        GitignoreError::BadRules
    );
}
