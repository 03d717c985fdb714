//! Paths, texts and identifiers.
use std::sync::Arc;
use worktree::char_bag::CharBag;
use worktree::ids::{ProjectEntryId, WorktreeId};
use worktree::inodes::InodeSet;
use worktree::outermost::outermost;
use worktree::path::{is_name, KeyOrder, Path};
use worktree::text::{chars_of, lines, same_chars, same_text, string_of, text_is};

fn joined(a: &str, b: &str) -> String {
    Path::new(a).join(&Path::new(b)).as_str().to_string()
}

#[test]
fn worktree_ids_round_trip() {
    assert_eq!(WorktreeId::from_usize(7).to_proto(), 7);
    assert_eq!(WorktreeId::from_proto(8).to_usize(), 8);
    assert_eq!(ProjectEntryId::from_proto(9).to_proto(), 9);
    assert_eq!(ProjectEntryId::from_usize(3).to_usize(), 3);
    assert_eq!(ProjectEntryId::default().to_usize(), 0);
}

#[test]
fn entry_ids_are_counted() {
    let mut counter: usize = 4;
    assert_eq!(ProjectEntryId::new(&mut counter).to_usize(), 4);
    assert_eq!(ProjectEntryId::new(&mut counter).to_usize(), 5);
    assert_eq!(counter, 6);
    let mut last: usize = usize::MAX;
    assert_eq!(ProjectEntryId::new(&mut last).to_usize(), usize::MAX);
    assert_eq!(last, 0);
}

#[test]
fn ids_are_ordered_by_their_numbers() {
    let worktrees: Vec<WorktreeId> = [3, 10, 2].iter().map(|n| WorktreeId::from_usize(*n)).collect();
    assert!(worktrees[0] < worktrees[1]);
    assert!(worktrees[2] <= worktrees[0]);
    assert!(worktrees[0] <= worktrees[0]);
    assert!(!(worktrees[0] < worktrees[0]));
    assert!(worktrees[1] > worktrees[2]);
    let mut entries: Vec<ProjectEntryId> =
        [3, 10, 2].iter().map(|n| ProjectEntryId::from_usize(*n)).collect();
    assert!(entries[0] < entries[1]);
    assert!(!(entries[0] < entries[2]));
    assert_eq!(entries[0].partial_cmp(&entries[0]), Some(std::cmp::Ordering::Equal));
    entries.sort();
    let numbers: Vec<usize> = entries.iter().map(|id| id.to_usize()).collect();
    assert_eq!(numbers, vec![2, 3, 10]);
}

#[test]
fn paths_are_joined() {
    assert_eq!(joined("/root", "a/b"), "/root/a/b");
    assert_eq!(joined("/root", ""), "/root/");
    assert_eq!(joined("/root/", "a"), "/root/a");
    assert_eq!(joined("/root", "/abs"), "/abs");
    assert_eq!(joined("", "a"), "a");
}

#[test]
fn paths_have_parents_and_names() {
    let path = Path::new("/a/b.txt");
    assert_eq!(path.file_name().unwrap(), "b.txt");
    assert!(path.file_name_is("b.txt"));
    assert!(!path.file_name_is("b"));
    assert_eq!(path.parent().unwrap().as_str(), "/a");
    assert_eq!(Path::new("/a").parent().unwrap().as_str(), "/");
    assert!(Path::new("/").parent().is_none());
    assert!(Path::new("").parent().is_none());
    assert_eq!(Path::new("a").parent().unwrap().as_str(), "");
    assert!(Path::new("a/..").file_name().is_none());
    assert!(Path::new("").file_name().is_none());
    let above: Vec<String> = Path::new("/a/b/c")
        .ancestors()
        .iter()
        .map(|p| p.as_str().to_string())
        .collect();
    assert_eq!(above, vec!["/a/b", "/a", "/"]);
    let above: Vec<String> = Path::new("a/b")
        .ancestors()
        .iter()
        .map(|p| p.as_str().to_string())
        .collect();
    assert_eq!(above, vec!["a", ""]);
}

#[test]
fn prefixes_are_whole_components() {
    let path = Path::new("/a/bc/d");
    assert!(path.starts_with(&Path::new("/a/bc")));
    assert!(path.starts_with(&Path::new("/a//bc/")));
    assert!(!path.starts_with(&Path::new("/a/b")));
    assert!(!path.starts_with(&Path::new("a")));
    assert_eq!(
        path.strip_prefix(&Path::new("/a")).unwrap().as_str(),
        "bc/d"
    );
    assert_eq!(path.strip_prefix(&path).unwrap().as_str(), "");
    assert!(path.strip_prefix(&Path::new("/b")).is_none());
}

#[test]
fn paths_are_ordered_by_components() {
    let order = |a: &str, b: &str| Path::new(a).compare(&Path::new(b));
    assert_eq!(order("a/b", "a.b"), KeyOrder::Less);
    assert_eq!(order("a", "a/b"), KeyOrder::Less);
    assert_eq!(order("b", "a/b"), KeyOrder::Greater);
    assert_eq!(order("a/./b", "a//b"), KeyOrder::Same);
    assert_eq!(order("", "a"), KeyOrder::Less);
    assert!(Path::new("a/b/").same(&Path::new("a/b")));
    assert_eq!(Path::new("a//b/").depth(), 2);
    assert_eq!(Path::new("/a").depth(), 2);
}

#[test]
fn names_hold_no_separator() {
    assert!(is_name(".git"));
    assert!(is_name("a b"));
    assert!(!is_name(""));
    assert!(!is_name("."));
    assert!(!is_name(".."));
    assert!(!is_name("a/b"));
}

#[test]
fn outermost_paths_are_kept() {
    let paths: Vec<Arc<Path>> = ["/r/b/c", "/r/a", "/r/b", "/r/a/x", "/r/ab", "/r/a"]
        .iter()
        .map(|p| Arc::new(Path::new(p)))
        .collect();
    let kept: Vec<String> = outermost(paths)
        .iter()
        .map(|p| p.as_str().to_string())
        .collect();
    assert_eq!(kept, vec!["/r/a", "/r/ab", "/r/b"]);
    assert!(outermost(Vec::new()).is_empty());
}

#[test]
fn texts_are_split_into_lines() {
    assert_eq!(lines("a\nb\r\n\nc"), vec!["a", "b", "", "c"]);
    assert_eq!(lines("a\n"), vec!["a"]);
    assert!(lines("").is_empty());
    assert_eq!(lines("a\r"), vec!["a\r"]);
    assert_eq!(lines("\n"), vec![""]);
}

#[test]
fn texts_are_compared() {
    let chars = chars_of("äb");
    assert_eq!(chars, vec!['ä', 'b']);
    assert_eq!(string_of(&chars), "äb");
    assert!(text_is(&chars, "äb"));
    assert!(!same_chars(&chars, &chars_of("ä")));
    assert!(same_text("x", "x"));
    assert!(!same_text("x", "X"));
}

#[test]
fn char_bags_are_in_lower_case() {
    let mut bag = CharBag::from_text("RoÄt");
    assert_eq!(bag.as_str(), "roÄt");
    bag.extend("A.Txt");
    assert_eq!(bag.as_str(), "roÄta.txt");
    assert_eq!(CharBag::default().as_str(), "");
}

#[test]
fn inodes_are_kept_once() {
    let mut inodes = InodeSet::default();
    assert!(!inodes.contains(&3));
    inodes.insert(3);
    inodes.insert(1);
    inodes.insert(3);
    assert!(inodes.contains(&3));
    assert!(inodes.contains(&1));
    assert!(!inodes.clone().contains(&2));
}

#[test]
fn parts_are_kept_as_they_are_written() {
    let texts = [
        "", "/", "//", ".", "./", "a", "/a", "a/", "a//b", "/r/a//b", "/r//a/./b/", "./a/b",
        "a/./b/.", "../a", "/r/.hidden/..x", "//r///a", "a/.", "a/./", "/./a", "r/a//./b//",
    ];
    let bases = ["", "/", "/r", "/r/", "//r/a", "a", ".", "./a", "r", "a/b", "..", "/a"];
    for text in texts {
        let path = Path::new(text);
        let known = std::path::Path::new(text);
        let parent: Option<String> = path.parent().map(|p| p.as_str().to_string());
        assert_eq!(
            parent.as_deref(),
            known.parent().map(|p| p.to_str().unwrap()),
            "{:?}",
            text
        );
        for base in bases {
            let rest: Option<String> = path
                .strip_prefix(&Path::new(base))
                .map(|p| p.as_str().to_string());
            assert_eq!(
                rest.as_deref(),
                known.strip_prefix(base).ok().map(|p| p.to_str().unwrap()),
                "{:?} {:?}",
                text,
                base
            );
        }
    }
    let path = Path::new("/r/a//b");
    assert_eq!(
        path.strip_prefix(&Path::new("/r")).unwrap().as_str(),
        "a//b"
    );
    assert_eq!(path.parent().unwrap().as_str(), "/r/a");
    assert_eq!(Path::new("/r//a/b").parent().unwrap().as_str(), "/r//a");
    assert!(path.strip_prefix(&Path::new("/x")).is_none());
    assert!(Path::new("/").parent().is_none());
}
