//! Ignore files: how one is read, and what its rules say of a path.
//!
//! The rules are those of the `ignore` crate. What is believed of that crate without proof stands
//! here: that a builder holds the root that it was made with and the globs of the lines that it
//! took, that what is built from it depends on these alone, and that a matcher gives the same
//! verdict on the same path every time.
use crate::path::{components, has_parent, Path};
use crate::path_text::text_of_first;
use crate::text::{lines, text_lines, texts};
use ignore::gitignore::{Gitignore, GitignoreBuilder};
use vstd::prelude::*;

verus! {

/// `Gitignore` of the `ignore` crate: the rules of one ignore file. Nothing is claimed of what is
/// inside.
#[verifier::external_type_specification]
#[verifier::external_body]
pub struct ExGitignore(Gitignore);

/// `GitignoreBuilder` of the `ignore` crate: globs from which rules are built. Nothing is claimed
/// of what is inside.
#[verifier::external_type_specification]
#[verifier::external_body]
pub struct ExGitignoreBuilder(GitignoreBuilder);

/// `Error` of the `ignore` crate: why a line or a set of globs is refused. Nothing is claimed of
/// what is inside.
#[verifier::external_type_specification]
#[verifier::external_body]
pub struct ExIgnoreError(ignore::Error);

/// What rules say of paths: of a path that is or is not a directory, that it is to be ignored
/// (`true`) or not (`false`). Of a path that no rule matches they say nothing.
pub type Verdicts = Map<(Seq<char>, bool), bool>;

/// The root of a builder: paths are matched relative to it.
pub uninterp spec fn builder_root(b: GitignoreBuilder) -> Seq<char>;

/// The globs that a builder holds, each as its line gives it, in the order in which they came.
pub uninterp spec fn builder_globs(b: GitignoreBuilder) -> Seq<Seq<char>>;

/// Whether the options of a builder, and those with which its globs were read, are the ones that
/// a new builder has.
pub uninterp spec fn builder_is_plain(b: GitignoreBuilder) -> bool;

/// The globs that a builder with the options of a new one takes from a line: none from a comment
/// or a blank line, one from any other. `None` stands for a line that is no glob.
pub uninterp spec fn line_globs(line: Seq<char>) -> Option<Seq<Seq<char>>>;

/// What the rules that are built from globs, read with the options of a new builder, say of
/// paths. `None` stands for globs from which no rules can be built.
pub uninterp spec fn rule_verdicts(root: Seq<char>, globs: Seq<Seq<char>>) -> Option<Verdicts>;

/// What a matcher says of paths.
pub uninterp spec fn gitignore_verdicts(g: Gitignore) -> Verdicts;

/// A text without `./` in front.
pub open spec fn without_here(t: Seq<char>) -> Seq<char> {
    if t.len() >= 2 && t[0] == '.' && t[1] == '/' {
        t.skip(2)
    } else {
        t
    }
}

/// `GitignoreBuilder::new` of the `ignore` crate. Claims that the new builder holds no globs, has
/// the given root, less a leading `./`, and has the options of a new builder.
#[verifier::external_body]
fn new_builder(root: &str) -> (r: GitignoreBuilder)
    ensures
        builder_root(r) == without_here(root@),
        builder_globs(r) == Seq::<Seq<char>>::empty(),
        builder_is_plain(r),
{
    GitignoreBuilder::new(root)
}

/// `GitignoreBuilder::add_line` of the `ignore` crate. Claims that a builder with the options of
/// a new one takes the globs of the line behind those that it holds, and that it fails and stays
/// as it is where the line is no glob. The path of the file is kept for reports only.
#[verifier::external_body]
fn add_line(builder: &mut GitignoreBuilder, from: &str, line: &str) -> (r: Result<
    (),
    ignore::Error,
>)
    requires
        builder_is_plain(*old(builder)),
    ensures
        r is Ok <==> line_globs(line@) is Some,
        builder_globs(*final(builder)) == match line_globs(line@) {
            Some(globs) => builder_globs(*old(builder)) + globs,
            None => builder_globs(*old(builder)),
        },
        builder_root(*final(builder)) == builder_root(*old(builder)),
        builder_is_plain(*final(builder)),
{
    match builder.add_line(Some(std::path::PathBuf::from(from)), line) {
        Ok(_) => Ok(()),
        Err(error) => Err(error),
    }
}

/// `GitignoreBuilder::build` of the `ignore` crate. Claims that what is built depends on the root
/// and the globs alone, and that no globs give rules that say nothing of any path.
#[verifier::external_body]
fn build(builder: &GitignoreBuilder) -> (r: Result<Gitignore, ignore::Error>)
    requires
        builder_is_plain(*builder),
    ensures
        r is Ok <==> rule_verdicts(builder_root(*builder), builder_globs(*builder)) is Some,
        r matches Ok(g) ==> rule_verdicts(builder_root(*builder), builder_globs(*builder)) == Some(
            gitignore_verdicts(g),
        ),
        builder_globs(*builder).len() == 0 ==> r is Ok && gitignore_verdicts(r->Ok_0)
            == Verdicts::empty(),
{
    builder.build()
}

/// What rules say of one path.
#[derive(Copy, Clone, PartialEq, Eq, Debug, Structural)]
pub enum Verdict {
    /// No rule matches.
    Unmatched,
    /// The path is to be ignored.
    Ignore,
    /// The path is not to be ignored.
    Whitelist,
}

/// What verdicts say of one path.
pub open spec fn verdict_on(verdicts: Verdicts, path: Seq<char>, is_dir: bool) -> Verdict {
    if verdicts.contains_key((path, is_dir)) {
        if verdicts[(path, is_dir)] {
            Verdict::Ignore
        } else {
            Verdict::Whitelist
        }
    } else {
        Verdict::Unmatched
    }
}

/// `Gitignore::matched` of the `ignore` crate. Claims that the verdict on a path depends on the
/// matcher, the text of the path and whether the path is a directory alone.
#[verifier::external_body]
pub(crate) fn matched(ignore: &Gitignore, path: &str, is_dir: bool) -> (r: Verdict)
    ensures
        r == verdict_on(gitignore_verdicts(*ignore), path@, is_dir),
{
    match ignore.matched(path, is_dir) {
        ignore::Match::None => Verdict::Unmatched,
        ignore::Match::Ignore(_) => Verdict::Ignore,
        ignore::Match::Whitelist(_) => Verdict::Whitelist,
    }
}

/// Why an ignore file cannot be used.
#[derive(Copy, Clone, PartialEq, Eq, Debug, Structural)]
pub enum GitignoreError {
    /// The line with this number is no glob.
    BadLine(usize),
    /// No rules can be built from the globs.
    BadRules,
}

/// The globs of lines, one after the other, or the number of the first line that is no glob.
pub open spec fn globs_of(ls: Seq<Seq<char>>) -> Result<Seq<Seq<char>>, nat>
    decreases ls.len(),
{
    if ls.len() == 0 {
        Ok(Seq::empty())
    } else {
        match globs_of(ls.drop_last()) {
            Err(n) => Err(n),
            Ok(globs) => match line_globs(ls.last()) {
                Some(more) => Ok(globs + more),
                None => Err((ls.len() - 1) as nat),
            },
        }
    }
}

/// The directory whose paths an ignore file speaks of: the one that holds it, as it is written.
pub open spec fn ignore_root(file: Seq<char>) -> Seq<char> {
    if has_parent(components(file)) {
        text_of_first(file, components(file).len() - 1)
    } else {
        seq!['/']
    }
}

/// What an ignore file says of paths: nothing where it cannot be used.
pub open spec fn file_verdicts(file: Seq<char>, contents: Seq<char>) -> Option<Verdicts> {
    match globs_of(text_lines(contents)) {
        Ok(globs) => rule_verdicts(without_here(ignore_root(file)), globs),
        Err(_) => None,
    }
}

/// Reads an ignore file with the given path and contents.
pub fn build_gitignore(abs_path: &Path, contents: &str) -> (r: Result<Gitignore, GitignoreError>)
    ensures
        r matches Ok(g) ==> file_verdicts(abs_path@, contents@) == Some(
            gitignore_verdicts(g),
        ),
        r is Ok <==> file_verdicts(abs_path@, contents@) is Some,
        r matches Err(GitignoreError::BadLine(n)) ==> globs_of(text_lines(contents@)) == Err::<
            Seq<Seq<char>>,
            nat,
        >(n as nat),
        r matches Err(GitignoreError::BadRules) ==> globs_of(text_lines(contents@)) is Ok,
        text_lines(contents@).len() == 0 ==> r is Ok && gitignore_verdicts(r->Ok_0)
            == Verdicts::empty(),
{
    let root: String = match abs_path.parent() {
        Some(parent) => parent.to_text(),
        None => {
            proof {
                reveal_strlit("/");
            }
            Path::new("/").to_text()
        },
    };
    assert(root@ =~= ignore_root(abs_path@));
    let mut builder = new_builder(root.as_str());
    let ls = lines(contents);
    let ghost all = text_lines(contents@);
    let mut i: usize = 0;
    assert(all.take(0) =~= Seq::empty());
    while i < ls.len()
        invariant
            i <= ls.len(),
            all == texts(ls@),
            all == text_lines(contents@),
            builder_is_plain(builder),
            builder_root(builder) == without_here(ignore_root(abs_path@)),
            globs_of(all.take(i as int)) == Ok::<Seq<Seq<char>>, nat>(builder_globs(builder)),
        decreases ls.len() - i,
    {
        assert(all.take(i + 1).drop_last() =~= all.take(i as int));
        assert(all.take(i + 1).last() == ls@[i as int]@);
        match add_line(&mut builder, abs_path.as_str(), ls[i].as_str()) {
            Ok(_) => {},
            Err(_) => {
                proof {
                    lemma_globs_of_prefix(all, i + 1);
                }
                return Err(GitignoreError::BadLine(i));
            },
        }
        i = i + 1;
    }
    assert(all.take(all.len() as int) =~= all);
    match build(&builder) {
        Ok(ignore) => Ok(ignore),
        Err(_) => Err(GitignoreError::BadRules),
    }
}

/// Lines behind one that is no glob do not count.
proof fn lemma_globs_of_prefix(ls: Seq<Seq<char>>, i: int)
    requires
        0 <= i <= ls.len(),
        globs_of(ls.take(i)) is Err,
    ensures
        globs_of(ls) == globs_of(ls.take(i)),
    decreases ls.len() - i,
{
    if i == ls.len() {
        assert(ls.take(i) =~= ls);
    } else {
        assert(ls.take(i + 1).drop_last() =~= ls.take(i));
        lemma_globs_of_prefix(ls, i + 1);
    }
}

} // verus!
