//! Which repositories differ between two snapshots.
use crate::local_snapshot::{GitRepositoryEntry, Repos};
use crate::path_map::AtPath;
use crate::sum_tree::{by_key, has_key, lemma_item_with, lemma_key_index, SumTree};
use vstd::prelude::*;

verus! {

/// Whether two entries are of one repository in which nothing changed.
pub open spec fn is_same_repo(a: GitRepositoryEntry, b: GitRepositoryEntry) -> bool {
    a.git_dir_path.comps() == b.git_dir_path.comps() && a.scan_id == b.scan_id
}

/// Whether a repository is among others, and nothing changed in it.
pub open spec fn is_unchanged(a: GitRepositoryEntry, repos: Seq<GitRepositoryEntry>) -> bool {
    exists|i: int| #![trigger repos[i]] 0 <= i < repos.len() && is_same_repo(a, repos[i])
}

/// Those of the first `n` repositories that are not among others unchanged, by their `.git`
/// directories, put over what is known already.
pub open spec fn changed_in(
    known: Repos,
    repos: Seq<GitRepositoryEntry>,
    others: Seq<GitRepositoryEntry>,
    n: int,
) -> Repos
    decreases n,
{
    if n <= 0 {
        known
    } else {
        let before = changed_in(known, repos, others, n - 1);
        let repo = repos[n - 1];
        if is_unchanged(repo, others) {
            before
        } else {
            before.insert(repo.git_dir_path.comps(), repo)
        }
    }
}

/// The repositories that differ, by their `.git` directories: as they are now where they are
/// still there, and as they were where they are gone.
pub open spec fn changed(old_repos: Seq<GitRepositoryEntry>, new_repos: Seq<GitRepositoryEntry>) -> Repos {
    changed_in(
        changed_in(Map::empty(), old_repos, new_repos, old_repos.len() as int),
        new_repos,
        old_repos,
        new_repos.len() as int,
    )
}

/// Whether a list holds what is found in a map by `.git` directory, each once.
pub open spec fn lists_repos(list: Seq<GitRepositoryEntry>, repos: Repos) -> bool {
    &&& forall|i: int|
        #![trigger list[i]]
        0 <= i < list.len() ==> repos.contains_key(list[i].git_dir_path.comps())
            && repos[list[i].git_dir_path.comps()] == list[i]
    &&& forall|dir: Seq<Seq<char>>| #[trigger]
        repos.contains_key(dir) ==> exists|i: int|
            #![trigger list[i]]
            0 <= i < list.len() && list[i] == repos[dir]
    &&& forall|i: int, j: int|
        #![trigger list[i], list[j]]
        0 <= i < j < list.len() ==> list[i].git_dir_path.comps() != list[j].git_dir_path.comps()
}

fn is_among_unchanged(a: &GitRepositoryEntry, repos: &[GitRepositoryEntry]) -> (r: bool)
    ensures
        r == is_unchanged(*a, repos@),
{
    let mut i: usize = 0;
    while i < repos.len()
        invariant
            i <= repos.len(),
            forall|j: int| #![trigger repos@[j]] 0 <= j < i ==> !is_same_repo(*a, repos@[j]),
        decreases repos.len() - i,
    {
        let b = &repos[i];
        if a.git_dir_path.same(&b.git_dir_path) && a.scan_id == b.scan_id {
            assert(is_same_repo(*a, repos@[i as int]));
            return true;
        }
        i = i + 1;
    }
    false
}

spec fn values_of(s: Seq<AtPath<GitRepositoryEntry>>) -> Repos {
    by_key(s).map_values(|a: AtPath<GitRepositoryEntry>| a.value)
}

/// Whether each repository stands at its `.git` directory.
spec fn at_git_dirs(s: Seq<AtPath<GitRepositoryEntry>>) -> bool {
    forall|k: Seq<Seq<char>>| #[trigger]
        by_key(s).contains_key(k) ==> by_key(s)[k].value.git_dir_path.comps() == k
}

fn diff(
    repos: &[GitRepositoryEntry],
    others: &[GitRepositoryEntry],
    updated: &mut SumTree<AtPath<GitRepositoryEntry>>,
)
    requires
        old(updated).wf(),
        at_git_dirs(old(updated)@),
    ensures
        final(updated).wf(),
        at_git_dirs(final(updated)@),
        values_of(final(updated)@) == changed_in(
            values_of(old(updated)@),
            repos@,
            others@,
            repos@.len() as int,
        ),
{
    let ghost known = values_of(updated@);
    let mut i: usize = 0;
    while i < repos.len()
        invariant
            i <= repos.len(),
            updated.wf(),
            at_git_dirs(updated@),
            values_of(updated@) == changed_in(known, repos@, others@, i as int),
        decreases repos.len() - i,
    {
        let repo = &repos[i];
        if !is_among_unchanged(repo, others) {
            let ghost before = values_of(updated@);
            let item = AtPath { path: repo.git_dir_path.clone(), value: repo.clone() };
            let _ = updated.insert_or_replace(item);
            assert(values_of(updated@) =~= before.insert(repo.git_dir_path.comps(), *repo));
        }
        i = i + 1;
    }
}

/// The repositories that differ between two lists: those that are only in one of them, and those
/// in which the scans of the two lists do not agree, as they are in the new list.
pub fn changed_repos(old_repos: &[GitRepositoryEntry], new_repos: &[GitRepositoryEntry]) -> (r: Vec<
    GitRepositoryEntry,
>)
    ensures
        lists_repos(r@, changed(old_repos@, new_repos@)),
        r@.len() == 0 <==> changed(old_repos@, new_repos@) == Repos::empty(),
{
    let mut updated: SumTree<AtPath<GitRepositoryEntry>> = SumTree::new();
    assert(values_of(updated@) =~= Map::empty());
    diff(old_repos, new_repos, &mut updated);
    diff(new_repos, old_repos, &mut updated);
    let ghost s = updated@;
    let ghost map = changed(old_repos@, new_repos@);
    let mut r: Vec<GitRepositoryEntry> = Vec::new();
    let mut i: usize = 0;
    while i < updated.len()
        invariant
            i <= s.len(),
            s == updated@,
            r@.len() == i,
            forall|k: int| #![trigger r@[k]] 0 <= k < i ==> r@[k] == s[k].value,
        decreases s.len() - i,
    {
        r.push(updated.item(i).value.clone());
        i = i + 1;
    }
    proof {
        assert forall|k: int| #![trigger r@[k]] 0 <= k < r@.len() implies s[k].path.comps()
            == r@[k].git_dir_path.comps() && map.contains_key(r@[k].git_dir_path.comps())
            && map[r@[k].git_dir_path.comps()] == r@[k] by {
            lemma_item_with(s, k);
        }
        assert forall|dir: Seq<Seq<char>>| #[trigger] map.contains_key(dir) implies exists|k: int|
            #![trigger r@[k]]
            0 <= k < r@.len() && r@[k] == map[dir] by {
            assert(by_key(s).contains_key(dir) == has_key(s, dir));
            let k = lemma_key_index(s, dir);
            lemma_item_with(s, k);
            assert(r@[k] == map[dir]);
        }
        assert forall|a: int, b: int| #![trigger r@[a], r@[b]] 0 <= a < b < r@.len() implies r@[a].git_dir_path.comps()
            != r@[b].git_dir_path.comps() by {
            assert(crate::path::names_lt(s[a].path.comps(), s[b].path.comps()));
            crate::path_lemmas::lemma_names_lt_irreflexive(s[a].path.comps());
        }
        if r@.len() == 0 {
            assert(map =~= Repos::empty()) by {
                assert forall|dir: Seq<Seq<char>>| !map.contains_key(dir) by {
                    if map.contains_key(dir) {
                        let k = choose|k: int|
                            #![trigger r@[k]]
                            0 <= k < r@.len() && r@[k] == map[dir];
                        assert(0 <= k < r@.len());
                    }
                }
            }
        } else {
            assert(map.contains_key(r@[0].git_dir_path.comps()));
        }
    }
    r
}

/// What differs between two lists that name each `.git` directory once: a repository of the new
/// list counts where the old one lacks it or has it from another scan, and one of the old list
/// where the new one lacks it.
pub proof fn law_changed_repos(
    old_repos: Seq<GitRepositoryEntry>,
    new_repos: Seq<GitRepositoryEntry>,
    repo: GitRepositoryEntry,
)
    requires
        names_each_once(old_repos),
        names_each_once(new_repos),
    ensures
        new_repos.contains(repo) ==> {
            let found = changed(old_repos, new_repos);
            let dir = repo.git_dir_path.comps();
            &&& found.contains_key(dir) <==> !is_unchanged(repo, old_repos)
            &&& found.contains_key(dir) ==> found[dir] == repo
        },
        old_repos.contains(repo) && !names_dir(new_repos, repo.git_dir_path.comps()) ==> {
            let found = changed(old_repos, new_repos);
            let dir = repo.git_dir_path.comps();
            found.contains_key(dir) && found[dir] == repo
        },
{
    let dir = repo.git_dir_path.comps();
    let first = changed_in(Map::empty(), old_repos, new_repos, old_repos.len() as int);
    lemma_changed_in(Map::empty(), old_repos, new_repos, old_repos.len() as int, dir);
    lemma_changed_in(first, new_repos, old_repos, new_repos.len() as int, dir);
    if new_repos.contains(repo) {
        let i = choose|i: int| 0 <= i < new_repos.len() && new_repos[i] == repo;
        assert(new_repos[i].git_dir_path.comps() == dir);
        if is_unchanged(repo, old_repos) && changed(old_repos, new_repos).contains_key(dir) {
            let k = choose|k: int| #![trigger old_repos[k]] 0 <= k < old_repos.len() && is_same_repo(
                repo,
                old_repos[k],
            );
            assert(is_same_repo(old_repos[k], new_repos[i]));
            assert(is_unchanged(old_repos[k], new_repos));
        }
    }
    if old_repos.contains(repo) && !names_dir(new_repos, dir) {
        let i = choose|i: int| 0 <= i < old_repos.len() && old_repos[i] == repo;
        assert(old_repos[i].git_dir_path.comps() == dir);
        if is_unchanged(repo, new_repos) {
            let k = choose|k: int| #![trigger new_repos[k]] 0 <= k < new_repos.len() && is_same_repo(
                repo,
                new_repos[k],
            );
            assert(new_repos[k].git_dir_path.comps() == dir);
        }
    }
}

/// Whether a list names a `.git` directory.
pub open spec fn names_dir(repos: Seq<GitRepositoryEntry>, dir: Seq<Seq<char>>) -> bool {
    exists|i: int| #![trigger repos[i]] 0 <= i < repos.len() && repos[i].git_dir_path.comps() == dir
}

/// Whether a list names each `.git` directory once.
pub open spec fn names_each_once(repos: Seq<GitRepositoryEntry>) -> bool {
    forall|i: int, j: int|
        #![trigger repos[i], repos[j]]
        0 <= i < repos.len() && 0 <= j < repos.len() && repos[i].git_dir_path.comps()
            == repos[j].git_dir_path.comps() ==> i == j
}

/// What differs is in one of the lists.
pub proof fn lemma_changed_from(
    old_repos: Seq<GitRepositoryEntry>,
    new_repos: Seq<GitRepositoryEntry>,
    dir: Seq<Seq<char>>,
)
    requires
        names_each_once(old_repos),
        names_each_once(new_repos),
        changed(old_repos, new_repos).contains_key(dir),
    ensures
        names_dir(old_repos, dir) || names_dir(new_repos, dir),
{
    let first = changed_in(Map::empty(), old_repos, new_repos, old_repos.len() as int);
    lemma_changed_in(Map::empty(), old_repos, new_repos, old_repos.len() as int, dir);
    lemma_changed_in(first, new_repos, old_repos, new_repos.len() as int, dir);
}

proof fn lemma_changed_in(
    known: Repos,
    repos: Seq<GitRepositoryEntry>,
    others: Seq<GitRepositoryEntry>,
    n: int,
    dir: Seq<Seq<char>>,
)
    requires
        names_each_once(repos),
        0 <= n <= repos.len(),
    ensures
        ({
            let found = changed_in(known, repos, others, n);
            &&& forall|i: int|
                #![trigger repos[i]]
                0 <= i < n && repos[i].git_dir_path.comps() == dir ==> if is_unchanged(
                    repos[i],
                    others,
                ) {
                    &&& found.contains_key(dir) == known.contains_key(dir)
                    &&& found[dir] == known[dir]
                } else {
                    found.contains_key(dir) && found[dir] == repos[i]
                }
            &&& (forall|i: int|
                #![trigger repos[i]]
                0 <= i < n ==> repos[i].git_dir_path.comps() != dir) ==> {
                &&& found.contains_key(dir) == known.contains_key(dir)
                &&& found[dir] == known[dir]
            }
        }),
    decreases n,
{
    if n > 0 {
        lemma_changed_in(known, repos, others, n - 1, dir);
        if repos[n - 1].git_dir_path.comps() == dir {
            assert(forall|i: int|
                #![trigger repos[i]]
                0 <= i < n - 1 ==> repos[i].git_dir_path.comps() != dir);
        }
    }
}

} // verus!
