//! What ignore files are for: which lines make one up, which ones are known, and which one decides
//! whether a path is ignored.
use crate::entry::Entry;
use crate::gitignore::{
    build_gitignore, file_verdicts, gitignore_verdicts, globs_of, line_globs, rule_verdicts,
    without_here, GitignoreError, Verdict,
};
use crate::ignore_laws::lemma_rules_prefix;
use crate::ignore_stack::{
    gitignore_name, is_ignored_by, layer_verdict, layers_ignore, lemma_git_names, with_layer,
    IgnoreRules, IgnoreStack, Layer,
};
use crate::local_snapshot::{is_with_entry, path_ignored, rules_above, Ignores, LocalSnapshot};
use crate::path::{components, join_text, root_length, Path};
use crate::path_text::{lemma_first_of_first, lemma_first_written, text_behind, text_of_first};
use crate::scanner::{ignores_above, ScanJob};
use crate::text::{split_lines, text_lines};
use ignore::gitignore::Gitignore;
use std::sync::Arc;
use vstd::prelude::*;

verus! {

/// Whether one of some ignore files says that a path is ignored, and none behind it says anything.
pub open spec fn has_last_word(layers: Seq<Layer>, path: Seq<char>, is_dir: bool, i: int) -> bool {
    &&& 0 <= i < layers.len()
    &&& layer_verdict(layers[i], path, is_dir) is Ignore
    &&& forall|j: int|
        #![trigger layers[j]]
        i < j < layers.len() ==> layer_verdict(layers[j], path, is_dir) is Unmatched
}

/// A path, be it that of a file or of a directory, is ignored by some ignore files exactly where one
/// of them says so and none behind it says anything. Besides, directories named `.git` are ignored,
/// and everything is where all is.
pub proof fn law_last_word_decides(layers: Seq<Layer>, path: Seq<char>, is_dir: bool)
    ensures
        ({
            let ns = components(path);
            let is_git = is_dir && ns.len() > 0 && ns.last() == seq!['.', 'g', 'i', 't'];
            &&& is_ignored_by(IgnoreRules::Layers(layers), path, is_dir) <==> is_git || exists|i: int|
                #[trigger] has_last_word(layers, path, is_dir, i)
            &&& is_ignored_by(IgnoreRules::All, path, is_dir)
        }),
{
    lemma_last_word(layers, path, is_dir);
    lemma_git_names();
}

proof fn lemma_last_word(layers: Seq<Layer>, path: Seq<char>, is_dir: bool)
    ensures
        layers_ignore(layers, path, is_dir) <==> exists|i: int| #[trigger]
            has_last_word(layers, path, is_dir, i),
    decreases layers.len(),
{
    if layers.len() > 0 {
        let t = layers.drop_last();
        let n = layers.len() - 1;
        lemma_last_word(t, path, is_dir);
        if layer_verdict(layers.last(), path, is_dir) is Ignore {
            assert(has_last_word(layers, path, is_dir, n));
        }
        if layers_ignore(layers, path, is_dir) && layer_verdict(layers.last(), path, is_dir) is Unmatched {
            let i = choose|i: int| #[trigger] has_last_word(t, path, is_dir, i);
            assert forall|j: int| #![trigger layers[j]] i < j < layers.len() implies layer_verdict(
                layers[j],
                path,
                is_dir,
            ) is Unmatched by {
                if j < n {
                    assert(t[j] == layers[j]);
                }
            }
            assert(t[i] == layers[i]);
            assert(has_last_word(layers, path, is_dir, i));
        }
        if exists|i: int| #[trigger] has_last_word(layers, path, is_dir, i) {
            let i = choose|i: int| #[trigger] has_last_word(layers, path, is_dir, i);
            if i < n {
                assert(layer_verdict(layers[n], path, is_dir) is Unmatched);
                assert(t[i] == layers[i]);
                assert forall|j: int| #![trigger t[j]] i < j < t.len() implies layer_verdict(
                    t[j],
                    path,
                    is_dir,
                ) is Unmatched by {
                    assert(t[j] == layers[j]);
                }
                assert(has_last_word(t, path, is_dir, i));
            }
        }
    }
}

/// One ignore file more that says nothing of a path leaves the answer for the path as it was; one
/// that says that it is ignored decides so; and one that says that it is not decides so too, unless
/// the path is that of a `.git` directory or all is ignored.
pub proof fn law_nearest_file_decides(rules: IgnoreRules, layer: Layer, path: Seq<char>, is_dir: bool)
    ensures
        ({
            let ns = components(path);
            let is_git = is_dir && ns.len() > 0 && ns.last() == seq!['.', 'g', 'i', 't'];
            let now = is_ignored_by(with_layer(rules, layer), path, is_dir);
            match layer_verdict(layer, path, is_dir) {
                Verdict::Unmatched => now == is_ignored_by(rules, path, is_dir),
                Verdict::Ignore => now,
                Verdict::Whitelist => now == (is_git || rules is All),
            }
        }),
        with_layer(rules, layer) is All <==> rules is All,
        rules matches IgnoreRules::Layers(layers) ==> with_layer(rules, layer) == IgnoreRules::Layers(
            layers + seq![layer],
        ),
{
    lemma_git_names();
    if rules is Layers {
        let layers = rules->Layers_0;
        assert(layers.push(layer).drop_last() =~= layers);
        assert(layers + seq![layer] =~= layers.push(layer));
    }
}

/// The answer for a path, be it that of a file or of a directory: it is ignored exactly where one of
/// the ignore files says so and none behind it says anything, where it is that of a directory named
/// `.git`, and where all is ignored.
pub proof fn law_last_word_is_answered(stack: &IgnoreStack, path: &Path, is_dir: bool, r: bool)
    requires
        call_ensures(IgnoreStack::is_abs_path_ignored, (stack, path, is_dir), r),
    ensures
        ({
            let ns = path.comps();
            let is_git = is_dir && ns.len() > 0 && ns.last() == seq!['.', 'g', 'i', 't'];
            match stack@ {
                IgnoreRules::All => r,
                IgnoreRules::Layers(layers) => r <==> is_git || exists|i: int| #[trigger]
                    has_last_word(layers, path@, is_dir, i),
            }
        }),
{
    if stack@ is Layers {
        law_last_word_decides(stack@->Layers_0, path@, is_dir);
    }
}

/// Without ignore files nothing but a directory named `.git` is ignored, and with all ignored
/// everything is.
pub proof fn law_no_file_ignores_nothing(
    none: IgnoreStack,
    all: IgnoreStack,
    path: &Path,
    is_dir: bool,
    r: bool,
    q: bool,
)
    requires
        call_ensures(IgnoreStack::none, (), none),
        call_ensures(IgnoreStack::all, (), all),
        call_ensures(IgnoreStack::is_abs_path_ignored, (&none, path, is_dir), r),
        call_ensures(IgnoreStack::is_abs_path_ignored, (&all, path, is_dir), q),
    ensures
        r <==> is_dir && path.comps().len() > 0 && path.comps().last() == seq!['.', 'g', 'i', 't'],
        q,
{
    lemma_git_names();
}

/// What the ignore file of a directory says.
pub open spec fn layer_of(base: Arc<Path>, ignore: Arc<Gitignore>) -> Layer {
    Layer { base: base.comps(), verdicts: gitignore_verdicts(*ignore) }
}

/// An ignore file that is added is asked first, and decides where it says anything: what it says of
/// a path that lies in its directory, at any depth, is what its rules say of the rest of the path.
/// Where it says nothing, the answer is that of the others.
pub proof fn law_added_file_is_asked_first(
    stack: &IgnoreStack,
    base: Arc<Path>,
    ignore: Arc<Gitignore>,
    more: IgnoreStack,
    path: &Path,
    is_dir: bool,
    before: bool,
    now: bool,
)
    requires
        call_ensures(IgnoreStack::append, (stack, base, ignore), more),
        call_ensures(IgnoreStack::is_abs_path_ignored, (stack, path, is_dir), before),
        call_ensures(IgnoreStack::is_abs_path_ignored, (&more, path, is_dir), now),
    ensures
        ({
            let ns = path.comps();
            let n = base.comps().len() as int;
            let is_git = is_dir && ns.len() > 0 && ns.last() == seq!['.', 'g', 'i', 't'];
            let below = n <= ns.len() && ns.take(n) == base.comps();
            let rules = gitignore_verdicts(*ignore);
            let key = (text_behind(path@, n), is_dir);
            let speaks = below && rules.contains_key(key);
            &&& speaks && rules[key] ==> now
            &&& speaks && !rules[key] ==> now == (is_git || stack@ is All)
            &&& !speaks ==> now == before
        }),
{
    let layer = layer_of(base, ignore);
    law_nearest_file_decides(stack@, layer, path@, is_dir);
    law_file_speaks_of_what_lies_below(layer, path@, is_dir);
}

/// What an ignore file says of a path that lies in its directory, at any depth, is what its rules say
/// of the rest of the path; of any other path it says nothing.
pub proof fn law_file_speaks_of_what_lies_below(layer: Layer, path: Seq<char>, is_dir: bool)
    ensures
        ({
            let said = layer_verdict(layer, path, is_dir);
            let key = (text_behind(path, layer.base.len() as int), is_dir);
            let below = layer.base.len() <= components(path).len() && components(path).take(
                layer.base.len() as int,
            ) == layer.base;
            &&& said is Ignore <==> below && layer.verdicts.contains_key(key) && layer.verdicts[key]
            &&& said is Whitelist <==> below && layer.verdicts.contains_key(key)
                && !layer.verdicts[key]
        }),
{
    let c = components(path);
    let n = layer.base.len() as int;
    if n <= c.len() {
        assert(c.take(n) =~= c.subrange(0, n));
    }
}

/// The ignore file of a directory above a path, where it is known.
pub open spec fn file_at(ignores: Ignores, path: Seq<char>, k: int) -> Option<Layer> {
    let dir = components(path).take(k);
    if ignores.contains_key(dir) {
        Some(Layer { base: dir, verdicts: ignores[dir].verdicts })
    } else {
        None
    }
}

/// Whether the ignore file of the directory above a path with `k` components says that the path is
/// ignored, and none that lies nearer, before the path has `n` components, says anything.
pub open spec fn decides(ignores: Ignores, path: Seq<char>, is_dir: bool, k: int, n: int) -> bool {
    &&& root_length(components(path)) <= k < n
    &&& file_at(ignores, path, k) matches Some(layer) && layer_verdict(layer, path, is_dir) is Ignore
    &&& forall|j: int|
        #![trigger file_at(ignores, path, j)]
        k < j < n ==> (file_at(ignores, path, j) matches Some(layer) ==> layer_verdict(
            layer,
            path,
            is_dir,
        ) is Unmatched)
}

/// Whether the directory above a path with `k` components is ignored.
pub open spec fn is_dir_hidden(ignores: Ignores, path: Seq<char>, k: int, n: int) -> bool {
    root_length(components(path)) <= k < n && path_ignored(ignores, text_of_first(path, k), true)
}

/// Whether a path is ignored: it is where a directory above it is, where the nearest of the ignore
/// files in all directories above it that says anything of it says so, and where it is that of a
/// directory named `.git`.
pub proof fn law_all_files_above_count(ignores: Ignores, path: Seq<char>, is_dir: bool)
    ensures
        ({
            let ns = components(path);
            let n = ns.len() as int;
            path_ignored(ignores, path, is_dir) <==> {
                ||| is_dir && n > 0 && ns.last() == seq!['.', 'g', 'i', 't']
                ||| exists|k: int| #[trigger] is_dir_hidden(ignores, path, k, n)
                ||| exists|k: int| #[trigger] decides(ignores, path, is_dir, k, n)
            }
        }),
{
    let n = components(path).len() as int;
    if n >= root_length(components(path)) {
        lemma_rules_by_files(ignores, path, is_dir, n);
    }
    lemma_git_names();
}

/// What applies by the directories above a path that have fewer than `m` components.
#[verifier::rlimit(40)]
#[verifier::spinoff_prover]
proof fn lemma_rules_by_files(ignores: Ignores, path: Seq<char>, is_dir: bool, m: int)
    requires
        root_length(components(path)) <= m <= components(path).len(),
    ensures
        rules_above(ignores, path, m) is All <==> exists|k: int| #[trigger]
            is_dir_hidden(ignores, path, k, m),
        rules_above(ignores, path, m) matches IgnoreRules::Layers(layers) ==> (layers_ignore(
            layers,
            path,
            is_dir,
        ) <==> exists|k: int| #[trigger] decides(ignores, path, is_dir, k, m)),
    decreases m,
{
    let c = components(path);
    let r = root_length(c);
    if m > r {
        let k = m - 1;
        let dir = text_of_first(path, k);
        let before = rules_above(ignores, path, k);
        lemma_rules_by_files(ignores, path, is_dir, k);
        lemma_first_written(path, k);
        if k > 0 {
            assert(components(dir)[0] == c[0]);
        }
        assert forall|j: int| #![trigger text_of_first(dir, j)] 0 <= j < k implies text_of_first(dir, j)
            == text_of_first(path, j) by {
            lemma_first_of_first(path, k, j);
        }
        lemma_rules_prefix(ignores, dir, path, k);
        assert(path_ignored(ignores, dir, true) == is_ignored_by(before, dir, true));
        assert(is_dir_hidden(ignores, path, k, m) == path_ignored(ignores, dir, true));
        assert forall|j: int| j < k implies #[trigger] is_dir_hidden(ignores, path, j, m)
            == is_dir_hidden(ignores, path, j, k) by {
        }
        if exists|j: int| #[trigger] is_dir_hidden(ignores, path, j, k) {
            let j = choose|j: int| #[trigger] is_dir_hidden(ignores, path, j, k);
            assert(is_dir_hidden(ignores, path, j, m));
        }
        if exists|j: int| #[trigger] is_dir_hidden(ignores, path, j, m) {
            let j = choose|j: int| #[trigger] is_dir_hidden(ignores, path, j, m);
            if j < k {
                assert(is_dir_hidden(ignores, path, j, k));
            }
        }
        if rules_above(ignores, path, m) is Layers {
            let after = rules_above(ignores, path, m)->Layers_0;
            assert(before is Layers);
            let layers = before->Layers_0;
            if file_at(ignores, path, k) is Some {
                let layer = file_at(ignores, path, k)->0;
                assert(after == layers.push(layer));
                assert(after.drop_last() =~= layers);
                let said = layer_verdict(layer, path, is_dir);
                if said is Ignore {
                    assert(decides(ignores, path, is_dir, k, m));
                }
                if said is Unmatched {
                    lemma_decides_on(ignores, path, is_dir, m);
                }
                if said is Whitelist {
                    assert forall|j: int| !#[trigger] decides(ignores, path, is_dir, j, m) by {
                        if decides(ignores, path, is_dir, j, m) && j < k {
                            assert(file_at(ignores, path, k) is Some);
                        }
                    }
                }
            } else {
                assert(after == layers);
                lemma_decides_on(ignores, path, is_dir, m);
            }
        }
    } else {
        assert forall|k: int| !#[trigger] is_dir_hidden(ignores, path, k, m) by {
        }
        assert forall|k: int| !#[trigger] decides(ignores, path, is_dir, k, m) by {
        }
    }
}

/// A directory whose ignore file says nothing changes nothing.
proof fn lemma_decides_on(ignores: Ignores, path: Seq<char>, is_dir: bool, m: int)
    requires
        root_length(components(path)) < m,
        file_at(ignores, path, m - 1) matches Some(layer) ==> layer_verdict(layer, path, is_dir) is Unmatched,
    ensures
        (exists|k: int| #[trigger] decides(ignores, path, is_dir, k, m)) <==> exists|k: int| #[trigger]
            decides(ignores, path, is_dir, k, m - 1),
{
    if exists|k: int| #[trigger] decides(ignores, path, is_dir, k, m) {
        let k = choose|k: int| #[trigger] decides(ignores, path, is_dir, k, m);
        assert(decides(ignores, path, is_dir, k, m - 1));
    }
    if exists|k: int| #[trigger] decides(ignores, path, is_dir, k, m - 1) {
        let k = choose|k: int| #[trigger] decides(ignores, path, is_dir, k, m - 1);
        assert(decides(ignores, path, is_dir, k, m));
    }
}

/// The directory above a path that is reached in `j + 1` steps.
pub open spec fn dir_above(path: Seq<Seq<char>>, j: int) -> Seq<Seq<char>> {
    path.take(path.len() - 1 - j)
}

/// Once the first scan begins, the ignore file of every directory above the root is known whose text
/// was given and can be used, with what that very text says; of no other directory above the root one
/// is; and elsewhere nothing changes. `above` holds the texts, that of the nearest directory first.
pub proof fn law_scan_knows_files_above(
    before: LocalSnapshot,
    above: Seq<Option<String>>,
    after: LocalSnapshot,
    i: int,
    dir: Seq<Seq<char>>,
)
    requires
        after.ignores() == ignores_above(
            before.ignores(),
            before.root_text(),
            above,
            above.len() as int,
        ),
        above.len() <= components(before.root_text()).len(),
        0 <= i < above.len(),
    ensures
        ({
            let root = components(before.root_text());
            let n = root.len() as int;
            let here = dir_above(root, i);
            let file = join_text(
                text_of_first(before.root_text(), n - 1 - i),
                seq!['.', 'g', 'i', 't', 'i', 'g', 'n', 'o', 'r', 'e'],
            );
            let said = match above[i] {
                Some(contents) => file_verdicts(file, contents@),
                None => None,
            };
            &&& said is Some ==> {
                &&& after.ignores().contains_key(here)
                &&& after.ignores()[here].verdicts == said->0
                &&& after.ignores()[here].scan_id == 0
            }
            &&& said is None ==> {
                &&& after.ignores().contains_key(here) == before.ignores().contains_key(here)
                &&& after.ignores().contains_key(here) ==> after.ignores()[here]
                    == before.ignores()[here]
            }
            &&& (forall|j: int| 0 <= j < above.len() ==> dir != #[trigger] dir_above(root, j))
                ==> {
                &&& after.ignores().contains_key(dir) == before.ignores().contains_key(dir)
                &&& after.ignores().contains_key(dir) ==> after.ignores()[dir]
                    == before.ignores()[dir]
            }
        }),
{
    let root = components(before.root_text());
    let n = root.len() as int;
    lemma_git_names();
    assert(gitignore_name() =~= seq!['.', 'g', 'i', 't', 'i', 'g', 'n', 'o', 'r', 'e']);
    lemma_files_above(
        before.ignores(),
        before.root_text(),
        above,
        above.len() as int,
        dir_above(root, i),
    );
    lemma_files_above(before.ignores(), before.root_text(), above, above.len() as int, dir);
    assert forall|j: int| 0 <= j < above.len() && j != i implies #[trigger] dir_above(root, j)
        != dir_above(root, i) by {
        assert(dir_above(root, j).len() == n - 1 - j);
        assert(dir_above(root, i).len() == n - 1 - i);
    }
}

/// The ignore files of the `m` nearest directories above the root.
#[verifier::rlimit(40)]
#[verifier::spinoff_prover]
proof fn lemma_files_above(
    ignores: Ignores,
    root: Seq<char>,
    above: Seq<Option<String>>,
    m: int,
    dir: Seq<Seq<char>>,
)
    requires
        0 <= m <= above.len(),
        above.len() <= components(root).len(),
    ensures
        ({
            let ns = components(root);
            let found = ignores_above(ignores, root, above, m);
            &&& forall|j: int|
                #![trigger dir_above(ns, j)]
                0 <= j < m && dir == dir_above(ns, j) ==> {
                    let file = join_text(text_of_first(root, ns.len() - 1 - j), gitignore_name());
                    let said = match above[j] {
                        Some(contents) => file_verdicts(file, contents@),
                        None => None,
                    };
                    if said is Some {
                        &&& found.contains_key(dir)
                        &&& found[dir].verdicts == said->0
                        &&& found[dir].scan_id == 0
                    } else {
                        &&& found.contains_key(dir) == ignores.contains_key(dir)
                        &&& found.contains_key(dir) ==> found[dir] == ignores[dir]
                    }
                }
            &&& (forall|j: int| 0 <= j < m ==> dir != #[trigger] dir_above(ns, j))
                ==> {
                &&& found.contains_key(dir) == ignores.contains_key(dir)
                &&& found.contains_key(dir) ==> found[dir] == ignores[dir]
            }
        }),
    decreases m,
{
    if m > 0 {
        let ns = components(root);
        let k = ns.len() - m;
        lemma_files_above(ignores, root, above, m - 1, dir);
        lemma_first_written(root, k);
        assert(components(text_of_first(root, k)) == ns.take(k));
        let here = dir_above(ns, m - 1);
        assert(here == ns.take(k));
        assert(here.len() == k);
        let before = ignores_above(ignores, root, above, m - 1);
        let found = ignores_above(ignores, root, above, m);
        if dir != here {
            assert(found.contains_key(dir) == before.contains_key(dir));
            assert(found.contains_key(dir) ==> found[dir] == before[dir]);
        }
        assert forall|j: int| 0 <= j < m - 1 implies #[trigger] dir_above(ns, j) != here by {
            assert(dir_above(ns, j).len() == ns.len() - 1 - j);
        }
        assert(ns.len() - 1 - (m - 1) == k);
        assert forall|j: int|
            #![trigger dir_above(ns, j)]
            0 <= j < m && dir == dir_above(ns, j) implies {
            let file = join_text(text_of_first(root, ns.len() - 1 - j), gitignore_name());
            let said = match above[j] {
                Some(contents) => file_verdicts(file, contents@),
                None => None,
            };
            if said is Some {
                &&& found.contains_key(dir)
                &&& found[dir].verdicts == said->0
                &&& found[dir].scan_id == 0
            } else {
                &&& found.contains_key(dir) == ignores.contains_key(dir)
                &&& found.contains_key(dir) ==> found[dir] == ignores[dir]
            }
        } by {
            if j == m - 1 {
                assert(dir == here);
            }
        }
        if forall|j: int| 0 <= j < m ==> dir != #[trigger] dir_above(ns, j) {
            assert(dir != here);
        }
    }
}

/// Once a scan begins, the ignore file of every directory above the root is known whose text was given
/// and can be used, with what that very text says; of no other directory above the root one becomes
/// known; and elsewhere nothing changes. `above` holds the texts, that of the nearest directory first.
#[verifier::rlimit(40)]
#[verifier::spinoff_prover]
pub proof fn law_beginning_scan_knows_files_above(
    l: &mut LocalSnapshot,
    above: &Vec<Option<String>>,
    r: Option<ScanJob>,
    i: int,
    dir: Seq<Seq<char>>,
)
    requires
        call_ensures(LocalSnapshot::begin_scan, (l, above), r),
        above@.len() == old(l).snap().root_path().comps().len() - root_length(
            old(l).snap().root_path().comps(),
        ),
        0 <= i < above@.len(),
    ensures
        ({
            let root = old(l).snap().root_path().comps();
            let n = root.len() as int;
            let here = root.take(n - 1 - i);
            let file = join_text(
                text_of_first(old(l).snap().root_path()@, n - 1 - i),
                seq!['.', 'g', 'i', 't', 'i', 'g', 'n', 'o', 'r', 'e'],
            );
            let said = match above@[i] {
                Some(contents) => file_verdicts(file, contents@),
                None => None,
            };
            &&& said is Some ==> {
                &&& final(l).ignores().contains_key(here)
                &&& final(l).ignores()[here].verdicts == said->0
                &&& final(l).ignores()[here].scan_id == 0
            }
            &&& said is None ==> {
                &&& final(l).ignores().contains_key(here) == old(l).ignores().contains_key(here)
                &&& final(l).ignores().contains_key(here) ==> final(l).ignores()[here]
                    == old(l).ignores()[here]
            }
            &&& (forall|j: int| 0 <= j < above@.len() ==> dir != #[trigger] dir_above(root, j))
                ==> {
                &&& final(l).ignores().contains_key(dir) == old(l).ignores().contains_key(dir)
                &&& final(l).ignores().contains_key(dir) ==> final(l).ignores()[dir]
                    == old(l).ignores()[dir]
            }
        }),
{
    law_scan_knows_files_above(*old(l), above@, *final(l), i, dir);
    assert(dir_above(old(l).snap().root_path().comps(), i) == old(
        l,
    ).snap().root_path().comps().take(old(l).snap().root_path().comps().len() - 1 - i));
}

/// What an ignore file says is settled by all of its lines: where every line is a comment, a blank
/// line or a glob, its rules are those of all its globs in their order, in the directory that holds
/// it; where one is none of these, the file cannot be used.
pub proof fn law_ignore_file_is_all_its_lines(file: Seq<char>, contents: Seq<char>)
    requires
        components(file).len() > 0,
        components(file).last() != seq!['/'],
    ensures
        ({
            let lines = text_lines(contents);
            let dir = text_of_first(file, components(file).len() - 1);
            let globs = Seq::new(lines.len(), |i: int| line_globs(lines[i])->0).flatten();
            let fine = forall|i: int|
                #![trigger lines[i]]
                0 <= i < lines.len() ==> line_globs(lines[i]) is Some;
            &&& fine ==> file_verdicts(file, contents) == rule_verdicts(without_here(dir), globs)
            &&& !fine ==> file_verdicts(file, contents) is None
        }),
{
    let lines = text_lines(contents);
    lemma_globs(lines);
    assert(crate::path::has_parent(components(file)));
}

proof fn lemma_globs(lines: Seq<Seq<char>>)
    ensures
        ({
            let globs = Seq::new(lines.len(), |i: int| line_globs(lines[i])->0).flatten();
            let fine = forall|i: int|
                #![trigger lines[i]]
                0 <= i < lines.len() ==> line_globs(lines[i]) is Some;
            &&& fine ==> globs_of(lines) == Ok::<Seq<Seq<char>>, nat>(globs)
            &&& !fine ==> globs_of(lines) is Err
            &&& globs_of(lines) matches Err(n) ==> {
                &&& n < lines.len()
                &&& line_globs(lines[n as int]) is None
                &&& forall|i: int| #![trigger lines[i]] 0 <= i < n ==> line_globs(lines[i]) is Some
            }
        }),
    decreases lines.len(),
{
    let per = Seq::new(lines.len(), |i: int| line_globs(lines[i])->0);
    if lines.len() > 0 {
        let t = lines.drop_last();
        let last = lines.len() - 1;
        let per_t = Seq::new(t.len(), |i: int| line_globs(t[i])->0);
        lemma_globs(t);
        assert(per.drop_last() =~= per_t);
        per.lemma_flatten_and_flatten_alt_are_equivalent();
        per_t.lemma_flatten_and_flatten_alt_are_equivalent();
        assert(lines[last] == lines.last());
        assert forall|i: int| #![trigger t[i]] 0 <= i < t.len() implies t[i] == lines[i] by {
        }
        assert forall|i: int| #![trigger lines[i]] 0 <= i < t.len() implies lines[i] == t[i] by {
        }
    } else {
        assert(per.flatten() =~= Seq::empty());
    }
}

/// Where an ignore file cannot be used for a line, it is the first one that is no comment, no blank
/// line and no glob.
pub proof fn law_first_bad_line_is_told(lines: Seq<Seq<char>>, n: nat)
    requires
        globs_of(lines) == Err::<Seq<Seq<char>>, nat>(n),
    ensures
        n < lines.len(),
        line_globs(lines[n as int]) is None,
        forall|i: int| #![trigger lines[i]] 0 <= i < n ==> line_globs(lines[i]) is Some,
{
    lemma_globs(lines);
}

/// Reading an ignore file: where every line is a comment, a blank line or a glob, it has the rules of
/// all its globs in their order, in the directory that holds it, if these can be built; where one is
/// none of these, the number of the first such line is told.
pub proof fn law_ignore_file_is_read_whole(
    file: &Path,
    contents: &str,
    r: Result<Gitignore, GitignoreError>,
)
    requires
        call_ensures(build_gitignore, (file, contents), r),
        file.comps().len() > 0,
        file.comps().last() != seq!['/'],
    ensures
        ({
            let lines = text_lines(contents@);
            let dir = text_of_first(file@, file.comps().len() - 1);
            let globs = Seq::new(lines.len(), |i: int| line_globs(lines[i])->0).flatten();
            let fine = forall|i: int|
                #![trigger lines[i]]
                0 <= i < lines.len() ==> line_globs(lines[i]) is Some;
            let rules = rule_verdicts(without_here(dir), globs);
            &&& r is Ok <==> fine && rules is Some
            &&& r matches Ok(g) ==> gitignore_verdicts(g) == rules->0
            &&& r matches Err(GitignoreError::BadRules) ==> fine
            &&& r matches Err(GitignoreError::BadLine(n)) ==> {
                &&& n < lines.len()
                &&& line_globs(lines[n as int]) is None
                &&& forall|i: int| #![trigger lines[i]] 0 <= i < n ==> line_globs(lines[i]) is Some
            }
        }),
{
    law_ignore_file_is_all_its_lines(file@, contents@);
    lemma_globs(text_lines(contents@));
}

/// The text that has the given lines, each ended by a line feed.
pub open spec fn with_line_feeds(lines: Seq<Seq<char>>) -> Seq<char>
    decreases lines.len(),
{
    if lines.len() == 0 {
        Seq::empty()
    } else {
        with_line_feeds(lines.drop_last()) + lines.last() + seq!['\n']
    }
}

/// A text that was put together of lines has these lines again, whether or not a line feed ends the
/// last one.
pub proof fn law_lines_come_back(lines: Seq<Seq<char>>)
    requires
        forall|i: int|
            #![trigger lines[i]]
            0 <= i < lines.len() ==> !lines[i].contains('\n') && (lines[i].len() > 0 ==> lines[i].last()
                != '\r'),
    ensures
        text_lines(with_line_feeds(lines)) == lines,
        lines.len() > 0 && lines.last().len() > 0 ==> text_lines(
            with_line_feeds(lines.drop_last()) + lines.last(),
        ) == lines,
        lines.len() > 0 ==> text_lines(
            with_line_feeds(lines.drop_last()) + lines.last() + seq!['\r', '\n'],
        ) == lines,
    decreases lines.len(),
{
    lemma_split(lines);
    if lines.len() > 0 {
        let t = lines.drop_last();
        let last = lines.last();
        assert forall|i: int| #![trigger t[i]] 0 <= i < t.len() implies !t[i].contains('\n') && (
        t[i].len() > 0 ==> t[i].last() != '\r') by {
            assert(t[i] == lines[i]);
        }
        assert(lines[lines.len() - 1] == last);
        lemma_split(t);
        lemma_split_on(with_line_feeds(t), last);
        assert(t.push(last) =~= lines);
        let u = with_line_feeds(t) + last;
        let v = u.push('\r');
        let w = v.push('\n');
        assert(u + seq!['\r', '\n'] =~= w);
        assert(v.drop_last() =~= u);
        assert(w.drop_last() =~= v);
        assert(split_lines(v) == (t, last.push('\r')));
        assert(last.push('\r').drop_last() =~= last);
    }
}

proof fn lemma_split(lines: Seq<Seq<char>>)
    requires
        forall|i: int|
            #![trigger lines[i]]
            0 <= i < lines.len() ==> !lines[i].contains('\n') && (lines[i].len() > 0 ==> lines[i].last()
                != '\r'),
    ensures
        split_lines(with_line_feeds(lines)) == (lines, Seq::<char>::empty()),
    decreases lines.len(),
{
    if lines.len() > 0 {
        let t = lines.drop_last();
        let last = lines.last();
        assert forall|i: int| #![trigger t[i]] 0 <= i < t.len() implies !t[i].contains('\n') && (
        t[i].len() > 0 ==> t[i].last() != '\r') by {
            assert(t[i] == lines[i]);
        }
        assert(lines[lines.len() - 1] == last);
        lemma_split(t);
        lemma_split_on(with_line_feeds(t), last);
        let u = with_line_feeds(t) + last;
        assert(u + seq!['\n'] =~= u.push('\n'));
        assert(u.push('\n').drop_last() =~= u);
        assert(t.push(last) =~= lines);
    } else {
        assert(lines =~= Seq::empty());
    }
}

/// Characters behind a line feed are the unfinished rest.
proof fn lemma_split_on(t: Seq<char>, rest: Seq<char>)
    requires
        split_lines(t).1.len() == 0,
        !rest.contains('\n'),
    ensures
        split_lines(t + rest) == (split_lines(t).0, rest),
    decreases rest.len(),
{
    if rest.len() > 0 {
        let u = t + rest;
        let less = rest.drop_last();
        assert(!less.contains('\n')) by {
            if less.contains('\n') {
                let i = choose|i: int| 0 <= i < less.len() && less[i] == '\n';
                assert(rest[i] == '\n');
            }
        }
        lemma_split_on(t, less);
        assert(u.drop_last() =~= t + less);
        assert(rest[rest.len() - 1] != '\n');
        assert(less.push(rest.last()) =~= rest);
    } else {
        assert(t + rest =~= t);
        assert(rest =~= Seq::empty());
        assert(split_lines(t).1 =~= Seq::empty());
    }
}

/// A line behind a text that is empty or ends in a line feed is one line more, whether a line feed, a
/// carriage return and a line feed, or nothing ends it.
pub proof fn law_line_is_one_more(t: Seq<char>, line: Seq<char>)
    requires
        t.len() == 0 || t.last() == '\n',
        !line.contains('\n'),
    ensures
        line.len() > 0 ==> text_lines(t + line) == text_lines(t).push(line),
        line.len() == 0 || line.last() != '\r' ==> text_lines(t + line + seq!['\n']) == text_lines(
            t,
        ).push(line),
        text_lines(t + line + seq!['\r', '\n']) == text_lines(t).push(line),
{
    lemma_rest_grows(t, line);
    let u = t + line;
    let a = u + seq!['\n'];
    assert(a.drop_last() =~= u);
    let b = u + seq!['\r'];
    let c = u + seq!['\r', '\n'];
    assert(b.drop_last() =~= u);
    assert(c.drop_last() =~= b);
    assert(b.last() == '\r' && c.last() == '\n');
    assert(split_lines(b) == (split_lines(t).0, line.push('\r')));
    assert(line.push('\r').drop_last() =~= line);
    assert(split_lines(c).0 == split_lines(t).0.push(line));
}

proof fn lemma_rest_grows(t: Seq<char>, line: Seq<char>)
    requires
        t.len() == 0 || t.last() == '\n',
        !line.contains('\n'),
    ensures
        split_lines(t).1.len() == 0,
        split_lines(t + line) == (split_lines(t).0, line),
    decreases line.len(),
{
    if line.len() == 0 {
        assert(t + line =~= t);
        assert(split_lines(t).1 =~= line);
    } else {
        let less = line.drop_last();
        assert(!less.contains('\n')) by {
            if less.contains('\n') {
                let i = choose|i: int| 0 <= i < less.len() && less[i] == '\n';
                assert(line[i] == '\n');
            }
        }
        lemma_rest_grows(t, less);
        assert((t + line).drop_last() =~= t + less);
        assert(line.contains(line.last()));
        assert(less.push(line.last()) =~= line);
    }
}

/// Putting in an entry changes what is known of ignore files exactly where it is a file named
/// `.gitignore` with a text that can be used: the directory that holds it is then known with what that
/// text says, as changed by the current scan.
pub proof fn law_ignore_file_is_known_when_put_in(
    before: LocalSnapshot,
    e: Entry,
    contents: Option<Seq<char>>,
    r: Entry,
    after: LocalSnapshot,
    dir: Seq<Seq<char>>,
)
    requires
        is_with_entry(before, e, contents, r, after),
    ensures
        ({
            let file = join_text(before.root_text(), e.path@);
            let here = components(file).take(components(file).len() - 1);
            let is_file = e.is_file_entry() && e.comps().len() > 0 && e.comps().last() == seq![
                '.',
                'g',
                'i',
                't',
                'i',
                'g',
                'n',
                'o',
                'r',
                'e',
            ];
            let said = match contents {
                Some(t) => file_verdicts(file, t),
                None => None,
            };
            &&& is_file && said is Some ==> {
                &&& after.ignores().contains_key(here)
                &&& after.ignores()[here].verdicts == said->0
                &&& after.ignores()[here].scan_id == before.scan()
            }
            &&& !(is_file && said is Some && dir == here) ==> {
                &&& after.ignores().contains_key(dir) == before.ignores().contains_key(dir)
                &&& after.ignores().contains_key(dir) ==> after.ignores()[dir]
                    == before.ignores()[dir]
            }
        }),
{
    let file = join_text(before.root_text(), e.path@);
    let k = components(file).len() - 1;
    lemma_git_names();
    assert(gitignore_name() =~= seq!['.', 'g', 'i', 't', 'i', 'g', 'n', 'o', 'r', 'e']);
    if crate::path::file_name_of(e.comps()) is Some {
        crate::path_lemmas::lemma_join_last(before.root_text(), e.path@);
        lemma_first_written(file, k);
    }
}

} // verus!
