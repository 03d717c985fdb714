//! The ignore files that apply in a directory, from the outermost to the innermost.
use crate::gitignore::{gitignore_verdicts, matched, verdict_on, Verdict, Verdicts};
use crate::path::{components, file_name_of, is_file_name, nested_in, Path};
use crate::path_text::text_behind;
use ignore::gitignore::Gitignore;
use std::sync::Arc;
use vstd::prelude::*;

verus! {

/// The name of the directory in which git keeps a repository.
pub open spec fn dot_git() -> Seq<char> {
    seq!['.', 'g', 'i', 't']
}

/// The name of an ignore file.
pub open spec fn gitignore_name() -> Seq<char> {
    seq!['.', 'g', 'i', 't', 'i', 'g', 'n', 'o', 'r', 'e']
}

/// Both names can stand in a directory.
pub proof fn lemma_git_names()
    ensures
        is_file_name(dot_git()),
        is_file_name(gitignore_name()),
        dot_git() != gitignore_name(),
{
    let a = dot_git();
    let b = gitignore_name();
    assert(a.len() == 4 && b.len() == 10);
    assert forall|i: int| 0 <= i < a.len() implies a[i] != '/' by {
        if i == 0 {
            assert(a[0] == '.');
        } else if i == 1 {
            assert(a[1] == 'g');
        } else if i == 2 {
            assert(a[2] == 'i');
        } else {
            assert(a[3] == 't');
        }
    }
    assert forall|i: int| 0 <= i < b.len() implies b[i] != '/' by {
    }
}

/// The rules of one ignore file: the directory that it lies in, and what it says of the paths
/// below.
pub struct Layer {
    pub base: Seq<Seq<char>>,
    pub verdicts: Verdicts,
}

/// What applies in a directory: either everything is ignored, or the rules of some ignore files
/// are asked, those of the last one first.
pub enum IgnoreRules {
    All,
    Layers(Seq<Layer>),
}

/// What one ignore file says of a path: what its rules say of what is written behind its directory.
/// Of what does not lie below its directory it says nothing.
pub open spec fn layer_verdict(layer: Layer, path: Seq<char>, is_dir: bool) -> Verdict {
    if nested_in(components(path), layer.base) {
        verdict_on(layer.verdicts, text_behind(path, layer.base.len() as int), is_dir)
    } else {
        Verdict::Unmatched
    }
}

/// Whether ignore files say that a path is ignored: the last one that says anything decides.
pub open spec fn layers_ignore(layers: Seq<Layer>, path: Seq<char>, is_dir: bool) -> bool
    decreases layers.len(),
{
    if layers.len() == 0 {
        false
    } else {
        match layer_verdict(layers.last(), path, is_dir) {
            Verdict::Ignore => true,
            Verdict::Whitelist => false,
            Verdict::Unmatched => layers_ignore(layers.drop_last(), path, is_dir),
        }
    }
}

/// Whether a path is ignored. The directory in which git keeps a repository always is.
pub open spec fn is_ignored_by(rules: IgnoreRules, path: Seq<char>, is_dir: bool) -> bool {
    ||| is_dir && file_name_of(components(path)) == Some(dot_git())
    ||| match rules {
        IgnoreRules::All => true,
        IgnoreRules::Layers(layers) => layers_ignore(layers, path, is_dir),
    }
}

/// What applies where one ignore file more is found. Where everything is ignored, it changes
/// nothing.
pub open spec fn with_layer(rules: IgnoreRules, layer: Layer) -> IgnoreRules {
    match rules {
        IgnoreRules::All => IgnoreRules::All,
        IgnoreRules::Layers(layers) => IgnoreRules::Layers(layers.push(layer)),
    }
}

/// What applies where no ignore file was found.
pub open spec fn no_rules() -> IgnoreRules {
    IgnoreRules::Layers(Seq::empty())
}

/// One ignore file of a stack.
struct IgnoreLayer {
    abs_base_path: Arc<Path>,
    ignore: Arc<Gitignore>,
}

impl Clone for IgnoreLayer {
    fn clone(&self) -> (r: Self)
        ensures
            r == *self,
    {
        IgnoreLayer { abs_base_path: self.abs_base_path.clone(), ignore: self.ignore.clone() }
    }
}

impl IgnoreLayer {
    spec fn layer(&self) -> Layer {
        Layer { base: self.abs_base_path.comps(), verdicts: gitignore_verdicts(*self.ignore) }
    }
}

spec fn layers_of(v: Seq<IgnoreLayer>) -> Seq<Layer> {
    v.map_values(|l: IgnoreLayer| l.layer())
}

/// The ignore files that apply in a directory.
pub struct IgnoreStack {
    is_all: bool,
    layers: Vec<IgnoreLayer>,
}

impl View for IgnoreStack {
    type V = IgnoreRules;

    closed spec fn view(&self) -> IgnoreRules {
        if self.is_all {
            IgnoreRules::All
        } else {
            IgnoreRules::Layers(layers_of(self.layers@))
        }
    }
}

impl Clone for IgnoreStack {
    fn clone(&self) -> (r: Self)
        ensures
            r@ == self@,
    {
        let layers = self.layers.clone();
        assert(layers@ =~= self.layers@);
        IgnoreStack { is_all: self.is_all, layers }
    }
}

impl IgnoreStack {
    /// No ignore file.
    pub fn none() -> (r: Self)
        ensures
            r@ == no_rules(),
    {
        let r = IgnoreStack { is_all: false, layers: Vec::new() };
        assert(layers_of(r.layers@) =~= Seq::empty());
        r
    }

    /// Everything is ignored.
    pub fn all() -> (r: Self)
        ensures
            r@ == IgnoreRules::All,
    {
        IgnoreStack { is_all: true, layers: Vec::new() }
    }

    /// Whether everything is ignored.
    pub fn is_all(&self) -> (r: bool)
        ensures
            r == (self@ is All),
    {
        self.is_all
    }

    /// The stack with the ignore file of a directory on top.
    pub fn append(&self, abs_base_path: Arc<Path>, ignore: Arc<Gitignore>) -> (r: Self)
        ensures
            r@ == with_layer(
                self@,
                Layer { base: abs_base_path.comps(), verdicts: gitignore_verdicts(*ignore) },
            ),
    {
        let mut r = self.clone();
        if !r.is_all {
            let layer = IgnoreLayer { abs_base_path, ignore };
            let ghost before = r.layers@;
            r.layers.push(layer);
            assert(layers_of(r.layers@) =~= layers_of(before).push(layer.layer()));
        }
        r
    }

    /// Whether a path is ignored.
    pub fn is_abs_path_ignored(&self, abs_path: &Path, is_dir: bool) -> (r: bool)
        ensures
            r == is_ignored_by(self@, abs_path@, is_dir),
    {
        proof {
            reveal_strlit(".git");
            assert(".git"@ =~= dot_git());
        }
        if is_dir && abs_path.file_name_is(".git") {
            return true;
        }
        if self.is_all {
            return true;
        }
        let ghost all = layers_of(self.layers@);
        let ghost path = abs_path@;
        let mut n: usize = self.layers.len();
        assert(all.take(n as int) =~= all);
        while n > 0
            invariant
                n <= self.layers.len(),
                all == layers_of(self.layers@),
                path == abs_path@,
                !self.is_all,
                !(is_dir && file_name_of(components(path)) == Some(dot_git())),
                layers_ignore(all, path, is_dir) == layers_ignore(
                    all.take(n as int),
                    path,
                    is_dir,
                ),
            decreases n,
        {
            n = n - 1;
            let layer = &self.layers[n];
            assert(all.take(n + 1).drop_last() =~= all.take(n as int));
            assert(all.take(n + 1).last() == layer.layer());
            match abs_path.strip_prefix(&layer.abs_base_path) {
                Some(rest) => match matched(&layer.ignore, rest.as_str(), is_dir) {
                    Verdict::Ignore => {
                        return true;
                    },
                    Verdict::Whitelist => {
                        return false;
                    },
                    Verdict::Unmatched => {},
                },
                None => {},
            }
        }
        false
    }
}

} // verus!
