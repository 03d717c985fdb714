//! Values that are found by a path.
use crate::entry::PathKey;
use crate::path::{names_lt, KeyOrder, Path};
use crate::path_lemmas::{
    lemma_names_lt_irreflexive, lemma_names_lt_total, lemma_names_lt_transitive,
};
use crate::sum_tree::KeyedItem;
use std::sync::Arc;
use vstd::prelude::*;

verus! {

/// A value and the path by which it is found.
#[derive(Debug)]
pub struct AtPath<V> {
    pub path: Arc<Path>,
    pub value: V,
}

impl<V> KeyedItem for AtPath<V> {
    type Key = Path;

    type OwnedKey = PathKey;

    type K = Seq<Seq<char>>;

    open spec fn item_key(&self) -> Seq<Seq<char>> {
        self.path.comps()
    }

    open spec fn key_of(key: &Path) -> Seq<Seq<char>> {
        key.comps()
    }

    open spec fn kept_key(key: &PathKey) -> Seq<Seq<char>> {
        key@
    }

    open spec fn key_lt(a: Seq<Seq<char>>, b: Seq<Seq<char>>) -> bool {
        names_lt(a, b)
    }

    proof fn lemma_key_irreflexive(a: Seq<Seq<char>>) {
        lemma_names_lt_irreflexive(a);
    }

    proof fn lemma_key_transitive(a: Seq<Seq<char>>, b: Seq<Seq<char>>, c: Seq<Seq<char>>) {
        lemma_names_lt_transitive(a, b, c);
    }

    proof fn lemma_key_total(a: Seq<Seq<char>>, b: Seq<Seq<char>>) {
        lemma_names_lt_total(a, b);
    }

    fn key(&self) -> &Path {
        &self.path
    }

    fn borrow_key(key: &PathKey) -> &Path {
        key.path()
    }

    fn compare_key(&self, key: &Path) -> KeyOrder {
        self.path.compare(key)
    }
}

} // verus!
