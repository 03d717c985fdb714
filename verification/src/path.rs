//! Slash-separated paths.
//!
//! A [`Path`] keeps its text as it was written and, beside it, the components that the text
//! names. Paths are compared, ordered and nested by their components.
use crate::path_lemmas::{lemma_components_well_named, lemma_name_lt_irreflexive};
use crate::path_text::{
    is_span, lemma_first_of_first, lemma_spans_in_order, lemma_text_behind, lemma_text_behind_all,
    lemma_text_behind_none, lemma_text_of_first, lemma_text_of_none, lemma_trimmed, part, spans,
    text_behind, text_of_first,
};
use crate::text::{chars_of, same_chars, string_of, text_is};
use std::sync::Arc;
use vstd::prelude::*;

verus! {

/// How two keys stand to each other.
#[derive(Clone, Copy, Debug, PartialEq, Eq, Structural)]
pub enum KeyOrder {
    Less,
    Same,
    Greater,
}

/// What lies between the slashes of a text, empty pieces included.
pub open spec fn pieces(t: Seq<char>) -> Seq<Seq<char>>
    decreases t.len(),
{
    if t.len() == 0 {
        seq![Seq::<char>::empty()]
    } else {
        let before = pieces(t.drop_last());
        if t.last() == '/' {
            before.push(Seq::empty())
        } else {
            before.update(before.len() - 1, before.last().push(t.last()))
        }
    }
}

/// Whether a piece names a component: empty pieces do not, and `.` does only where it comes
/// first.
pub open spec fn names_component(piece: Seq<char>, first: bool) -> bool {
    piece.len() > 0 && (first || piece != seq!['.'])
}

/// The pieces that name components, in order.
pub open spec fn named_pieces(ps: Seq<Seq<char>>) -> Seq<Seq<char>>
    decreases ps.len(),
{
    if ps.len() == 0 {
        Seq::empty()
    } else {
        let before = named_pieces(ps.drop_last());
        if names_component(ps.last(), ps.len() == 1) {
            before.push(ps.last())
        } else {
            before
        }
    }
}

/// Whether a text is that of an absolute path.
pub open spec fn is_absolute_text(t: Seq<char>) -> bool {
    t.len() > 0 && t[0] == '/'
}

/// The root component, for an absolute path.
pub open spec fn root_part(t: Seq<char>) -> Seq<Seq<char>> {
    if is_absolute_text(t) {
        seq![seq!['/']]
    } else {
        Seq::empty()
    }
}

/// The components of a path: the root `/` where the path is absolute, and then the names
/// between the slashes. Repeated and trailing slashes do not count, nor does `.` after the
/// first name.
pub open spec fn components(t: Seq<char>) -> Seq<Seq<char>> {
    root_part(t) + named_pieces(pieces(t))
}

/// The class of a component: the root comes before `.`, that before `..`, and that before every
/// ordinary name.
pub open spec fn name_class(n: Seq<char>) -> int {
    if n == seq!['/'] {
        0
    } else if n == seq!['.'] {
        1
    } else if n == seq!['.', '.'] {
        2
    } else {
        3
    }
}

/// Whether a component is an ordinary name.
pub open spec fn is_plain_name(n: Seq<char>) -> bool {
    name_class(n) == 3
}

/// The order of texts by their characters, the first difference deciding.
pub open spec fn chars_lt(a: Seq<char>, b: Seq<char>) -> bool
    decreases a.len(),
{
    if b.len() == 0 {
        false
    } else if a.len() == 0 {
        true
    } else {
        a[0] < b[0] || (a[0] == b[0] && chars_lt(a.drop_first(), b.drop_first()))
    }
}

/// The order of components.
pub open spec fn name_lt(a: Seq<char>, b: Seq<char>) -> bool {
    name_class(a) < name_class(b) || (name_class(a) == name_class(b) && chars_lt(a, b))
}

/// The order of paths: that of their components, the first difference deciding, so that a
/// directory comes right before what lies in it.
pub open spec fn names_lt(a: Seq<Seq<char>>, b: Seq<Seq<char>>) -> bool
    decreases a.len(),
{
    if b.len() == 0 {
        false
    } else if a.len() == 0 {
        true
    } else {
        name_lt(a[0], b[0]) || (a[0] == b[0] && names_lt(a.drop_first(), b.drop_first()))
    }
}

/// Whether one path is another one or lies below it.
pub open spec fn nested_in(a: Seq<Seq<char>>, base: Seq<Seq<char>>) -> bool {
    base.is_prefix_of(a)
}

/// Whether `child` lies directly in `parent`.
pub open spec fn is_child_of(child: Seq<Seq<char>>, parent: Seq<Seq<char>>) -> bool {
    child.len() == parent.len() + 1 && child.drop_last() == parent
}

/// The text that joins components with slashes.
pub open spec fn render(ns: Seq<Seq<char>>) -> Seq<char>
    decreases ns.len(),
{
    if ns.len() == 0 {
        Seq::empty()
    } else if ns.len() == 1 {
        ns[0]
    } else if ns.drop_last() == seq![seq!['/']] {
        render(ns.drop_last()) + ns.last()
    } else {
        render(ns.drop_last()).push('/') + ns.last()
    }
}

/// The text that `join` gives: an absolute path replaces the base, any other is put behind it
/// with a slash between them where one is needed.
pub open spec fn join_text(base: Seq<char>, t: Seq<char>) -> Seq<char> {
    if is_absolute_text(t) {
        t
    } else if base.len() > 0 && base.last() != '/' {
        base.push('/') + t
    } else {
        base + t
    }
}

/// Whether a component can stand in a path: it is the root or a name, and `/` and `.` stand
/// only in the first place.
pub open spec fn fits(n: Seq<char>, first: bool) -> bool {
    ||| first && n == seq!['/']
    ||| !n.contains('/') && names_component(n, first)
}

/// Whether a sequence is the components of some path.
pub open spec fn well_named(ns: Seq<Seq<char>>) -> bool {
    forall|i: int| #![trigger ns[i]] 0 <= i < ns.len() ==> fits(ns[i], i == 0)
}

/// The names that a list of character vectors spells.
pub open spec fn spelled(v: Seq<Vec<char>>) -> Seq<Seq<char>> {
    v.map_values(|n: Vec<char>| n@)
}

/// A path. Its view is its text.
#[derive(Debug)]
pub struct Path {
    text: String,
    names: Vec<Vec<char>>,
}

impl View for Path {
    type V = Seq<char>;

    closed spec fn view(&self) -> Seq<char> {
        self.text@
    }
}

impl Clone for Path {
    fn clone(&self) -> (r: Self)
        ensures
            r@ == self@,
    {
        Path::new(self.as_str())
    }
}

impl Path {
    #[verifier::type_invariant]
    closed spec fn inv(self) -> bool {
        spelled(self.names@) == components(self.text@)
    }

    /// The components of the path.
    pub open spec fn comps(&self) -> Seq<Seq<char>> {
        components(self@)
    }

    /// The path with the given text.
    pub fn new(text: &str) -> (r: Path)
        ensures
            r@ == text@,
    {
        let chars = chars_of(text);
        Self::from_chars(&chars)
    }

    fn from_chars(chars: &Vec<char>) -> (r: Path)
        ensures
            r@ == chars@,
    {
        let names = parse(chars);
        let text = string_of(chars);
        Path { text, names }
    }

    /// The text of the path.
    pub fn as_str(&self) -> (r: &str)
        ensures
            r@ == self@,
    {
        self.text.as_str()
    }

    /// The text of the path as an owned string.
    pub fn to_text(&self) -> (r: String)
        ensures
            r@ == self@,
    {
        self.text.clone()
    }

    /// The number of components.
    pub fn depth(&self) -> (r: usize)
        ensures
            r == self.comps().len(),
    {
        proof {
            use_type_invariant(self);
        }
        self.names.len()
    }

    /// Whether two paths have the same components.
    pub fn same(&self, other: &Path) -> (r: bool)
        ensures
            r == (self.comps() == other.comps()),
    {
        self.compare(other) == KeyOrder::Same
    }

    /// How two paths stand to each other in the order of paths.
    pub fn compare(&self, other: &Path) -> (r: KeyOrder)
        ensures
            match r {
                KeyOrder::Less => names_lt(self.comps(), other.comps()),
                KeyOrder::Same => self.comps() == other.comps(),
                KeyOrder::Greater => names_lt(other.comps(), self.comps()),
            },
            r == KeyOrder::Same <==> self.comps() == other.comps(),
    {
        proof {
            use_type_invariant(self);
            use_type_invariant(other);
        }
        compare_names(&self.names, &other.names)
    }

    /// Whether the path is `base` or lies below it.
    pub fn starts_with(&self, base: &Path) -> (r: bool)
        ensures
            r == nested_in(self.comps(), base.comps()),
    {
        proof {
            use_type_invariant(self);
            use_type_invariant(base);
        }
        let n: usize = base.names.len();
        if self.names.len() < n {
            return false;
        }
        let ghost a = self.comps();
        let ghost b = base.comps();
        let mut i: usize = 0;
        while i < n
            invariant
                i <= n,
                n == base.names.len(),
                n <= self.names.len(),
                a == self.comps(),
                b == base.comps(),
                a == spelled(self.names@),
                b == spelled(base.names@),
                forall|j: int| 0 <= j < i ==> a[j] == b[j],
            decreases n - i,
        {
            assert(a[i as int] == self.names@[i as int]@);
            assert(b[i as int] == base.names@[i as int]@);
            if !same_chars(&self.names[i], &base.names[i]) {
                assert(a.subrange(0, n as int)[i as int] == a[i as int]);
                return false;
            }
            i = i + 1;
        }
        assert(b =~= a.subrange(0, n as int));
        true
    }

    /// What is left of the path behind `base`, as it is written; nothing where the path does not
    /// lie below `base`.
    pub fn strip_prefix(&self, base: &Path) -> (r: Option<Path>)
        ensures
            r is Some <==> nested_in(self.comps(), base.comps()),
            r matches Some(p) ==> {
                &&& p.comps() == self.comps().skip(base.comps().len() as int)
                &&& p@ == text_behind(self@, base.comps().len() as int)
            },
    {
        proof {
            use_type_invariant(self);
            use_type_invariant(base);
        }
        if !self.starts_with(base) {
            return None;
        }
        let chars = chars_of(self.text.as_str());
        let spans = spans(&chars);
        let n: usize = spans.len();
        let k: usize = base.names.len();
        let ghost t = self@;
        if k == n {
            proof {
                lemma_text_behind_all(t);
            }
            let none: Vec<char> = Vec::new();
            assert(none@ =~= Seq::empty());
            return Some(Self::from_chars(&none));
        }
        let end: usize = spans[n - 1].1;
        let start: usize = if k == 0 {
            0
        } else {
            spans[k].0
        };
        proof {
            let last = spans@[n - 1];
            assert(is_span(t, n - 1, last.0 as int, last.1 as int));
            if k == 0 {
                lemma_text_behind_none(t, last.0 as int, last.1 as int);
                assert(t.take(end as int) =~= t.subrange(0, end as int));
                assert(t.take(end as int) == text_behind(t, 0));
                assert(self.comps().skip(0) =~= self.comps());
            } else {
                let next = spans@[k as int];
                assert(is_span(t, k as int, next.0 as int, next.1 as int));
                lemma_spans_in_order(
                    t,
                    k as int,
                    next.0 as int,
                    next.1 as int,
                    n - 1,
                    last.0 as int,
                    last.1 as int,
                );
                lemma_text_behind(
                    t,
                    k as int,
                    next.0 as int,
                    next.1 as int,
                    last.0 as int,
                    last.1 as int,
                );
            }
        }
        Some(Self::from_chars(&part(&chars, start, end)))
    }

    /// The path with `other` put behind it.
    pub fn join(&self, other: &Path) -> (r: Path)
        ensures
            r@ == join_text(self@, other@),
    {
        let tail = chars_of(other.text.as_str());
        if tail.len() > 0 && tail[0] == '/' {
            return Self::from_chars(&tail);
        }
        let mut chars = chars_of(self.text.as_str());
        if chars.len() > 0 && chars[chars.len() - 1] != '/' {
            chars.push('/');
        }
        let mut tail = tail;
        chars.append(&mut tail);
        Self::from_chars(&chars)
    }

    /// The last component, where it is an ordinary name.
    pub fn file_name(&self) -> (r: Option<String>)
        ensures
            r is Some <==> file_name_of(self.comps()) is Some,
            r matches Some(n) ==> file_name_of(self.comps()) == Some(n@),
    {
        proof {
            use_type_invariant(self);
        }
        if self.names.len() == 0 {
            return None;
        }
        let last = &self.names[self.names.len() - 1];
        assert(last@ == self.comps().last());
        if class_of(last) == 3 {
            Some(string_of(last))
        } else {
            None
        }
    }

    /// Whether the last component is the given ordinary name.
    pub fn file_name_is(&self, name: &str) -> (r: bool)
        ensures
            r == (file_name_of(self.comps()) == Some(name@)),
    {
        proof {
            use_type_invariant(self);
        }
        if self.names.len() == 0 {
            return false;
        }
        let last = &self.names[self.names.len() - 1];
        assert(last@ == self.comps().last());
        class_of(last) == 3 && text_is(last, name)
    }

    /// The path without its last component, as it is written. An empty path and the root have no
    /// parent.
    pub fn parent(&self) -> (r: Option<Path>)
        ensures
            r is Some <==> has_parent(self.comps()),
            r matches Some(p) ==> {
                &&& p.comps() == self.comps().drop_last()
                &&& p@ == text_of_first(self@, self.comps().len() - 1)
            },
    {
        proof {
            use_type_invariant(self);
        }
        let n: usize = self.names.len();
        if n == 0 {
            return None;
        }
        assert(self.names@[n - 1]@ == self.comps().last());
        if class_of(&self.names[n - 1]) == 0 {
            return None;
        }
        let chars = chars_of(self.text.as_str());
        let spans = spans(&chars);
        let ghost t = self@;
        let end: usize = if n == 1 {
            0
        } else {
            spans[n - 2].1
        };
        proof {
            assert(self.comps().take(n - 1) =~= self.comps().drop_last());
            if n == 1 {
                lemma_text_of_none(t);
            } else {
                let last = spans@[n - 2];
                assert(is_span(t, n - 2, last.0 as int, last.1 as int));
                lemma_text_of_first(t, n - 2, last.0 as int, last.1 as int);
            }
            assert(t.subrange(0, end as int) =~= t.take(end as int));
            assert(t.take(0) =~= Seq::empty());
        }
        Some(Self::from_chars(&part(&chars, 0, end)))
    }

    /// The paths above this one, from the nearest to the farthest.
    pub fn ancestors(&self) -> (r: Vec<Arc<Path>>)
        ensures
            are_ancestors(r@, self@),
    {
        let ghost c = self.comps();
        let ghost t = self@;
        let mut r: Vec<Arc<Path>> = Vec::new();
        let mut next = self.parent();
        proof {
            lemma_components_well_named(self@);
            lemma_trimmed(t);
        }
        assert(c.take(c.len() as int) =~= c);
        loop
            invariant
                c == components(t),
                well_named(c),
                r@.len() <= c.len(),
                next is Some <==> has_parent(c.take(c.len() - r@.len())),
                next matches Some(p) ==> {
                    &&& p.comps() == c.take(c.len() - r@.len()).drop_last()
                    &&& p@ == text_of_first(t, c.len() - r@.len() - 1)
                },
                root_length(c) <= c.len() - r@.len(),
                forall|i: int|
                    #![trigger r@[i]]
                    0 <= i < r@.len() ==> {
                        &&& r@[i].comps() == c.take(c.len() - 1 - i)
                        &&& r@[i]@ == text_of_first(t, c.len() - 1 - i)
                    },
            ensures
                are_ancestors(r@, t),
            decreases c.len() - r@.len(),
        {
            let ghost left = c.take(c.len() - r@.len());
            match next {
                None => {
                    proof {
                        if left.len() > 0 {
                            assert(left.last() == c[left.len() - 1]);
                            assert(fits(c[left.len() - 1], left.len() == 1));
                            assert(left.last()[0] == '/');
                            assert(left.last().contains('/'));
                        }
                    }
                    break;
                },
                Some(p) => {
                    assert(left.drop_last() =~= c.take(left.len() - 1));
                    next = p.parent();
                    proof {
                        if has_parent(p.comps()) {
                            lemma_first_of_first(t, left.len() - 1, left.len() - 2);
                        }
                    }
                    r.push(Arc::new(p));
                },
            }
        }
        r
    }
}

/// The number of components that every path above a path has: an absolute path keeps its root.
pub open spec fn root_length(ns: Seq<Seq<char>>) -> int {
    if ns.len() > 0 && name_class(ns[0]) == 0 {
        1
    } else {
        0
    }
}

/// Whether paths are those above a path, from the nearest to the farthest.
pub open spec fn are_ancestors(ps: Seq<Arc<Path>>, t: Seq<char>) -> bool {
    let ns = components(t);
    &&& ps.len() == ns.len() - root_length(ns)
    &&& forall|i: int|
        #![trigger ps[i]]
        0 <= i < ps.len() ==> {
            &&& ps[i].comps() == ns.take(ns.len() - 1 - i)
            &&& ps[i]@ == text_of_first(t, ns.len() - 1 - i)
        }
}

/// The last component of a path, where it is an ordinary name.
pub open spec fn file_name_of(ns: Seq<Seq<char>>) -> Option<Seq<char>> {
    if ns.len() > 0 && is_plain_name(ns.last()) {
        Some(ns.last())
    } else {
        None
    }
}

/// Whether a text can be the name of a file in a directory.
pub open spec fn is_file_name(n: Seq<char>) -> bool {
    n.len() > 0 && !n.contains('/') && is_plain_name(n)
}

/// Whether a path has a parent.
pub open spec fn has_parent(ns: Seq<Seq<char>>) -> bool {
    ns.len() > 0 && name_class(ns.last()) != 0
}

pub proof fn lemma_prefix_well_named(ns: Seq<Seq<char>>, k: int)
    requires
        well_named(ns),
        0 <= k <= ns.len(),
    ensures
        well_named(ns.take(k)),
{
    let s = ns.take(k);
    assert forall|i: int| #![trigger s[i]] 0 <= i < s.len() implies fits(s[i], i == 0) by {
        assert(s[i] == ns[i]);
    }
}

/// The class of a component.
fn class_of(n: &Vec<char>) -> (r: u8)
    ensures
        r == name_class(n@),
{
    let ghost root: Seq<char> = seq!['/'];
    let ghost here: Seq<char> = seq!['.'];
    let ghost up: Seq<char> = seq!['.', '.'];
    if n.len() == 1 && n[0] == '/' {
        assert(n@ =~= root);
        0
    } else if n.len() == 1 && n[0] == '.' {
        assert(n@ =~= here);
        assert(n@[0] != root[0]);
        1
    } else if n.len() == 2 && n[0] == '.' && n[1] == '.' {
        assert(n@ =~= up);
        2
    } else {
        assert(n@ != root) by {
            assert(root.len() == 1 && root[0] == '/');
        }
        assert(n@ != here) by {
            assert(here.len() == 1 && here[0] == '.');
        }
        assert(n@ != up) by {
            assert(up.len() == 2 && up[0] == '.' && up[1] == '.');
        }
        3
    }
}

/// How two texts stand to each other by their characters.
fn compare_chars(a: &Vec<char>, b: &Vec<char>) -> (r: KeyOrder)
    ensures
        match r {
            KeyOrder::Less => chars_lt(a@, b@),
            KeyOrder::Same => a@ == b@,
            KeyOrder::Greater => chars_lt(b@, a@),
        },
{
    let mut i: usize = 0;
    assert(a@.skip(0) =~= a@);
    assert(b@.skip(0) =~= b@);
    while i < a.len() && i < b.len()
        invariant
            i <= a.len(),
            i <= b.len(),
            forall|j: int| 0 <= j < i ==> a@[j] == b@[j],
            chars_lt(a@, b@) == chars_lt(a@.skip(i as int), b@.skip(i as int)),
            chars_lt(b@, a@) == chars_lt(b@.skip(i as int), a@.skip(i as int)),
        decreases a.len() - i,
    {
        let ghost x = a@.skip(i as int);
        let ghost y = b@.skip(i as int);
        assert(x[0] == a@[i as int] && y[0] == b@[i as int]);
        assert(x.drop_first() =~= a@.skip(i + 1));
        assert(y.drop_first() =~= b@.skip(i + 1));
        if a[i] < b[i] {
            return KeyOrder::Less;
        }
        if b[i] < a[i] {
            return KeyOrder::Greater;
        }
        i = i + 1;
    }
    if i < b.len() {
        KeyOrder::Less
    } else if i < a.len() {
        KeyOrder::Greater
    } else {
        assert(a@ =~= b@);
        KeyOrder::Same
    }
}

/// How two components stand to each other.
fn compare_name(a: &Vec<char>, b: &Vec<char>) -> (r: KeyOrder)
    ensures
        match r {
            KeyOrder::Less => name_lt(a@, b@),
            KeyOrder::Same => a@ == b@,
            KeyOrder::Greater => name_lt(b@, a@),
        },
{
    let ca: u8 = class_of(a);
    let cb: u8 = class_of(b);
    if ca < cb {
        KeyOrder::Less
    } else if cb < ca {
        KeyOrder::Greater
    } else {
        compare_chars(a, b)
    }
}

/// How two lists of components stand to each other.
fn compare_names(a: &Vec<Vec<char>>, b: &Vec<Vec<char>>) -> (r: KeyOrder)
    ensures
        match r {
            KeyOrder::Less => names_lt(spelled(a@), spelled(b@)),
            KeyOrder::Same => spelled(a@) == spelled(b@),
            KeyOrder::Greater => names_lt(spelled(b@), spelled(a@)),
        },
        r == KeyOrder::Same <==> spelled(a@) == spelled(b@),
{
    let mut i: usize = 0;
    let ghost sa = spelled(a@);
    let ghost sb = spelled(b@);
    assert(sa.skip(0) =~= sa);
    assert(sb.skip(0) =~= sb);
    while i < a.len() && i < b.len()
        invariant
            i <= a.len(),
            i <= b.len(),
            sa == spelled(a@),
            sb == spelled(b@),
            forall|j: int| 0 <= j < i ==> sa[j] == sb[j],
            names_lt(sa, sb) == names_lt(sa.skip(i as int), sb.skip(i as int)),
            names_lt(sb, sa) == names_lt(sb.skip(i as int), sa.skip(i as int)),
        decreases a.len() - i,
    {
        let ghost x = sa.skip(i as int);
        let ghost y = sb.skip(i as int);
        assert(x[0] == a@[i as int]@ && y[0] == b@[i as int]@);
        assert(x.drop_first() =~= sa.skip(i + 1));
        assert(y.drop_first() =~= sb.skip(i + 1));
        proof {
            lemma_name_lt_irreflexive(x[0]);
            lemma_name_lt_irreflexive(y[0]);
        }
        match compare_name(&a[i], &b[i]) {
            KeyOrder::Less => {
                assert(sa[i as int] != sb[i as int]);
                return KeyOrder::Less;
            },
            KeyOrder::Greater => {
                assert(sa[i as int] != sb[i as int]);
                return KeyOrder::Greater;
            },
            KeyOrder::Same => {},
        }
        i = i + 1;
    }
    if i < b.len() {
        KeyOrder::Less
    } else if i < a.len() {
        KeyOrder::Greater
    } else {
        assert(sa =~= sb);
        KeyOrder::Same
    }
}

/// The components of a text.
fn parse(text: &Vec<char>) -> (r: Vec<Vec<char>>)
    ensures
        spelled(r@) == components(text@),
{
    let mut names: Vec<Vec<char>> = Vec::new();
    if text.len() > 0 && text[0] == '/' {
        let mut root: Vec<char> = Vec::new();
        root.push('/');
        names.push(root);
        assert(root@ =~= seq!['/']);
    }
    assert(spelled(names@) =~= root_part(text@));
    let mut current: Vec<char> = Vec::new();
    let mut first: bool = true;
    let mut i: usize = 0;
    let ghost mut done: Seq<Seq<char>> = Seq::empty();
    assert(pieces(text@.take(0)) =~= done.push(current@));
    assert(root_part(text@) + named_pieces(done) =~= root_part(text@));
    while i < text.len()
        invariant
            i <= text.len(),
            pieces(text@.take(i as int)) == done.push(current@),
            spelled(names@) == root_part(text@) + named_pieces(done),
            first == (done.len() == 0),
        decreases text.len() - i,
    {
        let ghost before = text@.take(i as int);
        let ghost after = text@.take(i + 1);
        assert(after.drop_last() =~= before);
        let c = text[i];
        assert(after.last() == c);
        if c == '/' {
            let ghost next = done.push(current@);
            assert(next.drop_last() =~= done);
            let ghost piece = current@;
            assert(pieces(after) =~= next.push(Seq::empty()));
            let ghost names_before = names@;
            add_name(&mut names, current, first);
            assert(spelled(names@) =~= root_part(text@) + named_pieces(next));
            current = Vec::new();
            first = false;
            proof {
                done = next;
            }
        } else {
            let ghost piece = current@;
            current.push(c);
            assert(pieces(after) =~= done.push(piece.push(c)));
        }
        i = i + 1;
    }
    assert(text@.take(text@.len() as int) =~= text@);
    let ghost next = done.push(current@);
    assert(next.drop_last() =~= done);
    add_name(&mut names, current, first);
    assert(spelled(names@) =~= components(text@));
    names
}

/// Adds a piece to a list of components, where it names one.
fn add_name(names: &mut Vec<Vec<char>>, piece: Vec<char>, first: bool)
    ensures
        spelled(final(names)@) == if names_component(piece@, first) {
            spelled(old(names)@).push(piece@)
        } else {
            spelled(old(names)@)
        },
{
    let ghost here: Seq<char> = seq!['.'];
    if piece.len() == 0 {
        return;
    }
    if !first && piece.len() == 1 && piece[0] == '.' {
        assert(piece@ =~= here);
        return;
    }
    assert(!first ==> piece@ != here) by {
        assert(here.len() == 1 && here[0] == '.');
    }
    let ghost before = names@;
    let ghost p = piece@;
    names.push(piece);
    assert(spelled(names@) =~= spelled(before).push(p));
}

/// Whether a text can be the name of a file in a directory.
pub fn is_name(text: &str) -> (r: bool)
    ensures
        r == is_file_name(text@),
{
    let chars = chars_of(text);
    let mut i: usize = 0;
    while i < chars.len()
        invariant
            i <= chars.len(),
            chars@ == text@,
            forall|k: int| #![trigger chars@[k]] 0 <= k < i ==> chars@[k] != '/',
        decreases chars.len() - i,
    {
        if chars[i] == '/' {
            assert(text@.contains('/'));
            return false;
        }
        i = i + 1;
    }
    chars.len() > 0 && class_of(&chars) == 3
}

} // verus!
