//! The characters that a fuzzy search can find in an entry.
use crate::text::{chars_of, lower_text};
use vstd::prelude::*;

verus! {

/// A bag of characters, gathered in lower case. Its view lists them in the order in which they
/// came.
#[derive(Debug, PartialEq, Eq)]
pub struct CharBag {
    chars: String,
}

impl View for CharBag {
    type V = Seq<char>;

    closed spec fn view(&self) -> Seq<char> {
        self.chars@
    }
}

impl Clone for CharBag {
    fn clone(&self) -> (r: Self)
        ensures
            r == *self,
    {
        CharBag { chars: self.chars.clone() }
    }
}

impl Default for CharBag {
    fn default() -> (r: Self)
        ensures
            r@ == Seq::<char>::empty(),
    {
        CharBag { chars: String::new() }
    }
}

impl CharBag {
    /// The bag of the lower-case characters of a text.
    pub fn from_text(text: &str) -> (r: Self)
        ensures
            r@ == lower_text(text@),
    {
        let mut bag = CharBag { chars: String::new() };
        bag.extend(text);
        assert(bag@ =~= lower_text(text@));
        bag
    }

    /// Adds the lower-case characters of a text.
    pub fn extend(&mut self, text: &str)
        ensures
            final(self)@ == old(self)@ + lower_text(text@),
    {
        let chars = chars_of(text);
        let ghost start = self@;
        let ghost all = lower_text(text@);
        let mut i: usize = 0;
        while i < chars.len()
            invariant
                i <= chars.len(),
                chars@ == text@,
                all == lower_text(text@),
                self@ =~= start + all.take(i as int),
            decreases chars.len() - i,
        {
            let c = chars[i].to_ascii_lowercase();
            assert(all.take(i + 1) =~= all.take(i as int).push(c));
            self.chars.push(c);
            i = i + 1;
        }
        assert(all.take(all.len() as int) =~= all);
    }

    /// The characters of the bag.
    pub fn as_str(&self) -> (r: &str)
        ensures
            r@ == self@,
    {
        self.chars.as_str()
    }
}

} // verus!
