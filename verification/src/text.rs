//! Text helpers: strings as sequences of characters, ASCII case folding and line splitting.
use vstd::prelude::*;

verus! {

/// The lower-case form of an ASCII letter; every other character is itself.
pub open spec fn ascii_lower(c: char) -> char {
    if 'A' <= c && c <= 'Z' {
        ((c as u32) + 32) as char
    } else {
        c
    }
}

/// `char::to_ascii_lowercase` of std: the letters 'A' to 'Z' become 'a' to 'z' and every other
/// character is returned unchanged.
pub assume_specification[ char::to_ascii_lowercase ](c: &char) -> (r: char)
    ensures
        r == ascii_lower(*c),
;

/// `String::push` of std: appends one character to the end of the string.
pub assume_specification[ String::push ](s: &mut String, c: char)
    ensures
        final(s)@ == old(s)@.push(c),
;

/// The ASCII lower-case form of a whole text.
pub open spec fn lower_text(s: Seq<char>) -> Seq<char> {
    s.map_values(|c: char| ascii_lower(c))
}

/// The characters of a string.
pub fn chars_of(s: &str) -> (r: Vec<char>)
    ensures
        r@ == s@,
{
    broadcast use vstd::string::axiom_spec_iter;

    let mut r: Vec<char> = Vec::new();
    for c in it: s.chars()
        invariant
            it.seq() == s@,
            r@ == s@.take(it.index()),
    {
        assert(s@.take(it.index() + 1) =~= s@.take(it.index()).push(c));
        r.push(c);
    }
    assert(s@.take(s@.len() as int) =~= s@);
    r
}

/// The string made of the given characters.
pub fn string_of(v: &Vec<char>) -> (r: String)
    ensures
        r@ == v@,
{
    let mut r: String = String::new();
    let mut i: usize = 0;
    while i < v.len()
        invariant
            i <= v.len(),
            r@ =~= v@.take(i as int),
        decreases v.len() - i,
    {
        r.push(v[i]);
        i = i + 1;
    }
    r
}

/// Whether two vectors hold the same characters.
pub fn same_chars(a: &Vec<char>, b: &Vec<char>) -> (r: bool)
    ensures
        r == (a@ == b@),
{
    if a.len() != b.len() {
        return false;
    }
    let mut i: usize = 0;
    while i < a.len()
        invariant
            i <= a.len(),
            a.len() == b.len(),
            forall|j: int| 0 <= j < i ==> a@[j] == b@[j],
        decreases a.len() - i,
    {
        if a[i] != b[i] {
            return false;
        }
        i = i + 1;
    }
    assert(a@ =~= b@);
    true
}

/// Whether a text has exactly the characters of a string.
pub fn text_is(a: &Vec<char>, s: &str) -> (r: bool)
    ensures
        r == (a@ == s@),
{
    let b = chars_of(s);
    same_chars(a, &b)
}

/// Whether two strings hold the same text.
pub fn same_text(a: &str, b: &str) -> (r: bool)
    ensures
        r == (a@ == b@),
{
    let chars = chars_of(a);
    text_is(&chars, b)
}

/// The text of a line that a line feed ends, without the carriage return before the line feed.
pub open spec fn without_return(line: Seq<char>) -> Seq<char> {
    if line.len() > 0 && line.last() == '\r' {
        line.drop_last()
    } else {
        line
    }
}

/// What a text splits into: the lines that a line feed ends, and the unfinished rest.
pub open spec fn split_lines(t: Seq<char>) -> (Seq<Seq<char>>, Seq<char>)
    decreases t.len(),
{
    if t.len() == 0 {
        (Seq::empty(), Seq::empty())
    } else {
        let (done, rest) = split_lines(t.drop_last());
        if t.last() == '\n' {
            (done.push(without_return(rest)), Seq::empty())
        } else {
            (done, rest.push(t.last()))
        }
    }
}

/// The lines of a text, without their endings. A line ends in `\n` or `\r\n`; the ending of the
/// last line is optional.
pub open spec fn text_lines(t: Seq<char>) -> Seq<Seq<char>> {
    let (done, rest) = split_lines(t);
    if rest.len() == 0 {
        done
    } else {
        done.push(rest)
    }
}

/// What a list of strings spells.
pub open spec fn texts(v: Seq<String>) -> Seq<Seq<char>> {
    v.map_values(|s: String| s@)
}

/// The lines of a text, as `str::lines` gives them.
pub fn lines(t: &str) -> (r: Vec<String>)
    ensures
        texts(r@) == text_lines(t@),
{
    let chars = chars_of(t);
    let mut done: Vec<String> = Vec::new();
    let mut rest: Vec<char> = Vec::new();
    let mut i: usize = 0;
    assert(texts(done@) =~= Seq::empty());
    while i < chars.len()
        invariant
            i <= chars.len(),
            split_lines(chars@.take(i as int)) == (texts(done@), rest@),
        decreases chars.len() - i,
    {
        let ghost before = chars@.take(i as int);
        let ghost after = chars@.take(i + 1);
        assert(after.drop_last() =~= before);
        assert(after.last() == chars@[i as int]);
        let c = chars[i];
        if c == '\n' {
            let ghost rest_before = rest@;
            let ghost done_before = done@;
            if rest.len() > 0 && rest[rest.len() - 1] == '\r' {
                let _ = rest.pop();
            }
            assert(rest@ =~= without_return(rest_before));
            let line = string_of(&rest);
            done.push(line);
            assert(texts(done@) =~= texts(done_before).push(rest@));
            rest = Vec::new();
        } else {
            rest.push(c);
        }
        i = i + 1;
    }
    assert(chars@.take(chars@.len() as int) =~= t@);
    if rest.len() > 0 {
        let ghost done_before = done@;
        let line = string_of(&rest);
        done.push(line);
        assert(texts(done@) =~= texts(done_before).push(rest@));
    }
    done
}

} // verus!
