//! Plain character-sequence helpers: trimming white space, splitting on a
//! separator and joining with one.

use vstd::prelude::*;
use vstd::string::*;

verus! {

/// The characters with the Unicode `White_Space` property.
pub open spec fn is_blank(c: char) -> bool {
    ('\u{9}' <= c && c <= '\u{d}') || c == ' ' || c == '\u{85}' || c == '\u{a0}' || c == '\u{1680}'
        || ('\u{2000}' <= c && c <= '\u{200a}') || c == '\u{2028}' || c == '\u{2029}'
        || c == '\u{202f}' || c == '\u{205f}' || c == '\u{3000}'
}

fn blank(c: char) -> (r: bool)
    ensures
        r == is_blank(c),
{
    ('\u{9}' <= c && c <= '\u{d}') || c == ' ' || c == '\u{85}' || c == '\u{a0}' || c == '\u{1680}'
        || ('\u{2000}' <= c && c <= '\u{200a}') || c == '\u{2028}' || c == '\u{2029}'
        || c == '\u{202f}' || c == '\u{205f}' || c == '\u{3000}'
}

/// `s` without its leading white space.
pub open spec fn strip_front(s: Seq<char>) -> Seq<char>
    decreases s.len(),
{
    if s.len() > 0 && is_blank(s[0]) {
        strip_front(s.drop_first())
    } else {
        s
    }
}

/// `s` without its trailing white space.
pub open spec fn strip_back(s: Seq<char>) -> Seq<char>
    decreases s.len(),
{
    if s.len() > 0 && is_blank(s.last()) {
        strip_back(s.drop_last())
    } else {
        s
    }
}

/// `s` without leading and trailing white space.
pub open spec fn trimmed(s: Seq<char>) -> Seq<char> {
    strip_back(strip_front(s))
}

/// Removes leading and trailing white space.
pub fn trim(s: &str) -> (r: String)
    ensures
        r@ == trimmed(s@),
{
    let n = s.unicode_len();
    let mut lo: usize = 0;
    assert(s@.subrange(0, n as int) =~= s@);
    while lo < n && blank(s.get_char(lo))
        invariant
            n == s@.len(),
            lo <= n,
            strip_front(s@) == strip_front(s@.subrange(lo as int, n as int)),
        decreases n - lo,
    {
        assert(s@.subrange(lo as int, n as int).drop_first() =~= s@.subrange(lo + 1, n as int));
        lo = lo + 1;
    }
    let ghost front = s@.subrange(lo as int, n as int);
    assert(strip_front(front) == front);
    let mut hi: usize = n;
    while hi > lo && blank(s.get_char(hi - 1))
        invariant
            n == s@.len(),
            lo <= hi <= n,
            front == s@.subrange(lo as int, n as int),
            strip_back(front) == strip_back(s@.subrange(lo as int, hi as int)),
        decreases hi,
    {
        assert(s@.subrange(lo as int, hi as int).drop_last() =~= s@.subrange(lo as int, hi - 1));
        hi = hi - 1;
    }
    String::from_str(s.substring_char(lo, hi))
}

/// The pieces of `s` between occurrences of `sep` (one more than there are
/// separators).
pub open spec fn split_on(s: Seq<char>, sep: char) -> Seq<Seq<char>>
    decreases s.len(),
{
    if s.len() == 0 {
        seq![Seq::empty()]
    } else {
        let rest = split_on(s.drop_last(), sep);
        if s.last() == sep {
            rest.push(Seq::empty())
        } else {
            rest.update(rest.len() - 1, rest.last().push(s.last()))
        }
    }
}

/// Splitting always gives at least one piece.
pub proof fn lemma_split_nonempty(s: Seq<char>, sep: char)
    ensures
        split_on(s, sep).len() >= 1,
    decreases s.len(),
{
    if s.len() > 0 {
        lemma_split_nonempty(s.drop_last(), sep);
    }
}

/// `ps` joined with `sep` between neighbours.
pub open spec fn joined(ps: Seq<Seq<char>>, sep: char) -> Seq<char>
    decreases ps.len(),
{
    if ps.len() == 0 {
        Seq::empty()
    } else if ps.len() == 1 {
        ps[0]
    } else {
        joined(ps.drop_last(), sep).push(sep) + ps.last()
    }
}

/// The character sequences of a sequence of strings.
pub open spec fn string_views(v: Seq<String>) -> Seq<Seq<char>> {
    v.map_values(|x: String| x@)
}

/// Splits text on every occurrence of `sep`.
pub fn split(s: &str, sep: char) -> (r: Vec<String>)
    ensures
        string_views(r@) == split_on(s@, sep),
{
    let n = s.unicode_len();
    let mut pieces: Vec<String> = Vec::new();
    let mut from: usize = 0;
    let mut i: usize = 0;
    assert(s@.subrange(0, 0) =~= Seq::<char>::empty());
    while i < n
        invariant
            n == s@.len(),
            from <= i <= n,
            string_views(pieces@).push(s@.subrange(from as int, i as int)) == split_on(s@.subrange(0, i as int), sep),
        decreases n - i,
    {
        let c = s.get_char(i);
        let ghost prev = s@.subrange(0, i as int);
        assert(s@.subrange(0, i + 1).drop_last() =~= prev);
        proof {
            lemma_split_nonempty(prev, sep);
        }
        let ghost old_views = string_views(pieces@);
        let ghost old_from = from as int;
        if c == sep {
            let piece = String::from_str(s.substring_char(from, i));
            pieces.push(piece);
            from = i + 1;
            assert(string_views(pieces@) =~= old_views.push(s@.subrange(old_from, i as int)));
            assert(s@.subrange(from as int, i + 1) =~= Seq::<char>::empty());
            assert(string_views(pieces@).push(s@.subrange(from as int, i + 1)) =~= split_on(prev, sep).push(Seq::empty()));
        } else {
            assert(s@.subrange(from as int, i as int).push(c) =~= s@.subrange(from as int, i + 1));
            assert(string_views(pieces@).push(s@.subrange(from as int, i + 1)) =~= split_on(prev, sep).update(
                split_on(prev, sep).len() - 1, split_on(prev, sep).last().push(c)));
        }
        i = i + 1;
    }
    assert(s@.subrange(0, n as int) =~= s@);
    let last = String::from_str(s.substring_char(from, n));
    pieces.push(last);
    assert(string_views(pieces@) =~= split_on(s@, sep));
    pieces
}

/// Joins the pieces with `sep` between neighbours.
pub fn join(pieces: &Vec<String>, sep: &str) -> (r: String)
    requires
        sep@.len() == 1,
    ensures
        r@ == joined(string_views(pieces@), sep@[0]),
{
    let mut r = String::new();
    let mut i: usize = 0;
    while i < pieces.len()
        invariant
            sep@.len() == 1,
            i <= pieces.len(),
            r@ == joined(string_views(pieces@).subrange(0, i as int), sep@[0]),
        decreases pieces.len() - i,
    {
        let ghost ps = string_views(pieces@).subrange(0, i + 1);
        assert(ps.drop_last() =~= string_views(pieces@).subrange(0, i as int));
        if i > 0 {
            r.append(sep);
            assert(r@ =~= joined(ps.drop_last(), sep@[0]).push(sep@[0]));
        }
        r.append(pieces[i].as_str());
        i = i + 1;
    }
    assert(string_views(pieces@).subrange(0, pieces.len() as int) =~= string_views(pieces@));
    r
}

} // verus!
