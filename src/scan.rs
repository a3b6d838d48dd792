//! Splitting text into plain runs and escape sequences, removing the escape
//! sequences, and measuring what is left.

use vstd::prelude::*;
use vstd::string::*;
use crate::text::string_views;

verus! {

/// Pattern of one terminal escape sequence.
pub const ANSI_REGEX: &'static str = r"[\x1b\x9b][\[()#;?]*(?:[0-9]{1,4}(?:;[0-9]{0,4})*)?[0-9A-PRZcf-nqry=><]";

/// The two characters that can introduce an escape sequence.
pub open spec fn is_introducer(c: char) -> bool {
    c == '\u{1b}' || c == '\u{9b}'
}

/// Characters that may stand between the introducer and the terminator.
pub open spec fn is_parameter(c: char) -> bool {
    c == '[' || c == '(' || c == ')' || c == '#' || c == ';' || c == '?' || ('0' <= c && c <= '9')
}

/// Characters that may end an escape sequence.
pub open spec fn is_terminator(c: char) -> bool {
    ('0' <= c && c <= '9') || ('A' <= c && c <= 'P') || c == 'R' || c == 'Z' || c == 'c'
        || ('f' <= c && c <= 'n') || c == 'q' || c == 'r' || c == 'y' || c == '=' || c == '>'
        || c == '<'
}

/// The outline every match of the escape pattern has: an introducer, any
/// parameter characters, one terminator.
pub open spec fn escape_shaped(t: Seq<char>) -> bool {
    &&& t.len() >= 2
    &&& is_introducer(t[0])
    &&& is_terminator(t.last())
    &&& forall|k: int| 1 <= k < t.len() - 1 ==> is_parameter(#[trigger] t[k])
}

/// Start and end (in characters) of the leftmost match of the escape pattern.
pub uninterp spec fn first_escape(s: Seq<char>) -> Option<(int, int)>;

/// Display width in terminal columns, as the width table measures it.
pub uninterp spec fn display_width(s: Seq<char>) -> nat;

/// Relies on regex::Regex::new and regex::Regex::find: the leftmost match of
/// the escape pattern, split off with the text before and after it.
#[verifier::external_body]
fn find_escape(s: &str) -> (r: Option<(String, String, String)>)
    ensures
        match r {
            None => first_escape(s@) is None,
            Some((a, m, b)) => {
                &&& first_escape(s@) == Some((a@.len() as int, (a@.len() + m@.len()) as int))
                &&& a@ + m@ + b@ == s@
                &&& escape_shaped(m@)
            },
        },
{
    let re = regex::Regex::new(ANSI_REGEX).unwrap();
    match re.find(s) {
        None => None,
        Some(m) => Some((
            s[..m.start()].to_string(),
            m.as_str().to_string(),
            s[m.end()..].to_string(),
        )),
    }
}

/// Relies on unicode_width::UnicodeWidthStr::width: the column width of the
/// text, which is zero for the empty text.
#[verifier::external_body]
fn column_width(s: &str) -> (r: usize)
    ensures
        r as nat == display_width(s@),
        s@.len() == 0 ==> r == 0,
{
    unicode_width::UnicodeWidthStr::width(s)
}

/// Whether a leftmost match found in `s` lies inside it and is not empty.
pub open spec fn match_in(s: Seq<char>, i: int, j: int) -> bool {
    0 <= i < j <= s.len()
}

/// The segments of `s`: plain text and escape sequences in turn, starting and
/// ending with plain text (either may be empty).
pub open spec fn segments(s: Seq<char>) -> Seq<Seq<char>>
    decreases s.len(),
{
    if let Some((i, j)) = first_escape(s) {
        if match_in(s, i, j) {
            seq![s.subrange(0, i), s.subrange(i, j)] + segments(s.subrange(j, s.len() as int))
        } else {
            seq![s]
        }
    } else {
        seq![s]
    }
}

/// `s` with every escape sequence removed.
pub open spec fn cleaned(s: Seq<char>) -> Seq<char>
    decreases s.len(),
{
    if let Some((i, j)) = first_escape(s) {
        if match_in(s, i, j) {
            s.subrange(0, i) + cleaned(s.subrange(j, s.len() as int))
        } else {
            s
        }
    } else {
        s
    }
}

/// Visible width of `s`: the display width of its plain text.
pub open spec fn text_width(s: Seq<char>) -> nat {
    display_width(cleaned(s))
}

/// Whether the text has no character that could start an escape sequence.
pub open spec fn has_no_introducer(s: Seq<char>) -> bool {
    forall|k: int| 0 <= k < s.len() ==> !is_introducer(#[trigger] s[k])
}

/// Splits text into plain text and escape sequences, in order.
pub fn match_indices(txt: &str) -> (r: Vec<String>)
    ensures
        string_views(r@) == segments(txt@),
        has_no_introducer(txt@) ==> r@.len() == 1 && r@[0]@ == txt@,
{
    let mut result: Vec<String> = Vec::new();
    let mut data = String::from_str(txt);
    loop
        invariant
            string_views(result@) + segments(data@) == segments(txt@),
            has_no_introducer(txt@) ==> result@.len() == 0 && data@ == txt@,
        decreases data@.len(),
    {
        match find_escape(data.as_str()) {
            None => {
                proof {
                    assert(segments(data@) == seq![data@]);
                }
                result.push(data);
                proof {
                    assert(string_views(result@) =~= string_views(result@).drop_last().push(data@));
                }
                return result;
            },
            Some((before, mat, after)) => {
                let ghost d = data@;
                proof {
                    if has_no_introducer(txt@) {
                        assert(d[before@.len() as int] == mat@[0]);
                    }
                    let (i, j) = (before@.len() as int, (before@.len() + mat@.len()) as int);
                    assert(d.subrange(0, i) =~= before@);
                    assert(d.subrange(i, j) =~= mat@);
                    assert(d.subrange(j, d.len() as int) =~= after@);
                }
                let ghost old_result = string_views(result@);
                result.push(before);
                result.push(mat);
                proof {
                    assert(string_views(result@) =~= old_result + seq![
                        d.subrange(0, before@.len() as int),
                        d.subrange(before@.len() as int, (before@.len() + mat@.len()) as int),
                    ]);
                }
                data = after;
            },
        }
    }
}

/// Removes every escape sequence from text.
pub fn clean_str(txt: &str) -> (r: String)
    ensures
        r@ == cleaned(txt@),
        has_no_introducer(txt@) ==> r@ == txt@,
{
    let mut result = String::new();
    let mut data = String::from_str(txt);
    loop
        invariant
            result@ + cleaned(data@) == cleaned(txt@),
            has_no_introducer(txt@) ==> result@.len() == 0 && data@ == txt@,
        decreases data@.len(),
    {
        match find_escape(data.as_str()) {
            None => {
                result.append(data.as_str());
                return result;
            },
            Some((before, mat, after)) => {
                let ghost d = data@;
                proof {
                    if has_no_introducer(txt@) {
                        assert(d[before@.len() as int] == mat@[0]);
                    }
                    let (i, j) = (before@.len() as int, (before@.len() + mat@.len()) as int);
                    assert(d.subrange(0, i) =~= before@);
                    assert(d.subrange(j, d.len() as int) =~= after@);
                }
                result.append(before.as_str());
                proof {
                    assert(result@ + cleaned(after@) =~= cleaned(txt@));
                }
                data = after;
            },
        }
    }
}

/// Visible width of text: escape sequences take no columns.
pub fn size_str(txt: &str) -> (r: usize)
    ensures
        r as nat == text_width(txt@),
{
    let plain = clean_str(txt);
    column_width(plain.as_str())
}

/// Scanning loses nothing: the segments of any text, joined in order, give
/// back the text itself.
pub proof fn lemma_segments_join(s: Seq<char>)
    ensures
        segments(s).flatten() == s,
    decreases s.len(),
{
    if let Some((i, j)) = first_escape(s) {
        if match_in(s, i, j) {
            let rest = s.subrange(j, s.len() as int);
            lemma_segments_join(rest);
            let segs = segments(s);
            let a = s.subrange(0, i);
            let m = s.subrange(i, j);
            assert(segs.drop_first() =~= seq![m] + segments(rest));
            assert(segs.drop_first().drop_first() =~= segments(rest));
            assert(segs.flatten() == a + segs.drop_first().flatten());
            assert(segs.drop_first().flatten() == m + segments(rest).flatten());
            assert(a + (m + rest) =~= s);
        } else {
            seq![s].lemma_flatten_singleton();
        }
    } else {
        seq![s].lemma_flatten_singleton();
    }
}

/// Measuring cleaned text gives the width of the original text, wherever
/// cleaning once more changes nothing.
pub proof fn lemma_width_of_cleaned(s: Seq<char>)
    requires
        cleaned(cleaned(s)) == cleaned(s),
    ensures
        text_width(cleaned(s)) == text_width(s),
{
}

} // verus!
