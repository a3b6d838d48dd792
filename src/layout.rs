//! Slicing text by visible columns, padding, truncating and wrapping it.

use vstd::prelude::*;
use vstd::string::*;
use vstd::seq_lib::lemma_flatten_concat;
use crate::codes::TextAlign;
use crate::text::{join, joined, split, split_on, string_views, trim, trimmed};
use crate::scan::{lemma_segments_join, match_indices, segments, size_str, text_width};

verus! {

/// Columns taken by segment `k`: a plain segment (even position) by its
/// width, an escape sequence none.
pub open spec fn segment_width(segs: Seq<Seq<char>>, k: int) -> int {
    if k % 2 == 0 {
        text_width(segs[k]) as int
    } else {
        0
    }
}

/// The first segment, from `k` on, at whose end the visible offset reaches
/// `target`, with the raw position that lies `target - vis` characters past
/// the segment's start. `vis` and `raw` are the visible and raw offsets of
/// segment `k`.
pub open spec fn reach(segs: Seq<Seq<char>>, k: int, target: int, vis: int, raw: int) -> Option<(int, int)>
    decreases segs.len() - k,
{
    if k < 0 || k >= segs.len() {
        None
    } else if vis + segment_width(segs, k) >= target {
        Some((k, raw + target - vis))
    } else {
        reach(segs, k + 1, target, vis + segment_width(segs, k), raw + segs[k].len())
    }
}

/// Raw end of the columns `[.., end)`: where `end` is first reached, else the
/// end of the text.
pub open spec fn raw_end(s: Seq<char>, end: int) -> int {
    match reach(segments(s), 0, end, 0, 0) {
        Some((_, p)) => p,
        None => s.len() as int,
    }
}

/// Raw start of the columns `[start, end)`: where `start` is first reached,
/// provided that is no later than the segment where `end` is; else zero.
pub open spec fn raw_start(s: Seq<char>, start: int, end: int) -> int {
    match reach(segments(s), 0, start, 0, 0) {
        Some((ks, p)) => match reach(segments(s), 0, end, 0, 0) {
            Some((ke, _)) => if ks > ke { 0 } else { p },
            None => p,
        },
        None => 0,
    }
}

/// The smaller of two integers.
pub open spec fn min_int(a: int, b: int) -> int {
    if a <= b { a } else { b }
}

/// The raw text behind the visible columns `[start, end)`, the bounds held
/// inside the text.
pub open spec fn sliced(s: Seq<char>, start: int, end: int) -> Seq<char> {
    let hi = min_int(raw_end(s, end), s.len() as int);
    let lo = min_int(raw_start(s, start, end), hi);
    s.subrange(lo, hi)
}

/// Slicing from column zero to a column that no segment's end reaches gives
/// back the whole text.
pub proof fn lemma_slice_whole(x: Seq<char>, end: int)
    requires
        reach(segments(x), 0, end, 0, 0) is None,
    ensures
        sliced(x, 0, end) == x,
{
    let segs = segments(x);
    lemma_segments_join(x);
    if segs.len() == 0 {
        assert(segs.flatten() =~= Seq::<char>::empty());
    } else {
        assert(reach(segs, 0, 0, 0, 0) == Some((0int, 0int)));
    }
    assert(x.subrange(0, x.len() as int) =~= x);
}

proof fn lemma_prefix_len(segs: Seq<Seq<char>>, k: int)
    requires
        0 <= k < segs.len(),
    ensures
        segs.subrange(0, k + 1).flatten().len() == segs.subrange(0, k).flatten().len() + segs[k].len(),
        segs.subrange(0, k + 1).flatten().len() <= segs.flatten().len(),
{
    assert(segs.subrange(0, k + 1) =~= segs.subrange(0, k).push(segs[k]));
    segs.subrange(0, k).lemma_flatten_push(segs[k]);
    lemma_flatten_concat(segs.subrange(0, k + 1), segs.subrange(k + 1, segs.len() as int));
    assert(segs.subrange(0, k + 1) + segs.subrange(k + 1, segs.len() as int) =~= segs);
}

proof fn lemma_reach_later(segs: Seq<Seq<char>>, k: int, target: int, vis: int, raw: int)
    ensures
        reach(segs, k, target, vis, raw) matches Some((j, _)) ==> k <= j,
    decreases segs.len() - k,
{
    if 0 <= k < segs.len() && vis + segment_width(segs, k) < target {
        lemma_reach_later(segs, k + 1, target, vis + segment_width(segs, k), raw + segs[k].len());
    }
}

/// `txt` from `lo` (zero where absent, held at most `hi`) to `hi`.
fn take_range(txt: &str, lo: Option<usize>, hi: usize) -> (r: String)
    requires
        hi <= txt@.len(),
    ensures
        r@ == txt@.subrange(min_int(match lo { Some(v) => v as int, None => 0 }, hi as int), hi as int),
{
    let from: usize = match lo {
        Some(v) => if v < hi { v } else { hi },
        None => 0,
    };
    String::from_str(txt.substring_char(from, hi))
}

/// The text behind the visible columns `[start, end)`, escape sequences
/// inside or at the edges of the range included.
pub fn slice_str(txt: &str, start: usize, end: usize) -> (r: String)
    ensures
        r@ == sliced(txt@, start as int, end as int),
{
    let chunks = match_indices(txt);
    let n = txt.unicode_len();
    let ghost segs = string_views(chunks@);
    proof {
        lemma_segments_join(txt@);
        assert(segs.subrange(0, 0).flatten() =~= Seq::<char>::empty());
    }
    let mut u_start: Option<usize> = None;
    let mut vis: usize = 0;
    let mut raw: usize = 0;
    let mut k: usize = 0;
    while k < chunks.len()
        invariant
            segs == segments(txt@),
            segs == string_views(chunks@),
            segs.flatten() == txt@,
            n == txt@.len(),
            0 <= k <= chunks.len(),
            raw == segs.subrange(0, k as int).flatten().len(),
            raw <= n,
            vis <= end,
            reach(segs, 0, end as int, 0, 0) == reach(segs, k as int, end as int, vis as int, raw as int),
            u_start is None ==> vis <= start,
            u_start is None ==> reach(segs, 0, start as int, 0, 0) == reach(segs, k as int, start as int, vis as int, raw as int),
            u_start matches Some(p) ==> (reach(segs, 0, start as int, 0, 0) matches Some((ks, q))
                && ks < k && p == min_int(q, n as int)),
        decreases chunks.len() - k,
    {
        let chunk = &chunks[k];
        let size: usize = if k % 2 == 0 { size_str(chunk.as_str()) } else { 0 };
        assert(size as int == segment_width(segs, k as int));
        if u_start.is_none() && size >= start - vis {
            let gap = start - vis;
            u_start = Some(if gap > n - raw { n } else { raw + gap });
        } else if u_start.is_none() {
            proof {
                lemma_reach_later(segs, k + 1, start as int, (vis + size) as int, raw + segs[k as int].len());
            }
        }
        if size >= end - vis {
            let gap = end - vis;
            let hi: usize = if gap > n - raw { n } else { raw + gap };
            return take_range(txt, u_start, hi);
        }
        let len = chunk.as_str().unicode_len();
        proof {
            lemma_prefix_len(segs, k as int);
        }
        vis = vis + size;
        raw = raw + len;
        k = k + 1;
    }
    take_range(txt, u_start, n)
}

/// `fill` written `n` times over.
pub open spec fn repeated(fill: Seq<char>, n: nat) -> Seq<char>
    decreases n,
{
    if n == 0 {
        Seq::empty()
    } else {
        repeated(fill, (n - 1) as nat) + fill
    }
}

/// Copies of the fill before and after the text: as many whole copies as fit
/// in `diff` columns, placed by the alignment.
pub open spec fn pad_counts(diff: nat, fill_width: nat, align: TextAlign) -> (nat, nat) {
    let copies = diff / fill_width;
    match align {
        TextAlign::Left => (0, copies),
        TextAlign::Right => (copies, 0),
        TextAlign::Center => (copies / 2, (copies - copies / 2) as nat),
    }
}

/// `x` padded with copies of `fill` up to `width` columns; unchanged where it
/// is already that wide or where the fill takes no columns.
pub open spec fn padded(x: Seq<char>, width: nat, align: TextAlign, fill: Seq<char>) -> Seq<char> {
    let size = text_width(x);
    let fill_width = text_width(fill);
    if size >= width || fill_width == 0 {
        x
    } else {
        let (left, right) = pad_counts((width - size) as nat, fill_width, align);
        repeated(fill, left) + x + repeated(fill, right)
    }
}

/// Copies of the fill, together, take whole fill widths and leave less than
/// one fill width of the gap uncovered.
pub proof fn lemma_pad_copies_cover_gap(diff: nat, fill_width: nat, align: TextAlign)
    requires
        fill_width > 0,
    ensures
        ({
            let (left, right) = pad_counts(diff, fill_width, align);
            &&& (left + right) * fill_width <= diff
            &&& diff < (left + right + 1) * fill_width
        }),
{
    let copies = diff / fill_width;
    assert(copies * fill_width <= diff < (copies + 1) * fill_width) by (nonlinear_arith)
        requires
            fill_width > 0,
            copies == diff / fill_width,
    ;
}

fn append_copies(result: &mut String, fill: &str, n: usize)
    ensures
        final(result)@ == old(result)@ + repeated(fill@, n as nat),
{
    let mut j: usize = 0;
    let ghost start = result@;
    while j < n
        invariant
            j <= n,
            result@ == start + repeated(fill@, j as nat),
        decreases n - j,
    {
        result.append(fill);
        j = j + 1;
        assert(result@ =~= start + repeated(fill@, j as nat));
    }
    assert(start + repeated(fill@, 0) =~= start);
}

/// Pads text with copies of `chr` up to `width` visible columns.
pub fn pad_str(txt: &str, width: usize, align: &TextAlign, chr: &str) -> (r: String)
    ensures
        r@ == padded(txt@, width as nat, *align, chr@),
        text_width(txt@) >= width ==> r@ == txt@,
{
    let size = size_str(txt);
    if size >= width {
        return String::from_str(txt);
    }
    let fill_width = size_str(chr);
    if fill_width == 0 {
        return String::from_str(txt);
    }
    let diff = width - size;
    let copies = diff / fill_width;
    let (left, right): (usize, usize) = match align {
        TextAlign::Left => (0, copies),
        TextAlign::Right => (copies, 0),
        TextAlign::Center => (copies / 2, copies - copies / 2),
    };
    let mut result = String::new();
    append_copies(&mut result, chr, left);
    result.append(txt);
    append_copies(&mut result, chr, right);
    assert(result@ =~= repeated(chr@, left as nat) + txt@ + repeated(chr@, right as nat));
    result
}

/// `a - b`, or zero where `b` is larger.
pub open spec fn sat_sub(a: nat, b: nat) -> nat {
    if a >= b { (a - b) as nat } else { 0 }
}

/// `x` cut down to `width` visible columns with `tail` marking the cut; unchanged
/// where it fits. The kept windows are trimmed of white space at their edges.
pub open spec fn truncated(x: Seq<char>, width: nat, align: TextAlign, tail: Seq<char>) -> Seq<char> {
    let size = text_width(x);
    if width >= size {
        x
    } else {
        let room = sat_sub(width, text_width(tail));
        match align {
            TextAlign::Left => trimmed(sliced(x, 0, room as int)) + tail,
            TextAlign::Right => tail + trimmed(sliced(x, size - room, size as int)),
            TextAlign::Center => {
                let dim = room / 2;
                trimmed(sliced(x, 0, dim as int)) + tail + trimmed(sliced(x, size - room + dim, size as int))
            },
        }
    }
}

/// Cuts text down to `width` visible columns, marking the cut with `tail`.
pub fn trucate_str(txt: &str, width: usize, align: &TextAlign, tail: &str) -> (r: String)
    ensures
        r@ == truncated(txt@, width as nat, *align, tail@),
        width >= text_width(txt@) ==> r@ == txt@,
{
    let size = size_str(txt);
    if width >= size {
        return String::from_str(txt);
    }
    let tail_width = size_str(tail);
    let room: usize = if width >= tail_width { width - tail_width } else { 0 };
    match align {
        TextAlign::Left => {
            let window = slice_str(txt, 0, room);
            let mut r = trim(window.as_str());
            r.append(tail);
            r
        },
        TextAlign::Right => {
            let window = slice_str(txt, size - room, size);
            let kept = trim(window.as_str());
            let mut r = String::from_str(tail);
            r.append(kept.as_str());
            r
        },
        TextAlign::Center => {
            let dim = room / 2;
            let left = slice_str(txt, 0, dim);
            let right = slice_str(txt, size - room + dim, size);
            let mut r = trim(left.as_str());
            r.append(tail);
            let kept = trim(right.as_str());
            r.append(kept.as_str());
            r
        },
    }
}

/// Greedy wrapping of the words of one line: the output lines finished so
/// far, the words of the line being built, and its running length (word
/// widths plus one for each word after the line's first).
pub open spec fn wrap_words(words: Seq<Seq<char>>, width: int) -> (Seq<Seq<char>>, Seq<Seq<char>>, int)
    decreases words.len(),
{
    if words.len() == 0 {
        (Seq::empty(), Seq::empty(), 0)
    } else {
        let (done, cur, length) = wrap_words(words.drop_last(), width);
        let word = words.last();
        let size = text_width(word) as int;
        let gap: int = if words.len() > 1 { 1 } else { 0 };
        if cur.len() > 0 && length + size >= width {
            (done.push(joined(cur, ' ')), seq![word], size + gap)
        } else {
            (done, cur.push(word), length + size + gap)
        }
    }
}

/// The output lines of one input line.
pub open spec fn wrap_line(line: Seq<char>, width: int) -> Seq<Seq<char>> {
    let (done, cur, _) = wrap_words(split_on(line, ' '), width);
    if cur.len() > 0 {
        done.push(joined(cur, ' '))
    } else {
        done
    }
}

/// The output lines of all input lines, in order.
pub open spec fn wrap_lines(lines: Seq<Seq<char>>, width: int) -> Seq<Seq<char>>
    decreases lines.len(),
{
    if lines.len() == 0 {
        Seq::empty()
    } else {
        wrap_lines(lines.drop_last(), width) + wrap_line(lines.last(), width)
    }
}

/// `s` wrapped to `width` columns, line by line.
pub open spec fn wrapped_text(s: Seq<char>, width: int) -> Seq<char> {
    joined(wrap_lines(split_on(s, '\n'), width), '\n')
}

/// `n`, held at the largest `usize`.
pub open spec fn capped(n: int) -> int {
    if n > usize::MAX { usize::MAX as int } else { n }
}

fn wrap_one_line(line: &str, width: usize, result: &mut Vec<String>)
    ensures
        string_views(final(result)@) == string_views(old(result)@) + wrap_line(line@, width as int),
{
    let words = split(line, ' ');
    let ghost ws = string_views(words@);
    let ghost before = string_views(result@);
    let mut cur: Vec<String> = Vec::new();
    let mut length: usize = 0;
    let mut k: usize = 0;
    proof {
        reveal_strlit(" ");
        assert(ws.subrange(0, 0) =~= Seq::<Seq<char>>::empty());
    }
    while k < words.len()
        invariant
            ws == string_views(words@),
            ws == split_on(line@, ' '),
            k <= words.len(),
            ({
                let (done, c, l) = wrap_words(ws.subrange(0, k as int), width as int);
                &&& string_views(result@) == before + done
                &&& string_views(cur@) == c
                &&& length as int == capped(l)
                &&& l >= 0
            }),
        decreases words.len() - k,
    {
        proof {
            reveal_strlit(" ");
            assert(ws.subrange(0, k + 1).drop_last() =~= ws.subrange(0, k as int));
        }
        let ghost prev = wrap_words(ws.subrange(0, k as int), width as int);
        let size = size_str(words[k].as_str());
        let gap: usize = if k > 0 { 1 } else { 0 };
        if cur.len() > 0 && (length >= width || size >= width - length) {
            let line_out = join(&cur, " ");
            let ghost old_res = string_views(result@);
            assert(line_out@ == joined(prev.1, ' '));
            result.push(line_out);
            assert(string_views(result@) =~= old_res.push(line_out@));
            cur = Vec::new();
            length = size.saturating_add(gap);
            cur.push(String::from_str(words[k].as_str()));
            proof {
                assert(string_views(result@) =~= before + prev.0.push(joined(prev.1, ' ')));
                assert(string_views(cur@) =~= seq![ws[k as int]]);
            }
        } else {
            length = length.saturating_add(size).saturating_add(gap);
            cur.push(String::from_str(words[k].as_str()));
            proof {
                assert(string_views(cur@) =~= prev.1.push(ws[k as int]));
            }
        }
        k = k + 1;
    }
    proof {
        reveal_strlit(" ");
        assert(ws.subrange(0, words.len() as int) =~= ws);
    }
    if cur.len() > 0 {
        let line_out = join(&cur, " ");
        let ghost old_res = string_views(result@);
        result.push(line_out);
        assert(string_views(result@) =~= old_res.push(line_out@));
        proof {
            let (done, c, l) = wrap_words(ws, width as int);
            assert(string_views(result@) =~= before + done.push(joined(c, ' ')));
        }
    }
}

/// Wraps text to lines of `width` columns, greedily and word by word, each
/// input line on its own.
pub fn wrap_str(txt: &str, width: usize) -> (r: String)
    ensures
        r@ == wrapped_text(txt@, width as int),
{
    let lines = split(txt, '\n');
    let ghost ls = string_views(lines@);
    let mut result: Vec<String> = Vec::new();
    let mut i: usize = 0;
    proof {
        assert(ls.subrange(0, 0) =~= Seq::<Seq<char>>::empty());
        assert(string_views(result@) =~= Seq::<Seq<char>>::empty());
    }
    while i < lines.len()
        invariant
            ls == string_views(lines@),
            ls == split_on(txt@, '\n'),
            i <= lines.len(),
            string_views(result@) == wrap_lines(ls.subrange(0, i as int), width as int),
        decreases lines.len() - i,
    {
        assert(ls.subrange(0, i + 1).drop_last() =~= ls.subrange(0, i as int));
        wrap_one_line(lines[i].as_str(), width, &mut result);
        i = i + 1;
    }
    assert(ls.subrange(0, lines.len() as int) =~= ls);
    proof {
        reveal_strlit("\n");
    }
    join(&result, "\n")
}

} // verus!
