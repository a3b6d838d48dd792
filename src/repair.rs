//! Making each line of multi-line styled text carry its own style context.

use vstd::prelude::*;
use vstd::string::*;
use crate::codes::{
    close_code, lemma_close_code_pair, lemma_open_code_pair, open_code, pair_codes, pair_from, pair_index,
    pair_of, PAIR_COUNT,
};
use crate::scan::{lemma_segments_join, match_indices, segments};
use crate::text::{join, joined, split, split_on, string_views};

verus! {

/// Position of the first entry, from `i` on, whose closing sequence is `close`;
/// -1 where there is none.
pub open spec fn close_at_from(stack: Seq<int>, close: Seq<char>, i: int) -> int
    decreases stack.len() - i,
{
    if i < 0 || i >= stack.len() {
        -1
    } else if close_code(stack[i]) == close {
        i
    } else {
        close_at_from(stack, close, i + 1)
    }
}

/// The open pairs after meeting `part`: an opening sequence of the table adds
/// its pair at the end; a closing one removes the first entry it closes.
pub open spec fn step(stack: Seq<int>, part: Seq<char>) -> Seq<int> {
    match pair_of(part) {
        Some(k) => if part == open_code(k) {
            stack.push(k)
        } else {
            let j = close_at_from(stack, close_code(k), 0);
            if j >= 0 {
                stack.remove(j)
            } else {
                stack
            }
        },
        None => stack,
    }
}

/// The open pairs after meeting each of `parts` in turn.
pub open spec fn run(stack: Seq<int>, parts: Seq<Seq<char>>) -> Seq<int>
    decreases parts.len(),
{
    if parts.len() == 0 {
        stack
    } else {
        step(run(stack, parts.drop_last()), parts.last())
    }
}

/// The opening sequences of the open pairs, oldest first.
pub open spec fn opens(stack: Seq<int>) -> Seq<char>
    decreases stack.len(),
{
    if stack.len() == 0 {
        Seq::empty()
    } else {
        opens(stack.drop_last()) + open_code(stack.last())
    }
}

/// The closing sequences of the open pairs, oldest first.
pub open spec fn closes(stack: Seq<int>) -> Seq<char>
    decreases stack.len(),
{
    if stack.len() == 0 {
        Seq::empty()
    } else {
        closes(stack.drop_last()) + close_code(stack.last())
    }
}

/// The open pairs after the first `k` lines.
pub open spec fn stack_after(lines: Seq<Seq<char>>, k: int) -> Seq<int>
    decreases k,
{
    if k <= 0 {
        Seq::empty()
    } else {
        run(stack_after(lines, k - 1), segments(lines[k - 1]))
    }
}

/// Line `k` reopening what earlier lines left open and closing what it leaves open.
pub open spec fn repaired_line(lines: Seq<Seq<char>>, k: int) -> Seq<char> {
    opens(stack_after(lines, k)) + lines[k] + closes(stack_after(lines, k + 1))
}

/// Every line of `s` repaired, joined again with newlines.
pub open spec fn repaired(s: Seq<char>) -> Seq<char> {
    let lines = split_on(s, '\n');
    joined(Seq::new(lines.len(), |k: int| repaired_line(lines, k)), '\n')
}

/// A stack of table indices, as integers.
pub open spec fn ints(v: Seq<usize>) -> Seq<int> {
    v.map_values(|x: usize| x as int)
}

/// Whether every entry is an index of the table.
pub open spec fn in_table(v: Seq<usize>) -> bool {
    forall|j: int| 0 <= j < v.len() ==> #[trigger] v[j] < PAIR_COUNT
}

fn append_codes(out: &mut String, stack: &Vec<usize>, closing: bool)
    requires
        in_table(stack@),
    ensures
        final(out)@ == old(out)@ + if closing { closes(ints(stack@)) } else { opens(ints(stack@)) },
{
    let ghost start = out@;
    let mut j: usize = 0;
    while j < stack.len()
        invariant
            in_table(stack@),
            j <= stack.len(),
            out@ == start + if closing {
                closes(ints(stack@).subrange(0, j as int))
            } else {
                opens(ints(stack@).subrange(0, j as int))
            },
        decreases stack.len() - j,
    {
        assert(ints(stack@).subrange(0, j + 1).drop_last() =~= ints(stack@).subrange(0, j as int));
        let (open, close) = pair_codes(stack[j]);
        if closing {
            out.append(close.as_str());
        } else {
            out.append(open.as_str());
        }
        j = j + 1;
        assert(out@ =~= start + if closing {
            closes(ints(stack@).subrange(0, j as int))
        } else {
            opens(ints(stack@).subrange(0, j as int))
        });
    }
    assert(ints(stack@).subrange(0, stack.len() as int) =~= ints(stack@));
    assert(ints(stack@).subrange(0, 0) =~= Seq::<int>::empty());
}

fn apply_part(stack: &mut Vec<usize>, part: &String)
    requires
        in_table(old(stack)@),
    ensures
        in_table(final(stack)@),
        ints(final(stack)@) == step(ints(old(stack)@), part@),
{
    if let Some(k) = pair_index(part.as_str()) {
        let (open, close) = pair_codes(k);
        if *part == open {
            stack.push(k);
            assert(ints(stack@) =~= ints(old(stack)@).push(k as int));
        } else {
            let ghost s0 = ints(stack@);
            let mut j: usize = 0;
            while j < stack.len()
                invariant
                    in_table(stack@),
                    s0 == ints(stack@),
                    s0 == ints(old(stack)@),
                    j <= stack.len(),
                    close@ == close_code(k as int),
                    part@ != open_code(k as int),
                    pair_of(part@) == Some(k as int),
                    close_at_from(s0, close@, 0) == close_at_from(s0, close@, j as int),
                decreases stack.len() - j,
            {
                let (_, other) = pair_codes(stack[j]);
                if other == close {
                    assert(close_code(s0[j as int]) == close@);
                    assert(close_at_from(s0, close@, j as int) == j as int);
                    assert(part@ != open_code(k as int));
                    assert(step(s0, part@) == s0.remove(j as int));
                    stack.remove(j);
                    assert(ints(stack@) =~= s0.remove(j as int));
                    return;
                }
                j = j + 1;
            }
        }
    }
}

/// Makes every line of `txt` self-contained: it reopens the pairs that
/// earlier lines left open and closes the pairs it leaves open itself.
pub fn repaire_str(txt: &str) -> (r: String)
    ensures
        r@ == repaired(txt@),
{
    let lines = split(txt, '\n');
    let ghost ls = string_views(lines@);
    let mut stack: Vec<usize> = Vec::new();
    let mut out: Vec<String> = Vec::new();
    let mut i: usize = 0;
    assert(ints(stack@) =~= Seq::<int>::empty());
    while i < lines.len()
        invariant
            ls == string_views(lines@),
            ls == split_on(txt@, '\n'),
            i <= lines.len(),
            in_table(stack@),
            ints(stack@) == stack_after(ls, i as int),
            string_views(out@) == Seq::new(i as nat, |k: int| repaired_line(ls, k)),
        decreases lines.len() - i,
    {
        let mut line_out = String::new();
        append_codes(&mut line_out, &stack, false);
        let parts = match_indices(lines[i].as_str());
        let ghost ps = string_views(parts@);
        let ghost before = stack_after(ls, i as int);
        let ghost head = line_out@;
        let mut p: usize = 0;
        proof {
            assert(ps.subrange(0, 0) =~= Seq::<Seq<char>>::empty());
            assert(ps.subrange(0, 0).flatten() =~= Seq::<char>::empty());
        }
        while p < parts.len()
            invariant
                ps == string_views(parts@),
                p <= parts.len(),
                in_table(stack@),
                ints(stack@) == run(before, ps.subrange(0, p as int)),
                line_out@ == head + ps.subrange(0, p as int).flatten(),
            decreases parts.len() - p,
        {
            assert(ps.subrange(0, p + 1) =~= ps.subrange(0, p as int).push(ps[p as int]));
            proof {
                ps.subrange(0, p as int).lemma_flatten_push(ps[p as int]);
            }
            let ghost so_far = ints(stack@);
            apply_part(&mut stack, &parts[p]);
            assert(ps.subrange(0, p + 1).drop_last() =~= ps.subrange(0, p as int));
            assert(ints(stack@) == step(so_far, ps[p as int]));
            line_out.append(parts[p].as_str());
            p = p + 1;
            assert(line_out@ =~= head + ps.subrange(0, p as int).flatten());
        }
        proof {
            assert(ps.subrange(0, parts.len() as int) =~= ps);
            lemma_segments_join(ls[i as int]);
        }
        append_codes(&mut line_out, &stack, true);
        assert(ps == segments(ls[i as int]));
        assert(stack_after(ls, i + 1) == run(before, segments(ls[i as int])));
        assert(line_out@ == repaired_line(ls, i as int));
        let ghost old_out = string_views(out@);
        out.push(line_out);
        assert(string_views(out@) =~= old_out.push(repaired_line(ls, i as int)));
        i = i + 1;
        assert(string_views(out@) =~= Seq::new(i as nat, |k: int| repaired_line(ls, k)));
    }
    proof {
        reveal_strlit("\n");
    }
    let r = join(&out, "\n");
    assert(string_views(out@) =~= Seq::new(ls.len(), |k: int| repaired_line(ls, k)));
    r
}

/// Whether every entry is an index of the table.
pub open spec fn all_in_table(stack: Seq<int>) -> bool {
    forall|j: int| 0 <= j < stack.len() ==> 0 <= #[trigger] stack[j] < PAIR_COUNT
}

/// The opening sequences of the pairs, one part each.
pub open spec fn open_parts(stack: Seq<int>) -> Seq<Seq<char>> {
    stack.map_values(|k: int| open_code(k))
}

/// The closing sequences of the pairs, one part each.
pub open spec fn close_parts(stack: Seq<int>) -> Seq<Seq<char>> {
    stack.map_values(|k: int| close_code(k))
}

proof fn lemma_pair_from_range(code: Seq<char>, i: int)
    ensures
        pair_from(code, i) matches Some(k) ==> 0 <= k < PAIR_COUNT,
    decreases PAIR_COUNT - i,
{
    if 0 <= i < PAIR_COUNT {
        lemma_pair_from_range(code, i + 1);
    }
}

proof fn lemma_run_in_table(stack: Seq<int>, parts: Seq<Seq<char>>)
    requires
        all_in_table(stack),
    ensures
        all_in_table(run(stack, parts)),
    decreases parts.len(),
{
    if parts.len() > 0 {
        let before = run(stack, parts.drop_last());
        lemma_run_in_table(stack, parts.drop_last());
        lemma_pair_from_range(parts.last(), 0);
        let after = step(before, parts.last());
        assert forall|j: int| 0 <= j < after.len() implies 0 <= #[trigger] after[j] < PAIR_COUNT by {
            if let Some(k) = pair_of(parts.last()) {
                if parts.last() != open_code(k) {
                    let i = close_at_from(before, close_code(k), 0);
                    if i >= 0 {
                        lemma_close_at_range(before, close_code(k), 0);
                        if j >= i {
                            assert(after[j] == before[j + 1]);
                        }
                    }
                }
            }
        }
    }
}

proof fn lemma_close_at_range(stack: Seq<int>, close: Seq<char>, i: int)
    requires
        0 <= i,
    ensures
        close_at_from(stack, close, i) == -1 || (i <= close_at_from(stack, close, i) < stack.len()
            && close_code(stack[close_at_from(stack, close, i)]) == close),
    decreases stack.len() - i,
{
    if i < stack.len() && close_code(stack[i]) != close {
        lemma_close_at_range(stack, close, i + 1);
    }
}

/// The pairs open after any number of lines are pairs of the table.
pub proof fn lemma_stack_in_table(lines: Seq<Seq<char>>, k: int)
    ensures
        all_in_table(stack_after(lines, k)),
    decreases k,
{
    if k > 0 {
        lemma_stack_in_table(lines, k - 1);
        lemma_run_in_table(stack_after(lines, k - 1), segments(lines[k - 1]));
    }
}

proof fn lemma_run_opens(stack: Seq<int>)
    requires
        all_in_table(stack),
    ensures
        run(Seq::empty(), open_parts(stack)) == stack,
    decreases stack.len(),
{
    if stack.len() > 0 {
        let rest = stack.drop_last();
        assert(open_parts(stack).drop_last() =~= open_parts(rest));
        lemma_run_opens(rest);
        lemma_open_code_pair(stack.last());
        assert(rest.push(stack.last()) =~= stack);
    }
}

proof fn lemma_run_closes_prefix(stack: Seq<int>, i: int)
    requires
        0 <= i <= stack.len(),
        forall|j: int| 0 <= j < stack.len() ==> 1 <= #[trigger] stack[j] < PAIR_COUNT,
    ensures
        run(stack, close_parts(stack).subrange(0, i)) == stack.subrange(i, stack.len() as int),
    decreases i,
{
    if i == 0 {
        assert(stack.subrange(0, stack.len() as int) =~= stack);
    } else {
        lemma_run_closes_prefix(stack, i - 1);
        let parts = close_parts(stack).subrange(0, i);
        assert(parts.drop_last() =~= close_parts(stack).subrange(0, i - 1));
        let cur = stack.subrange(i - 1, stack.len() as int);
        let k = stack[i - 1];
        lemma_close_code_pair(k);
        let j = pair_of(close_code(k))->Some_0;
        assert(close_code(cur[0]) == close_code(j));
        assert(close_at_from(cur, close_code(j), 0) == 0);
        assert(cur.remove(0) =~= stack.subrange(i, stack.len() as int));
    }
}

/// Each repaired line is balanced by itself: a tracker that starts with no
/// open pair and meets, as separate parts, the opening sequences the line
/// starts with, the segments of the input line and the closing sequences it
/// ends with, again has no open pair at the end. This holds where no reset is
/// left open at the line's end, since the reset's closing sequence is also its
/// opening one.
pub proof fn lemma_repaired_line_balanced(s: Seq<char>, k: int)
    requires
        0 <= k < split_on(s, '\n').len(),
        forall|j: int| 0 <= j < stack_after(split_on(s, '\n'), k + 1).len()
            ==> #[trigger] stack_after(split_on(s, '\n'), k + 1)[j] != 0,
    ensures
        ({
            let lines = split_on(s, '\n');
            let before = stack_after(lines, k);
            let after = stack_after(lines, k + 1);
            run(run(run(Seq::empty(), open_parts(before)), segments(lines[k])), close_parts(after))
                == Seq::<int>::empty()
        }),
{
    let lines = split_on(s, '\n');
    let before = stack_after(lines, k);
    let after = stack_after(lines, k + 1);
    lemma_stack_in_table(lines, k);
    lemma_stack_in_table(lines, k + 1);
    lemma_run_opens(before);
    lemma_run_closes_prefix(after, after.len() as int);
    assert(close_parts(after).subrange(0, after.len() as int) =~= close_parts(after));
    assert(after.subrange(after.len() as int, after.len() as int) =~= Seq::<int>::empty());
}

} // verus!
