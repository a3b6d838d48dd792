//! The fixed table of style pairs, the tags that name them, and the
//! decorators that wrap text in a pair.

use vstd::prelude::*;
use vstd::string::*;

verus! {

/// Number of pairs in the table.
pub const PAIR_COUNT: usize = 24;

/// Text alignment options.
#[derive(Debug, Clone, Copy, PartialEq, Eq)]
pub enum TextAlign {
    Left,
    Center,
    Right,
}

/// Text styles.
#[derive(Debug, Clone, Copy, PartialEq, Eq)]
pub enum TextStyle {
    Bold,
    Dim,
    Italic,
    Underlined,
    Blinking,
    Inversed,
    Hidden,
}

/// Foreground colors.
#[derive(Debug, Clone, Copy, PartialEq, Eq)]
pub enum TextColor {
    Black,
    Red,
    Green,
    Yellow,
    Blue,
    Magenta,
    Cyan,
    White,
}

/// Background colors.
#[derive(Debug, Clone, Copy, PartialEq, Eq)]
pub enum TextBackground {
    Black,
    Red,
    Green,
    Yellow,
    Blue,
    Magenta,
    Cyan,
    White,
}

/// A select graphic rendition sequence: `ESC [ <number> m`.
pub open spec fn sgr(number: Seq<char>) -> Seq<char> {
    seq!['\u{1b}', '['] + number + seq!['m']
}

/// The number in the opening sequence of pair `i`.
pub open spec fn open_number(i: int) -> Seq<char> {
    if i == 0 {
        seq!['0']
    } else if i == 1 {
        seq!['1']
    } else if i == 2 {
        seq!['2']
    } else if i == 3 {
        seq!['3']
    } else if i == 4 {
        seq!['4']
    } else if i == 5 {
        seq!['5']
    } else if i == 6 {
        seq!['7']
    } else if i == 7 {
        seq!['8']
    } else if i == 8 {
        seq!['3', '0']
    } else if i == 9 {
        seq!['3', '1']
    } else if i == 10 {
        seq!['3', '2']
    } else if i == 11 {
        seq!['3', '3']
    } else if i == 12 {
        seq!['3', '4']
    } else if i == 13 {
        seq!['3', '5']
    } else if i == 14 {
        seq!['3', '6']
    } else if i == 15 {
        seq!['3', '7']
    } else if i == 16 {
        seq!['4', '0']
    } else if i == 17 {
        seq!['4', '1']
    } else if i == 18 {
        seq!['4', '2']
    } else if i == 19 {
        seq!['4', '3']
    } else if i == 20 {
        seq!['4', '4']
    } else if i == 21 {
        seq!['4', '5']
    } else if i == 22 {
        seq!['4', '6']
    } else {
        seq!['4', '7']
    }
}

/// The number in the closing sequence of pair `i`.
pub open spec fn close_number(i: int) -> Seq<char> {
    if i == 0 {
        seq!['0']
    } else if i == 1 || i == 2 {
        seq!['2', '2']
    } else if i == 3 {
        seq!['2', '3']
    } else if i == 4 {
        seq!['2', '4']
    } else if i == 5 {
        seq!['2', '5']
    } else if i == 6 {
        seq!['2', '7']
    } else if i == 7 {
        seq!['2', '8']
    } else if i < 16 {
        seq!['3', '9']
    } else {
        seq!['4', '9']
    }
}

/// The opening sequence of pair `i`.
pub open spec fn open_code(i: int) -> Seq<char> {
    sgr(open_number(i))
}

/// The closing sequence of pair `i`.
pub open spec fn close_code(i: int) -> Seq<char> {
    sgr(close_number(i))
}

/// The opening and closing sequences of pair `i` of the table.
pub fn pair_codes(i: usize) -> (r: (String, String))
    requires
        i < PAIR_COUNT,
    ensures
        r.0@ == open_code(i as int),
        r.1@ == close_code(i as int),
{
    match i {
        0 => {
            proof {
                reveal_strlit("\x1B[0m");
                reveal_strlit("\x1B[0m");
            }
            let r = (String::from_str("\x1B[0m"), String::from_str("\x1B[0m"));
            assert(r.0@ =~= open_code(0));
            assert(r.1@ =~= close_code(0));
            r
        },
        1 => {
            proof {
                reveal_strlit("\x1B[1m");
                reveal_strlit("\x1B[22m");
            }
            let r = (String::from_str("\x1B[1m"), String::from_str("\x1B[22m"));
            assert(r.0@ =~= open_code(1));
            assert(r.1@ =~= close_code(1));
            r
        },
        2 => {
            proof {
                reveal_strlit("\x1B[2m");
                reveal_strlit("\x1B[22m");
            }
            let r = (String::from_str("\x1B[2m"), String::from_str("\x1B[22m"));
            assert(r.0@ =~= open_code(2));
            assert(r.1@ =~= close_code(2));
            r
        },
        3 => {
            proof {
                reveal_strlit("\x1B[3m");
                reveal_strlit("\x1B[23m");
            }
            let r = (String::from_str("\x1B[3m"), String::from_str("\x1B[23m"));
            assert(r.0@ =~= open_code(3));
            assert(r.1@ =~= close_code(3));
            r
        },
        4 => {
            proof {
                reveal_strlit("\x1B[4m");
                reveal_strlit("\x1B[24m");
            }
            let r = (String::from_str("\x1B[4m"), String::from_str("\x1B[24m"));
            assert(r.0@ =~= open_code(4));
            assert(r.1@ =~= close_code(4));
            r
        },
        5 => {
            proof {
                reveal_strlit("\x1B[5m");
                reveal_strlit("\x1B[25m");
            }
            let r = (String::from_str("\x1B[5m"), String::from_str("\x1B[25m"));
            assert(r.0@ =~= open_code(5));
            assert(r.1@ =~= close_code(5));
            r
        },
        6 => {
            proof {
                reveal_strlit("\x1B[7m");
                reveal_strlit("\x1B[27m");
            }
            let r = (String::from_str("\x1B[7m"), String::from_str("\x1B[27m"));
            assert(r.0@ =~= open_code(6));
            assert(r.1@ =~= close_code(6));
            r
        },
        7 => {
            proof {
                reveal_strlit("\x1B[8m");
                reveal_strlit("\x1B[28m");
            }
            let r = (String::from_str("\x1B[8m"), String::from_str("\x1B[28m"));
            assert(r.0@ =~= open_code(7));
            assert(r.1@ =~= close_code(7));
            r
        },
        8 => {
            proof {
                reveal_strlit("\x1B[30m");
                reveal_strlit("\x1B[39m");
            }
            let r = (String::from_str("\x1B[30m"), String::from_str("\x1B[39m"));
            assert(r.0@ =~= open_code(8));
            assert(r.1@ =~= close_code(8));
            r
        },
        9 => {
            proof {
                reveal_strlit("\x1B[31m");
                reveal_strlit("\x1B[39m");
            }
            let r = (String::from_str("\x1B[31m"), String::from_str("\x1B[39m"));
            assert(r.0@ =~= open_code(9));
            assert(r.1@ =~= close_code(9));
            r
        },
        10 => {
            proof {
                reveal_strlit("\x1B[32m");
                reveal_strlit("\x1B[39m");
            }
            let r = (String::from_str("\x1B[32m"), String::from_str("\x1B[39m"));
            assert(r.0@ =~= open_code(10));
            assert(r.1@ =~= close_code(10));
            r
        },
        11 => {
            proof {
                reveal_strlit("\x1B[33m");
                reveal_strlit("\x1B[39m");
            }
            let r = (String::from_str("\x1B[33m"), String::from_str("\x1B[39m"));
            assert(r.0@ =~= open_code(11));
            assert(r.1@ =~= close_code(11));
            r
        },
        12 => {
            proof {
                reveal_strlit("\x1B[34m");
                reveal_strlit("\x1B[39m");
            }
            let r = (String::from_str("\x1B[34m"), String::from_str("\x1B[39m"));
            assert(r.0@ =~= open_code(12));
            assert(r.1@ =~= close_code(12));
            r
        },
        13 => {
            proof {
                reveal_strlit("\x1B[35m");
                reveal_strlit("\x1B[39m");
            }
            let r = (String::from_str("\x1B[35m"), String::from_str("\x1B[39m"));
            assert(r.0@ =~= open_code(13));
            assert(r.1@ =~= close_code(13));
            r
        },
        14 => {
            proof {
                reveal_strlit("\x1B[36m");
                reveal_strlit("\x1B[39m");
            }
            let r = (String::from_str("\x1B[36m"), String::from_str("\x1B[39m"));
            assert(r.0@ =~= open_code(14));
            assert(r.1@ =~= close_code(14));
            r
        },
        15 => {
            proof {
                reveal_strlit("\x1B[37m");
                reveal_strlit("\x1B[39m");
            }
            let r = (String::from_str("\x1B[37m"), String::from_str("\x1B[39m"));
            assert(r.0@ =~= open_code(15));
            assert(r.1@ =~= close_code(15));
            r
        },
        16 => {
            proof {
                reveal_strlit("\x1B[40m");
                reveal_strlit("\x1B[49m");
            }
            let r = (String::from_str("\x1B[40m"), String::from_str("\x1B[49m"));
            assert(r.0@ =~= open_code(16));
            assert(r.1@ =~= close_code(16));
            r
        },
        17 => {
            proof {
                reveal_strlit("\x1B[41m");
                reveal_strlit("\x1B[49m");
            }
            let r = (String::from_str("\x1B[41m"), String::from_str("\x1B[49m"));
            assert(r.0@ =~= open_code(17));
            assert(r.1@ =~= close_code(17));
            r
        },
        18 => {
            proof {
                reveal_strlit("\x1B[42m");
                reveal_strlit("\x1B[49m");
            }
            let r = (String::from_str("\x1B[42m"), String::from_str("\x1B[49m"));
            assert(r.0@ =~= open_code(18));
            assert(r.1@ =~= close_code(18));
            r
        },
        19 => {
            proof {
                reveal_strlit("\x1B[43m");
                reveal_strlit("\x1B[49m");
            }
            let r = (String::from_str("\x1B[43m"), String::from_str("\x1B[49m"));
            assert(r.0@ =~= open_code(19));
            assert(r.1@ =~= close_code(19));
            r
        },
        20 => {
            proof {
                reveal_strlit("\x1B[44m");
                reveal_strlit("\x1B[49m");
            }
            let r = (String::from_str("\x1B[44m"), String::from_str("\x1B[49m"));
            assert(r.0@ =~= open_code(20));
            assert(r.1@ =~= close_code(20));
            r
        },
        21 => {
            proof {
                reveal_strlit("\x1B[45m");
                reveal_strlit("\x1B[49m");
            }
            let r = (String::from_str("\x1B[45m"), String::from_str("\x1B[49m"));
            assert(r.0@ =~= open_code(21));
            assert(r.1@ =~= close_code(21));
            r
        },
        22 => {
            proof {
                reveal_strlit("\x1B[46m");
                reveal_strlit("\x1B[49m");
            }
            let r = (String::from_str("\x1B[46m"), String::from_str("\x1B[49m"));
            assert(r.0@ =~= open_code(22));
            assert(r.1@ =~= close_code(22));
            r
        },
        _ => {
            proof {
                reveal_strlit("\x1B[47m");
                reveal_strlit("\x1B[49m");
            }
            let r = (String::from_str("\x1B[47m"), String::from_str("\x1B[49m"));
            assert(r.0@ =~= open_code(23));
            assert(r.1@ =~= close_code(23));
            r
        },
    }
}

/// Table index of a style.
pub open spec fn style_index(style: TextStyle) -> int {
    match style {
        TextStyle::Bold => 1,
        TextStyle::Dim => 2,
        TextStyle::Italic => 3,
        TextStyle::Underlined => 4,
        TextStyle::Blinking => 5,
        TextStyle::Inversed => 6,
        TextStyle::Hidden => 7,
    }
}

/// Table index of a foreground color.
pub open spec fn color_index(color: TextColor) -> int {
    match color {
        TextColor::Black => 8,
        TextColor::Red => 9,
        TextColor::Green => 10,
        TextColor::Yellow => 11,
        TextColor::Blue => 12,
        TextColor::Magenta => 13,
        TextColor::Cyan => 14,
        TextColor::White => 15,
    }
}

/// Table index of a background color.
pub open spec fn background_index(bg: TextBackground) -> int {
    match bg {
        TextBackground::Black => 16,
        TextBackground::Red => 17,
        TextBackground::Green => 18,
        TextBackground::Yellow => 19,
        TextBackground::Blue => 20,
        TextBackground::Magenta => 21,
        TextBackground::Cyan => 22,
        TextBackground::White => 23,
    }
}

/// `txt` between the opening and closing sequences of pair `i`.
pub open spec fn wrapped(i: int, txt: Seq<char>) -> Seq<char> {
    open_code(i) + txt + close_code(i)
}

fn wrap_in_pair(txt: &str, i: usize) -> (r: String)
    requires
        i < PAIR_COUNT,
    ensures
        r@ == wrapped(i as int, txt@),
{
    let (open, close) = pair_codes(i);
    let mut r = open;
    r.append(txt);
    r.append(close.as_str());
    r
}

/// Wraps text with the sequences of a style.
pub fn style_str(txt: &str, style: &TextStyle) -> (r: String)
    ensures
        r@ == wrapped(style_index(*style), txt@),
{
    let index: usize = match style {
        TextStyle::Bold => 1,
        TextStyle::Dim => 2,
        TextStyle::Italic => 3,
        TextStyle::Underlined => 4,
        TextStyle::Blinking => 5,
        TextStyle::Inversed => 6,
        TextStyle::Hidden => 7,
    };
    wrap_in_pair(txt, index)
}

/// Wraps text with the sequences of a foreground color.
pub fn color_str(txt: &str, color: &TextColor) -> (r: String)
    ensures
        r@ == wrapped(color_index(*color), txt@),
{
    let index: usize = match color {
        TextColor::Black => 8,
        TextColor::Red => 9,
        TextColor::Green => 10,
        TextColor::Yellow => 11,
        TextColor::Blue => 12,
        TextColor::Magenta => 13,
        TextColor::Cyan => 14,
        TextColor::White => 15,
    };
    wrap_in_pair(txt, index)
}

/// Wraps text with the sequences of a background color.
pub fn background_str(txt: &str, bg: &TextBackground) -> (r: String)
    ensures
        r@ == wrapped(background_index(*bg), txt@),
{
    let index: usize = match bg {
        TextBackground::Black => 16,
        TextBackground::Red => 17,
        TextBackground::Green => 18,
        TextBackground::Yellow => 19,
        TextBackground::Blue => 20,
        TextBackground::Magenta => 21,
        TextBackground::Cyan => 22,
        TextBackground::White => 23,
    };
    wrap_in_pair(txt, index)
}

/// Whether `code` is the opening or the closing sequence of pair `i`.
pub open spec fn in_pair(code: Seq<char>, i: int) -> bool {
    open_code(i) == code || close_code(i) == code
}

/// Index of the first pair, from `i` on, that `code` belongs to.
pub open spec fn pair_from(code: Seq<char>, i: int) -> Option<int>
    decreases PAIR_COUNT - i,
{
    if i < 0 || i >= PAIR_COUNT {
        None
    } else if in_pair(code, i) {
        Some(i)
    } else {
        pair_from(code, i + 1)
    }
}

/// Index of the first pair that `code` belongs to.
pub open spec fn pair_of(code: Seq<char>) -> Option<int> {
    pair_from(code, 0)
}

/// Index of the first pair of the table whose opening or closing sequence is `code`.
pub fn pair_index(code: &str) -> (r: Option<usize>)
    ensures
        r matches Some(k) ==> k < PAIR_COUNT && pair_of(code@) == Some(k as int),
        r is None ==> pair_of(code@) is None,
{
    let owned = String::from_str(code);
    let mut i: usize = 0;
    while i < PAIR_COUNT
        invariant
            i <= PAIR_COUNT,
            owned@ == code@,
            pair_of(code@) == pair_from(code@, i as int),
        decreases PAIR_COUNT - i,
    {
        let (open, close) = pair_codes(i);
        if open == owned || close == owned {
            proof {
                assert(in_pair(code@, i as int));
                assert(pair_from(code@, i as int) == Some(i as int));
            }
            return Some(i);
        }
        i = i + 1;
    }
    None
}

/// The pair of the table that `code` opens or closes, if any: the first
/// such pair.
pub fn ansi_pair(code: &str) -> (r: Option<(String, String)>)
    ensures
        match pair_of(code@) {
            Some(k) => r matches Some(p) && p.0@ == open_code(k) && p.1@ == close_code(k),
            None => r is None,
        },
{
    match pair_index(code) {
        Some(k) => Some(pair_codes(k)),
        None => None,
    }
}

/// The number a two-or-three-character code carries, read as decimal digits
/// behind the two introducing characters; zero for other lengths.
pub open spec fn code_number(code: Seq<char>) -> int {
    if code.len() == 4 {
        code[2] as int - '0' as int
    } else if code.len() == 5 {
        10 * (code[2] as int - '0' as int) + (code[3] as int - '0' as int)
    } else {
        -1
    }
}

/// The number in the opening sequence of pair `i`, as an integer.
pub open spec fn open_value(i: int) -> int {
    if i < 6 { i } else if i < 8 { i + 1 } else if i < 16 { i + 22 } else { i + 24 }
}

/// The number in the closing sequence of pair `i`, as an integer.
pub open spec fn close_value(i: int) -> int {
    if i == 0 { 0 } else if i <= 2 { 22 } else if i < 6 { i + 20 } else if i < 8 { i + 21 } else if i < 16 { 39 } else { 49 }
}

proof fn lemma_code_values(i: int)
    requires
        0 <= i < PAIR_COUNT,
    ensures
        code_number(open_code(i)) == open_value(i),
        code_number(close_code(i)) == close_value(i),
{
}

proof fn lemma_open_code_from(k: int, i: int)
    requires
        0 <= i <= k < PAIR_COUNT,
    ensures
        pair_from(open_code(k), i) == Some(k),
    decreases k - i,
{
    lemma_code_values(i);
    lemma_code_values(k);
    if i < k {
        assert(!in_pair(open_code(k), i));
        lemma_open_code_from(k, i + 1);
    }
}

/// An opening sequence belongs first to its own pair.
pub proof fn lemma_open_code_pair(k: int)
    requires
        0 <= k < PAIR_COUNT,
    ensures
        pair_of(open_code(k)) == Some(k),
{
    lemma_open_code_from(k, 0);
}

proof fn lemma_close_code_from(k: int, i: int)
    requires
        0 <= i <= k < PAIR_COUNT,
    ensures
        pair_from(close_code(k), i) matches Some(j) && i <= j <= k && in_pair(close_code(k), j),
    decreases k - i,
{
    if i < k && !in_pair(close_code(k), i) {
        lemma_close_code_from(k, i + 1);
    }
}

/// A closing sequence other than the reset's belongs first to a pair that it
/// closes and does not open.
pub proof fn lemma_close_code_pair(k: int)
    requires
        1 <= k < PAIR_COUNT,
    ensures
        pair_of(close_code(k)) matches Some(j) && 0 <= j < PAIR_COUNT && close_code(j) == close_code(k)
            && open_code(j) != close_code(k),
{
    lemma_close_code_from(k, 0);
    let j = pair_of(close_code(k))->Some_0;
    lemma_code_values(j);
    lemma_code_values(k);
}

} // verus!
