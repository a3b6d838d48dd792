use ansistr::{ansi_pair, color_str, TextAlign, TextColor};
use ansistr::{pad_str, slice_str, trucate_str, wrap_str};
use ansistr::repaire_str;
use ansistr::{clean_str, match_indices, size_str};

#[test]
fn segments_join_back_to_the_text() {
    let txt = "\x1B[1mbold\x1B[22m and \x1B[3;4m\x1B[31mmore\x1B[0m";
    let parts = match_indices(txt);
    assert_eq!(parts.concat(), txt);
    assert_eq!(parts.len() % 2, 1);
    assert_eq!(parts[0], "");
    assert_eq!(parts[parts.len() - 1], "");
}

#[test]
fn plain_text_is_one_segment() {
    assert_eq!(match_indices("just words"), vec!["just words"]);
    assert_eq!(match_indices(""), vec![""]);
    assert_eq!(clean_str("just words"), "just words");
}

#[test]
fn second_introducer_is_recognised() {
    assert_eq!(match_indices("a\u{9b}31mb"), vec!["a", "\u{9b}31m", "b"]);
    assert_eq!(clean_str("a\u{9b}31mb"), "ab");
}

#[test]
fn cleaned_text_has_the_same_width() {
    let txt = "x\x1B[32my\x1B[39mz";
    assert_eq!(size_str(&clean_str(txt)), size_str(txt));
    assert_eq!(size_str(txt), 3);
}

#[test]
fn wide_characters_take_two_columns() {
    assert_eq!(size_str("利干"), 4);
    assert_eq!(size_str(""), 0);
}

#[test]
fn slice_of_whole_width_keeps_the_text() {
    let txt = "ab\x1B[31mcd";
    assert_eq!(slice_str(txt, 0, size_str(txt)), txt);
    assert_eq!(slice_str("abc", 0, 3), "abc");
}

#[test]
fn slice_is_held_inside_the_text() {
    assert_eq!(slice_str("abc", 1, 100), "bc");
    assert_eq!(slice_str("abc", 100, 200), "abc");
    assert_eq!(slice_str("abcdef", 4, 2), "");
}

#[test]
fn pad_reaches_the_width() {
    let out = pad_str("ab", 7, &TextAlign::Center, "-");
    assert_eq!(out, "--ab---");
    assert!(size_str(&out) >= 7);
    assert_eq!(pad_str("ab", 7, &TextAlign::Right, "xy"), "xyxyab");
}

#[test]
fn pad_leaves_wide_enough_text() {
    assert_eq!(pad_str("abcdef", 4, &TextAlign::Left, "+"), "abcdef");
    assert_eq!(pad_str("abc", 10, &TextAlign::Left, ""), "abc");
}

#[test]
fn truncate_meets_the_width() {
    let out = trucate_str("hello world", 8, &TextAlign::Left, "...");
    assert_eq!(out, "hello...");
    assert_eq!(size_str(&out), 8);
    assert_eq!(trucate_str("hello", 5, &TextAlign::Left, "..."), "hello");
    assert_eq!(trucate_str("hello", 9, &TextAlign::Right, "..."), "hello");
}

#[test]
fn truncate_trims_white_space_at_the_cut() {
    assert_eq!(trucate_str("ab cdefgh", 4, &TextAlign::Left, "+"), "ab+");
}

#[test]
fn wrap_keeps_input_lines_apart() {
    assert_eq!(wrap_str("aa bb cc\ndd", 6), "aa bb\ncc\ndd");
    assert_eq!(wrap_str("", 5), "");
}

#[test]
fn repair_reopens_on_each_line() {
    let red = color_str("a\nb", &TextColor::Red);
    assert_eq!(repaire_str(&red), "\x1B[31ma\x1B[39m\n\x1B[31mb\x1B[39m");
}

#[test]
fn repair_closes_the_first_matching_entry() {
    let txt = "\x1B[31m\x1B[32mx\x1B[39m\ny";
    assert_eq!(repaire_str(txt), "\x1B[31m\x1B[32mx\x1B[39m\x1B[39m\n\x1B[32my\x1B[39m");
}

#[test]
fn repair_leaves_plain_text() {
    assert_eq!(repaire_str("one\ntwo"), "one\ntwo");
}

#[test]
fn shared_closing_code_finds_its_first_pair() {
    assert_eq!(ansi_pair("\x1B[22m"), Some(("\x1B[1m".to_string(), "\x1B[22m".to_string())));
    assert_eq!(ansi_pair("\x1B[47m"), Some(("\x1B[47m".to_string(), "\x1B[49m".to_string())));
}

#[test]
fn repair_keeps_an_open_reset_open() {
    assert_eq!(repaire_str("a\x1B[0mb\nc"), "a\x1B[0mb\x1B[0m\n\x1B[0mc\x1B[0m");
}

#[test]
fn repaired_lines_close_what_they_open() {
    let out = repaire_str("\x1B[1m\x1B[44mx\ny\x1B[22m\nz\x1B[49m");
    assert_eq!(out, "\x1B[1m\x1B[44mx\x1B[22m\x1B[49m\n\x1B[1m\x1B[44my\x1B[22m\x1B[49m\n\x1B[44mz\x1B[49m");
    for line in out.split('\n') {
        let parts = match_indices(line);
        let mut open: Vec<String> = Vec::new();
        for part in parts {
            if let Some((o, c)) = ansi_pair(&part) {
                if part == o {
                    open.push(o);
                } else if let Some(i) = open.iter().position(|x| ansi_pair(x).map(|p| p.1) == Some(c.clone())) {
                    open.remove(i);
                }
            }
        }
        assert!(open.is_empty());
    }
}
