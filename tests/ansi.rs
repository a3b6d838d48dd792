use ansistr::{ansi_pair, background_str, color_str, style_str, TextAlign, TextBackground, TextColor, TextStyle};
use ansistr::{pad_str, slice_str, trucate_str, wrap_str};
use ansistr::repaire_str;
use ansistr::{clean_str, match_indices, size_str};

#[test]
fn finds_ansi_pair() {
    assert_eq!(ansi_pair("\x1B[0m"), Some(("\x1B[0m".to_string(), "\x1B[0m".to_string())));
    assert_eq!(ansi_pair("foo"), None);
}

#[test]
fn applies_ansi_style() {
    style_str("foo", &TextStyle::Bold);
    assert_eq!(
        style_str("foo", &TextStyle::Bold),
        format!("{}{}{}", "\x1B[1m", "foo", "\x1B[22m"),
    );
}

#[test]
fn applies_ansi_color() {
    assert_eq!(
        color_str("foo", &TextColor::Red),
        format!("{}{}{}", "\x1B[31m", "foo", "\x1B[39m"),
    );
}

#[test]
fn applies_ansi_background() {
    assert_eq!(
        background_str("foo", &TextBackground::Green),
        format!("{}{}{}", "\x1B[42m", "foo", "\x1B[49m"),
    );
}

#[test]
fn strips_ansi_codes() {
    assert_eq!(clean_str("aaa\x1B[0mbbb\x1B[0mccc"), "aaabbbccc");
}

#[test]
fn matches_ansi_indices() {
    assert_eq!(match_indices("This is\x1B[39m long"), vec!["This is", "\x1B[39m", " long"]);
    assert_eq!(
        match_indices("This is\x1B[39m long \x1B[46mtext for test"),
        vec!["This is", "\x1B[39m", " long ", "\x1B[46m", "text for test"]
    );
}

#[test]
fn slices_ansi_str() {
    assert_eq!(slice_str("a\x1B[32maa\x1B[32mb\x1B[32mbb\x1B[32mcccdddeeefff", 5, 10), "b\x1B[32mcccd");
}

#[test]
fn sizes_ansi_str() {
    assert_eq!(size_str("aaa\x1B[0mbbb\x1B[0mccc"), 9);
}

#[test]
fn pads_ansi_str() {
    assert_eq!(pad_str("fo\x1B[39mobar", 10, &TextAlign::Left, "+"), "fo\x1B[39mobar++++");
    assert_eq!(pad_str("fo\x1B[39mobar", 10, &TextAlign::Right, "+"), "++++fo\x1B[39mobar");
    assert_eq!(pad_str("fo\x1B[39mobar", 10, &TextAlign::Center, "+"), "++fo\x1B[39mobar++");
    assert_eq!(pad_str("fo\x1B[39mobar", 10, &TextAlign::Left, "\x1B[39m+!"), "fo\x1B[39mobar\x1B[39m+!\x1B[39m+!");
}

#[test]
fn truncates_ansi_str() {
    assert_eq!(trucate_str("fo\x1B[39mobarbaz", 5, &TextAlign::Left, "+"), "fo\x1B[39mob+");
    assert_eq!(trucate_str("fo\x1B[39mobarbaz", 5, &TextAlign::Right, "+++"), "+++az");
    assert_eq!(trucate_str("fo\x1B[39mobarbaz", 5, &TextAlign::Center, "+++"), "f+++z");
}

#[test]
fn wraps_ansi_str() {
    assert_eq!(
        wrap_str("This is \x1B[39ma very long tekst for testing\x1B[39m only.", 10),
        vec!["This is \x1B[39ma", "very long", "tekst for", "testing\x1B[39m", "only."].join("\n")
    );
}

#[test]
fn repairs_multiline_ansi_str() {
    assert_eq!(
        repaire_str(&vec![
            "This is \x1B[31mlong",
            "string 利干 sample",
            "this is 利干 sample\x1B[39m long code",
        ].join("\n")),
        vec![
            "This is \x1B[31mlong\x1B[39m",
            "\x1B[31mstring 利干 sample\x1B[39m",
            "\x1B[31mthis is 利干 sample\x1B[39m long code",
        ].join("\n")
    );
}
