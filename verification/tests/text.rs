//! Text helpers.
use muxxy::text::{
    build_multi_line_text, is_blank, is_whitespace, join_lines, last_meaningful_line, same_text,
    split_lines, trim, trim_end,
};

#[test]
fn whitespace_is_what_std_calls_whitespace() {
    for n in 0..=0x10FFFFu32 {
        if let Some(c) = char::from_u32(n) {
            assert_eq!(is_whitespace(c), c.is_whitespace(), "{:x}", n);
        }
    }
}

#[test]
fn trimming_agrees_with_std() {
    for s in [
        "", " ", "a", " a", "a ", "  a b \t", "\n\r\n", "\u{3000}é\u{a0}", "🪿 x 🪿", "x\u{200b} ",
        "\u{85}mid dle\u{2028}",
    ] {
        assert_eq!(trim(s), s.trim());
        assert_eq!(trim_end(s), s.trim_end());
        assert_eq!(trim(trim(s)), trim(s));
        assert_eq!(is_blank(s), s.trim().is_empty());
    }
}

#[test]
fn splitting_and_joining_undo_each_other() {
    for s in ["", "\n", "a", "a\n", "\na", "a\n\nb", "é\n🪿\n\n"] {
        let lines = split_lines(s);
        let expected: Vec<&str> = s.split('\n').collect();
        assert_eq!(lines, expected);
        assert_eq!(join_lines(&lines), s);
    }
    assert_eq!(join_lines(&[]), "");
    assert_eq!(split_lines(&join_lines(&["x", "", "y"])), vec!["x", "", "y"]);
}

#[test]
fn texts_are_compared_whole() {
    assert!(same_text("", ""));
    assert!(same_text("é b", "é b"));
    assert!(!same_text("a", "ab"));
    assert!(!same_text("ab", "a"));
    assert!(!same_text("ab", "aB"));
}

#[test]
fn last_meaningful_line_is_the_last_that_is_not_blank() {
    assert_eq!(last_meaningful_line(&["a", " b ", "\t", ""]), Some(" b "));
    assert_eq!(last_meaningful_line(&["", "  "]), None);
    assert_eq!(last_meaningful_line(&["only"]), Some("only"));
}

#[test]
fn a_block_ends_in_one_newline_more_than_its_lines() {
    assert_eq!(build_multi_line_text(&[]), "\n");
    let text = build_multi_line_text(&["a".to_string(), "".to_string(), "b".to_string()]);
    assert_eq!(text, "a\n\nb\n");
    assert_eq!(split_lines(&text), vec!["a", "", "b", ""]);
}
