//! Scalars and blocks of the YAML emitter.
use muxxy::yaml::{
    block_scalar, is_plain_safe, looks_like_hex, looks_like_non_string, looks_like_octal,
    looks_like_timestamp, quoted, render_map, scalar, YamlValue,
};

fn other_type(s: &str) -> bool {
    let unsigned = s.strip_prefix(['+', '-']).unwrap_or(s);
    let binary = unsigned.strip_prefix("0b").or_else(|| unsigned.strip_prefix("0B"));
    s.parse::<i64>().is_ok()
        || s.parse::<f64>().is_ok()
        || looks_like_hex(unsigned)
        || looks_like_octal(unsigned)
        || binary.is_some_and(|d| !d.is_empty() && d.chars().all(|c| c == '0' || c == '1'))
        || unsigned.to_ascii_lowercase() == ".inf"
        || looks_like_timestamp(s)
        || matches!(
            s.to_ascii_lowercase().as_str(),
            "true" | "false" | "yes" | "no" | "on" | "off" | "null" | "~" | ".inf" | ".nan"
        )
}

fn read_back(text: &str) -> serde_yaml::Value {
    match serde_yaml::from_str(text) {
        Ok(v) => v,
        Err(e) => panic!("{}: {:?}", e, text),
    }
}

#[test]
fn numbers_are_what_std_parses() {
    // Every text of up to six characters over the alphabet of numbers.
    let alphabet = ['0', '9', '.', 'e', '+', '-', 'x'];
    let mut texts: Vec<String> = vec![String::new()];
    let mut start = 0;
    for _ in 0..6 {
        let end = texts.len();
        for i in start..end {
            for c in alphabet {
                texts.push(format!("{}{}", texts[i], c));
            }
        }
        start = end;
    }
    for s in &texts {
        assert_eq!(looks_like_non_string(s), other_type(s), "{:?}", s);
    }
}

#[test]
fn words_are_recognised_in_any_case() {
    for s in [
        "true", "TRUE", "False", "yEs", "no", "On", "OFF", "null", "Null", "~", ".inf", ".NaN",
        "inf", "-INF", "+infinity", "nan", "NAN", "Infinity", "-nan", "infinit", "tru", "truee",
        "~~", "-.inf", ".infinity", "nul", "yes ", "ïnf", "1e5", "1E+5", "1e", "e1", "-", "+",
        "9223372036854775808", "-9223372036854775808", "1_000", "1,5", "٣", "K", "ſ",
    ] {
        assert_eq!(looks_like_non_string(s), other_type(s), "{:?}", s);
    }
}

#[test]
fn numbers_that_are_not_decimal_are_no_strings() {
    for s in [
        "+.inf", "-.inf", "-.INF", "+.Inf", "0b101", "0B1", "+0b1", "-0b0", "+0x1F", "-0X1f",
        "+0o17", "-0O7", "+00", "-017",
    ] {
        assert!(looks_like_non_string(s), "{}", s);
        let out = render_map(&[("output", YamlValue::Str(s))]);
        assert_eq!(out, format!("output: \"{}\"\n", s));
        assert_eq!(read_back(&out)["output"].as_str(), Some(s));
    }
    for s in ["0b", "0b2", "b1", "+-0x1", "+", "+.infinity", "++.inf", "0x", "+0x", ".in"] {
        assert!(!looks_like_non_string(s), "{}", s);
    }
}

#[test]
fn hexadecimal_numbers_need_a_prefix_and_digits() {
    for s in ["0x0", "0XfF", "0x1F"] {
        assert!(looks_like_hex(s), "{}", s);
    }
    for s in ["", "0x", "0X", "x1", "1x1", "0xg", "0x1 ", "0", "-0x1"] {
        assert!(!looks_like_hex(s), "{}", s);
    }
}

#[test]
fn octal_numbers_have_a_prefix_or_a_leading_zero() {
    for s in ["0o7", "0O17", "00", "0755"] {
        assert!(looks_like_octal(s), "{}", s);
    }
    for s in ["", "0", "0o", "0O", "0o8", "08", "755", "0x7", "0 7"] {
        assert!(!looks_like_octal(s), "{}", s);
    }
}

#[test]
fn timestamps_start_with_a_year_and_a_hyphen() {
    for s in ["2026-", "0000-x", "2026-08-13"] {
        assert!(looks_like_timestamp(s), "{}", s);
    }
    for s in ["", "2026", "202-6-1", "2026/08", "a026-", "٢٠٢٦-"] {
        assert!(!looks_like_timestamp(s), "{}", s);
    }
}

#[test]
fn plain_scalars_are_safe() {
    for s in ["ok", "2 + 3", "a:b", "a#b", "a - b", "é", "x: y".split(' ').next().unwrap_or("")] {
        let expected = !s.ends_with(':');
        assert_eq!(is_plain_safe(s), expected, "{}", s);
    }
    for s in [
        "", " a", "a ", "a\u{3000}", "a #b", "a\t#b", "a: b", "a:\tb", "a:", "5", "null",
        "2026-01", "a\u{1}b", "a\u{7f}", "a\u{85}b", "a\u{2028}b", "a\u{feff}", "a\nb", "a\rb",
    ] {
        assert!(!is_plain_safe(s), "{}", s);
    }
    for c in "-?:,[]{}#&*!|>'\"%@`".chars() {
        assert!(!is_plain_safe(&format!("{}x", c)), "{}", c);
        assert!(is_plain_safe(&format!("x{}y", c)), "{}", c);
    }
}

#[test]
fn quoting_escapes_what_must_not_stand_as_it_is() {
    assert_eq!(quoted(""), "\"\"");
    assert_eq!(quoted("a\"b\\c"), "\"a\\\"b\\\\c\"");
    assert_eq!(quoted("\n\t\r"), "\"\\n\\t\\r\"");
    assert_eq!(quoted("\u{0}\u{1b}\u{1f} é"), "\"\\u0000\\u001b\\u001f é\"");
    assert_eq!(quoted("\u{7f}\u{85}\u{9f}\u{a0}"), "\"\\u007f\\u0085\\u009f\u{a0}\"");
    assert_eq!(quoted("\u{2028}\u{2029}\u{feff}"), "\"\\u2028\\u2029\\ufeff\"");
    assert_eq!(quoted("\u{fffe}\u{ffff}\u{fffd}🪿"), "\"\\ufffe\\uffff\u{fffd}🪿\"");
}

#[test]
fn every_character_reads_back() {
    for n in 0u32..0x30000 {
        let c = match char::from_u32(n) {
            Some(c) => c,
            None => continue,
        };
        // Of the larger planes, those at their ends.
        if n > 0x3100 && n & 0xffff < 0xfe00 {
            continue;
        }
        for text in [format!("a{}b", c), format!("{}", c), format!("a\n{}\nb", c)] {
            let out = render_map(&[("output", YamlValue::Str(&text)), ("end", YamlValue::Null)]);
            let value = read_back(&out);
            assert_eq!(value["output"].as_str(), Some(text.as_str()), "{:x}", n);
            assert!(value["end"].is_null());
        }
    }
}

#[test]
fn scalars_are_quoted_only_when_they_must_be() {
    assert_eq!(scalar("import time; time.sleep(1)"), "import time; time.sleep(1)");
    assert_eq!(scalar("-12345678901234567890"), "\"-12345678901234567890\"");
    assert_eq!(scalar(" x"), "\" x\"");
    assert_eq!(scalar("5"), "\"5\"");
}

#[test]
fn block_scalars_are_indented_as_asked() {
    assert_eq!(block_scalar("a\nb", 4), "|-\n    a\n    b\n");
    assert_eq!(block_scalar("a\n\nb\n", 2), "|\n  a\n\n  b\n\n");
    assert_eq!(block_scalar("a\nb", 0), "|-\na\nb\n");
    assert_eq!(block_scalar("", 2), "|-\n\n");
}

#[test]
fn a_block_says_its_indentation_where_its_text_is_indented() {
    assert_eq!(block_scalar("  a\nb", 2), "|2-\n    a\n  b\n");
    assert_eq!(block_scalar("\n\ta\nb\n", 2), "|2\n\n  \ta\n  b\n\n");
    assert_eq!(block_scalar("  \na\n\n", 3), "|3+\n     \n   a\n\n");
    assert_eq!(block_scalar("a\n  b", 2), "|-\n  a\n    b\n");
    // No digit says these.
    assert_eq!(block_scalar(" a\nb", 0), "|-\n a\nb\n");
    assert_eq!(block_scalar(" a\nb", 10), "|-\n           a\n          b\n");
}

#[test]
fn a_block_keeps_final_newlines() {
    assert_eq!(block_scalar("a\n\n", 2), "|+\n  a\n\n");
    assert_eq!(block_scalar("a\n\n\n", 2), "|+\n  a\n\n\n");
    assert_eq!(block_scalar("\n", 2), "|+\n\n");
    assert_eq!(block_scalar("\n\n", 2), "|+\n\n\n");
}

#[test]
fn a_text_of_several_lines_with_controls_is_quoted() {
    let out = render_map(&[("output", YamlValue::Str("a\n\u{1b}[1mb\r\n"))]);
    assert_eq!(out, "output: \"a\\n\\u001b[1mb\\r\\n\"\n");
    assert_eq!(read_back(&out)["output"].as_str(), Some("a\n\u{1b}[1mb\r\n"));
}

#[test]
fn short_texts_read_back() {
    // Every text of up to four characters over an alphabet of what matters.
    let alphabet = [
        ' ', '\n', '\t', 'a', '#', ':', '-', '"', '\'', '|', '0', 'x', '.', '+', '~', '?', '\r',
    ];
    let mut texts: Vec<String> = vec![String::new()];
    let mut start = 0;
    for _ in 0..4 {
        let end = texts.len();
        for i in start..end {
            for c in alphabet {
                texts.push(format!("{}{}", texts[i], c));
            }
        }
        start = end;
    }
    for text in &texts {
        let out = render_map(&[("one", YamlValue::Str(text)), ("two", YamlValue::Bool(true))]);
        let value = read_back(&out);
        assert_eq!(value["one"].as_str(), Some(text.as_str()), "{:?}", out);
        assert_eq!(value["two"].as_bool(), Some(true));
        let last = render_map(&[("one", YamlValue::Str(text))]);
        assert_eq!(read_back(&last)["one"].as_str(), Some(text.as_str()), "{:?}", last);
    }
}

#[test]
fn short_texts_of_lines_read_back() {
    let alphabet = [' ', '\n', 'a', '\t'];
    let mut texts: Vec<String> = vec![String::new()];
    let mut start = 0;
    for _ in 0..7 {
        let end = texts.len();
        for i in start..end {
            for c in alphabet {
                texts.push(format!("{}{}", texts[i], c));
            }
        }
        start = end;
    }
    for text in &texts {
        let out = render_map(&[("one", YamlValue::Str(text)), ("two", YamlValue::Str(text))]);
        let value = read_back(&out);
        assert_eq!(value["one"].as_str(), Some(text.as_str()), "{:?}", out);
        assert_eq!(value["two"].as_str(), Some(text.as_str()), "{:?}", out);
    }
}

#[test]
fn an_empty_map_is_empty_text() {
    assert_eq!(render_map(&[]), "");
    assert_eq!(render_map(&[("a", YamlValue::Bool(false))]), "a: false\n");
}

#[test]
fn maps_read_back() {
    let texts = [
        "", "x", "5", "a: b", "# c", "a\nb", "\n\na\n  b", "a\nb\n", "é\n\n\n🪿", "key: |-\n  x",
        "tab\there", "- a\n- b", "\"q\"", "a\nb: c\n# d", "  a\nb", "\n", "a\n\n", "+.inf",
        "  (* n n))\n(foo 9)\n81", "\u{1}x", "a\t# b",
    ];
    for first in texts {
        for second in texts {
            let out = render_map(&[
                ("one", YamlValue::Str(first)),
                ("none", YamlValue::Null),
                ("two", YamlValue::Str(second)),
            ]);
            let value: serde_yaml::Value = match serde_yaml::from_str(&out) {
                Ok(v) => v,
                Err(e) => panic!("{}: {}", e, out),
            };
            assert_eq!(value["one"].as_str(), Some(first), "{}", out);
            assert!(value["none"].is_null());
            assert_eq!(value["two"].as_str(), Some(second), "{}", out);
        }
    }
}
