//! YAML output.
use muxxy::yaml::{render_map, YamlValue};

fn render(entries: &[(&str, YamlValue)]) -> String {
    render_map(entries)
}

#[test]
fn renders_plain_scalars() {
    let out = render(&[
        ("status", YamlValue::Str("ok")),
        ("is_ready", YamlValue::Bool(true)),
        ("last_command", YamlValue::Str("2 + 3")),
        ("output", YamlValue::Null),
    ]);
    assert_eq!(
        out,
        "status: ok\nis_ready: true\nlast_command: 2 + 3\noutput: null\n"
    );
}

#[test]
fn quotes_strings_that_are_not_plain_safe() {
    let out = render(&[("kind", YamlValue::Str("^>>> "))]);
    assert_eq!(out, "kind: \"^>>> \"\n");
    let out = render(&[("pane", YamlValue::Str("%1"))]);
    assert_eq!(out, "pane: \"%1\"\n");
    let out = render(&[("reason", YamlValue::Str("a: b"))]);
    assert_eq!(out, "reason: \"a: b\"\n");
}

#[test]
fn quotes_strings_that_would_parse_as_other_types() {
    // Numbers, bools, null, hex, timestamps must stay strings on
    // round-trip.
    for s in ["5", "1.5", "1e5", "0x1F", "true", "yes", "off", "null", "~", "2026-08-13"] {
        let out = render(&[("output", YamlValue::Str(s))]);
        assert_eq!(out, format!("output: \"{s}\"\n"), "{s} should be quoted");
        let parsed: serde_yaml::Value = serde_yaml::from_str(&out).unwrap();
        assert_eq!(parsed["output"], serde_yaml::Value::String(s.into()));
    }
}

#[test]
fn renders_multiline_output_as_literal_block() {
    let out = render(&[("output", YamlValue::Str("0\n1\n2"))]);
    assert_eq!(out, "output: |-\n  0\n  1\n  2\n");
}

#[test]
fn block_scalar_keeps_trailing_newline_when_present() {
    let out = render(&[("output", YamlValue::Str("a\nb\n"))]);
    assert_eq!(out, "output: |\n  a\n  b\n\n");
}

#[test]
fn block_scalar_handles_blank_lines() {
    let out = render(&[("output", YamlValue::Str("a\n\nb"))]);
    assert_eq!(out, "output: |-\n  a\n\n  b\n");
}

#[test]
fn round_trips_through_serde_yaml() {
    let out = render(&[
        ("status", YamlValue::Str("ok")),
        ("last_command", YamlValue::Str("import time; time.sleep(1)")),
        ("output", YamlValue::Str("0\n1\n2")),
    ]);
    let parsed: serde_yaml::Value = serde_yaml::from_str(&out).unwrap();
    assert_eq!(parsed["status"], "ok");
    assert_eq!(parsed["last_command"], "import time; time.sleep(1)");
    assert_eq!(parsed["output"], "0\n1\n2");
}
