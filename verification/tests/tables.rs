//! Tables of kinds and what overrides them.
use muxxy::kinds::{builtin, load, merge, KindValue, Kinds};

fn table_of(raw: &str) -> Kinds {
    let (kinds, warnings) = load(Some(raw));
    assert_eq!(warnings, Vec::<String>::new());
    kinds
}

fn text(s: &str) -> Option<String> {
    Some(s.to_string())
}

#[test]
fn every_builtin_kind_has_its_patterns() {
    let kinds = builtin();
    let debugger = r"^ *[0-9]+(\[[0-9]+\]|\]) ?";
    let package = r"^[A-Za-z0-9.-]+> ";
    for (name, patterns) in [
        ("python", vec![r"^>>> "]),
        ("ipython", vec![r"^In \[\d+\]: "]),
        ("bash", vec![r"^[^$#]+[$#] *"]),
        ("sh", vec![r"^[^$#]+[$#] *"]),
        ("zsh", vec![r"^[^$+][$#] *"]),
        ("node", vec![r"^> "]),
        ("irb", vec![r"^irb\(.*\):\d+(:\d+)?> *"]),
        ("iex", vec![r"^iex\(\d+\)> $"]),
        ("lisp", vec![r"^\? ", r"^\* ", r"^\*$", package, debugger]),
        ("sbcl", vec![r"^\* ", r"^\*$", debugger, r"^ldb> ", package]),
        ("goose", vec![r"🪿 Enter to send.*"]),
    ] {
        assert_eq!(kinds.get(name).unwrap(), &patterns, "{}", name);
    }
    assert!(kinds.get("cobol").is_none());
}

#[test]
fn inserting_overrides_one_name_only() {
    let mut kinds = Kinds::new();
    assert!(!kinds.contains_key("a"));
    kinds.insert("a".to_string(), vec!["1".to_string()]);
    kinds.insert("b".to_string(), vec!["2".to_string()]);
    kinds.insert("a".to_string(), vec!["3".to_string(), "4".to_string()]);
    assert_eq!(kinds.get("a").unwrap(), &vec!["3", "4"]);
    assert_eq!(kinds.get("b").unwrap(), &vec!["2"]);
    assert!(!kinds.contains_key("c"));
}

#[test]
fn without_a_value_the_builtin_kinds_are_in_force() {
    for raw in [None, Some(""), Some("  \n"), Some("{}")] {
        let (kinds, warnings) = load(raw);
        assert!(warnings.is_empty());
        assert_eq!(kinds.get("python").unwrap(), &vec!["^>>> "]);
    }
}

#[test]
fn a_value_overrides_and_adds_kinds() {
    let kinds = table_of(" {\"python\": \"^py> \", \"mine\": [\"^a \", 5, \"^b \", null]} ");
    assert_eq!(kinds.get("python").unwrap(), &vec!["^py> "]);
    assert_eq!(kinds.get("mine").unwrap(), &vec!["^a ", "^b "]);
    assert_eq!(kinds.get("node").unwrap(), &vec!["^> "]);
}

#[test]
fn an_array_without_strings_changes_nothing() {
    let kinds = table_of("{\"python\": [], \"mine\": [1, {}]}");
    assert_eq!(kinds.get("python").unwrap(), &vec!["^>>> "]);
    assert!(!kinds.contains_key("mine"));
}

#[test]
fn the_last_of_two_members_with_one_name_counts() {
    let kinds = table_of("{\"mine\": \"1\", \"mine\": \"2\"}");
    assert_eq!(kinds.get("mine").unwrap(), &vec!["2"]);
}

#[test]
fn a_value_of_another_type_is_warned_of() {
    let (kinds, warnings) = load(Some("{\"a\\\"b\": 5, \"mine\": \"^m \", \"python\": {}}"));
    assert_eq!(
        warnings,
        vec![
            "muxxy: WARNING: kind \"a\\\"b\" in TMUX_REPL_KINDS must be a string or array of strings; ignoring.",
            "muxxy: WARNING: kind \"python\" in TMUX_REPL_KINDS must be a string or array of strings; ignoring.",
        ]
    );
    assert!(!kinds.contains_key("a\"b"));
    assert_eq!(kinds.get("mine").unwrap(), &vec!["^m "]);
    assert_eq!(kinds.get("python").unwrap(), &vec!["^>>> "]);
}

#[test]
fn a_value_that_is_no_object_is_warned_of() {
    for raw in ["[1]", "\"x\"", "5", "null", "true"] {
        let (kinds, warnings) = load(Some(raw));
        assert_eq!(
            warnings,
            vec!["muxxy: WARNING: TMUX_REPL_KINDS must be a JSON object; ignoring."]
        );
        assert_eq!(kinds.get("python").unwrap(), &vec!["^>>> "]);
    }
}

#[test]
fn a_value_that_is_no_json_is_warned_of() {
    let raw = "{\"mine\": ";
    let reason = match serde_json::from_str::<serde_json::Value>(raw.trim()) {
        Ok(_) => panic!("parsed"),
        Err(e) => format!("{}", e),
    };
    let (kinds, warnings) = load(Some(raw));
    assert_eq!(
        warnings,
        vec![format!(
            "muxxy: WARNING: could not parse TMUX_REPL_KINDS ({}); ignoring.",
            reason
        )]
    );
    assert!(reason.contains("line 1"));
    assert!(!kinds.contains_key("mine"));
    assert!(kinds.contains_key("python"));
}

#[test]
fn members_are_merged_in_turn() {
    let mut kinds = Kinds::new();
    kinds.insert("a".to_string(), vec!["old".to_string()]);
    kinds.insert("b".to_string(), vec!["old".to_string()]);
    let warnings = merge(
        &mut kinds,
        vec![
            ("a".to_string(), KindValue::Text("1".to_string())),
            ("b".to_string(), KindValue::Other),
            ("a".to_string(), KindValue::List(vec![text("2"), None, text("3")])),
            ("a".to_string(), KindValue::List(vec![None])),
        ],
    );
    assert_eq!(
        warnings,
        vec!["muxxy: WARNING: kind \"b\" in TMUX_REPL_KINDS must be a string or array of strings; ignoring."]
    );
    assert_eq!(kinds.get("a").unwrap(), &vec!["2", "3"]);
    assert_eq!(kinds.get("b").unwrap(), &vec!["old"]);
}
