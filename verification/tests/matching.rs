//! Patterns, sets of prompts, and what they say of lines.
use muxxy::extract::{
    extract_block, extract_last_command_and_output, extract_with_sent_command, find_sent_block,
    join_output, retarget, LineMark, SentBlock,
};
use muxxy::kinds::{builtin, Kinds};
use muxxy::pattern::{
    compile, find_padded, idle_match, is_at_line_start, is_idle_line, is_idle_span, prefix_match,
    strip_span, TRIMMED_SPACES,
};
use muxxy::prompts::{
    detect_idle_index, detect_idle_kind, find_idle, has_line_start, prompt_steps, strip_line,
    PromptMatch, PromptStep, Prompts,
};
use muxxy::text::split_lines;

fn prompts_of(patterns: &[&str]) -> Prompts {
    let owned: Vec<String> = patterns.iter().map(|p| p.to_string()).collect();
    match Prompts::from_prompts(&owned) {
        Ok(p) => p,
        Err(e) => panic!("{}", e),
    }
}

fn refusal(result: Result<Prompts, String>) -> String {
    match result {
        Ok(_) => panic!("built"),
        Err(e) => e,
    }
}

fn mark(is_prompt: bool, rest: &str) -> LineMark {
    LineMark { is_prompt, rest: rest.to_string() }
}

#[test]
fn a_match_is_judged_by_where_it_is() {
    assert!(is_at_line_start(Some((0, 4))));
    assert!(is_at_line_start(Some((0, 0))));
    assert!(!is_at_line_start(Some((1, 4))));
    assert!(!is_at_line_start(None));
    assert!(is_idle_span(">>>   ", Some((0, 4))));
    assert!(!is_idle_span(">>> x", Some((0, 4))));
    assert!(!is_idle_span(">>> ", Some((1, 4))));
    assert!(!is_idle_span(">>> ", None));
    assert!(is_idle_line(">>>", None, &[Some((0, 4))]));
    assert!(is_idle_line("sql>", None, &[None, Some((0, 6))]));
    assert!(is_idle_line("é>", None, &[Some((0, 4))]));
    assert!(is_idle_line(">>>   ", Some((0, 4)), &[]));
    assert!(!is_idle_line(">>>", None, &[Some((0, 3))]));
    assert!(!is_idle_line(">>>", None, &[Some((1, 4))]));
    assert!(!is_idle_line("sql>", None, &[Some((0, 4)), Some((0, 5))]));
    assert!(!is_idle_line(">>> x", Some((0, 4)), &[Some((0, 4))]));
    assert!(!is_idle_line(">>>", None, &[None]));
    assert_eq!(strip_span(">>>  x y ", Some((0, 4))), Some("x y".to_string()));
    assert_eq!(strip_span("é> x", Some((0, 3))), Some("x".to_string()));
    assert_eq!(strip_span("a >>> x", Some((2, 6))), None);
    assert_eq!(strip_span("a", None), None);
}

#[test]
fn the_first_suitable_span_decides() {
    let spans = [None, Some((1, 2)), Some((0, 1)), Some((0, 3))];
    assert!(has_line_start(&spans));
    assert!(!has_line_start(&spans[..2]));
    let found = |span| PromptMatch { span, padded: vec![None, None] };
    let matches: Vec<PromptMatch> = spans.into_iter().map(found).collect();
    assert_eq!(find_idle("> a", &matches), Some(3));
    assert_eq!(find_idle(">  ", &matches), Some(2));
    assert_eq!(find_idle("> a", &matches[..3]), None);
    // The match in a padded line counts only when it is all of it.
    let trimmed = |padded| PromptMatch { span: None, padded };
    let matches = [
        trimmed(vec![Some((1, 4)), Some((0, 4))]),
        trimmed(vec![Some((0, 3)), Some((1, 5))]),
        trimmed(vec![None, Some((0, 5))]),
        trimmed(vec![Some((0, 4))]),
    ];
    assert_eq!(find_idle("> a", &matches), Some(2));
    assert_eq!(find_idle("> a", &matches[3..]), Some(0));
    assert_eq!(find_idle("> a", &matches[..2]), None);
    assert_eq!(strip_line("> a", &spans), "a");
    assert_eq!(strip_line(" > a ", &spans[..2]), "> a");
}

#[test]
fn a_pattern_that_does_not_compile_is_named_with_the_reason() {
    let reason = format!("{}", regex::Regex::new("a\"(").unwrap_err());
    let expected = format!("invalid prompt regex {:?}: {}", "a\"(", reason);
    assert!(expected.starts_with("invalid prompt regex \"a\\\"(\": regex parse error:"));
    assert_eq!(compile("a\"(").unwrap_err(), expected);
    let patterns = vec!["^ok".to_string(), "a\"(".to_string(), "[".to_string()];
    assert_eq!(refusal(Prompts::from_prompts(&patterns)), expected);
    assert!(compile("^ok").unwrap().is_match("ok then"));
}

#[test]
fn an_unknown_kind_is_named() {
    let names = vec!["python".to_string(), "co\"bol".to_string()];
    let result = Prompts::from_kinds(&names, &builtin(), &["(".to_string()]);
    assert_eq!(refusal(result), "unknown REPL kind \"co\\\"bol\"");
}

#[test]
fn kinds_come_before_extra_patterns_and_label_theirs() {
    let names = vec!["python".to_string(), "lisp".to_string()];
    let extra = vec!["^me: ".to_string()];
    let steps = prompt_steps(&names, &builtin(), &extra);
    let seen: Vec<(String, String)> = steps
        .into_iter()
        .map(|s| match s {
            PromptStep::Pattern(label, pattern) => (label, pattern),
            PromptStep::UnknownKind(name) => panic!("{}", name),
        })
        .collect();
    let pair = |a: &str, b: &str| (a.to_string(), b.to_string());
    assert_eq!(
        seen,
        vec![
            pair("python", r"^>>> "),
            pair("lisp", r"^\? "),
            pair("lisp", r"^\* "),
            pair("lisp", r"^\*$"),
            pair("lisp", r"^[A-Za-z0-9.-]+> "),
            pair("lisp", r"^ *[0-9]+(\[[0-9]+\]|\]) ?"),
            pair("^me: ", "^me: "),
        ]
    );
    let set = Prompts::from_kinds(&names, &builtin(), &extra).ok().unwrap();
    assert_eq!(set.detect_idle(">>> "), Some("python"));
    assert_eq!(set.detect_idle("? "), Some("lisp"));
    assert_eq!(set.detect_idle("me: "), Some("^me: "));
    assert_eq!(set.detect_idle_index("me: "), Some(6));
}

#[test]
fn no_pattern_matches_nothing() {
    let none = prompts_of(&[]);
    assert!(!none.is_prompt_line(">>> "));
    assert!(!none.is_idle_prompt(""));
    assert!(!none.idle_matches_index(Some(0), ">>> "));
    assert_eq!(none.strip_prompt("  a "), "a");
    let from_no_kinds = Prompts::from_kinds(&[], &Kinds::new(), &[]).ok().unwrap();
    assert_eq!(from_no_kinds.spans(">>> "), vec![]);
}

#[test]
fn spans_are_byte_offsets_of_the_first_match() {
    let set = prompts_of(&["[0-9]+", "🪿 Enter", "^$"]);
    assert_eq!(set.spans("é12 34"), vec![Some((2, 4)), None, None]);
    assert_eq!(set.spans("x 🪿 Enter"), vec![None, Some((2, 12)), None]);
    assert_eq!(set.spans(""), vec![None, None, Some((0, 0))]);
}

#[test]
fn required_pattern_is_stricter_than_any() {
    let set = prompts_of(&["^>>> ", r"^\.\.\. "]);
    for line in [">>> ", "... ", ">>> x", "", "... y", "    "] {
        for i in 0..3 {
            if set.idle_matches_index(Some(i), line) {
                assert!(set.idle_matches_index(None, line));
                assert!(set.is_prompt_line(line));
            }
        }
        if let Some(i) = set.detect_idle_index(line) {
            assert!(set.idle_matches_index(Some(i), line));
        }
    }
    assert!(!set.idle_matches_index(Some(2), ">>> "));
}

#[test]
fn idle_kind_and_index_look_at_the_last_meaningful_line() {
    let set = prompts_of(&["^>>> ", r"^\.\.\. "]);
    let lines = split_lines(">>> f()\n1\n...    \n   \n\n");
    assert_eq!(detect_idle_kind(&set, &lines), Some(r"^\.\.\. "));
    assert_eq!(detect_idle_index(&set, &lines), Some(1));
    assert_eq!(detect_idle_index(&set, &["", " "]), None);
    assert_eq!(detect_idle_kind(&set, &[]), None);
}

#[test]
fn a_prompt_whose_trailing_space_was_trimmed_is_idle() {
    let re = compile("^>>> ").unwrap();
    assert!(idle_match(&re, ">>>"));
    assert!(idle_match(&re, ">>> "));
    assert!(idle_match(&re, ">>>     "));
    assert!(!idle_match(&re, ">>> x"));
    assert!(!idle_match(&re, ">>>x"));
    assert!(!idle_match(&re, " >>>"));
    assert!(!idle_match(&re, ">>"));
    assert!(!idle_match(&re, ""));
    assert!(!prefix_match(&re, ">>>"));
    assert!(prefix_match(&re, ">>> x"));
    assert!(!prefix_match(&re, "see >>> x"));
    let set = prompts_of(&[r"^\.\.\. ", "^>>> "]);
    assert!(set.is_idle_prompt(">>>"));
    assert_eq!(set.detect_idle(">>>"), Some("^>>> "));
    assert_eq!(set.detect_idle_index("..."), Some(0));
    assert!(set.idle_matches_index(Some(1), ">>>"));
    assert!(!set.idle_matches_index(Some(0), ">>>"));
    assert_eq!(detect_idle_kind(&set, &split_lines("1\n>>>\n\n")), Some("^>>> "));
}

#[test]
fn several_trailing_spaces_may_be_trimmed() {
    let re = compile("^sql>  ").unwrap();
    for line in ["sql>", "sql> ", "sql>  ", "sql>      "] {
        assert!(idle_match(&re, line), "{:?}", line);
    }
    for line in ["sql", "sql>x", "sql>  x", " sql>"] {
        assert!(!idle_match(&re, line), "{:?}", line);
    }
    let set = prompts_of(&["^>>> ", "^sql>  "]);
    assert_eq!(set.detect_idle_index("sql>"), Some(1));
    assert!(set.idle_matches_index(Some(1), "sql>"));
    assert!(!set.idle_matches_index(Some(0), "sql>"));
    let padded = find_padded(&re, "sql>");
    assert_eq!(padded.len(), TRIMMED_SPACES);
    assert_eq!(padded[0], None);
    assert_eq!(padded[1], Some((0, 6)));
    assert_eq!(padded[2], Some((0, 6)));
    let most = compile(&format!("^> {{{}}}$", TRIMMED_SPACES)).unwrap();
    let more = compile(&format!("^> {{{}}}$", TRIMMED_SPACES + 1)).unwrap();
    assert!(idle_match(&most, ">"));
    assert!(!idle_match(&more, ">"));
    assert!(idle_match(&more, "> "));
}

#[test]
fn lines_that_hold_only_a_prompt_are_left_out_of_output() {
    let lines = ["a  ", "... ", "", " b", "   ", "c"];
    let marks = [
        mark(false, "a"),
        mark(true, ""),
        mark(false, ""),
        mark(false, "b"),
        mark(false, ""),
        mark(false, "c"),
    ];
    assert_eq!(join_output(&lines, &marks, 0, 6), "a\n\n b\n\nc");
    assert_eq!(join_output(&lines, &marks, 0, 4), "a\n\n b");
    assert_eq!(join_output(&lines, &marks, 1, 2), "");
    assert_eq!(join_output(&lines, &marks, 2, 2), "");
}

#[test]
fn blank_lines_of_output_are_kept() {
    let set = prompts_of(&["^>>> "]);
    let lines = split_lines(">>> f()\na\n\nb\n>>> \n");
    assert_eq!(
        extract_last_command_and_output(&lines, &set),
        (Some("f()".to_string()), Some("a\n\nb".to_string()))
    );
}

#[test]
fn a_block_runs_from_the_last_command_to_the_last_prompt() {
    let lines = ["> old", "1", "> new", "2  ", "> ", "> ", "later"];
    let marks = [
        mark(true, "old"),
        mark(false, "1"),
        mark(true, "new"),
        mark(false, "2"),
        mark(true, ""),
        mark(true, ""),
        mark(false, "later"),
    ];
    let whole = extract_block(&lines, &marks);
    assert_eq!(whole, (Some("new".to_string()), Some("2".to_string())));
    assert_eq!(extract_block(&lines[..2], &marks[..2]), (None, None));
    assert_eq!(extract_block(&lines[4..], &marks[4..]), (None, None));
    assert_eq!(extract_block(&[], &[]), (None, None));
    // The last prompt line carries a command: it ends the block before it.
    let head = extract_block(&lines[..3], &marks[..3]);
    assert_eq!(head, (Some("old".to_string()), Some("1".to_string())));
}

#[test]
fn output_of_a_quiet_command_is_empty() {
    let set = prompts_of(&["^>>> "]);
    let (command, output) = extract_last_command_and_output(&split_lines(">>> x = 1\n>>> "), &set);
    assert_eq!(command.as_deref(), Some("x = 1"));
    assert_eq!(output.as_deref(), Some(""));
}

#[test]
fn marked_lines_settle_a_sent_command_or_call_it_stale() {
    let lines = ["> old", "new", "2", "> "];
    let marks = [mark(true, "old"), mark(false, "new"), mark(false, "2"), mark(true, "")];
    match find_sent_block(&lines, &marks, "old") {
        SentBlock::Settled(Some(command), Some(output)) => {
            assert_eq!(command, "old");
            assert_eq!(output, "new\n2");
        },
        _ => panic!("not settled"),
    }
    match find_sent_block(&lines, &marks, "new") {
        SentBlock::Stale(command, output) => {
            assert_eq!(command, "old");
            assert_eq!(output, "new\n2");
        },
        _ => panic!("not stale"),
    }
    match find_sent_block(&lines[1..], &marks[1..], "new") {
        SentBlock::Settled(Some(command), Some(output)) => {
            assert_eq!(command, "new");
            assert_eq!(output, "2");
        },
        _ => panic!("not settled"),
    }
    assert!(matches!(
        find_sent_block(&lines[1..], &marks[1..], "gone"),
        SentBlock::Settled(Some(_), None)
    ));
    assert!(matches!(
        find_sent_block(&lines[1..], &marks[1..], ""),
        SentBlock::Settled(None, None)
    ));
    // No prompt line at all.
    match find_sent_block(&lines[1..3], &marks[1..3], "new") {
        SentBlock::Settled(Some(command), None) => assert_eq!(command, "new"),
        _ => panic!("not settled"),
    }
    assert!(matches!(
        find_sent_block(&lines[1..3], &marks[1..3], ""),
        SentBlock::Settled(None, None)
    ));
}

#[test]
fn a_stale_block_is_cut_at_the_first_echo() {
    let out_lines = ["noise", "new", "2", "new", "3"];
    let marks = [
        mark(false, "noise"),
        mark(false, "new"),
        mark(false, "2"),
        mark(false, "new"),
        mark(false, "3"),
    ];
    let text = "noise\nnew\n2\nnew\n3".to_string();
    let moved = retarget("old".to_string(), text.clone(), &out_lines, &marks, "new");
    assert_eq!(moved, (Some("new".to_string()), Some("2\nnew\n3".to_string())));
    let kept = retarget("old".to_string(), text.clone(), &out_lines, &marks, "gone");
    assert_eq!(kept, (Some("old".to_string()), Some(text)));
}

#[test]
fn sent_command_agrees_with_the_last_block() {
    let set = prompts_of(&["^>>> "]);
    let lines = split_lines(">>> 2 + 3\n5\n>>> ");
    let whole = extract_last_command_and_output(&lines, &set);
    assert_eq!(whole, (Some("2 + 3".to_string()), Some("5".to_string())));
    assert_eq!(extract_with_sent_command(&lines, &set, "  2 + 3\n"), whole);
    assert_eq!(extract_with_sent_command(&lines, &set, " \t"), whole);
    // Never echoed: the last block is all there is.
    assert_eq!(extract_with_sent_command(&lines, &set, "gone()"), whole);
}

#[test]
fn sent_command_is_found_without_a_block() {
    let set = prompts_of(&["^>>> "]);
    let lines = split_lines("f(1)\nold\nf(1)\nnew  \n>>> \n");
    assert_eq!(
        extract_with_sent_command(&lines, &set, "f(1)"),
        (Some("f(1)".to_string()), Some("new".to_string()))
    );
}

#[test]
fn without_a_prompt_line_the_sent_command_is_reported() {
    let set = prompts_of(&["^>>> "]);
    assert_eq!(
        extract_with_sent_command(&["lots of output"], &set, " print('lost')"),
        (Some("print('lost')".to_string()), None)
    );
    let lines = split_lines("f(1)\nold\n");
    assert_eq!(extract_with_sent_command(&lines, &set, " "), (None, None));
    assert_eq!(extract_last_command_and_output(&lines, &set), (None, None));
}
