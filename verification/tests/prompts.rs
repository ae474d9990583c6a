//! Prompt matching and extraction.
use muxxy::extract::{extract_last_command_and_output, extract_with_sent_command};
use muxxy::kinds::Kinds;
use muxxy::prompts::{detect_idle_kind, is_repl_ready, Prompts};
use muxxy::text::{build_multi_line_text, last_meaningful_line, split_lines};
use muxxy::validate::validate_custom_prompts;

fn built(prompts: Result<Prompts, String>) -> Prompts {
    match prompts {
        Ok(p) => p,
        Err(e) => panic!("{}", e),
    }
}

fn py_prompt() -> Prompts {
    built(Prompts::from_prompts(&["^>>> ".to_string()]))
}

fn sbcl_prompt() -> Prompts {
    let mut kinds = Kinds::new();
    kinds.insert(
        "sbcl".to_string(),
        vec![
            r"^\* ".to_string(),
            r"^\*$".to_string(),
            r"^ *\d+(\[\d+\]|\]) ?".to_string(),
            r"^ldb> ".to_string(),
        ],
    );
    built(Prompts::from_kinds(&["sbcl".to_string()], &kinds, &[]))
}

#[test]
fn detects_ready_python_prompt() {
    let prompt = py_prompt();
    let lines = split_lines(">>> \n");
    assert!(is_repl_ready(&prompt, &lines));
    assert_eq!(detect_idle_kind(&prompt, &lines), Some("^>>> "));
}

#[test]
fn not_ready_when_busy() {
    let prompt = py_prompt();
    let lines = split_lines(">>> \nCalculating...\nstill working\n");
    assert!(!is_repl_ready(&prompt, &lines));
}

#[test]
fn not_ready_when_echoed_command_starts_with_prompt() {
    let prompt = py_prompt();
    // Mid-execution: the echoed command line starts with ">>> "
    let lines = split_lines(">>> import time; time.sleep(5)\n");
    assert!(!is_repl_ready(&prompt, &lines));
}

#[test]
fn idle_uses_bare_prompt_but_detection_uses_prefix() {
    let prompt = py_prompt();
    assert!(prompt.is_idle_prompt(">>> "));
    assert!(!prompt.is_idle_prompt(">>> 2 + 2"));
    assert!(prompt.is_prompt_line(">>> 2 + 2"));
    // Prompt-looking text in ordinary output is not a command boundary.
    assert!(!prompt.is_prompt_line("note: see >>> for help"));
}

#[test]
fn idle_tolerates_width_padding_and_trimmed_prompts() {
    let prompt = py_prompt();
    // Padded to terminal width by capture-pane -N
    assert!(prompt.is_idle_prompt(">>>                 "));
    // Prompt line with content after the prompt is not idle
    assert!(!prompt.is_idle_prompt(">>> 2 + 2                 "));
}

#[test]
fn extracts_last_command_and_output() {
    let prompt = py_prompt();
    let lines = split_lines(">>> print(1)\n1\n>>> \n");
    let (cmd, out) = extract_last_command_and_output(&lines, &prompt);
    assert_eq!(cmd.as_deref(), Some("print(1)"));
    assert_eq!(out.as_deref(), Some("1"));
}

#[test]
fn extraction_returns_none_when_no_complete_block() {
    let prompt = py_prompt();
    let lines = split_lines(">>> print(1)\n1\n");
    let (cmd, out) = extract_last_command_and_output(&lines, &prompt);
    assert_eq!(cmd, None);
    assert_eq!(out, None);
}

#[test]
fn strip_prompt_removes_only_a_prefix() {
    let prompt = py_prompt();
    assert_eq!(prompt.strip_prompt(">>> print(1)"), "print(1)");
    assert_eq!(
        prompt.strip_prompt("note: see >>> for help"),
        "note: see >>> for help"
    );
}

#[test]
fn warns_when_custom_prompt_matches_bare_output() {
    let bad = r"^ *[0-9]+(\[[0-9]+\])?".to_string();
    let safe = r"^ *[0-9]+(\[[0-9]+\]|\]) ?".to_string();
    let warnings = validate_custom_prompts(&[bad, safe, "^>>> ".to_string()]);
    assert_eq!(warnings.len(), 1);
    assert!(warnings[0].contains("1024"));
    assert!(warnings[0].contains("bare idle prompt"));
}

#[test]
fn sent_command_repairs_rlwrap_unprefixed_echo() {
    let prompt = sbcl_prompt();
    // rlwrap prefixed the old multi-line command's first line, but not
    // its continuation or the next command's echo. Plain extraction
    // therefore finds the stale `(defun ...)` boundary.
    let lines = split_lines(
        "* (defun foo (n)\n  (* n n))\n(foo 9)\n81\n* \n",
    );
    let (cmd, out) = extract_last_command_and_output(&lines, &prompt);
    assert_eq!(cmd.as_deref(), Some("(defun foo (n)"));
    assert_eq!(out.as_deref(), Some("  (* n n))\n(foo 9)\n81"));

    let (cmd, out) = extract_with_sent_command(&lines, &prompt, "(foo 9)");
    assert_eq!(cmd.as_deref(), Some("(foo 9)"));
    assert_eq!(out.as_deref(), Some("81"));
}

#[test]
fn sent_command_is_reported_when_echo_scrolled_out() {
    let prompt = py_prompt();
    let lines = split_lines("lots of output\n>>> \n");
    let (cmd, out) = extract_with_sent_command(&lines, &prompt, "print('lost')");
    assert_eq!(cmd.as_deref(), Some("print('lost')"));
    assert_eq!(out, None);
}

#[test]
fn bash_prompt_matches_full_line_and_command_lines() {
    let prompt = built(Prompts::from_prompts(&[r"[^$#]+[$#] *".to_string()]));
    assert!(prompt.is_idle_prompt("user@host$ "));
    assert!(prompt.is_prompt_line("user@host$ ls"));
}

#[test]
fn last_meaningful_line_skips_blank_lines() {
    let lines = split_lines("a\n\n   \n");
    assert_eq!(last_meaningful_line(&lines), Some("a"));
    assert_eq!(last_meaningful_line(&[]), None);
}

#[test]
fn sbcl_kind_matches_multiple_prompt_styles() {
    let prompt = sbcl_prompt();
    // Top-level prompt, idle
    assert!(prompt.is_idle_prompt("* "));
    assert_eq!(prompt.detect_idle("* "), Some("sbcl"));
    // Debugger prompt with a number, idle
    assert!(prompt.is_idle_prompt("0] "));
    assert_eq!(prompt.detect_idle("0] "), Some("sbcl"));
    // Nested debugger prompt (error inside the debugger), idle
    assert!(prompt.is_idle_prompt("0[2] "));
    assert_eq!(prompt.detect_idle("0[2] "), Some("sbcl"));
    assert!(prompt.is_idle_prompt("0[3]"));
    // Bare numeric output must NOT look like a prompt
    assert!(!prompt.is_idle_prompt("1024"));
    assert!(!prompt.is_prompt_line("1024"));
    // Debugger prompt while a command is on the line
    assert!(prompt.is_prompt_line("0] (restart 1)"));
    assert!(!prompt.is_idle_prompt("0] (restart 1)"));
    assert!(prompt.is_prompt_line("0[2] (error \"nested\")"));
    // ldb prompt
    assert!(prompt.is_idle_prompt("ldb> "));
}

#[test]
fn sbcl_extraction_across_debugger_boundaries() {
    let prompt = sbcl_prompt();
    // A command errored, dropped into the debugger, and was restarted:
    // * (foo)  ->  0] (restart 1)  ->  * 
    let lines =
        split_lines("* (foo)\n\nDebugger invoked...\n0] (restart 1)\nBack to top level.\n* \n");
    let (cmd, out) = extract_last_command_and_output(&lines, &prompt);
    assert_eq!(cmd.as_deref(), Some("(restart 1)"));
    assert_eq!(out.as_deref(), Some("Back to top level."));
}

#[test]
fn sbcl_nested_debugger_extraction() {
    let prompt = sbcl_prompt();
    // Nested debugger: command errors inside the debugger, then restart:
    // 0] (error "nested")  ->  0[2] (restart 4)  ->  0] (restart 1)  ->  *
    let lines = split_lines(
        "0] (error \"nested\")\n\nError in debugger...\n0[2] (restart 4)\n0] (restart 1)\nBack to top level.\n* \n",
    );
    assert!(is_repl_ready(&prompt, &lines));
    let (cmd, out) = extract_last_command_and_output(&lines, &prompt);
    assert_eq!(cmd.as_deref(), Some("(restart 1)"));
    assert_eq!(out.as_deref(), Some("Back to top level."));
}

#[test]
fn strip_prompt_uses_first_matching_pattern() {
    let prompt = sbcl_prompt();
    assert_eq!(prompt.strip_prompt("0] (restart 1)"), "(restart 1)");
    assert_eq!(prompt.strip_prompt("* (foo)"), "(foo)");
}

#[test]
fn multi_line_text_joins_lines_with_closing_blank_line() {
    let text = build_multi_line_text(&[
        "for i in range(3):".to_string(),
        "    print(i)".to_string(),
    ]);
    assert_eq!(text, "for i in range(3):\n    print(i)\n");
}

#[test]
fn multi_line_text_single_line_gets_closing_enter() {
    let text = build_multi_line_text(&["2 + 3".to_string()]);
    assert_eq!(text, "2 + 3\n");
}

#[test]
fn detect_idle_index_returns_pattern_position() {
    let prompt = py_prompt();
    assert_eq!(prompt.detect_idle_index(">>> "), Some(0));
    assert_eq!(prompt.detect_idle_index(">>> 2 + 2"), None);
    assert_eq!(prompt.detect_idle_index("garbage"), None);
}

#[test]
fn idle_matches_index_respects_require_index() {
    let prompt =
        built(Prompts::from_prompts(&["^>>> ".to_string(), r"^\.\.\. ".to_string()]));
    // A bare continuation prompt idle-matches its own index but not the
    // top-level index — that is how the multi-line wait loop avoids
    // returning while a slow block is still running.
    assert!(prompt.idle_matches_index(Some(0), ">>> "));
    assert!(!prompt.idle_matches_index(Some(0), "... "));
    assert!(prompt.idle_matches_index(Some(1), "... "));
    assert!(prompt.idle_matches_index(None, "... "));
}

#[test]
fn multiline_block_extraction_skips_bare_continuation_prompts() {
    let prompt =
        built(Prompts::from_prompts(&["^>>> ".to_string(), r"^\.\.\. ".to_string()]));
    // A multi-line python block: the closing blank line echoes a bare
    // "..." prompt, which must not be taken as the command start, and
    // must not leak into the output.
    // capture-pane -N pads lines to the terminal width, so bare
    // continuation prompts carry trailing spaces.
    let lines = split_lines(
        ">>> for i in range(3):\n...     print(\"row\", i)          \n...                    \nrow 0                  \nrow 1                  \n>>>                    \n",
    );
    let (cmd, out) = extract_last_command_and_output(&lines, &prompt);
    assert_eq!(cmd.as_deref(), Some("print(\"row\", i)"));
    assert_eq!(out.as_deref(), Some("row 0\nrow 1"));
}
