//! Reports and their YAML.
use muxxy::prompts::Prompts;
use muxxy::report::{
    last_command_report, outcome_report, plan_execution, ready_report, ExecInput, ExecOutput,
    ExecPlan, LastCommandOutput, ReadyOutput,
};

fn python_set() -> Prompts {
    let patterns = ["^>>> ".to_string(), r"^\.\.\. ".to_string()];
    match Prompts::from_prompts(&patterns) {
        Ok(p) => p,
        Err(e) => panic!("{}", e),
    }
}

fn yaml_of(text: &str) -> serde_yaml::Value {
    match serde_yaml::from_str(text) {
        Ok(v) => v,
        Err(e) => panic!("{}: {}", e, text),
    }
}

#[test]
fn an_idle_pane_is_ready() {
    let report = ready_report(&python_set(), ">>> 1\n1\n>>>     \n\n");
    assert_eq!(report.kind.as_deref(), Some("^>>> "));
    assert!(report.is_ready);
    assert_eq!(report.to_yaml(), "kind: \"^>>> \"\nis_ready: true\n");
}

#[test]
fn a_busy_pane_is_not_ready() {
    let report = ready_report(&python_set(), ">>> time.sleep(5)\n");
    assert_eq!(report.kind, None);
    assert!(!report.is_ready);
    assert_eq!(report.to_yaml(), "kind: null\nis_ready: false\n");
}

#[test]
fn the_last_command_is_reported_when_idle() {
    let report = last_command_report(&python_set(), ">>> 2 + 3\n5\n>>> \n");
    assert_eq!(report.last_command.as_deref(), Some("2 + 3"));
    assert_eq!(report.output.as_deref(), Some("5"));
    assert_eq!(report.to_yaml(), "last_command: 2 + 3\noutput: \"5\"\n");
}

#[test]
fn nothing_is_reported_while_busy() {
    // A complete block is there, but another command runs.
    let report = last_command_report(&python_set(), ">>> 2 + 3\n5\n>>> time.sleep(5)\n");
    assert_eq!(report.last_command, None);
    assert_eq!(report.output, None);
    assert_eq!(report.to_yaml(), "last_command: null\noutput: null\n");
}

#[test]
fn nothing_is_reported_without_a_complete_block() {
    let report = last_command_report(&python_set(), "welcome\n>>> \n");
    assert_eq!(report.last_command, None);
    assert_eq!(report.output, None);
}

#[test]
fn a_command_is_refused_while_busy() {
    match plan_execution(&python_set(), ">>> f()\n", &ExecInput::Command("print(1)")) {
        ExecPlan::Refuse(report) => {
            assert_eq!(report.status, "error");
            assert_eq!(report.reason.as_deref(), Some("REPL is not ready (no prompt detected)."));
            assert_eq!(report.last_command, None);
            assert_eq!(report.output, None);
            assert_eq!(
                report.to_yaml(),
                "status: error\nreason: REPL is not ready (no prompt detected).\nlast_command: null\noutput: null\n"
            );
        },
        ExecPlan::Send { .. } => panic!("sent"),
    }
}

#[test]
fn a_command_is_sent_as_it_is_and_any_prompt_ends_it() {
    match plan_execution(&python_set(), ">>> ", &ExecInput::Command(" 2 + 3")) {
        ExecPlan::Send { text, require_index } => {
            assert_eq!(text, " 2 + 3");
            assert_eq!(require_index, None);
        },
        ExecPlan::Refuse(_) => panic!("refused"),
    }
}

#[test]
fn a_block_is_closed_and_waits_for_the_prompt_that_was_there() {
    let lines = ["for i in x:".to_string(), "    f(i)".to_string()];
    match plan_execution(&python_set(), ">>> ", &ExecInput::Block(&lines)) {
        ExecPlan::Send { text, require_index } => {
            assert_eq!(text, "for i in x:\n    f(i)\n");
            assert_eq!(require_index, Some(0));
        },
        ExecPlan::Refuse(_) => panic!("refused"),
    }
    match plan_execution(&python_set(), "... ", &ExecInput::Block(&lines)) {
        ExecPlan::Send { text: _, require_index } => assert_eq!(require_index, Some(1)),
        ExecPlan::Refuse(_) => panic!("refused"),
    }
}

#[test]
fn an_outcome_holds_the_output_of_what_was_sent() {
    let lines: Vec<String> =
        ["f(1)", "old", ">>> ", ""].iter().map(|l| l.to_string()).collect();
    let report = outcome_report(&python_set(), &lines, "f(1)");
    assert_eq!(report.status, "ok");
    assert_eq!(report.reason, None);
    assert_eq!(report.last_command.as_deref(), Some("f(1)"));
    assert_eq!(report.output.as_deref(), Some("old"));
    assert_eq!(report.to_yaml(), "status: ok\nlast_command: f(1)\noutput: old\n");
}

#[test]
fn reports_read_back_from_yaml() {
    let ready = ReadyOutput { kind: Some("^\\? \t".to_string()), is_ready: true };
    let value = yaml_of(&ready.to_yaml());
    assert_eq!(value["kind"].as_str(), Some("^\\? \t"));
    assert_eq!(value["is_ready"].as_bool(), Some(true));
    let last = LastCommandOutput {
        last_command: Some("yes".to_string()),
        output: Some("a\n\n  b: c # d\n".to_string()),
    };
    let value = yaml_of(&last.to_yaml());
    assert_eq!(value["last_command"].as_str(), Some("yes"));
    assert_eq!(value["output"].as_str(), Some("a\n\n  b: c # d\n"));
    let exec = ExecOutput {
        status: "ok".to_string(),
        reason: Some("a: b".to_string()),
        last_command: Some("\u{1}: x".to_string()),
        output: Some("".to_string()),
    };
    let value = yaml_of(&exec.to_yaml());
    assert_eq!(value["reason"].as_str(), Some("a: b"));
    assert_eq!(value["last_command"].as_str(), Some("\u{1}: x"));
    assert_eq!(value["output"].as_str(), Some(""));
}
