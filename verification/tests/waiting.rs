//! Sanity checks and the wait for a command.
use muxxy::kinds::builtin;
use muxxy::outcome::{done, printed};
use muxxy::prompts::Prompts;
use muxxy::validate::{
    check_socket_path, output_like_samples, output_warning, validate_custom_prompts,
};
use muxxy::wait::{timed_out_message, IdleWait, WaitAction, WaitEvent};

fn python() -> Prompts {
    let patterns = ["^>>> ".to_string(), r"^\.\.\. ".to_string()];
    match Prompts::from_prompts(&patterns) {
        Ok(p) => p,
        Err(e) => panic!("{}", e),
    }
}

fn name(action: WaitAction) -> String {
    match action {
        WaitAction::ReadClock => "read clock".to_string(),
        WaitAction::Capture => "capture".to_string(),
        WaitAction::Sleep => "sleep".to_string(),
        WaitAction::GiveUp => "give up".to_string(),
        WaitAction::Finish(lines) => format!("finish {}", lines.join("|")),
    }
}

const HINT: &str = "; muxxy may treat that output as a prompt and drop it — anchor the pattern to the real prompt shape (e.g. require a trailing ']' or '> ')";

#[test]
fn a_wait_needs_a_change_and_then_a_bare_prompt() {
    let prompts = python();
    let mut wait = IdleWait::new(&prompts, ">>> ", None);
    assert_eq!(name(wait.step(WaitEvent::Clock(false))), "capture");
    // Still the old prompt.
    assert_eq!(name(wait.step(WaitEvent::Captured(">>> "))), "sleep");
    assert_eq!(name(wait.step(WaitEvent::Woke)), "read clock");
    assert_eq!(name(wait.step(WaitEvent::Clock(false))), "capture");
    // The echo: a change.
    assert_eq!(name(wait.step(WaitEvent::Captured(">>> f()\n"))), "read clock");
    assert_eq!(name(wait.step(WaitEvent::Clock(false))), "capture");
    // Busy.
    assert_eq!(name(wait.step(WaitEvent::Captured(">>> f()\n"))), "sleep");
    assert_eq!(name(wait.step(WaitEvent::Woke)), "read clock");
    assert_eq!(name(wait.step(WaitEvent::Clock(false))), "capture");
    assert_eq!(
        name(wait.step(WaitEvent::Captured(">>> f()\n1\n>>> \n"))),
        "finish >>> f()|1|>>> |"
    );
}

#[test]
fn a_fast_command_is_caught_without_a_pause() {
    let prompts = python();
    let mut wait = IdleWait::new(&prompts, ">>> ", None);
    let done = ">>> 1\n1\n>>> ";
    assert_eq!(name(wait.step(WaitEvent::Clock(false))), "capture");
    assert_eq!(name(wait.step(WaitEvent::Captured(done))), "read clock");
    assert_eq!(name(wait.step(WaitEvent::Clock(false))), "capture");
    assert_eq!(name(wait.step(WaitEvent::Captured(done))), "finish >>> 1|1|>>> ");
}

#[test]
fn a_pane_that_was_cleared_after_a_change_still_ends_the_wait() {
    let prompts = python();
    let mut wait = IdleWait::new(&prompts, ">>> ", None);
    assert_eq!(name(wait.step(WaitEvent::Captured(">>> clear()\n"))), "read clock");
    assert_eq!(name(wait.step(WaitEvent::Captured(">>> "))), "finish >>> ");
}

#[test]
fn a_required_pattern_passes_over_other_prompts() {
    let prompts = python();
    let mut wait = IdleWait::new(&prompts, ">>> ", Some(0));
    assert_eq!(name(wait.step(WaitEvent::Captured("... "))), "read clock");
    assert_eq!(name(wait.step(WaitEvent::Captured("... "))), "sleep");
    assert_eq!(name(wait.step(WaitEvent::Captured("... \nx\n>>> "))), "finish ... |x|>>> ");
    let mut any = IdleWait::new(&prompts, ">>> ", None);
    assert_eq!(name(any.step(WaitEvent::Captured("... "))), "read clock");
    assert_eq!(name(any.step(WaitEvent::Captured("... "))), "finish ... ");
}

#[test]
fn a_blank_pane_does_not_end_a_wait() {
    let prompts = python();
    let mut wait = IdleWait::new(&prompts, ">>> ", None);
    assert_eq!(name(wait.step(WaitEvent::Captured(" \n"))), "read clock");
    assert_eq!(name(wait.step(WaitEvent::Captured(" \n"))), "sleep");
}

#[test]
fn a_wait_gives_up_in_either_phase() {
    let prompts = python();
    let mut wait = IdleWait::new(&prompts, ">>> ", None);
    assert_eq!(name(wait.step(WaitEvent::Clock(true))), "give up");
    assert_eq!(name(wait.step(WaitEvent::Captured("x"))), "read clock");
    assert_eq!(name(wait.step(WaitEvent::Clock(true))), "give up");
}

#[test]
fn time_out_names_the_seconds() {
    assert_eq!(
        timed_out_message("1.5"),
        "timed out after 1.5 seconds waiting for the REPL prompt"
    );
}

#[test]
fn samples_are_lines_of_ordinary_output() {
    assert_eq!(
        output_like_samples(),
        vec![
            "1024", "0", "1", "7", "42", "100", "65536", "123456789", "3.14", "-1", "ok", "true",
            "false", "nil", "NIL", "hello", "foo", "(foo)",
        ]
    );
}

#[test]
fn a_warning_says_what_a_pattern_matches_and_how() {
    let idle = output_warning("[0-9]+", "1024", true);
    assert_eq!(
        idle,
        format!(
            "prompt regex \"[0-9]+\" also matches the ordinary output line \"1024\" as a bare idle prompt{}",
            HINT
        )
    );
    let within = output_warning("o\"", "foo", false);
    assert_eq!(
        within,
        format!(
            "prompt regex \"o\\\"\" also matches the ordinary output line \"foo\"{}",
            HINT
        )
    );
}

#[test]
fn one_warning_names_the_first_line_that_is_matched() {
    let patterns: Vec<String> =
        ["^>>> ", "l$", "(", r"\d", "^[a-z]"].iter().map(|p| p.to_string()).collect();
    assert_eq!(
        validate_custom_prompts(&patterns),
        vec![
            format!("prompt regex \"l$\" also matches the ordinary output line \"nil\"{}", HINT),
            format!(
                "prompt regex \"\\\\d\" also matches the ordinary output line \"1024\"{}",
                HINT
            ),
            format!(
                "prompt regex \"^[a-z]\" also matches the ordinary output line \"ok\"{}",
                HINT
            ),
        ]
    );
    assert!(validate_custom_prompts(&[]).is_empty());
}

#[test]
fn output_that_passes_for_a_trimmed_prompt_is_warned_of() {
    let patterns = ["^[0-9]+ ".to_string(), "^ok  $".to_string(), "^ok x".to_string()];
    assert_eq!(
        validate_custom_prompts(&patterns),
        vec![
            format!(
                "prompt regex \"^[0-9]+ \" also matches the ordinary output line \"1024\" as a bare idle prompt{}",
                HINT
            ),
            format!(
                "prompt regex \"^ok  $\" also matches the ordinary output line \"ok\" as a bare idle prompt{}",
                HINT
            ),
        ]
    );
}

#[test]
fn builtin_kinds_draw_no_warning() {
    let kinds = builtin();
    for name in [
        "python", "ipython", "bash", "sh", "zsh", "node", "irb", "iex", "lisp", "sbcl", "goose",
    ] {
        let patterns = kinds.get(name).unwrap();
        assert!(!patterns.is_empty(), "{}", name);
        assert_eq!(validate_custom_prompts(patterns), Vec::<String>::new(), "{}", name);
    }
}

#[test]
fn a_trimmed_prompt_ends_a_wait() {
    let prompts = python();
    let mut wait = IdleWait::new(&prompts, ">>>", None);
    assert_eq!(name(wait.step(WaitEvent::Captured(">>> 1\n"))), "read clock");
    assert_eq!(name(wait.step(WaitEvent::Captured(">>> 1\n1\n>>>"))), "finish >>> 1|1|>>>");
}

#[test]
fn an_empty_or_blank_socket_path_is_refused() {
    for path in ["", " ", "\t\n", "\u{3000}"] {
        assert_eq!(check_socket_path(path), Err("socket path must not be empty".to_string()));
    }
    assert_eq!(check_socket_path("/tmp/s"), Ok("/tmp/s".to_string()));
    assert_eq!(check_socket_path(" s "), Ok(" s ".to_string()));
}

#[test]
fn a_command_that_failed_is_named_with_its_pane() {
    let text = "out\n".to_string();
    assert_eq!(printed("capture-pane", "0", true, text.clone(), "x"), Ok("out\n".to_string()));
    assert_eq!(
        printed("capture-pane", "a\"b", false, text, " no such pane\n"),
        Err("tmux capture-pane failed for pane \"a\\\"b\": no such pane".to_string())
    );
    assert_eq!(done("send-keys", "%1", true), Ok(()));
    assert_eq!(
        done("send-keys", "%1", false),
        Err("tmux send-keys failed for pane \"%1\"".to_string())
    );
}
