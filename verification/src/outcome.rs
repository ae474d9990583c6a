//! What a tmux command that has ended is taken for.
use vstd::prelude::*;

use crate::pattern::{debug_text, show_debug};
use crate::text::{trim, trimmed};

verus! {

/// What is said of a command that failed for a pane.
pub open spec fn failure_text(name: Seq<char>, pane: Seq<char>) -> Seq<char> {
    "tmux "@ + name + " failed for pane "@ + debug_text(pane)
}

fn failure(name: &str, pane: &str) -> (res: String)
    ensures
        res@ == failure_text(name@, pane@),
{
    let mut msg = "tmux ".to_string();
    msg.append(name);
    msg.append(" failed for pane ");
    msg.append(show_debug(pane).as_str());
    msg
}

/// The outcome of the command `name`, which was run for its output: what it
/// printed, or, when it failed, what it complained of.
pub fn printed(name: &str, pane: &str, success: bool, stdout: String, stderr: &str) -> (res: Result<
    String,
    String,
>)
    ensures
        match res {
            Ok(text) => success && text == stdout,
            Err(msg) => !success && msg@ == failure_text(name@, pane@) + ": "@ + trimmed(stderr@),
        },
{
    if success {
        Ok(stdout)
    } else {
        let mut msg = failure(name, pane);
        msg.append(": ");
        msg.append(trim(stderr));
        Err(msg)
    }
}

/// The outcome of the command `name`, which was run for its effect.
pub fn done(name: &str, pane: &str, success: bool) -> (res: Result<(), String>)
    ensures
        match res {
            Ok(_) => success,
            Err(msg) => !success && msg@ == failure_text(name@, pane@),
        },
{
    if success {
        Ok(())
    } else {
        Err(failure(name, pane))
    }
}

/// What is said of a command that failed names the command and the pane.
pub proof fn law_failure_names_command_and_pane(name: Seq<char>, pane: Seq<char>)
    ensures
        failure_text(name, pane) == "tmux "@ + name + " failed for pane "@ + debug_text(pane),
{
}

}
