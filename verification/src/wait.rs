//! Waiting for a command to finish: what to do next, given what was seen.
//!
//! The wait has two phases. First the pane has to change from what it showed
//! before the command was sent: the first capture after sending can still show
//! the old bare prompt. Then its last meaningful line has to be a bare prompt.
use regex::Regex;
use vstd::prelude::*;

use crate::prompts::{
    bare_prompt_of, idle_at, last_shown, law_pane_shows_a_prompt, pane_waits, Prompts,
};
use crate::text::{
    blank, last_meaningful, last_meaningful_line, law_last_meaningful_ignores_blank_rows,
    law_lines_of_blank_text, law_lines_of_two_texts, lines_of, owned, same_text, split_lines,
    string_views,
};

verus! {

/// What is still to come before the wait is over.
#[derive(Clone, Copy, PartialEq, Eq, Structural)]
pub enum WaitPhase {
    /// The pane has to change.
    Echo,
    /// The pane has to show a bare prompt.
    Idle,
}

/// What the wait is told.
pub enum WaitEvent<'a> {
    /// The clock was read; true when the time is up.
    Clock(bool),
    /// The pane was captured.
    Captured(&'a str),
    /// The pause between two captures is over.
    Woke,
}

/// What the wait asks for.
pub enum WaitAction {
    /// Read the clock.
    ReadClock,
    /// Capture the pane.
    Capture,
    /// Pause until the next capture is due.
    Sleep,
    /// Stop: the time is up.
    GiveUp,
    /// Stop: the command has finished, and these are the lines of the pane.
    Finish(Vec<String>),
}

/// The contents of a [`WaitEvent`].
pub enum WaitEventView {
    Clock(bool),
    Captured(Seq<char>),
    Woke,
}

/// The contents of a [`WaitAction`].
pub enum WaitActionView {
    ReadClock,
    Capture,
    Sleep,
    GiveUp,
    Finish(Seq<Seq<char>>),
}

impl<'a> View for WaitEvent<'a> {
    type V = WaitEventView;

    open spec fn view(&self) -> WaitEventView {
        match self {
            WaitEvent::Clock(up) => WaitEventView::Clock(*up),
            WaitEvent::Captured(text) => WaitEventView::Captured(text@),
            WaitEvent::Woke => WaitEventView::Woke,
        }
    }
}

impl View for WaitAction {
    type V = WaitActionView;

    open spec fn view(&self) -> WaitActionView {
        match self {
            WaitAction::ReadClock => WaitActionView::ReadClock,
            WaitAction::Capture => WaitActionView::Capture,
            WaitAction::Sleep => WaitActionView::Sleep,
            WaitAction::GiveUp => WaitActionView::GiveUp,
            WaitAction::Finish(lines) => WaitActionView::Finish(string_views(lines@)),
        }
    }
}

/// What a wait is for.
pub struct WaitGoal {
    /// The prompts.
    pub prompts: Seq<(Seq<char>, Regex)>,
    /// What the pane showed before the command was sent.
    pub pre_send: Seq<char>,
    /// The one pattern that counts, or any when `None`.
    pub require_index: Option<usize>,
}

/// The pane text ends the wait: its last meaningful line is a bare prompt of a
/// pattern that counts.
pub open spec fn settled(goal: WaitGoal, text: Seq<char>) -> bool {
    last_meaningful(lines_of(text)) matches Some(line) && idle_at(
        goal.prompts,
        goal.require_index,
        line,
    )
}

/// The phase after an event.
pub open spec fn next_phase(goal: WaitGoal, phase: WaitPhase, event: WaitEventView) -> WaitPhase {
    match event {
        WaitEventView::Captured(text) => if text != goal.pre_send {
            WaitPhase::Idle
        } else {
            phase
        },
        _ => phase,
    }
}

/// What an event asks for. Between the first change of the pane and the next
/// capture there is no pause, so a command that is done at once is not waited
/// for.
pub open spec fn next_action(
    goal: WaitGoal,
    phase: WaitPhase,
    event: WaitEventView,
) -> WaitActionView {
    match event {
        WaitEventView::Clock(up) => if up {
            WaitActionView::GiveUp
        } else {
            WaitActionView::Capture
        },
        WaitEventView::Woke => WaitActionView::ReadClock,
        WaitEventView::Captured(text) => match phase {
            WaitPhase::Echo => if text != goal.pre_send {
                WaitActionView::ReadClock
            } else {
                WaitActionView::Sleep
            },
            WaitPhase::Idle => if settled(goal, text) {
                WaitActionView::Finish(lines_of(text))
            } else {
                WaitActionView::Sleep
            },
        },
    }
}

/// A wait in progress.
pub struct IdleWait<'a> {
    prompt: &'a Prompts,
    pre_send: &'a str,
    require_index: Option<usize>,
    phase: WaitPhase,
}

impl<'a> IdleWait<'a> {
    /// What the wait is for.
    pub closed spec fn goal(&self) -> WaitGoal {
        WaitGoal {
            prompts: self.prompt@,
            pre_send: self.pre_send@,
            require_index: self.require_index,
        }
    }

    /// What is still to come.
    pub closed spec fn phase(&self) -> WaitPhase {
        self.phase
    }

    /// A wait for the command that was just sent, when the pane showed
    /// `pre_send` before. The clock is to be read first. With `require_index`
    /// only that pattern counts: a block of several lines is not done when a
    /// continuation prompt shows up before it runs.
    pub fn new(prompt: &'a Prompts, pre_send: &'a str, require_index: Option<usize>) -> (res: Self)
        ensures
            res.goal() == (WaitGoal { prompts: prompt@, pre_send: pre_send@, require_index }),
            res.phase() == WaitPhase::Echo,
    {
        IdleWait { prompt, pre_send, require_index, phase: WaitPhase::Echo }
    }

    /// Takes an event and says what to do next.
    pub fn step(&mut self, event: WaitEvent) -> (res: WaitAction)
        ensures
            final(self).goal() == old(self).goal(),
            final(self).phase() == next_phase(old(self).goal(), old(self).phase(), event@),
            res@ == next_action(old(self).goal(), old(self).phase(), event@),
    {
        match event {
            WaitEvent::Clock(up) => if up {
                WaitAction::GiveUp
            } else {
                WaitAction::Capture
            },
            WaitEvent::Woke => WaitAction::ReadClock,
            WaitEvent::Captured(text) => {
                let changed = !same_text(text, self.pre_send);
                match self.phase {
                    WaitPhase::Echo => {
                        if changed {
                            self.phase = WaitPhase::Idle;
                            WaitAction::ReadClock
                        } else {
                            WaitAction::Sleep
                        }
                    },
                    WaitPhase::Idle => {
                        let lines = split_lines(text);
                        match last_meaningful_line(lines.as_slice()) {
                            Some(line) => if self.prompt.idle_matches_index(
                                self.require_index,
                                line,
                            ) {
                                WaitAction::Finish(owned(lines.as_slice()))
                            } else {
                                WaitAction::Sleep
                            },
                            None => WaitAction::Sleep,
                        }
                    },
                }
            },
        }
    }
}

/// What is said when the time is up after `seconds`.
pub open spec fn timed_out_text(seconds: Seq<char>) -> Seq<char> {
    "timed out after "@ + seconds + " seconds waiting for the REPL prompt"@
}

/// What is said when the time is up after `seconds`.
pub fn timed_out_message(seconds: &str) -> (res: String)
    ensures
        res@ == timed_out_text(seconds@),
{
    let mut msg = "timed out after ".to_string();
    msg.append(seconds);
    msg.append(" seconds waiting for the REPL prompt");
    msg
}

/// The phase that a wait is in after `events`.
pub open spec fn phase_after(goal: WaitGoal, events: Seq<WaitEventView>) -> WaitPhase
    decreases events.len(),
{
    if events.len() == 0 {
        WaitPhase::Echo
    } else {
        next_phase(goal, phase_after(goal, events.drop_last()), events.last())
    }
}

/// What a wait asks for after `events`; the clock is to be read first.
pub open spec fn action_after(goal: WaitGoal, events: Seq<WaitEventView>) -> WaitActionView {
    if events.len() == 0 {
        WaitActionView::ReadClock
    } else {
        next_action(goal, phase_after(goal, events.drop_last()), events.last())
    }
}

/// The pane was captured with another text than before the command was sent.
pub open spec fn changed(goal: WaitGoal, event: WaitEventView) -> bool {
    event matches WaitEventView::Captured(text) && text != goal.pre_send
}

/// A wait is past its first phase exactly when a capture has shown a change.
pub proof fn law_phase_follows_change(goal: WaitGoal, events: Seq<WaitEventView>)
    ensures
        phase_after(goal, events) == WaitPhase::Idle <==> (exists|i: int|
            0 <= i < events.len() && changed(goal, #[trigger] events[i])),
    decreases events.len(),
{
    if events.len() > 0 {
        let front = events.drop_last();
        let n = events.len() - 1;
        law_phase_follows_change(goal, front);
        assert(events.last() == events[n]);
        assert(forall|i: int| 0 <= i < n ==> #[trigger] front[i] == events[i]);
        if exists|i: int| 0 <= i < front.len() && changed(goal, #[trigger] front[i]) {
            let i = choose|i: int| 0 <= i < front.len() && changed(goal, #[trigger] front[i]);
            assert(changed(goal, events[i]));
        }
        if exists|i: int| 0 <= i < events.len() && changed(goal, #[trigger] events[i]) {
            let i = choose|i: int| 0 <= i < events.len() && changed(goal, #[trigger] events[i]);
            if i < n {
                assert(changed(goal, front[i]));
            }
        }
    }
}

/// A wait finishes only when the capture at hand ends in a bare prompt that
/// counts, and an earlier capture has shown a change: the old prompt is never
/// taken for the end of the command. What it hands back are the lines of the
/// capture at hand.
pub proof fn law_finishes_only_after_change(goal: WaitGoal, events: Seq<WaitEventView>)
    requires
        action_after(goal, events) is Finish,
    ensures
        events.last() matches WaitEventView::Captured(text) && settled(goal, text) && action_after(
            goal,
            events,
        ) == WaitActionView::Finish(lines_of(text)),
        exists|i: int| 0 <= i < events.len() - 1 && changed(goal, #[trigger] events[i]),
{
    let front = events.drop_last();
    law_phase_follows_change(goal, front);
    let i = choose|i: int| 0 <= i < front.len() && changed(goal, #[trigger] front[i]);
    assert(changed(goal, events[i]));
}

/// A wait does finish at the first capture that ends in a bare prompt that
/// counts, once an earlier capture has shown a change.
pub proof fn law_finishes_when_settled(
    goal: WaitGoal,
    events: Seq<WaitEventView>,
    i: int,
    text: Seq<char>,
)
    requires
        0 <= i < events.len(),
        changed(goal, events[i]),
        settled(goal, text),
    ensures
        action_after(goal, events.push(WaitEventView::Captured(text))) == WaitActionView::Finish(
            lines_of(text),
        ),
{
    law_phase_follows_change(goal, events);
    assert(events.push(WaitEventView::Captured(text)).drop_last() =~= events);
}

/// A command that is done before the first capture is not waited for: when the
/// pane has changed and already ends in a bare prompt that counts, the second
/// capture finishes, and nothing pauses between the two.
pub proof fn law_fast_command_does_not_hang(goal: WaitGoal, text: Seq<char>)
    requires
        text != goal.pre_send,
        settled(goal, text),
    ensures
        ({
            let seen = WaitEventView::Captured(text);
            let go_on = WaitEventView::Clock(false);
            &&& action_after(goal, seq![go_on]) is Capture
            &&& action_after(goal, seq![go_on, seen]) is ReadClock
            &&& action_after(goal, seq![go_on, seen, go_on]) is Capture
            &&& action_after(goal, seq![go_on, seen, go_on, seen]) == WaitActionView::Finish(
                lines_of(text),
            )
        }),
{
    let seen = WaitEventView::Captured(text);
    let go_on = WaitEventView::Clock(false);
    assert(seq![go_on].drop_last() =~= Seq::empty());
    assert(seq![go_on, seen].drop_last() =~= seq![go_on]);
    assert(seq![go_on, seen, go_on].drop_last() =~= seq![go_on, seen]);
    assert(seq![go_on, seen, go_on, seen].drop_last() =~= seq![go_on, seen, go_on]);
    reveal_with_fuel(phase_after, 5);
}

/// A wait gives up when the time is up, and for no other reason.
pub proof fn law_gives_up_when_time_is_up(goal: WaitGoal, events: Seq<WaitEventView>)
    ensures
        action_after(goal, events) is GiveUp <==> events.len() > 0 && events.last()
            == WaitEventView::Clock(true),
{
}

/// What a wait does on each event, and what is still to come after it. Once
/// the pane has changed, a capture ends the wait exactly when its last line
/// that is not blank is itself a bare prompt that counts.
pub proof fn law_what_a_step_does(goal: WaitGoal, phase: WaitPhase, text: Seq<char>)
    ensures
        next_action(goal, phase, WaitEventView::Clock(true)) == WaitActionView::GiveUp,
        next_action(goal, phase, WaitEventView::Clock(false)) == WaitActionView::Capture,
        next_action(goal, phase, WaitEventView::Woke) == WaitActionView::ReadClock,
        next_action(goal, WaitPhase::Echo, WaitEventView::Captured(text)) == (if text
            == goal.pre_send {
            WaitActionView::Sleep
        } else {
            WaitActionView::ReadClock
        }),
        next_action(goal, WaitPhase::Idle, WaitEventView::Captured(text)) == (if pane_waits(
            goal.prompts,
            goal.require_index,
            lines_of(text),
        ) {
            WaitActionView::Finish(lines_of(text))
        } else {
            WaitActionView::Sleep
        }),
        next_phase(goal, phase, WaitEventView::Clock(true)) == phase,
        next_phase(goal, phase, WaitEventView::Clock(false)) == phase,
        next_phase(goal, phase, WaitEventView::Woke) == phase,
        next_phase(goal, WaitPhase::Idle, WaitEventView::Captured(text)) == WaitPhase::Idle,
        next_phase(goal, WaitPhase::Echo, WaitEventView::Captured(text)) == (if text
            == goal.pre_send {
            WaitPhase::Echo
        } else {
            WaitPhase::Idle
        }),
{
    law_pane_shows_a_prompt(goal.prompts, lines_of(text), goal.require_index);
}

/// A wait finishes only on a capture whose last line that is not blank is
/// itself a bare prompt, of the required pattern, or of some pattern when none
/// is required, and only after an earlier capture with another text than before
/// the command was sent. A prompt further up does not count.
pub proof fn law_wait_ends_at_a_bare_prompt(goal: WaitGoal, events: Seq<WaitEventView>)
    requires
        action_after(goal, events) is Finish,
    ensures
        events.len() > 0,
        events.last() matches WaitEventView::Captured(text) && {
            let lines = lines_of(text);
            &&& action_after(goal, events) == WaitActionView::Finish(lines)
            &&& exists|k: int|
                0 <= k < lines.len() && !blank(#[trigger] lines[k]) && (forall|j: int|
                    k < j < lines.len() ==> blank(#[trigger] lines[j])) && bare_prompt_of(
                    goal.prompts,
                    goal.require_index,
                    lines[k],
                )
        },
        exists|i: int|
            0 <= i < events.len() - 1 && (#[trigger] events[i] matches WaitEventView::Captured(seen)
                && seen != goal.pre_send),
{
    law_finishes_only_after_change(goal, events);
    let i = choose|i: int| 0 <= i < events.len() - 1 && changed(goal, #[trigger] events[i]);
    assert(events[i] matches WaitEventView::Captured(seen) && seen != goal.pre_send);
    if let WaitEventView::Captured(text) = events.last() {
        law_what_a_step_does(goal, WaitPhase::Idle, text);
        let lines = lines_of(text);
        let k = choose|k: int| #[trigger]
            last_shown(lines, k) && bare_prompt_of(goal.prompts, goal.require_index, lines[k]);
        assert(!blank(lines[k]));
    }
}

/// A wait that has seen a change does finish on such a capture, at once.
pub proof fn law_wait_does_not_miss_a_bare_prompt(
    goal: WaitGoal,
    events: Seq<WaitEventView>,
    i: int,
    seen: Seq<char>,
    text: Seq<char>,
)
    requires
        0 <= i < events.len(),
        events[i] == WaitEventView::Captured(seen),
        seen != goal.pre_send,
        pane_waits(goal.prompts, goal.require_index, lines_of(text)),
    ensures
        action_after(goal, events.push(WaitEventView::Captured(text))) == WaitActionView::Finish(
            lines_of(text),
        ),
{
    law_pane_shows_a_prompt(goal.prompts, lines_of(text), goal.require_index);
    assert(changed(goal, events[i]));
    law_finishes_when_settled(goal, events, i, text);
}

/// Blank rows below the prompt change nothing for a wait.
pub proof fn law_wait_ignores_blank_rows(goal: WaitGoal, text: Seq<char>, tail: Seq<char>)
    requires
        blank(tail),
    ensures
        settled(goal, text.push('\n') + tail) == settled(goal, text),
{
    law_lines_of_two_texts(text, tail);
    law_lines_of_blank_text(tail);
    law_last_meaningful_ignores_blank_rows(lines_of(text), lines_of(tail));
}

/// The message names the seconds and nothing else that varies.
pub proof fn law_time_out_names_the_seconds(seconds: Seq<char>)
    ensures
        timed_out_text(seconds) == "timed out after "@ + seconds
            + " seconds waiting for the REPL prompt"@,
{
}

/// The contents of events and actions are all that they hold.
pub proof fn law_wait_contents(up: bool, text: &str, lines: Vec<String>)
    ensures
        WaitEvent::Clock(up)@ == WaitEventView::Clock(up),
        WaitEvent::Captured(text)@ == WaitEventView::Captured(text@),
        WaitEvent::Woke@ == WaitEventView::Woke,
        WaitAction::ReadClock@ == WaitActionView::ReadClock,
        WaitAction::Capture@ == WaitActionView::Capture,
        WaitAction::Sleep@ == WaitActionView::Sleep,
        WaitAction::GiveUp@ == WaitActionView::GiveUp,
        WaitAction::Finish(lines)@ == WaitActionView::Finish(string_views(lines@)),
{
}

}
