//! What is reported of a pane, computed from its captured text.
//!
//! Each report is a small ordered mapping. A command is only sent to a REPL
//! that shows a bare prompt, and a busy one is never reported on.
use regex::Regex;
use vstd::prelude::*;

use crate::extract::{
    all_printed, block_for, extract_last_command_and_output, extract_with_sent_command,
    last_block, law_answer_without_a_block, law_last_block_is_extracted,
    law_other_block_is_cut_at_the_echo, law_other_block_without_echo_stands,
    law_own_block_is_the_answer, law_sent_command_is_reported, marks_of, pair_view,
    pane_shows_block, pane_shows_no_block,
};
use crate::pattern::idle_by;
use crate::prompts::{
    command_in, detect_idle_index, detect_idle_kind, idle_label, idle_pattern, is_repl_ready,
    last_shown, law_last_line_decides, law_pane_shows_a_prompt, lemma_idle_index, pane_waits,
    prompt_line, Prompts,
};
use crate::readback::{law_map_reads_back, lemma_word_is_plain, plain_key, read_map};
use crate::text::{
    blank, borrowed, build_multi_line_text, joined, last_meaningful,
    law_last_meaningful_ignores_blank_rows, law_lines_of_blank_text, law_lines_of_two_texts,
    lines_of, opt_view, split_lines, string_views, trimmed,
};
use crate::wait::{settled, WaitGoal};
use crate::yaml::{entry_views, map_lines, render_map, terminated, YamlValue, YamlView};

verus! {

/// Whether the REPL waits for input.
pub struct ReadyOutput {
    /// The label of the prompt that the pane shows, if it shows a bare one.
    pub kind: Option<String>,
    pub is_ready: bool,
}

/// The last command and what it printed.
pub struct LastCommandOutput {
    pub last_command: Option<String>,
    pub output: Option<String>,
}

/// What became of a command that was to be sent.
pub struct ExecOutput {
    /// `ok`, or `error` when the command was not sent.
    pub status: String,
    /// Why the command was not sent.
    pub reason: Option<String>,
    pub last_command: Option<String>,
    pub output: Option<String>,
}

/// What is to be run.
pub enum ExecInput<'a> {
    /// One command.
    Command(&'a str),
    /// A block of several lines.
    Block(&'a [String]),
}

/// What to do with a command.
pub enum ExecPlan {
    /// Do not send it, and report this.
    Refuse(ExecOutput),
    /// Send `text`, then wait for the pattern at `require_index`, or for any.
    Send { text: String, require_index: Option<usize> },
}

/// The contents of an [`ExecOutput`].
pub struct ExecView {
    pub status: Seq<char>,
    pub reason: Option<Seq<char>>,
    pub last_command: Option<Seq<char>>,
    pub output: Option<Seq<char>>,
}

/// The contents of an [`ExecInput`].
pub enum ExecInputView {
    Command(Seq<char>),
    Block(Seq<Seq<char>>),
}

/// The contents of an [`ExecPlan`].
pub enum ExecPlanView {
    Refuse(ExecView),
    Send { text: Seq<char>, require_index: Option<int> },
}

impl View for ReadyOutput {
    type V = (Option<Seq<char>>, bool);

    open spec fn view(&self) -> (Option<Seq<char>>, bool) {
        (opt_view(self.kind), self.is_ready)
    }
}

impl View for LastCommandOutput {
    type V = (Option<Seq<char>>, Option<Seq<char>>);

    open spec fn view(&self) -> (Option<Seq<char>>, Option<Seq<char>>) {
        (opt_view(self.last_command), opt_view(self.output))
    }
}

impl View for ExecOutput {
    type V = ExecView;

    open spec fn view(&self) -> ExecView {
        ExecView {
            status: self.status@,
            reason: opt_view(self.reason),
            last_command: opt_view(self.last_command),
            output: opt_view(self.output),
        }
    }
}

impl<'a> View for ExecInput<'a> {
    type V = ExecInputView;

    open spec fn view(&self) -> ExecInputView {
        match self {
            ExecInput::Command(command) => ExecInputView::Command(command@),
            ExecInput::Block(lines) => ExecInputView::Block(string_views(lines@)),
        }
    }
}

impl View for ExecPlan {
    type V = ExecPlanView;

    open spec fn view(&self) -> ExecPlanView {
        match self {
            ExecPlan::Refuse(report) => ExecPlanView::Refuse(report@),
            ExecPlan::Send { text, require_index } => ExecPlanView::Send {
                text: text@,
                require_index: match *require_index {
                    Some(i) => Some(i as int),
                    None => None,
                },
            },
        }
    }
}

/// The report on readiness: the label of the bare prompt that the pane shows.
pub open spec fn ready_of(prompts: Seq<(Seq<char>, Regex)>, captured: Seq<char>) -> (
    Option<Seq<char>>,
    bool,
) {
    let label = idle_label(prompts, lines_of(captured));
    (label, label is Some)
}

/// The report on the last command: the last complete block, and nothing while
/// the REPL is busy.
pub open spec fn last_command_of(prompts: Seq<(Seq<char>, Regex)>, captured: Seq<char>) -> (
    Option<Seq<char>>,
    Option<Seq<char>>,
) {
    let lines = lines_of(captured);
    if idle_pattern(prompts, lines) is Some {
        last_block(lines, marks_of(prompts, lines))
    } else {
        (None, None)
    }
}

/// The report on a command that is not sent because the REPL is not ready.
pub open spec fn refusal() -> ExecView {
    ExecView {
        status: "error"@,
        reason: Some("REPL is not ready (no prompt detected)."@),
        last_command: None,
        output: None,
    }
}

/// What to do with a command, given what the pane shows before it is sent. A
/// block of several lines is closed with a newline, and is done only when the
/// prompt that was there before is back.
pub open spec fn plan_of(
    prompts: Seq<(Seq<char>, Regex)>,
    captured: Seq<char>,
    input: ExecInputView,
) -> ExecPlanView {
    let shown = idle_pattern(prompts, lines_of(captured));
    if shown is None {
        ExecPlanView::Refuse(refusal())
    } else {
        match input {
            ExecInputView::Command(command) => ExecPlanView::Send {
                text: command,
                require_index: None,
            },
            ExecInputView::Block(lines) => ExecPlanView::Send {
                text: joined(lines).push('\n'),
                require_index: shown,
            },
        }
    }
}

/// The report on a command that has finished.
pub open spec fn outcome_of(
    prompts: Seq<(Seq<char>, Regex)>,
    lines: Seq<Seq<char>>,
    sent: Seq<char>,
) -> ExecView {
    let block = block_for(prompts, lines, sent);
    ExecView { status: "ok"@, reason: None, last_command: block.0, output: block.1 }
}

/// Says whether the pane that shows `captured` waits for input, and at which
/// prompt.
pub fn ready_report(prompt: &Prompts, captured: &str) -> (res: ReadyOutput)
    ensures
        res@ == ready_of(prompt@, captured@),
{
    let lines = split_lines(captured);
    match detect_idle_kind(prompt, lines.as_slice()) {
        Some(label) => ReadyOutput { kind: Some(label.to_string()), is_ready: true },
        None => ReadyOutput { kind: None, is_ready: false },
    }
}

/// The last command of the pane that shows `captured`, and its output. Both
/// are missing when no complete block is there or the REPL is busy.
pub fn last_command_report(prompt: &Prompts, captured: &str) -> (res: LastCommandOutput)
    ensures
        res@ == last_command_of(prompt@, captured@),
{
    let lines = split_lines(captured);
    if !is_repl_ready(prompt, lines.as_slice()) {
        return LastCommandOutput { last_command: None, output: None };
    }
    let (last_command, output) = extract_last_command_and_output(lines.as_slice(), prompt);
    assert(pair_view((last_command, output)) == (opt_view(last_command), opt_view(output)));
    LastCommandOutput { last_command, output }
}

/// Decides whether `input` may be sent to the pane that shows `captured`, what
/// exactly is sent, and which prompt has to be back afterwards.
pub fn plan_execution(prompt: &Prompts, captured: &str, input: &ExecInput) -> (res: ExecPlan)
    ensures
        res@ == plan_of(prompt@, captured@, input@),
{
    let lines = split_lines(captured);
    match detect_idle_index(prompt, lines.as_slice()) {
        None => ExecPlan::Refuse(
            ExecOutput {
                status: "error".to_string(),
                reason: Some("REPL is not ready (no prompt detected).".to_string()),
                last_command: None,
                output: None,
            },
        ),
        Some(shown) => match input {
            ExecInput::Command(command) => ExecPlan::Send {
                text: (*command).to_string(),
                require_index: None,
            },
            ExecInput::Block(block) => ExecPlan::Send {
                text: build_multi_line_text(block),
                require_index: Some(shown),
            },
        },
    }
}

/// The report on the command `sent` when the wait for it has ended with the
/// pane showing `lines`.
pub fn outcome_report(prompt: &Prompts, lines: &[String], sent: &str) -> (res: ExecOutput)
    ensures
        res@ == outcome_of(prompt@, string_views(lines@), sent@),
{
    let parts = borrowed(lines);
    let (last_command, output) = extract_with_sent_command(parts.as_slice(), prompt, sent);
    assert(pair_view((last_command, output)) == (opt_view(last_command), opt_view(output)));
    ExecOutput { status: "ok".to_string(), reason: None, last_command, output }
}

/// An optional text as a value: the text, or null.
pub open spec fn text_or_null(s: Option<Seq<char>>) -> YamlView {
    match s {
        Some(s) => YamlView::Str(s),
        None => YamlView::Null,
    }
}

/// The entries of a report on readiness.
pub open spec fn ready_entries(report: (Option<Seq<char>>, bool)) -> Seq<(Seq<char>, YamlView)> {
    seq![("kind"@, text_or_null(report.0)), ("is_ready"@, YamlView::Bool(report.1))]
}

/// The entries of a report on the last command.
pub open spec fn last_command_entries(
    report: (Option<Seq<char>>, Option<Seq<char>>),
) -> Seq<(Seq<char>, YamlView)> {
    seq![("last_command"@, text_or_null(report.0)), ("output"@, text_or_null(report.1))]
}

/// The entries of a report on a command; the reason only where there is one.
pub open spec fn exec_entries(report: ExecView) -> Seq<(Seq<char>, YamlView)> {
    let head = seq![("status"@, YamlView::Str(report.status))];
    let rest = last_command_entries((report.last_command, report.output));
    match report.reason {
        Some(reason) => head + seq![("reason"@, YamlView::Str(reason))] + rest,
        None => head + rest,
    }
}

fn value_of<'a>(s: &'a Option<String>) -> (res: YamlValue<'a>)
    ensures
        res@ == text_or_null(opt_view(*s)),
{
    match s {
        Some(s) => YamlValue::Str(s.as_str()),
        None => YamlValue::Null,
    }
}

impl ReadyOutput {
    /// The report as YAML.
    pub fn to_yaml(&self) -> (res: String)
        ensures
            res@ == terminated(map_lines(ready_entries(self@))),
    {
        let entries = vec![
            ("kind", value_of(&self.kind)),
            ("is_ready", YamlValue::Bool(self.is_ready)),
        ];
        assert(entry_views(entries@) =~= ready_entries(self@));
        render_map(entries.as_slice())
    }
}

impl LastCommandOutput {
    /// The report as YAML.
    pub fn to_yaml(&self) -> (res: String)
        ensures
            res@ == terminated(map_lines(last_command_entries(self@))),
    {
        let entries = vec![
            ("last_command", value_of(&self.last_command)),
            ("output", value_of(&self.output)),
        ];
        assert(entry_views(entries@) =~= last_command_entries(self@));
        render_map(entries.as_slice())
    }
}

impl ExecOutput {
    /// The report as YAML.
    pub fn to_yaml(&self) -> (res: String)
        ensures
            res@ == terminated(map_lines(exec_entries(self@))),
    {
        let mut entries = vec![("status", YamlValue::Str(self.status.as_str()))];
        if let Some(reason) = &self.reason {
            entries.push(("reason", YamlValue::Str(reason.as_str())));
        }
        entries.push(("last_command", value_of(&self.last_command)));
        entries.push(("output", value_of(&self.output)));
        assert(entry_views(entries@) =~= exec_entries(self@));
        render_map(entries.as_slice())
    }
}

/// A pane is reported ready exactly when a prompt is named, and exactly then
/// a command is sent to it.
pub proof fn law_ready_panes_take_commands(
    prompts: Seq<(Seq<char>, Regex)>,
    captured: Seq<char>,
    input: ExecInputView,
)
    ensures
        ready_of(prompts, captured).1 == (ready_of(prompts, captured).0 is Some),
        ready_of(prompts, captured).1 <==> plan_of(prompts, captured, input) is Send,
{
}

/// While the REPL is busy, no command and no output are reported, and a
/// command is refused with a reason, whatever it is.
pub proof fn law_busy_repl_is_left_alone(
    prompts: Seq<(Seq<char>, Regex)>,
    captured: Seq<char>,
    input: ExecInputView,
)
    requires
        !ready_of(prompts, captured).1,
    ensures
        last_command_of(prompts, captured) == (None::<Seq<char>>, None::<Seq<char>>),
        plan_of(prompts, captured, input) == ExecPlanView::Refuse(refusal()),
{
}

/// A block of lines is done only when the prompt is back that the pane showed
/// before: the wait is for the pattern of that prompt, of which the pane then
/// ends in a bare one. A continuation prompt of another pattern does not count.
pub proof fn law_block_waits_for_its_prompt(
    prompts: Seq<(Seq<char>, Regex)>,
    captured: Seq<char>,
    block: Seq<Seq<char>>,
    i: usize,
    text: Seq<char>,
)
    requires
        plan_of(prompts, captured, ExecInputView::Block(block)) == (ExecPlanView::Send {
            text: joined(block).push('\n'),
            require_index: Some(i as int),
        }),
    ensures
        ({
            let goal = WaitGoal { prompts, pre_send: captured, require_index: Some(i) };
            &&& settled(goal, captured)
            &&& settled(goal, text) ==> (last_meaningful(lines_of(text)) matches Some(line)
                && idle_by(prompts[i as int].1, line))
        }),
{
    lemma_idle_index(prompts, last_meaningful(lines_of(captured))->0);
}

/// The report on a command that has finished names a command, for every
/// command that is not blank.
pub proof fn law_finished_command_is_named(
    prompts: Seq<(Seq<char>, Regex)>,
    lines: Seq<Seq<char>>,
    sent: Seq<char>,
)
    requires
        trimmed(sent).len() > 0,
    ensures
        outcome_of(prompts, lines, sent).last_command is Some,
{
    law_sent_command_is_reported(prompts, lines, sent);
}

/// A report on readiness reads back from its YAML as the entries it was made
/// of.
pub proof fn law_ready_report_reads_back(report: (Option<Seq<char>>, bool))
    ensures
        read_map(terminated(map_lines(ready_entries(report)))) == Some(ready_entries(report)),
{
    lemma_keys_are_plain();
    let entries = ready_entries(report);
    assert forall|i: int| 0 <= i < entries.len() implies plain_key((#[trigger] entries[i]).0) by {
        if i == 0 {
            assert(entries[i].0 == "kind"@);
        } else {
            assert(entries[i].0 == "is_ready"@);
        }
    }
    law_map_reads_back(entries);
}

/// A report on the last command reads back from its YAML as the entries it was
/// made of.
pub proof fn law_last_command_report_reads_back(report: (Option<Seq<char>>, Option<Seq<char>>))
    ensures
        read_map(terminated(map_lines(last_command_entries(report)))) == Some(
            last_command_entries(report),
        ),
{
    lemma_keys_are_plain();
    let entries = last_command_entries(report);
    assert forall|i: int| 0 <= i < entries.len() implies plain_key((#[trigger] entries[i]).0) by {
        if i == 0 {
            assert(entries[i].0 == "last_command"@);
        } else {
            assert(entries[i].0 == "output"@);
        }
    }
    law_map_reads_back(entries);
}

/// A report on a command reads back from its YAML as the entries it was made
/// of.
pub proof fn law_exec_report_reads_back(report: ExecView)
    ensures
        read_map(terminated(map_lines(exec_entries(report)))) == Some(exec_entries(report)),
{
    lemma_keys_are_plain();
    let entries = exec_entries(report);
    assert forall|i: int| 0 <= i < entries.len() implies plain_key((#[trigger] entries[i]).0) by {
        if i == 0 {
            assert(entries[i].0 == "status"@);
        } else if i == entries.len() - 1 {
            assert(entries[i].0 == "output"@);
        } else if i == entries.len() - 2 {
            assert(entries[i].0 == "last_command"@);
        } else {
            assert(entries[i].0 == "reason"@);
        }
    }
    law_map_reads_back(entries);
}

proof fn lemma_keys_are_plain()
    ensures
        plain_key("kind"@),
        plain_key("is_ready"@),
        plain_key("status"@),
        plain_key("reason"@),
        plain_key("last_command"@),
        plain_key("output"@),
{
    reveal_strlit("kind");
    reveal_strlit("is_ready");
    reveal_strlit("status");
    reveal_strlit("reason");
    reveal_strlit("last_command");
    reveal_strlit("output");
    lemma_word_is_plain("kind"@);
    lemma_word_is_plain("is_ready"@);
    lemma_word_is_plain("status"@);
    lemma_word_is_plain("reason"@);
    lemma_word_is_plain("last_command"@);
    lemma_word_is_plain("output"@);
}

/// A pane is ready whenever its last line that is not blank is a bare prompt,
/// however many blank lines follow it, and the label is that of the first
/// pattern of which it is one. No other pane is ready.
pub proof fn law_ready_by_the_last_line(
    prompts: Seq<(Seq<char>, Regex)>,
    captured: Seq<char>,
    k: int,
    i: int,
)
    requires
        last_shown(lines_of(captured), k),
        0 <= i <= prompts.len(),
        forall|j: int|
            0 <= j < i ==> !idle_by((#[trigger] prompts[j]).1, lines_of(captured)[k]),
        i < prompts.len() ==> idle_by(prompts[i].1, lines_of(captured)[k]),
    ensures
        ready_of(prompts, captured) == (if i < prompts.len() {
            (Some(prompts[i].0), true)
        } else {
            (None, false)
        }),
{
    law_last_line_decides(prompts, lines_of(captured), k, i);
}

/// A pane is ready exactly when the REPL waits for input.
pub proof fn law_ready_means_waiting(prompts: Seq<(Seq<char>, Regex)>, captured: Seq<char>)
    ensures
        ready_of(prompts, captured).1 <==> pane_waits(prompts, None, lines_of(captured)),
        ready_of(prompts, captured).0 is Some <==> pane_waits(prompts, None, lines_of(captured)),
{
    law_pane_shows_a_prompt(prompts, lines_of(captured), None);
}

/// Blank rows below the prompt, as a pane that is not full shows them, change
/// neither readiness nor what is done with a command.
pub proof fn law_blank_rows_change_nothing(
    prompts: Seq<(Seq<char>, Regex)>,
    captured: Seq<char>,
    tail: Seq<char>,
    input: ExecInputView,
)
    requires
        blank(tail),
    ensures
        ready_of(prompts, captured.push('\n') + tail) == ready_of(prompts, captured),
        plan_of(prompts, captured.push('\n') + tail, input) == plan_of(prompts, captured, input),
{
    law_lines_of_two_texts(captured, tail);
    law_lines_of_blank_text(tail);
    law_last_meaningful_ignores_blank_rows(lines_of(captured), lines_of(tail));
}

/// While the REPL waits for input, the report on the last command is the last
/// complete block of the pane: the command, and all lines between its line and
/// the last prompt line that are no bare prompts, in order. A pane without such
/// a block gives nothing, and so does a REPL that does not wait.
pub proof fn law_last_command_is_the_whole_block(
    prompts: Seq<(Seq<char>, Regex)>,
    captured: Seq<char>,
    start: int,
    end: int,
)
    ensures
        ({
            let lines = lines_of(captured);
            let report = last_command_of(prompts, captured);
            let nothing = (None::<Seq<char>>, None::<Seq<char>>);
            &&& pane_waits(prompts, None, lines) && pane_shows_block(prompts, lines, start, end)
                ==> report == (
                Some(command_in(prompts, lines[start])),
                Some(all_printed(prompts, lines, start + 1, end)),
            )
            &&& pane_shows_no_block(prompts, lines) ==> report == nothing
            &&& !pane_waits(prompts, None, lines) ==> report == nothing
        }),
{
    let lines = lines_of(captured);
    law_pane_shows_a_prompt(prompts, lines, None);
    law_last_block_is_extracted(prompts, lines, start, end);
}

/// A command is sent as it is, and any prompt ends it. A block is sent line by
/// line, a newline after each, and only the prompt that the pane shows ends it.
/// Nothing is sent while the REPL does not wait for input.
pub proof fn law_what_is_sent(
    prompts: Seq<(Seq<char>, Regex)>,
    captured: Seq<char>,
    command: Seq<char>,
    block: Seq<Seq<char>>,
    k: int,
    i: int,
)
    requires
        last_shown(lines_of(captured), k),
        0 <= i <= prompts.len(),
        forall|j: int|
            0 <= j < i ==> !idle_by((#[trigger] prompts[j]).1, lines_of(captured)[k]),
        i < prompts.len() ==> idle_by(prompts[i].1, lines_of(captured)[k]),
    ensures
        i < prompts.len() ==> {
            &&& plan_of(prompts, captured, ExecInputView::Command(command)) == (
            ExecPlanView::Send { text: command, require_index: None })
            &&& plan_of(prompts, captured, ExecInputView::Block(block)) == (ExecPlanView::Send {
                text: joined(block).push('\n'),
                require_index: Some(i),
            })
        },
        i == prompts.len() ==> {
            let refused = ExecPlanView::Refuse(
                ExecView {
                    status: "error"@,
                    reason: Some("REPL is not ready (no prompt detected)."@),
                    last_command: None,
                    output: None,
                },
            );
            &&& plan_of(prompts, captured, ExecInputView::Command(command)) == refused
            &&& plan_of(prompts, captured, ExecInputView::Block(block)) == refused
        },
{
    law_last_line_decides(prompts, lines_of(captured), k, i);
}

/// Nothing is sent to a REPL that does not wait for input, whatever it is, and
/// the report says so; otherwise something is sent.
pub proof fn law_nothing_is_sent_while_busy(
    prompts: Seq<(Seq<char>, Regex)>,
    captured: Seq<char>,
    input: ExecInputView,
)
    ensures
        plan_of(prompts, captured, input) is Send <==> pane_waits(
            prompts,
            None,
            lines_of(captured),
        ),
        !pane_waits(prompts, None, lines_of(captured)) ==> plan_of(prompts, captured, input)
            == ExecPlanView::Refuse(
            ExecView {
                status: "error"@,
                reason: Some("REPL is not ready (no prompt detected)."@),
                last_command: None,
                output: None,
            },
        ),
{
    law_pane_shows_a_prompt(prompts, lines_of(captured), None);
}

/// The report on a command that has finished, where the last complete block is
/// that of the sent command or nothing was sent: the command, and all lines
/// between its line and the last prompt line that are no bare prompts, none
/// missing.
pub proof fn law_outcome_is_the_whole_block(
    prompts: Seq<(Seq<char>, Regex)>,
    lines: Seq<Seq<char>>,
    sent: Seq<char>,
    start: int,
    end: int,
)
    requires
        pane_shows_block(prompts, lines, start, end),
        blank(sent) || command_in(prompts, lines[start]) == trimmed(sent),
    ensures
        outcome_of(prompts, lines, sent) == (ExecView {
            status: "ok"@,
            reason: None,
            last_command: Some(command_in(prompts, lines[start])),
            output: Some(all_printed(prompts, lines, start + 1, end)),
        }),
{
    law_own_block_is_the_answer(prompts, lines, sent, start, end);
}

/// The report on a command that has finished, where the last complete block is
/// that of another command: the lines after the first line of its output that
/// is the sent text, or, without such a line (`i` is then past the last), that
/// block unchanged.
pub proof fn law_outcome_by_the_echo(
    prompts: Seq<(Seq<char>, Regex)>,
    lines: Seq<Seq<char>>,
    sent: Seq<char>,
    start: int,
    end: int,
    i: int,
)
    requires
        pane_shows_block(prompts, lines, start, end),
        !blank(sent),
        command_in(prompts, lines[start]) != trimmed(sent),
        ({
            let out = lines_of(all_printed(prompts, lines, start + 1, end));
            &&& 0 <= i <= out.len()
            &&& i < out.len() ==> trimmed(command_in(prompts, out[i])) == trimmed(sent)
            &&& forall|k: int|
                0 <= k < i ==> trimmed(command_in(prompts, #[trigger] out[k])) != trimmed(sent)
        }),
    ensures
        ({
            let printed = all_printed(prompts, lines, start + 1, end);
            let echoed = i < lines_of(printed).len();
            outcome_of(prompts, lines, sent) == (ExecView {
                status: "ok"@,
                reason: None,
                last_command: Some(
                    if echoed {
                        trimmed(sent)
                    } else {
                        command_in(prompts, lines[start])
                    },
                ),
                output: Some(
                    if echoed {
                        joined(lines_of(printed).skip(i + 1))
                    } else {
                        printed
                    },
                ),
            })
        }),
{
    if i < lines_of(all_printed(prompts, lines, start + 1, end)).len() {
        law_other_block_is_cut_at_the_echo(prompts, lines, sent, start, end, i);
    } else {
        law_other_block_without_echo_stands(prompts, lines, sent, start, end);
    }
}

/// The report on a command that has finished, where the pane shows no complete
/// block: the sent command, and what stands between its last echo and the last
/// prompt line, or no output without these.
pub proof fn law_outcome_without_a_block(
    prompts: Seq<(Seq<char>, Regex)>,
    lines: Seq<Seq<char>>,
    sent: Seq<char>,
    echo: int,
    end: int,
)
    requires
        pane_shows_no_block(prompts, lines),
        !blank(sent),
        -1 <= echo < end <= lines.len(),
        end < lines.len() ==> prompt_line(prompts, lines[end]),
        forall|k: int| end < k < lines.len() ==> !prompt_line(prompts, #[trigger] lines[k]),
        end == lines.len() ==> echo == -1 && forall|k: int|
            0 <= k < lines.len() ==> !prompt_line(prompts, #[trigger] lines[k]),
        echo >= 0 ==> trimmed(command_in(prompts, lines[echo])) == trimmed(sent),
        end < lines.len() ==> forall|k: int|
            echo < k < end ==> trimmed(command_in(prompts, #[trigger] lines[k])) != trimmed(sent),
    ensures
        outcome_of(prompts, lines, sent) == (ExecView {
            status: "ok"@,
            reason: None,
            last_command: Some(trimmed(sent)),
            output: if echo >= 0 {
                Some(all_printed(prompts, lines, echo + 1, end))
            } else {
                None
            },
        }),
{
    law_answer_without_a_block(prompts, lines, sent, echo, end);
}

/// The contents of a report are all that it holds.
pub proof fn law_report_contents(
    ready: ReadyOutput,
    last: LastCommandOutput,
    exec: ExecOutput,
    text: String,
    index: usize,
)
    ensures
        ready@.0 is Some == ready.kind is Some,
        ready.kind matches Some(kind) ==> ready@.0 == Some(kind@),
        ready@.1 == ready.is_ready,
        last@.0 is Some == last.last_command is Some,
        last.last_command matches Some(command) ==> last@.0 == Some(command@),
        last@.1 is Some == last.output is Some,
        last.output matches Some(output) ==> last@.1 == Some(output@),
        exec@.status == exec.status@,
        exec@.reason is Some == exec.reason is Some,
        exec.reason matches Some(reason) ==> exec@.reason == Some(reason@),
        exec@.last_command is Some == exec.last_command is Some,
        exec.last_command matches Some(command) ==> exec@.last_command == Some(command@),
        exec@.output is Some == exec.output is Some,
        exec.output matches Some(output) ==> exec@.output == Some(output@),
        ExecPlan::Refuse(exec)@ == ExecPlanView::Refuse(exec@),
        (ExecPlan::Send { text, require_index: Some(index) })@ == (ExecPlanView::Send {
            text: text@,
            require_index: Some(index as int),
        }),
        (ExecPlan::Send { text, require_index: None })@ == (ExecPlanView::Send {
            text: text@,
            require_index: None,
        }),
{
}

/// A report has these keys, in this order, each with its value: a text or null,
/// readiness as a boolean, and a reason only where there is one. It is with
/// these that it reads back.
pub proof fn law_keys_of_reports(
    ready: (Option<Seq<char>>, bool),
    exec: ExecView,
    text: Seq<char>,
)
    ensures
        text_or_null(Some(text)) == YamlView::Str(text),
        text_or_null(None) == YamlView::Null,
        ready_entries(ready) == seq![
            ("kind"@, text_or_null(ready.0)),
            ("is_ready"@, YamlView::Bool(ready.1)),
        ],
        last_command_entries((exec.last_command, exec.output)) == seq![
            ("last_command"@, text_or_null(exec.last_command)),
            ("output"@, text_or_null(exec.output)),
        ],
        exec.reason is None ==> exec_entries(exec) == seq![
            ("status"@, YamlView::Str(exec.status)),
            ("last_command"@, text_or_null(exec.last_command)),
            ("output"@, text_or_null(exec.output)),
        ],
        exec.reason matches Some(reason) ==> exec_entries(exec) == seq![
            ("status"@, YamlView::Str(exec.status)),
            ("reason"@, YamlView::Str(reason)),
            ("last_command"@, text_or_null(exec.last_command)),
            ("output"@, text_or_null(exec.output)),
        ],
{
    let last = seq![
        ("last_command"@, text_or_null(exec.last_command)),
        ("output"@, text_or_null(exec.output)),
    ];
    match exec.reason {
        None => {
            assert(exec_entries(exec) =~= seq![("status"@, YamlView::Str(exec.status))] + last);
            assert(exec_entries(exec) =~= seq![
                ("status"@, YamlView::Str(exec.status)),
                ("last_command"@, text_or_null(exec.last_command)),
                ("output"@, text_or_null(exec.output)),
            ]);
        },
        Some(reason) => {
            assert(exec_entries(exec) =~= seq![
                ("status"@, YamlView::Str(exec.status)),
                ("reason"@, YamlView::Str(reason)),
                ("last_command"@, text_or_null(exec.last_command)),
                ("output"@, text_or_null(exec.output)),
            ]);
        },
    }
}

/// The contents of what is to be run are all of it.
pub proof fn law_input_contents(command: &str, lines: &[String])
    ensures
        ExecInput::Command(command)@ == ExecInputView::Command(command@),
        ExecInput::Block(lines)@ == ExecInputView::Block(string_views(lines@)),
{
}

}
