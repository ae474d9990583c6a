//! Extraction of the last command and its output from the lines of a pane.
use regex::Regex;
use vstd::prelude::*;

use crate::prompts::{
    command_in, has_line_start, prompt_line, strip_line, Prompts,
};
use crate::text::{
    blank, join_lines, joined, law_join_undoes_split, law_split_undoes_join, law_trimmed,
    law_trimmed_end, lemma_joined_suffix, lines_of, opt_view, same_text, split_lines, trim,
    trim_end, trimmed, trimmed_end, views,
};

verus! {

/// What a prompt set says of one line.
pub struct LineMark {
    /// The line starts with a prompt.
    pub is_prompt: bool,
    /// The line without its prompt and without surrounding whitespace.
    pub rest: String,
}

impl View for LineMark {
    type V = (bool, Seq<char>);

    open spec fn view(&self) -> (bool, Seq<char>) {
        (self.is_prompt, self.rest@)
    }
}

/// The contents of marks.
pub open spec fn mark_views(marks: Seq<LineMark>) -> Seq<(bool, Seq<char>)> {
    Seq::new(marks.len(), |i: int| marks[i]@)
}

/// The marks that `prompts` give to `lines`.
pub open spec fn marks_of(prompts: Seq<(Seq<char>, Regex)>, lines: Seq<Seq<char>>) -> Seq<
    (bool, Seq<char>),
> {
    Seq::new(
        lines.len(),
        |i: int| (prompt_line(prompts, lines[i]), command_in(prompts, lines[i])),
    )
}

/// The last prompt line before `end`.
pub open spec fn last_prompt(marks: Seq<(bool, Seq<char>)>, end: int) -> Option<int>
    decreases end,
{
    if end <= 0 || end > marks.len() {
        None
    } else if marks[end - 1].0 {
        Some(end - 1)
    } else {
        last_prompt(marks, end - 1)
    }
}

/// The last prompt line before `end` that carries a command. A bare prompt
/// ends a block and does not start one.
pub open spec fn last_command(marks: Seq<(bool, Seq<char>)>, end: int) -> Option<int>
    decreases end,
{
    if end <= 0 || end > marks.len() {
        None
    } else if marks[end - 1].0 && marks[end - 1].1.len() > 0 {
        Some(end - 1)
    } else {
        last_command(marks, end - 1)
    }
}

/// The last line before `end` that echoes `sent`, with or without a prompt.
pub open spec fn last_echo(marks: Seq<(bool, Seq<char>)>, sent: Seq<char>, end: int) -> Option<int>
    decreases end,
{
    if end <= 0 || end > marks.len() {
        None
    } else if trimmed(marks[end - 1].1) == sent {
        Some(end - 1)
    } else {
        last_echo(marks, sent, end - 1)
    }
}

/// The first line from `from` on that echoes `sent`, with or without a prompt.
pub open spec fn first_echo(
    marks: Seq<(bool, Seq<char>)>,
    sent: Seq<char>,
    from: int,
) -> Option<int>
    decreases marks.len() - from,
{
    if from < 0 || from >= marks.len() {
        None
    } else if trimmed(marks[from].1) == sent {
        Some(from)
    } else {
        first_echo(marks, sent, from + 1)
    }
}

/// The line holds nothing but a prompt.
pub open spec fn bare(mark: (bool, Seq<char>)) -> bool {
    mark.0 && mark.1.len() == 0
}

/// The lines from `from` to before `end` without their trailing whitespace,
/// except those that hold nothing but a prompt. A blank line that is no prompt
/// stays.
pub open spec fn kept(
    lines: Seq<Seq<char>>,
    marks: Seq<(bool, Seq<char>)>,
    from: int,
    end: int,
) -> Seq<Seq<char>>
    decreases end - from,
{
    if from >= end {
        Seq::empty()
    } else {
        let before = kept(lines, marks, from, end - 1);
        if bare(marks[end - 1]) {
            before
        } else {
            before.push(trimmed_end(lines[end - 1]))
        }
    }
}

/// The output text that the lines from `from` to before `end` hold.
pub open spec fn output_between(
    lines: Seq<Seq<char>>,
    marks: Seq<(bool, Seq<char>)>,
    from: int,
    end: int,
) -> Seq<char> {
    joined(kept(lines, marks, from, end))
}

/// The last complete block: the command of the last command line before the
/// last prompt line, and the output between the two.
pub open spec fn last_block(lines: Seq<Seq<char>>, marks: Seq<(bool, Seq<char>)>) -> (
    Option<Seq<char>>,
    Option<Seq<char>>,
) {
    match last_prompt(marks, marks.len() as int) {
        Some(end) => match last_command(marks, end) {
            Some(start) => (
                Some(marks[start].1),
                Some(output_between(lines, marks, start + 1, end)),
            ),
            None => (None, None),
        },
        None => (None, None),
    }
}

/// The contents of a pair of optional strings.
pub open spec fn pair_view(p: (Option<String>, Option<String>)) -> (
    Option<Seq<char>>,
    Option<Seq<char>>,
) {
    (opt_view(p.0), opt_view(p.1))
}

/// The position of the last prompt line before `end`.
fn last_prompt_index(marks: &[LineMark], end: usize) -> (res: Option<usize>)
    requires
        end <= marks@.len(),
    ensures
        match res {
            Some(i) => i < end && last_prompt(mark_views(marks@), end as int) == Some(i as int),
            None => last_prompt(mark_views(marks@), end as int) is None,
        },
{
    let mut n: usize = end;
    while n > 0
        invariant
            n <= end <= marks@.len(),
            last_prompt(mark_views(marks@), end as int) == last_prompt(
                mark_views(marks@),
                n as int,
            ),
        decreases n,
    {
        assert(mark_views(marks@)[n - 1] == marks@[n - 1]@);
        if marks[n - 1].is_prompt {
            return Some(n - 1);
        }
        n = n - 1;
    }
    None
}

/// The position of the last prompt line before `end` that carries a command.
fn second_to_last_prompt_index(marks: &[LineMark], end: usize) -> (res: Option<usize>)
    requires
        end <= marks@.len(),
    ensures
        match res {
            Some(i) => i < end && last_command(mark_views(marks@), end as int) == Some(i as int),
            None => last_command(mark_views(marks@), end as int) is None,
        },
{
    let mut n: usize = end;
    while n > 0
        invariant
            n <= end <= marks@.len(),
            last_command(mark_views(marks@), end as int) == last_command(
                mark_views(marks@),
                n as int,
            ),
        decreases n,
    {
        assert(mark_views(marks@)[n - 1] == marks@[n - 1]@);
        if marks[n - 1].is_prompt && !marks[n - 1].rest.as_str().is_empty() {
            return Some(n - 1);
        }
        n = n - 1;
    }
    None
}

/// The position of the last line before `end` that echoes `sent`.
fn last_echo_index(marks: &[LineMark], sent: &str, end: usize) -> (res: Option<usize>)
    requires
        end <= marks@.len(),
    ensures
        match res {
            Some(i) => i < end && last_echo(mark_views(marks@), sent@, end as int) == Some(
                i as int,
            ),
            None => last_echo(mark_views(marks@), sent@, end as int) is None,
        },
{
    let mut n: usize = end;
    while n > 0
        invariant
            n <= end <= marks@.len(),
            last_echo(mark_views(marks@), sent@, end as int) == last_echo(
                mark_views(marks@),
                sent@,
                n as int,
            ),
        decreases n,
    {
        assert(mark_views(marks@)[n - 1] == marks@[n - 1]@);
        if same_text(trim(marks[n - 1].rest.as_str()), sent) {
            return Some(n - 1);
        }
        n = n - 1;
    }
    None
}

/// The position of the first line that echoes `sent`.
fn first_echo_index(marks: &[LineMark], sent: &str) -> (res: Option<usize>)
    ensures
        match res {
            Some(i) => i < marks@.len() && first_echo(mark_views(marks@), sent@, 0) == Some(
                i as int,
            ),
            None => first_echo(mark_views(marks@), sent@, 0) is None,
        },
{
    for i in 0..marks.len()
        invariant
            first_echo(mark_views(marks@), sent@, 0) == first_echo(
                mark_views(marks@),
                sent@,
                i as int,
            ),
    {
        assert(mark_views(marks@)[i as int] == marks@[i as int]@);
        if same_text(trim(marks[i].rest.as_str()), sent) {
            return Some(i);
        }
    }
    None
}

/// Joins the lines from `from` to before `end` into output text: lines that
/// hold nothing but a prompt are left out, and trailing whitespace, such as
/// padding to the terminal width, is cut off each line.
pub fn join_output(lines: &[&str], marks: &[LineMark], from: usize, end: usize) -> (res: String)
    requires
        from <= end <= lines@.len(),
        marks@.len() == lines@.len(),
    ensures
        res@ == output_between(views(lines@), mark_views(marks@), from as int, end as int),
{
    let mut parts: Vec<&str> = Vec::new();
    assert(views(parts@) =~= kept(views(lines@), mark_views(marks@), from as int, from as int));
    for i in from..end
        invariant
            from <= end <= lines@.len(),
            marks@.len() == lines@.len(),
            views(parts@) == kept(views(lines@), mark_views(marks@), from as int, i as int),
    {
        let ghost before = parts@;
        assert(mark_views(marks@)[i as int] == marks@[i as int]@);
        assert(views(lines@)[i as int] == lines@[i as int]@);
        if !(marks[i].is_prompt && marks[i].rest.as_str().is_empty()) {
            let line = trim_end(lines[i]);
            parts.push(line);
            assert(views(parts@) =~= views(before).push(line@));
        }
    }
    join_lines(parts.as_slice())
}

/// The last complete block of prompt, command, output and prompt: the command
/// and its output, or two `None` when there is no such block.
pub fn extract_block(lines: &[&str], marks: &[LineMark]) -> (res: (Option<String>, Option<String>))
    requires
        marks@.len() == lines@.len(),
    ensures
        pair_view(res) == last_block(views(lines@), mark_views(marks@)),
{
    let end = match last_prompt_index(marks, marks.len()) {
        Some(i) => i,
        None => {
            return (None, None);
        },
    };
    let start = match second_to_last_prompt_index(marks, end) {
        Some(i) => i,
        None => {
            return (None, None);
        },
    };
    let command = marks[start].rest.clone();
    let output = join_output(lines, marks, start + 1, end);
    (Some(command), Some(output))
}

impl Prompts {
    /// Marks each line: whether it starts with a prompt, and what else it
    /// holds.
    pub fn mark_lines(&self, lines: &[&str]) -> (res: Vec<LineMark>)
        ensures
            mark_views(res@) == marks_of(self@, views(lines@)),
    {
        let mut marks: Vec<LineMark> = Vec::new();
        for i in 0..lines.len()
            invariant
                marks@.len() == i,
                forall|j: int|
                    0 <= j < i ==> (#[trigger] marks@[j])@ == (
                        prompt_line(self@, lines@[j]@),
                        command_in(self@, lines@[j]@),
                    ),
        {
            let spans = self.spans(lines[i]);
            let is_prompt = has_line_start(spans.as_slice());
            let rest = strip_line(lines[i], spans.as_slice());
            marks.push(LineMark { is_prompt, rest });
        }
        assert(mark_views(marks@) =~= marks_of(self@, views(lines@)));
        marks
    }
}

/// The last command and its output, as the lines of a pane show them. The
/// command is the text of the second to last prompt line that carries one,
/// without the prompt; the output is what stands between that line and the
/// last prompt line. Two `None` when no complete block of prompt, command,
/// output and prompt is there.
pub fn extract_last_command_and_output(lines: &[&str], prompt: &Prompts) -> (res: (
    Option<String>,
    Option<String>,
))
    ensures
        pair_view(res) == last_block(views(lines@), marks_of(prompt@, views(lines@))),
{
    let marks = prompt.mark_lines(lines);
    assert(mark_views(marks@).len() == views(lines@).len());
    extract_block(lines, marks.as_slice())
}

/// What the lines say of a command that was sent.
pub enum SentBlock {
    /// The command and its output.
    Settled(Option<String>, Option<String>),
    /// The last complete block belongs to another command; the echo of the one
    /// that was sent may stand in its output.
    Stale(String, String),
}

impl View for SentBlock {
    type V = Result<(Option<Seq<char>>, Option<Seq<char>>), (Seq<char>, Seq<char>)>;

    /// `Ok` when settled, `Err` when stale.
    open spec fn view(&self) -> Self::V {
        match self {
            SentBlock::Settled(command, output) => Ok(pair_view((*command, *output))),
            SentBlock::Stale(command, output) => Err((command@, output@)),
        }
    }
}

/// What the lines say of the command `sent`, which has no surrounding
/// whitespace. The last complete block settles it when its command is `sent`,
/// or when nothing was sent. Without such a block the last echo of `sent`
/// before the last prompt line starts the output; without an echo, or without
/// a prompt line after it, the output cannot be recovered.
pub open spec fn sent_block(
    lines: Seq<Seq<char>>,
    marks: Seq<(bool, Seq<char>)>,
    sent: Seq<char>,
) -> Result<(Option<Seq<char>>, Option<Seq<char>>), (Seq<char>, Seq<char>)> {
    match (last_block(lines, marks), last_prompt(marks, marks.len() as int)) {
        ((Some(command), Some(output)), _) => if sent.len() == 0 || trimmed(command) == sent {
            Ok((Some(command), Some(output)))
        } else {
            Err((command, output))
        },
        (_, Some(end)) => if sent.len() == 0 {
            Ok((None, None))
        } else {
            match last_echo(marks, sent, end) {
                Some(i) => Ok((Some(sent), Some(output_between(lines, marks, i + 1, end)))),
                None => Ok((Some(sent), None)),
            }
        },
        (_, None) => if sent.len() == 0 {
            Ok((None, None))
        } else {
            Ok((Some(sent), None))
        },
    }
}

/// The block of another command, moved to the first line of its output that
/// echoes `sent`; unchanged when there is none. `marks` are those of the lines
/// of the output.
pub open spec fn retargeted(
    command: Seq<char>,
    output: Seq<char>,
    marks: Seq<(bool, Seq<char>)>,
    sent: Seq<char>,
) -> (Option<Seq<char>>, Option<Seq<char>>) {
    match first_echo(marks, sent, 0) {
        Some(i) => (Some(sent), Some(joined(lines_of(output).skip(i + 1)))),
        None => (Some(command), Some(output)),
    }
}

/// The command and output that `lines` show after `sent` was sent.
pub open spec fn block_for(
    prompts: Seq<(Seq<char>, Regex)>,
    lines: Seq<Seq<char>>,
    sent: Seq<char>,
) -> (Option<Seq<char>>, Option<Seq<char>>) {
    match sent_block(lines, marks_of(prompts, lines), trimmed(sent)) {
        Ok(pair) => pair,
        Err((command, output)) => retargeted(
            command,
            output,
            marks_of(prompts, lines_of(output)),
            trimmed(sent),
        ),
    }
}

/// What the marked lines say of the command `sent`, which has no surrounding
/// whitespace.
pub fn find_sent_block(lines: &[&str], marks: &[LineMark], sent: &str) -> (res: SentBlock)
    requires
        marks@.len() == lines@.len(),
    ensures
        res@ == sent_block(views(lines@), mark_views(marks@), sent@),
{
    match extract_block(lines, marks) {
        (Some(command), Some(output)) => {
            if sent.is_empty() || same_text(trim(command.as_str()), sent) {
                SentBlock::Settled(Some(command), Some(output))
            } else {
                SentBlock::Stale(command, output)
            }
        },
        _ => {
            if sent.is_empty() {
                return SentBlock::Settled(None, None);
            }
            match last_prompt_index(marks, marks.len()) {
                Some(end) => match last_echo_index(marks, sent, end) {
                    Some(i) => {
                        let output = join_output(lines, marks, i + 1, end);
                        SentBlock::Settled(Some(sent.to_string()), Some(output))
                    },
                    None => SentBlock::Settled(Some(sent.to_string()), None),
                },
                None => SentBlock::Settled(Some(sent.to_string()), None),
            }
        },
    }
}

/// Moves the block of another command to the first line of its output that
/// echoes `sent`, so that the output does not mix in what came before.
/// `out_lines` are the lines of the output, and `marks` are theirs.
pub fn retarget(
    command: String,
    output: String,
    out_lines: &[&str],
    marks: &[LineMark],
    sent: &str,
) -> (res: (Option<String>, Option<String>))
    requires
        views(out_lines@) == lines_of(output@),
        marks@.len() == out_lines@.len(),
    ensures
        pair_view(res) == retargeted(command@, output@, mark_views(marks@), sent@),
{
    match first_echo_index(marks, sent) {
        Some(i) => {
            let mut rest: Vec<&str> = Vec::new();
            for j in i + 1..out_lines.len()
                invariant
                    i < out_lines@.len(),
                    i + 1 <= j <= out_lines@.len(),
                    rest@ == out_lines@.subrange(i + 1, j as int),
            {
                rest.push(out_lines[j]);
                assert(rest@ =~= out_lines@.subrange(i + 1, j + 1));
            }
            assert(views(rest@) =~= lines_of(output@).skip(i + 1));
            (Some(sent.to_string()), Some(join_lines(rest.as_slice())))
        },
        None => (Some(command), Some(output)),
    }
}

/// The command and its output, like [`extract_last_command_and_output`], but
/// corrected by the command that was sent.
///
/// Some line editors echo a command without the prompt before it. The last
/// prompt line with a command is then that of an older one. When extraction
/// disagrees with what was sent, the block is moved to the echo of the sent
/// command. When neither a complete block nor an echo can be found, as when
/// the command has scrolled out of the capture, the result is the sent command
/// without output: it ran, though what it printed is lost.
pub fn extract_with_sent_command(lines: &[&str], prompt: &Prompts, sent: &str) -> (res: (
    Option<String>,
    Option<String>,
))
    ensures
        pair_view(res) == block_for(prompt@, views(lines@), sent@),
{
    let sent = trim(sent);
    let marks = prompt.mark_lines(lines);
    assert(mark_views(marks@).len() == views(lines@).len());
    match find_sent_block(lines, marks.as_slice(), sent) {
        SentBlock::Settled(command, output) => (command, output),
        SentBlock::Stale(command, output) => {
            let text = output.clone();
            let out_lines = split_lines(text.as_str());
            let out_marks = prompt.mark_lines(out_lines.as_slice());
            assert(mark_views(out_marks@).len() == views(out_lines@).len());
            retarget(command, output, out_lines.as_slice(), out_marks.as_slice(), sent)
        },
    }
}

/// `last_prompt` is the last position before `end` with the property.
pub proof fn lemma_last_prompt(marks: Seq<(bool, Seq<char>)>, end: int)
    requires
        0 <= end <= marks.len(),
    ensures
        match last_prompt(marks, end) {
            Some(i) => {
                &&& 0 <= i < end
                &&& marks[i].0
                &&& forall|j: int| i < j < end ==> !(#[trigger] marks[j]).0
            },
            None => forall|j: int| 0 <= j < end ==> !(#[trigger] marks[j]).0,
        },
    decreases end,
{
    if end > 0 && !marks[end - 1].0 {
        lemma_last_prompt(marks, end - 1);
    }
}

/// `last_command` is the last position before `end` with the property.
pub proof fn lemma_last_command(marks: Seq<(bool, Seq<char>)>, end: int)
    requires
        0 <= end <= marks.len(),
    ensures
        match last_command(marks, end) {
            Some(i) => {
                &&& 0 <= i < end
                &&& marks[i].0
                &&& marks[i].1.len() > 0
                &&& forall|j: int|
                    i < j < end && (#[trigger] marks[j]).0 ==> marks[j].1.len() == 0
            },
            None => forall|j: int|
                0 <= j < end && (#[trigger] marks[j]).0 ==> marks[j].1.len() == 0,
        },
    decreases end,
{
    if end > 0 && !(marks[end - 1].0 && marks[end - 1].1.len() > 0) {
        lemma_last_command(marks, end - 1);
    }
}

/// Extraction gives a command exactly when it gives an output: when a prompt
/// line follows a prompt line that carries a command. The command is then not
/// empty.
pub proof fn law_block_is_whole(lines: Seq<Seq<char>>, marks: Seq<(bool, Seq<char>)>)
    ensures
        last_block(lines, marks).0 is Some <==> last_block(lines, marks).1 is Some,
        last_block(lines, marks).0 is Some <==> (exists|i: int, j: int|
            0 <= i < j < marks.len() && (#[trigger] marks[i]).0 && marks[i].1.len() > 0 && (
            #[trigger] marks[j]).0),
        last_block(lines, marks).0 matches Some(command) ==> command.len() > 0,
{
    let n = marks.len() as int;
    lemma_last_prompt(marks, n);
    match last_prompt(marks, n) {
        Some(end) => {
            lemma_last_command(marks, end);
            if let Some(start) = last_command(marks, end) {
                assert(marks[start].0 && marks[start].1.len() > 0 && marks[end].0);
            } else {
                assert forall|i: int, j: int| 0 <= i < j < n implies !((#[trigger] marks[i]).0
                    && marks[i].1.len() > 0 && (#[trigger] marks[j]).0) by {
                    if j > end {
                        assert(!marks[j].0);
                    }
                }
            }
        },
        None => {},
    }
}

/// Where a block is extracted, every prompt line within its output is bare
/// and is left out: no prompt and no other command leaks into the output.
/// Each line of the output is a line of the pane that is no prompt line,
/// without its trailing whitespace.
pub proof fn law_output_holds_no_prompt(
    lines: Seq<Seq<char>>,
    marks: Seq<(bool, Seq<char>)>,
    start: int,
    end: int,
)
    requires
        lines.len() == marks.len(),
        last_prompt(marks, marks.len() as int) == Some(end),
        last_command(marks, end) == Some(start),
    ensures
        forall|k: int|
            0 <= k < kept(lines, marks, start + 1, end).len() ==> exists|i: int|
                start < i < end && !(#[trigger] marks[i]).0 && #[trigger] kept(
                    lines,
                    marks,
                    start + 1,
                    end,
                )[k] == trimmed_end(lines[i]),
{
    lemma_last_prompt(marks, marks.len() as int);
    lemma_last_command(marks, end);
    lemma_kept_lines(lines, marks, start + 1, end);
    let out = kept(lines, marks, start + 1, end);
    assert forall|k: int| 0 <= k < out.len() implies exists|i: int|
        start < i < end && !(#[trigger] marks[i]).0 && #[trigger] out[k] == trimmed_end(
            lines[i],
        ) by {
        let i = choose|i: int|
            start + 1 <= i < end && !bare(#[trigger] marks[i]) && out[k] == trimmed_end(lines[i]);
        assert(!marks[i].0);
    }
}

/// The output is everything between the two prompt lines: where no prompt line
/// stands between them, every line is kept, blank ones too.
pub proof fn law_output_is_everything(
    lines: Seq<Seq<char>>,
    marks: Seq<(bool, Seq<char>)>,
    from: int,
    end: int,
)
    requires
        0 <= from <= end <= lines.len(),
        lines.len() == marks.len(),
        forall|i: int| from <= i < end ==> !(#[trigger] marks[i]).0,
    ensures
        kept(lines, marks, from, end) == Seq::new(
            (end - from) as nat,
            |k: int| trimmed_end(lines[from + k]),
        ),
    decreases end - from,
{
    let all = Seq::new((end - from) as nat, |k: int| trimmed_end(lines[from + k]));
    if from < end {
        law_output_is_everything(lines, marks, from, end - 1);
        assert(!marks[end - 1].0);
    }
    assert(kept(lines, marks, from, end) =~= all);
}

/// Every kept line is a line of the range that is no bare prompt.
proof fn lemma_kept_lines(
    lines: Seq<Seq<char>>,
    marks: Seq<(bool, Seq<char>)>,
    from: int,
    end: int,
)
    ensures
        forall|k: int|
            0 <= k < kept(lines, marks, from, end).len() ==> exists|i: int|
                from <= i < end && !bare(#[trigger] marks[i]) && #[trigger] kept(
                    lines,
                    marks,
                    from,
                    end,
                )[k] == trimmed_end(lines[i]),
    decreases end - from,
{
    if from < end {
        lemma_kept_lines(lines, marks, from, end - 1);
        let before = kept(lines, marks, from, end - 1);
        let out = kept(lines, marks, from, end);
        assert forall|k: int| 0 <= k < out.len() implies exists|i: int|
            from <= i < end && !bare(#[trigger] marks[i]) && #[trigger] out[k] == trimmed_end(
                lines[i],
            ) by {
            if k < before.len() {
                assert(out[k] == before[k]);
                let i = choose|i: int|
                    from <= i < end - 1 && !bare(#[trigger] marks[i]) && before[k] == trimmed_end(
                        lines[i],
                    );
                assert(!bare(marks[i]));
            } else {
                assert(!bare(marks[end - 1]));
            }
        }
    }
}

/// No line of an extracted output has trailing whitespace.
pub proof fn law_output_lines_are_trimmed(
    lines: Seq<Seq<char>>,
    marks: Seq<(bool, Seq<char>)>,
    from: int,
    end: int,
)
    requires
        0 <= from <= end <= lines.len(),
        forall|i: int| 0 <= i < lines.len() ==> !(#[trigger] lines[i]).contains('\n'),
    ensures
        forall|k: int|
            0 <= k < lines_of(output_between(lines, marks, from, end)).len() ==> trimmed_end(
                #[trigger] lines_of(output_between(lines, marks, from, end))[k],
            ) == lines_of(output_between(lines, marks, from, end))[k],
{
    let parts = kept(lines, marks, from, end);
    let out = output_between(lines, marks, from, end);
    lemma_kept_lines(lines, marks, from, end);
    assert forall|k: int| 0 <= k < parts.len() implies !(#[trigger] parts[k]).contains('\n')
        && trimmed_end(parts[k]) == parts[k] by {
        let i = choose|i: int|
            from <= i < end && !bare(#[trigger] marks[i]) && parts[k] == trimmed_end(lines[i]);
        law_trimmed_end(lines[i]);
        lemma_trimmed_end_within(lines[i]);
    }
    if parts.len() == 0 {
        assert(lines_of(out) =~= seq![out]);
        law_trimmed_end(out);
    } else {
        law_split_undoes_join(parts);
    }
}

proof fn lemma_trimmed_end_within(s: Seq<char>)
    requires
        !s.contains('\n'),
    ensures
        !trimmed_end(s).contains('\n'),
    decreases s.len(),
{
    if s.len() > 0 && crate::text::whitespace(s.last()) {
        let t = s.drop_last();
        if t.contains('\n') {
            let i = choose|i: int| 0 <= i < t.len() && t[i] == '\n';
            assert(s[i] == '\n');
        }
        lemma_trimmed_end_within(t);
    }
}

/// Whatever lines a pane shows, when nothing was sent or the last block is
/// that of the sent command, the result is the last block.
pub proof fn law_agreeing_block_stands(
    prompts: Seq<(Seq<char>, Regex)>,
    lines: Seq<Seq<char>>,
    sent: Seq<char>,
)
    requires
        trimmed(sent).len() == 0 || last_block(lines, marks_of(prompts, lines)).0 == Some(
            trimmed(sent),
        ),
    ensures
        block_for(prompts, lines, sent) == last_block(lines, marks_of(prompts, lines)),
{
    law_block_is_whole(lines, marks_of(prompts, lines));
    law_trimmed(sent);
}

/// A sent command is always answered with a command, whatever the pane shows:
/// it ran.
pub proof fn law_sent_command_is_reported(
    prompts: Seq<(Seq<char>, Regex)>,
    lines: Seq<Seq<char>>,
    sent: Seq<char>,
)
    requires
        trimmed(sent).len() > 0,
    ensures
        block_for(prompts, lines, sent).0 is Some,
{
}

/// With neither a complete block nor an echo in sight, the answer is the sent
/// command without output.
pub proof fn law_lost_output_is_not_made_up(
    prompts: Seq<(Seq<char>, Regex)>,
    lines: Seq<Seq<char>>,
    sent: Seq<char>,
)
    requires
        trimmed(sent).len() > 0,
        last_block(lines, marks_of(prompts, lines)).0 is None,
        forall|i: int|
            0 <= i < lines.len() ==> trimmed(command_in(prompts, #[trigger] lines[i])) != trimmed(
                sent,
            ),
    ensures
        block_for(prompts, lines, sent) == (Some(trimmed(sent)), None::<Seq<char>>),
{
    let marks = marks_of(prompts, lines);
    let n = marks.len() as int;
    law_block_is_whole(lines, marks);
    lemma_last_prompt(marks, n);
    if let Some(end) = last_prompt(marks, n) {
        lemma_no_echo(marks, trimmed(sent), end);
    }
}

proof fn lemma_no_echo(marks: Seq<(bool, Seq<char>)>, sent: Seq<char>, end: int)
    requires
        0 <= end <= marks.len(),
        forall|i: int| 0 <= i < end ==> trimmed((#[trigger] marks[i]).1) != sent,
    ensures
        last_echo(marks, sent, end) is None,
    decreases end,
{
    if end > 0 {
        assert(trimmed(marks[end - 1].1) != sent);
        lemma_no_echo(marks, sent, end - 1);
    }
}

/// Moving a block to the echo of the sent command only cuts the output: what
/// is left ends the output that the last block has.
pub proof fn law_retargeted_output_is_a_suffix(
    command: Seq<char>,
    output: Seq<char>,
    marks: Seq<(bool, Seq<char>)>,
    sent: Seq<char>,
)
    requires
        marks.len() == lines_of(output).len(),
    ensures
        retargeted(command, output, marks, sent).1 matches Some(rest) && rest.is_suffix_of(output),
        retargeted(command, output, marks, sent).0 == Some(sent) || retargeted(
            command,
            output,
            marks,
            sent,
        ) == (Some(command), Some(output)),
{
    lemma_first_echo(marks, sent, 0);
    law_join_undoes_split(output);
    match first_echo(marks, sent, 0) {
        Some(i) => {
            lemma_joined_suffix(lines_of(output), i + 1);
        },
        None => {
            assert(output.subrange(0, output.len() as int) =~= output);
        },
    }
}

proof fn lemma_first_echo(marks: Seq<(bool, Seq<char>)>, sent: Seq<char>, from: int)
    requires
        0 <= from <= marks.len(),
    ensures
        first_echo(marks, sent, from) matches Some(i) ==> from <= i < marks.len(),
    decreases marks.len() - from,
{
    if from < marks.len() && trimmed(marks[from].1) != sent {
        lemma_first_echo(marks, sent, from + 1);
    }
}

/// The marked lines show a complete block: a prompt line with a command at
/// `start`, the last prompt line at `end`, and between the two no other
/// command.
pub open spec fn marks_show_block(marks: Seq<(bool, Seq<char>)>, start: int, end: int) -> bool {
    &&& 0 <= start < end < marks.len()
    &&& marks[start].0 && marks[start].1.len() > 0
    &&& marks[end].0
    &&& forall|k: int| end < k < marks.len() ==> !(#[trigger] marks[k]).0
    &&& forall|k: int| start < k < end && (#[trigger] marks[k]).0 ==> marks[k].1.len() == 0
}

/// All the marked lines from `from` to before `end` that are not bare prompts,
/// in order, without their trailing whitespace, one newline between each two.
pub open spec fn all_shown(
    lines: Seq<Seq<char>>,
    marks: Seq<(bool, Seq<char>)>,
    from: int,
    end: int,
) -> Seq<char> {
    joined(
        Seq::new((end - from) as nat, |k: int| from + k).filter(
            |i: int| !(marks[i].0 && marks[i].1.len() == 0),
        ).map_values(|i: int| trimmed_end(lines[i])),
    )
}

/// The lines show a complete block under `prompts`: a prompt line with a
/// command at `start`, the last prompt line at `end`, and between the two no
/// other command.
pub open spec fn pane_shows_block(
    prompts: Seq<(Seq<char>, Regex)>,
    lines: Seq<Seq<char>>,
    start: int,
    end: int,
) -> bool {
    &&& 0 <= start < end < lines.len()
    &&& prompt_line(prompts, lines[start]) && command_in(prompts, lines[start]).len() > 0
    &&& prompt_line(prompts, lines[end])
    &&& forall|k: int| end < k < lines.len() ==> !prompt_line(prompts, #[trigger] lines[k])
    &&& forall|k: int|
        start < k < end && prompt_line(prompts, #[trigger] lines[k]) ==> command_in(
            prompts,
            lines[k],
        ).len() == 0
}

/// No line with a prompt follows a prompt line that carries a command.
pub open spec fn pane_shows_no_block(
    prompts: Seq<(Seq<char>, Regex)>,
    lines: Seq<Seq<char>>,
) -> bool {
    forall|i: int, j: int|
        0 <= i < j < lines.len() && prompt_line(prompts, #[trigger] lines[i]) && command_in(
            prompts,
            lines[i],
        ).len() > 0 ==> !prompt_line(prompts, #[trigger] lines[j])
}

/// All the lines from `from` to before `end` that are not bare prompts, in
/// order, without their trailing whitespace, one newline between each two.
pub open spec fn all_printed(
    prompts: Seq<(Seq<char>, Regex)>,
    lines: Seq<Seq<char>>,
    from: int,
    end: int,
) -> Seq<char> {
    joined(
        lines.subrange(from, end).filter(
            |l: Seq<char>| !(prompt_line(prompts, l) && command_in(prompts, l).len() == 0),
        ).map_values(|l: Seq<char>| trimmed_end(l)),
    )
}

/// Output is every line of its range but the bare prompts, none missing and
/// none twice.
pub proof fn law_no_line_is_missing(
    lines: Seq<Seq<char>>,
    marks: Seq<(bool, Seq<char>)>,
    from: int,
    end: int,
)
    requires
        0 <= from <= end <= lines.len(),
        lines.len() == marks.len(),
    ensures
        output_between(lines, marks, from, end) == all_shown(lines, marks, from, end),
{
    lemma_kept_by_position(lines, marks, from, end);
}

proof fn lemma_kept_by_position(
    lines: Seq<Seq<char>>,
    marks: Seq<(bool, Seq<char>)>,
    from: int,
    end: int,
)
    requires
        0 <= from <= end <= lines.len(),
        lines.len() == marks.len(),
    ensures
        kept(lines, marks, from, end) == Seq::new((end - from) as nat, |k: int| from + k).filter(
            |i: int| !(marks[i].0 && marks[i].1.len() == 0),
        ).map_values(|i: int| trimmed_end(lines[i])),
    decreases end - from,
{
    reveal(Seq::filter);
    let at = Seq::new((end - from) as nat, |k: int| from + k);
    let stays = |i: int| !(marks[i].0 && marks[i].1.len() == 0);
    let text = |i: int| trimmed_end(lines[i]);
    if from < end {
        lemma_kept_by_position(lines, marks, from, end - 1);
        assert(at.drop_last() =~= Seq::new((end - 1 - from) as nat, |k: int| from + k));
        assert(at.last() == end - 1);
    }
    assert(kept(lines, marks, from, end) =~= at.filter(stays).map_values(text));
}

proof fn lemma_kept_by_line(
    prompts: Seq<(Seq<char>, Regex)>,
    lines: Seq<Seq<char>>,
    from: int,
    end: int,
)
    requires
        0 <= from <= end <= lines.len(),
    ensures
        kept(lines, marks_of(prompts, lines), from, end) == lines.subrange(from, end).filter(
            |l: Seq<char>| !(prompt_line(prompts, l) && command_in(prompts, l).len() == 0),
        ).map_values(|l: Seq<char>| trimmed_end(l)),
    decreases end - from,
{
    reveal(Seq::filter);
    let part = lines.subrange(from, end);
    let stays = |l: Seq<char>| !(prompt_line(prompts, l) && command_in(prompts, l).len() == 0);
    let text = |l: Seq<char>| trimmed_end(l);
    if from < end {
        lemma_kept_by_line(prompts, lines, from, end - 1);
        assert(part.drop_last() =~= lines.subrange(from, end - 1));
        assert(part.last() == lines[end - 1]);
    }
    assert(kept(lines, marks_of(prompts, lines), from, end) =~= part.filter(stays).map_values(text));
}

/// The last complete block of marked lines is its command and every line
/// between its two prompt lines that is no bare prompt.
pub proof fn law_marked_block_is_extracted(
    lines: Seq<Seq<char>>,
    marks: Seq<(bool, Seq<char>)>,
    start: int,
    end: int,
)
    requires
        lines.len() == marks.len(),
        marks_show_block(marks, start, end),
    ensures
        last_block(lines, marks) == (
            Some(marks[start].1),
            Some(all_shown(lines, marks, start + 1, end)),
        ),
{
    let n = marks.len() as int;
    lemma_last_prompt(marks, n);
    let e = last_prompt(marks, n)->0;
    if e > end {
        assert(!marks[e].0);
    }
    if e < end {
        assert(!marks[end].0);
    }
    lemma_last_command(marks, end);
    let b = last_command(marks, end)->0;
    if b > start {
        assert(marks[b].1.len() == 0);
    }
    if b < start {
        assert(marks[start].1.len() == 0);
    }
    law_no_line_is_missing(lines, marks, start + 1, end);
}

/// The last complete block of a pane is its command and every line between its
/// two prompt lines that is no bare prompt; a pane without such a block gives
/// nothing.
pub proof fn law_last_block_is_extracted(
    prompts: Seq<(Seq<char>, Regex)>,
    lines: Seq<Seq<char>>,
    start: int,
    end: int,
)
    ensures
        pane_shows_block(prompts, lines, start, end) ==> last_block(
            lines,
            marks_of(prompts, lines),
        ) == (
            Some(command_in(prompts, lines[start])),
            Some(all_printed(prompts, lines, start + 1, end)),
        ),
        pane_shows_no_block(prompts, lines) ==> last_block(lines, marks_of(prompts, lines)) == (
            None::<Seq<char>>,
            None::<Seq<char>>,
        ),
{
    let marks = marks_of(prompts, lines);
    if pane_shows_block(prompts, lines, start, end) {
        lemma_marks_show_block(prompts, lines, start, end);
        law_marked_block_is_extracted(lines, marks, start, end);
        law_no_line_is_missing(lines, marks, start + 1, end);
        lemma_kept_by_line(prompts, lines, start + 1, end);
    }
    if pane_shows_no_block(prompts, lines) {
        law_block_is_whole(lines, marks);
        if last_block(lines, marks).0 is Some {
            let (i, j) = choose|i: int, j: int|
                0 <= i < j < marks.len() && (#[trigger] marks[i]).0 && marks[i].1.len() > 0 && (
                #[trigger] marks[j]).0;
            assert(prompt_line(prompts, lines[i]) && prompt_line(prompts, lines[j]));
        }
    }
}

proof fn lemma_marks_show_block(
    prompts: Seq<(Seq<char>, Regex)>,
    lines: Seq<Seq<char>>,
    start: int,
    end: int,
)
    requires
        pane_shows_block(prompts, lines, start, end),
    ensures
        marks_show_block(marks_of(prompts, lines), start, end),
{
    let marks = marks_of(prompts, lines);
    assert forall|k: int| end < k < marks.len() implies !(#[trigger] marks[k]).0 by {
        assert(!prompt_line(prompts, lines[k]));
    }
    assert forall|k: int| start < k < end && (#[trigger] marks[k]).0 implies marks[k].1.len()
        == 0 by {
        assert(prompt_line(prompts, lines[k]));
    }
}

/// When the last complete block is that of the sent command, or nothing was
/// sent, the answer is that block, its command and its whole output.
pub proof fn law_own_block_is_the_answer(
    prompts: Seq<(Seq<char>, Regex)>,
    lines: Seq<Seq<char>>,
    sent: Seq<char>,
    start: int,
    end: int,
)
    requires
        pane_shows_block(prompts, lines, start, end),
        blank(sent) || command_in(prompts, lines[start]) == trimmed(sent),
    ensures
        block_for(prompts, lines, sent) == (
            Some(command_in(prompts, lines[start])),
            Some(all_printed(prompts, lines, start + 1, end)),
        ),
{
    law_last_block_is_extracted(prompts, lines, start, end);
    law_trimmed(sent);
}

/// When the last complete block belongs to another command and no line of its
/// output, without its prompt and trimmed, is the sent text, the answer is that
/// block unchanged, its command and its whole output, also for a sent text of
/// several lines.
pub proof fn law_other_block_without_echo_stands(
    prompts: Seq<(Seq<char>, Regex)>,
    lines: Seq<Seq<char>>,
    sent: Seq<char>,
    start: int,
    end: int,
)
    requires
        pane_shows_block(prompts, lines, start, end),
        ({
            let out = lines_of(all_printed(prompts, lines, start + 1, end));
            forall|k: int|
                0 <= k < out.len() ==> trimmed(command_in(prompts, #[trigger] out[k])) != trimmed(
                    sent,
                )
        }),
    ensures
        block_for(prompts, lines, sent) == (
            Some(command_in(prompts, lines[start])),
            Some(all_printed(prompts, lines, start + 1, end)),
        ),
{
    law_last_block_is_extracted(prompts, lines, start, end);
    let output = all_printed(prompts, lines, start + 1, end);
    let marks = marks_of(prompts, lines_of(output));
    assert forall|k: int| 0 <= k < marks.len() implies trimmed((#[trigger] marks[k]).1) != trimmed(
        sent,
    ) by {
        assert(trimmed(command_in(prompts, lines_of(output)[k])) != trimmed(sent));
    }
    lemma_no_first_echo(marks, trimmed(sent), 0);
}

/// When the last complete block belongs to another command and a line of its
/// output, without its prompt and trimmed, is the sent text, the answer is the
/// sent command and exactly the lines after the first such line.
pub proof fn law_other_block_is_cut_at_the_echo(
    prompts: Seq<(Seq<char>, Regex)>,
    lines: Seq<Seq<char>>,
    sent: Seq<char>,
    start: int,
    end: int,
    i: int,
)
    requires
        pane_shows_block(prompts, lines, start, end),
        !blank(sent),
        command_in(prompts, lines[start]) != trimmed(sent),
        ({
            let out = lines_of(all_printed(prompts, lines, start + 1, end));
            &&& 0 <= i < out.len()
            &&& trimmed(command_in(prompts, out[i])) == trimmed(sent)
            &&& forall|k: int|
                0 <= k < i ==> trimmed(command_in(prompts, #[trigger] out[k])) != trimmed(sent)
        }),
    ensures
        block_for(prompts, lines, sent) == (
            Some(trimmed(sent)),
            Some(joined(lines_of(all_printed(prompts, lines, start + 1, end)).skip(i + 1))),
        ),
{
    law_last_block_is_extracted(prompts, lines, start, end);
    law_trimmed(sent);
    crate::prompts::law_command_is_trimmed(prompts, lines[start]);
    let output = all_printed(prompts, lines, start + 1, end);
    let out = lines_of(output);
    let marks = marks_of(prompts, out);
    assert forall|k: int| 0 <= k < i implies trimmed((#[trigger] marks[k]).1) != trimmed(
        sent,
    ) by {
        assert(trimmed(command_in(prompts, out[k])) != trimmed(sent));
    }
    lemma_first_echo_at(marks, trimmed(sent), 0, i);
}

/// Without a complete block the answer is the sent command. Its output is what
/// stands between its last echo and the last prompt line; without an echo
/// before that line, or without a prompt line, there is none. When nothing was
/// sent, there is nothing to answer.
pub proof fn law_answer_without_a_block(
    prompts: Seq<(Seq<char>, Regex)>,
    lines: Seq<Seq<char>>,
    sent: Seq<char>,
    echo: int,
    end: int,
)
    requires
        pane_shows_no_block(prompts, lines),
        -1 <= echo < end <= lines.len(),
        end < lines.len() ==> prompt_line(prompts, lines[end]),
        forall|k: int| end < k < lines.len() ==> !prompt_line(prompts, #[trigger] lines[k]),
        end == lines.len() ==> echo == -1 && forall|k: int|
            0 <= k < lines.len() ==> !prompt_line(prompts, #[trigger] lines[k]),
        echo >= 0 ==> trimmed(command_in(prompts, lines[echo])) == trimmed(sent),
        end < lines.len() ==> forall|k: int|
            echo < k < end ==> trimmed(command_in(prompts, #[trigger] lines[k])) != trimmed(sent),
    ensures
        block_for(prompts, lines, sent) == (if blank(sent) {
            (None, None)
        } else if echo >= 0 {
            (Some(trimmed(sent)), Some(all_printed(prompts, lines, echo + 1, end)))
        } else {
            (Some(trimmed(sent)), None)
        }),
{
    let marks = marks_of(prompts, lines);
    let n = marks.len() as int;
    law_last_block_is_extracted(prompts, lines, 0, 0);
    law_trimmed(sent);
    lemma_last_prompt(marks, n);
    if end < n {
        assert(marks[end].0);
        let e = last_prompt(marks, n)->0;
        if e > end {
            assert(!prompt_line(prompts, lines[e]));
        }
        assert(e == end);
        assert forall|k: int| echo < k < end implies trimmed((#[trigger] marks[k]).1) != trimmed(
            sent,
        ) by {
            assert(trimmed(command_in(prompts, lines[k])) != trimmed(sent));
        }
        lemma_last_echo_at(marks, trimmed(sent), end, echo);
        if echo >= 0 {
            lemma_kept_by_line(prompts, lines, echo + 1, end);
        }
    } else {
        if let Some(e) = last_prompt(marks, n) {
            assert(!prompt_line(prompts, lines[e]));
        }
    }
}

proof fn lemma_no_first_echo(marks: Seq<(bool, Seq<char>)>, sent: Seq<char>, from: int)
    requires
        0 <= from <= marks.len(),
        forall|k: int| from <= k < marks.len() ==> trimmed((#[trigger] marks[k]).1) != sent,
    ensures
        first_echo(marks, sent, from) is None,
    decreases marks.len() - from,
{
    if from < marks.len() {
        assert(trimmed(marks[from].1) != sent);
        lemma_no_first_echo(marks, sent, from + 1);
    }
}

proof fn lemma_first_echo_at(marks: Seq<(bool, Seq<char>)>, sent: Seq<char>, from: int, i: int)
    requires
        0 <= from <= i < marks.len(),
        trimmed(marks[i].1) == sent,
        forall|k: int| from <= k < i ==> trimmed((#[trigger] marks[k]).1) != sent,
    ensures
        first_echo(marks, sent, from) == Some(i),
    decreases i - from,
{
    if from < i {
        assert(trimmed(marks[from].1) != sent);
        lemma_first_echo_at(marks, sent, from + 1, i);
    }
}

proof fn lemma_last_echo_at(marks: Seq<(bool, Seq<char>)>, sent: Seq<char>, end: int, i: int)
    requires
        -1 <= i < end <= marks.len(),
        i >= 0 ==> trimmed(marks[i].1) == sent,
        forall|k: int| i < k < end ==> trimmed((#[trigger] marks[k]).1) != sent,
    ensures
        last_echo(marks, sent, end) == (if i >= 0 {
            Some(i)
        } else {
            None
        }),
    decreases end - i,
{
    if i < end - 1 {
        assert(trimmed(marks[end - 1].1) != sent);
        lemma_last_echo_at(marks, sent, end - 1, i);
    }
}

/// A block of another command is cut at the first line of its output that is
/// the sent text, and stands unchanged without one.
pub proof fn law_retargeting(
    command: Seq<char>,
    output: Seq<char>,
    marks: Seq<(bool, Seq<char>)>,
    sent: Seq<char>,
    i: int,
)
    requires
        marks.len() == lines_of(output).len(),
        0 <= i <= marks.len(),
        forall|k: int| 0 <= k < i ==> trimmed((#[trigger] marks[k]).1) != sent,
        i < marks.len() ==> trimmed(marks[i].1) == sent,
    ensures
        retargeted(command, output, marks, sent) == (if i < marks.len() {
            (Some(sent), Some(joined(lines_of(output).skip(i + 1))))
        } else {
            (Some(command), Some(output))
        }),
{
    if i < marks.len() {
        lemma_first_echo_at(marks, sent, 0, i);
    } else {
        lemma_no_first_echo(marks, sent, 0);
    }
}

/// What marked lines say of a sent command, where they show a complete block:
/// the block itself when it is that of the command or nothing was sent, and
/// otherwise that it belongs to another command.
pub proof fn law_marked_block_for_sent(
    lines: Seq<Seq<char>>,
    marks: Seq<(bool, Seq<char>)>,
    sent: Seq<char>,
    start: int,
    end: int,
)
    requires
        lines.len() == marks.len(),
        marks_show_block(marks, start, end),
    ensures
        sent_block(lines, marks, sent) == (if sent.len() == 0 || trimmed(marks[start].1) == sent {
            Ok((Some(marks[start].1), Some(all_shown(lines, marks, start + 1, end))))
        } else {
            Err((marks[start].1, all_shown(lines, marks, start + 1, end)))
        }),
{
    law_marked_block_is_extracted(lines, marks, start, end);
}

/// What marked lines say of a sent command, where no prompt line follows one
/// with a command: the lines between the last echo and the last prompt line, or
/// the command without output, or nothing when nothing was sent.
pub proof fn law_marked_echo_for_sent(
    lines: Seq<Seq<char>>,
    marks: Seq<(bool, Seq<char>)>,
    sent: Seq<char>,
    echo: int,
    end: int,
)
    requires
        lines.len() == marks.len(),
        forall|i: int, j: int|
            0 <= i < j < marks.len() && (#[trigger] marks[i]).0 && marks[i].1.len() > 0 ==> !(
            #[trigger] marks[j]).0,
        -1 <= echo < end <= marks.len(),
        end < marks.len() ==> marks[end].0,
        forall|k: int| end < k < marks.len() ==> !(#[trigger] marks[k]).0,
        end == marks.len() ==> echo == -1 && forall|k: int|
            0 <= k < marks.len() ==> !(#[trigger] marks[k]).0,
        echo >= 0 ==> trimmed(marks[echo].1) == sent,
        end < marks.len() ==> forall|k: int|
            echo < k < end ==> trimmed((#[trigger] marks[k]).1) != sent,
    ensures
        sent_block(lines, marks, sent) == Ok::<_, (Seq<char>, Seq<char>)>(
            if sent.len() == 0 {
                (None, None)
            } else if echo >= 0 {
                (Some(sent), Some(all_shown(lines, marks, echo + 1, end)))
            } else {
                (Some(sent), None)
            },
        ),
{
    let n = marks.len() as int;
    law_block_is_whole(lines, marks);
    lemma_last_prompt(marks, n);
    if end < n {
        let e = last_prompt(marks, n)->0;
        if e > end {
            assert(!marks[e].0);
        }
        if e < end {
            assert(!marks[end].0);
        }
        lemma_last_echo_at(marks, sent, end, echo);
        if echo >= 0 {
            law_no_line_is_missing(lines, marks, echo + 1, end);
        }
    } else {
        if let Some(e) = last_prompt(marks, n) {
            assert(!marks[e].0);
        }
    }
}

/// Every pane shows a complete block or none.
pub proof fn law_a_block_or_none(prompts: Seq<(Seq<char>, Regex)>, lines: Seq<Seq<char>>)
    ensures
        pane_shows_no_block(prompts, lines) || exists|start: int, end: int|
            pane_shows_block(prompts, lines, start, end),
{
    let marks = marks_of(prompts, lines);
    let n = marks.len() as int;
    lemma_last_prompt(marks, n);
    match last_prompt(marks, n) {
        None => {
            assert forall|j: int| 0 <= j < lines.len() implies !prompt_line(
                prompts,
                #[trigger] lines[j],
            ) by {
                assert(!marks[j].0);
            }
        },
        Some(end) => {
            lemma_last_command(marks, end);
            assert forall|k: int| end < k < lines.len() implies !prompt_line(
                prompts,
                #[trigger] lines[k],
            ) by {
                assert(!marks[k].0);
            }
            match last_command(marks, end) {
                Some(start) => {
                    assert forall|k: int|
                        start < k < end && prompt_line(
                            prompts,
                            #[trigger] lines[k],
                        ) implies command_in(prompts, lines[k]).len() == 0 by {
                        assert(marks[k].0);
                    }
                    assert(pane_shows_block(prompts, lines, start, end));
                },
                None => {
                    assert forall|i: int, j: int|
                        0 <= i < j < lines.len() && prompt_line(prompts, #[trigger] lines[i])
                            && command_in(prompts, lines[i]).len() > 0 implies !prompt_line(
                        prompts,
                        #[trigger] lines[j],
                    ) by {
                        if i < end {
                            assert(marks[i].0);
                        }
                    }
                },
            }
        },
    }
}

/// Every line is marked, in order: whether it is a prompt line, and its command.
pub proof fn law_every_line_is_marked(
    prompts: Seq<(Seq<char>, Regex)>,
    lines: Seq<Seq<char>>,
    marks: Seq<LineMark>,
)
    ensures
        marks_of(prompts, lines).len() == lines.len(),
        forall|i: int|
            0 <= i < lines.len() ==> #[trigger] marks_of(prompts, lines)[i] == (
                prompt_line(prompts, lines[i]),
                command_in(prompts, lines[i]),
            ),
        mark_views(marks).len() == marks.len(),
        forall|i: int|
            0 <= i < marks.len() ==> #[trigger] mark_views(marks)[i] == (
                marks[i].is_prompt,
                marks[i].rest@,
            ),
{
}

/// The contents of an answer are all that it holds.
pub proof fn law_answer_contents(command: String, output: String)
    ensures
        pair_view((Some(command), Some(output))) == (Some(command@), Some(output@)),
        pair_view((Some(command), None)) == (Some(command@), None::<Seq<char>>),
        pair_view((None, None)) == (None::<Seq<char>>, None::<Seq<char>>),
        SentBlock::Settled(Some(command), Some(output))@ == Ok::<_, (Seq<char>, Seq<char>)>(
            (Some(command@), Some(output@)),
        ),
        SentBlock::Settled(Some(command), None)@ == Ok::<_, (Seq<char>, Seq<char>)>(
            (Some(command@), None::<Seq<char>>),
        ),
        SentBlock::Settled(None, None)@ == Ok::<_, (Seq<char>, Seq<char>)>(
            (None::<Seq<char>>, None::<Seq<char>>),
        ),
        SentBlock::Stale(command, output)@ == Err::<(Option<Seq<char>>, Option<Seq<char>>), _>(
            (command@, output@),
        ),
{
}

}
