//! Sets of prompt patterns: which lines are prompts, and what stands after
//! the prompt.
use regex::{Error, Regex};
use vstd::prelude::*;
use vstd::utf8::encode_utf8;

use crate::kinds::Kinds;
use crate::pattern::{
    at_line_start, compile, debug_text, find_padded, find_regex, idle_by, idle_line, idle_match,
    idle_span, is_at_line_start, is_idle_line, law_rest_follows_the_match, padded_spans,
    refusal_text, regex_error_text, regex_find, regex_new, show_debug, spaced, span_within,
    strip_span, stripped_by, whole_span, TRIMMED_SPACES,
};
use crate::text::{
    blank, last_meaningful, last_meaningful_line, law_blank_lines_do_not_count,
    law_last_meaningful, law_trimmed, string_views, trim, trimmed, views,
};

verus! {

/// A set of prompt patterns, in order. Each entry carries a label (the name of
/// the kind it came from, otherwise the pattern itself), so that a caller can
/// be told which prompt matched.
pub struct Prompts {
    entries: Vec<(String, Regex)>,
}

impl View for Prompts {
    type V = Seq<(Seq<char>, Regex)>;

    closed spec fn view(&self) -> Seq<(Seq<char>, Regex)> {
        Seq::new(self.entries@.len(), |i: int| (self.entries@[i].0@, self.entries@[i].1))
    }
}

/// Where each pattern matches first in `line`.
pub open spec fn spans_in(prompts: Seq<(Seq<char>, Regex)>, line: Seq<char>) -> Seq<
    Option<(usize, usize)>,
> {
    Seq::new(prompts.len(), |i: int| regex_find(prompts[i].1, line))
}

/// Where one pattern matches first in a line: in the line as it stands, and in
/// the line with one space after it, with two, and so on.
pub struct PromptMatch {
    pub span: Option<(usize, usize)>,
    pub padded: Vec<Option<(usize, usize)>>,
}

impl View for PromptMatch {
    type V = (Option<(usize, usize)>, Seq<Option<(usize, usize)>>);

    open spec fn view(&self) -> (Option<(usize, usize)>, Seq<Option<(usize, usize)>>) {
        (self.span, self.padded@)
    }
}

/// The contents of matches.
pub open spec fn match_views(matches: Seq<PromptMatch>) -> Seq<
    (Option<(usize, usize)>, Seq<Option<(usize, usize)>>),
> {
    Seq::new(matches.len(), |i: int| matches[i]@)
}

/// Where each pattern matches first in `line`, as it stands and padded.
pub open spec fn matches_in(prompts: Seq<(Seq<char>, Regex)>, line: Seq<char>) -> Seq<
    (Option<(usize, usize)>, Seq<Option<(usize, usize)>>),
> {
    Seq::new(
        prompts.len(),
        |i: int| (regex_find(prompts[i].1, line), padded_spans(prompts[i].1, line)),
    )
}

/// Every span lies within `line`.
pub open spec fn spans_within(line: Seq<char>, spans: Seq<Option<(usize, usize)>>) -> bool {
    forall|i: int| 0 <= i < spans.len() ==> span_within(line, #[trigger] spans[i])
}

/// Some pattern matches at the start of the line.
pub open spec fn any_at_line_start(spans: Seq<Option<(usize, usize)>>) -> bool {
    exists|i: int| 0 <= i < spans.len() && at_line_start(#[trigger] spans[i])
}

/// The first pattern from `from` on of which `line` is a bare prompt.
pub open spec fn first_idle_from(
    line: Seq<char>,
    matches: Seq<(Option<(usize, usize)>, Seq<Option<(usize, usize)>>)>,
    from: int,
) -> Option<int>
    decreases matches.len() - from,
{
    if from < 0 || from >= matches.len() {
        None
    } else if idle_line(line, matches[from].0, matches[from].1) {
        Some(from)
    } else {
        first_idle_from(line, matches, from + 1)
    }
}

/// The first pattern of which `line` is a bare prompt.
pub open spec fn first_idle(
    line: Seq<char>,
    matches: Seq<(Option<(usize, usize)>, Seq<Option<(usize, usize)>>)>,
) -> Option<int> {
    first_idle_from(line, matches, 0)
}

/// `line` stripped by the first pattern from `from` on that matches at its
/// start, otherwise only trimmed.
pub open spec fn stripped_from(
    line: Seq<char>,
    spans: Seq<Option<(usize, usize)>>,
    from: int,
) -> Seq<char>
    decreases spans.len() - from,
{
    if from < 0 || from >= spans.len() {
        trimmed(line)
    } else {
        match stripped_by(line, spans[from]) {
            Some(rest) => rest,
            None => stripped_from(line, spans, from + 1),
        }
    }
}

/// `line` without its prompt and without surrounding whitespace.
pub open spec fn stripped(line: Seq<char>, spans: Seq<Option<(usize, usize)>>) -> Seq<char> {
    stripped_from(line, spans, 0)
}

/// `line` is a prompt line: a pattern of `prompts` matches at its start.
pub open spec fn prompt_line(prompts: Seq<(Seq<char>, Regex)>, line: Seq<char>) -> bool {
    any_at_line_start(spans_in(prompts, line))
}

/// The first pattern of `prompts` of which `line` is a bare prompt.
pub open spec fn idle_index(prompts: Seq<(Seq<char>, Regex)>, line: Seq<char>) -> Option<int> {
    first_idle(line, matches_in(prompts, line))
}

/// What `line` holds besides a prompt of `prompts`.
pub open spec fn command_in(prompts: Seq<(Seq<char>, Regex)>, line: Seq<char>) -> Seq<char> {
    stripped(line, spans_in(prompts, line))
}

/// `first_idle_from` is the first position with the property, if there is one.
proof fn lemma_first_idle(
    line: Seq<char>,
    matches: Seq<(Option<(usize, usize)>, Seq<Option<(usize, usize)>>)>,
    from: int,
)
    requires
        0 <= from <= matches.len(),
    ensures
        match first_idle_from(line, matches, from) {
            Some(i) => {
                &&& from <= i < matches.len()
                &&& idle_line(line, matches[i].0, matches[i].1)
                &&& forall|j: int|
                    from <= j < i ==> !idle_line(line, (#[trigger] matches[j]).0, matches[j].1)
            },
            None => forall|j: int|
                from <= j < matches.len() ==> !idle_line(
                    line,
                    (#[trigger] matches[j]).0,
                    matches[j].1,
                ),
        },
    decreases matches.len() - from,
{
    if from < matches.len() && !idle_line(line, matches[from].0, matches[from].1) {
        lemma_first_idle(line, matches, from + 1);
    }
}

/// The first pattern of which a line is a bare prompt, pattern by pattern.
pub proof fn lemma_idle_index(prompts: Seq<(Seq<char>, Regex)>, line: Seq<char>)
    ensures
        match idle_index(prompts, line) {
            Some(i) => {
                &&& 0 <= i < prompts.len()
                &&& idle_by(prompts[i].1, line)
                &&& forall|j: int| 0 <= j < i ==> !idle_by((#[trigger] prompts[j]).1, line)
            },
            None => forall|j: int|
                0 <= j < prompts.len() ==> !idle_by((#[trigger] prompts[j]).1, line),
        },
{
    let matches = matches_in(prompts, line);
    lemma_first_idle(line, matches, 0);
    assert forall|j: int| 0 <= j < prompts.len() implies idle_by((#[trigger] prompts[j]).1, line)
        == idle_line(line, matches[j].0, matches[j].1) by {}
}

/// True when some span is at the start of the line.
pub fn has_line_start(spans: &[Option<(usize, usize)>]) -> (res: bool)
    ensures
        res == any_at_line_start(spans@),
{
    for i in 0..spans.len()
        invariant
            forall|j: int| 0 <= j < i ==> !at_line_start(#[trigger] spans@[j]),
    {
        if is_at_line_start(spans[i]) {
            assert(at_line_start(spans@[i as int]));
            return true;
        }
    }
    false
}

/// The position of the first pattern of which `line` is a bare prompt.
pub fn find_idle(line: &str, matches: &[PromptMatch]) -> (res: Option<usize>)
    requires
        forall|i: int| 0 <= i < matches@.len() ==> span_within(line@, (#[trigger] matches@[i]).span),
    ensures
        match res {
            Some(i) => first_idle(line@, match_views(matches@)) == Some(i as int),
            None => first_idle(line@, match_views(matches@)) is None,
        },
{
    for i in 0..matches.len()
        invariant
            forall|j: int|
                0 <= j < matches@.len() ==> span_within(line@, (#[trigger] matches@[j]).span),
            first_idle(line@, match_views(matches@)) == first_idle_from(
                line@,
                match_views(matches@),
                i as int,
            ),
    {
        assert(span_within(line@, matches@[i as int].span));
        if is_idle_line(line, matches[i].span, matches[i].padded.as_slice()) {
            return Some(i);
        }
    }
    None
}

/// Strips `line` by the first span that is at its start, and trims it.
pub fn strip_line(line: &str, spans: &[Option<(usize, usize)>]) -> (res: String)
    requires
        spans_within(line@, spans@),
    ensures
        res@ == stripped(line@, spans@),
{
    for i in 0..spans.len()
        invariant
            spans_within(line@, spans@),
            stripped(line@, spans@) == stripped_from(line@, spans@, i as int),
    {
        assert(span_within(line@, spans@[i as int]));
        if let Some(rest) = strip_span(line, spans[i]) {
            return rest;
        }
    }
    trim(line).to_string()
}

impl Prompts {
    /// Where each pattern matches first in `line`, as byte offsets.
    pub fn spans(&self, line: &str) -> (res: Vec<Option<(usize, usize)>>)
        ensures
            res@ == spans_in(self@, line@),
            spans_within(line@, res@),
    {
        let mut out: Vec<Option<(usize, usize)>> = Vec::new();
        for i in 0..self.entries.len()
            invariant
                out@.len() == i,
                forall|j: int|
                    0 <= j < i ==> #[trigger] out@[j] == regex_find(self.entries@[j].1, line@),
                spans_within(line@, out@),
        {
            let span = find_regex(&self.entries[i].1, line);
            out.push(span);
        }
        assert(out@ =~= spans_in(self@, line@));
        out
    }

    /// Where each pattern matches first in `line`, as it stands and padded.
    pub fn matches(&self, line: &str) -> (res: Vec<PromptMatch>)
        ensures
            match_views(res@) == matches_in(self@, line@),
            forall|i: int| 0 <= i < res@.len() ==> span_within(line@, (#[trigger] res@[i]).span),
    {
        let mut out: Vec<PromptMatch> = Vec::new();
        for i in 0..self.entries.len()
            invariant
                out@.len() == i,
                forall|j: int|
                    0 <= j < i ==> (#[trigger] out@[j])@ == (
                        regex_find(self.entries@[j].1, line@),
                        padded_spans(self.entries@[j].1, line@),
                    ) && span_within(line@, out@[j].span),
        {
            let span = find_regex(&self.entries[i].1, line);
            let padded = find_padded(&self.entries[i].1, line);
            out.push(PromptMatch { span, padded });
        }
        assert(match_views(out@) =~= matches_in(self@, line@));
        out
    }

    /// True when some pattern matches at the start of the line. Prompt text in
    /// the middle of a line does not count, as in `note: see >>> for help`.
    pub fn is_prompt_line(&self, line: &str) -> (res: bool)
        ensures
            res == prompt_line(self@, line@),
    {
        has_line_start(self.spans(line).as_slice())
    }

    /// True when some pattern matches at the start of the line with only
    /// whitespace after it: the REPL shows a bare prompt. Up to
    /// [`TRIMMED_SPACES`](crate::pattern::TRIMMED_SPACES) trailing spaces of
    /// the prompt may be trimmed.
    pub fn is_idle_prompt(&self, line: &str) -> (res: bool)
        ensures
            res == (idle_index(self@, line@) is Some),
    {
        self.detect_idle_index(line).is_some()
    }

    /// The label of the first pattern of which the line is a bare prompt.
    pub fn detect_idle(&self, line: &str) -> (res: Option<&str>)
        ensures
            match res {
                Some(label) => idle_index(self@, line@) matches Some(i) && label@ == self@[i].0,
                None => idle_index(self@, line@) is None,
            },
    {
        match self.detect_idle_index(line) {
            Some(i) => Some(self.entries[i].0.as_str()),
            None => None,
        }
    }

    /// The position of the first pattern of which the line is a bare prompt.
    pub fn detect_idle_index(&self, line: &str) -> (res: Option<usize>)
        ensures
            match res {
                Some(i) => i < self@.len() && idle_index(self@, line@) == Some(i as int),
                None => idle_index(self@, line@) is None,
            },
    {
        proof {
            lemma_idle_index(self@, line@);
        }
        find_idle(line, self.matches(line).as_slice())
    }

    /// True when the line is a bare prompt of the pattern at `index`, or of
    /// any pattern when `index` is `None`. No pattern is past the end.
    pub fn idle_matches_index(&self, index: Option<usize>, line: &str) -> (res: bool)
        ensures
            res == idle_at(self@, index, line@),
    {
        match index {
            Some(i) => if i < self.entries.len() {
                idle_match(&self.entries[i].1, line)
            } else {
                false
            },
            None => self.is_idle_prompt(line),
        }
    }

    /// The line without the match of the first pattern that matches at its
    /// start, and without surrounding whitespace. A line without a prompt is
    /// only trimmed.
    pub fn strip_prompt(&self, line: &str) -> (res: String)
        ensures
            res@ == command_in(self@, line@),
    {
        strip_line(line, self.spans(line).as_slice())
    }
}

/// `line` is a bare prompt of the pattern at `index`, or of any pattern when
/// `index` is `None`.
pub open spec fn idle_at(
    prompts: Seq<(Seq<char>, Regex)>,
    index: Option<usize>,
    line: Seq<char>,
) -> bool {
    match index {
        Some(i) => i < prompts.len() && idle_by(prompts[i as int].1, line),
        None => idle_index(prompts, line) is Some,
    }
}

/// One step of building a set of prompts: a pattern to add under a label, or
/// a kind that is not in the table.
pub enum PromptStep {
    Pattern(String, String),
    UnknownKind(String),
}

impl View for PromptStep {
    type V = Result<(Seq<char>, Seq<char>), Seq<char>>;

    /// `Ok` with the label and the pattern, or `Err` with the unknown kind.
    open spec fn view(&self) -> Result<(Seq<char>, Seq<char>), Seq<char>> {
        match self {
            PromptStep::Pattern(label, pattern) => Ok((label@, pattern@)),
            PromptStep::UnknownKind(name) => Err(name@),
        }
    }
}

/// The contents of building steps.
pub open spec fn step_views(steps: Seq<PromptStep>) -> Seq<
    Result<(Seq<char>, Seq<char>), Seq<char>>,
> {
    Seq::new(steps.len(), |i: int| steps[i]@)
}

/// The steps for the patterns of one kind, each labelled by the kind.
pub open spec fn one_kind(name: Seq<char>, kinds: Map<Seq<char>, Seq<Seq<char>>>) -> Seq<
    Result<(Seq<char>, Seq<char>), Seq<char>>,
> {
    if kinds.contains_key(name) {
        Seq::new(
            kinds[name].len(),
            |i: int| Ok::<(Seq<char>, Seq<char>), Seq<char>>((name, kinds[name][i])),
        )
    } else {
        seq![Err(name)]
    }
}

/// The steps for named kinds, one kind after the other.
pub open spec fn kind_steps(
    names: Seq<Seq<char>>,
    kinds: Map<Seq<char>, Seq<Seq<char>>>,
) -> Seq<Result<(Seq<char>, Seq<char>), Seq<char>>>
    decreases names.len(),
{
    if names.len() == 0 {
        Seq::empty()
    } else {
        kind_steps(names.drop_last(), kinds) + one_kind(names.last(), kinds)
    }
}

/// The steps for patterns that are their own labels.
pub open spec fn pattern_steps(patterns: Seq<Seq<char>>) -> Seq<
    Result<(Seq<char>, Seq<char>), Seq<char>>,
> {
    Seq::new(
        patterns.len(),
        |i: int| Ok::<(Seq<char>, Seq<char>), Seq<char>>((patterns[i], patterns[i])),
    )
}

/// What is said of a kind that is not in the table.
pub open spec fn unknown_kind_text(name: Seq<char>) -> Seq<char> {
    "unknown REPL kind "@ + debug_text(name)
}

/// What the steps build: the labelled patterns, compiled, or what is said of
/// the first step that fails.
pub open spec fn built(steps: Seq<Result<(Seq<char>, Seq<char>), Seq<char>>>) -> Result<
    Seq<(Seq<char>, Regex)>,
    Seq<char>,
>
    decreases steps.len(),
{
    if steps.len() == 0 {
        Ok(Seq::empty())
    } else {
        match built(steps.drop_last()) {
            Err(msg) => Err(msg),
            Ok(entries) => match steps.last() {
                Err(name) => Err(unknown_kind_text(name)),
                Ok((label, pattern)) => match regex_new(pattern) {
                    Ok(re) => Ok(entries.push((label, re))),
                    Err(e) => Err(refusal_text(pattern, e)),
                },
            },
        }
    }
}

/// Once a step has failed, the steps after it change nothing.
proof fn lemma_built_fails(steps: Seq<Result<(Seq<char>, Seq<char>), Seq<char>>>, k: int)
    requires
        0 <= k <= steps.len(),
        built(steps.take(k)) is Err,
    ensures
        built(steps) == built(steps.take(k)),
    decreases steps.len() - k,
{
    if k == steps.len() {
        assert(steps.take(k) =~= steps);
    } else {
        assert(steps.take(k + 1).drop_last() =~= steps.take(k));
        lemma_built_fails(steps, k + 1);
    }
}

/// The steps for named kinds, and then for patterns that are their own labels.
pub fn prompt_steps(kind_names: &[String], kinds: &Kinds, extra_prompts: &[String]) -> (res: Vec<
    PromptStep,
>)
    ensures
        step_views(res@) == kind_steps(string_views(kind_names@), kinds@) + pattern_steps(
            string_views(extra_prompts@),
        ),
{
    let ghost names = string_views(kind_names@);
    let ghost extras = string_views(extra_prompts@);
    let mut steps: Vec<PromptStep> = Vec::new();
    assert(names.take(0) =~= Seq::empty());
    assert(step_views(steps@) =~= kind_steps(names.take(0), kinds@));
    for i in 0..kind_names.len()
        invariant
            names == string_views(kind_names@),
            step_views(steps@) == kind_steps(names.take(i as int), kinds@),
    {
        let ghost before = step_views(steps@);
        let name = &kind_names[i];
        assert(names.take(i + 1).drop_last() =~= names.take(i as int));
        assert(names.take(i + 1).last() == name@);
        match kinds.get(name.as_str()) {
            Some(patterns) => {
                let ghost all = string_views(patterns@);
                for j in 0..patterns.len()
                    invariant
                        all == string_views(patterns@),
                        step_views(steps@) == before + Seq::new(
                            j as nat,
                            |k: int| Ok::<(Seq<char>, Seq<char>), Seq<char>>((name@, all[k])),
                        ),
                {
                    let ghost so_far = steps@;
                    steps.push(PromptStep::Pattern(name.clone(), patterns[j].clone()));
                    assert(step_views(steps@) =~= step_views(so_far).push(Ok((name@, all[j as int])))
                    );
                    assert(step_views(steps@) =~= before + Seq::new(
                        (j + 1) as nat,
                        |k: int| Ok::<(Seq<char>, Seq<char>), Seq<char>>((name@, all[k])),
                    ));
                }
                assert(step_views(steps@) =~= before + one_kind(name@, kinds@));
            },
            None => {
                steps.push(PromptStep::UnknownKind(name.clone()));
                assert(step_views(steps@) =~= before + one_kind(name@, kinds@));
            },
        }
    }
    assert(names.take(names.len() as int) =~= names);
    let ghost from_kinds = step_views(steps@);
    assert(extras.take(0) =~= Seq::empty());
    assert(step_views(steps@) =~= from_kinds + pattern_steps(extras.take(0)));
    for i in 0..extra_prompts.len()
        invariant
            extras == string_views(extra_prompts@),
            step_views(steps@) == from_kinds + pattern_steps(extras.take(i as int)),
    {
        let ghost so_far = steps@;
        let pattern = &extra_prompts[i];
        steps.push(PromptStep::Pattern(pattern.clone(), pattern.clone()));
        assert(step_views(steps@) =~= step_views(so_far).push(Ok((pattern@, pattern@))));
        assert(step_views(steps@) =~= from_kinds + pattern_steps(extras.take(i + 1)));
    }
    assert(extras.take(extras.len() as int) =~= extras);
    steps
}

impl Prompts {
    /// Takes the steps in order: compiles each pattern, and stops at the first
    /// one that is refused or kind that is unknown.
    pub fn from_steps(steps: &[PromptStep]) -> (res: Result<Self, String>)
        ensures
            match res {
                Ok(prompts) => built(step_views(steps@)) == Ok::<_, Seq<char>>(prompts@),
                Err(msg) => built(step_views(steps@)) == Err::<Seq<(Seq<char>, Regex)>, _>(msg@),
            },
    {
        let ghost all = step_views(steps@);
        let mut prompts = Prompts { entries: Vec::new() };
        assert(prompts@ =~= Seq::empty());
        assert(all.take(0) =~= Seq::empty());
        for i in 0..steps.len()
            invariant
                all == step_views(steps@),
                built(all.take(i as int)) == Ok::<_, Seq<char>>(prompts@),
        {
            let ghost before = prompts@;
            assert(all.take(i + 1).drop_last() =~= all.take(i as int));
            assert(all.take(i + 1).last() == steps@[i as int]@);
            match &steps[i] {
                PromptStep::Pattern(label, pattern) => {
                    match compile(pattern.as_str()) {
                        Ok(re) => {
                            prompts.entries.push((label.clone(), re));
                            assert(prompts@ =~= before.push((label@, re)));
                        },
                        Err(msg) => {
                            proof {
                                lemma_built_fails(all, i + 1);
                            }
                            return Err(msg);
                        },
                    }
                },
                PromptStep::UnknownKind(name) => {
                    let mut msg = "unknown REPL kind ".to_string();
                    msg.append(show_debug(name.as_str()).as_str());
                    proof {
                        lemma_built_fails(all, i + 1);
                    }
                    return Err(msg);
                },
            }
        }
        assert(all.take(all.len() as int) =~= all);
        Ok(prompts)
    }

    /// Builds a set from patterns, each labelled by itself.
    pub fn from_prompts(prompts: &[String]) -> (res: Result<Self, String>)
        ensures
            match res {
                Ok(set) => built(pattern_steps(string_views(prompts@))) == Ok::<_, Seq<char>>(set@),
                Err(msg) => built(pattern_steps(string_views(prompts@))) == Err::<
                    Seq<(Seq<char>, Regex)>,
                    _,
                >(msg@),
            },
    {
        let steps = prompt_steps(&[], &Kinds::new(), prompts);
        assert(step_views(steps@) =~= pattern_steps(string_views(prompts@)));
        Self::from_steps(steps.as_slice())
    }

    /// Builds a set from named kinds of a table, each pattern labelled by its
    /// kind, and from extra patterns, each labelled by itself.
    pub fn from_kinds(kind_names: &[String], kinds: &Kinds, extra_prompts: &[String]) -> (res:
        Result<Self, String>)
        ensures
            ({
                let steps = kind_steps(string_views(kind_names@), kinds@) + pattern_steps(
                    string_views(extra_prompts@),
                );
                match res {
                    Ok(set) => built(steps) == Ok::<_, Seq<char>>(set@),
                    Err(msg) => built(steps) == Err::<Seq<(Seq<char>, Regex)>, _>(msg@),
                }
            }),
    {
        let steps = prompt_steps(kind_names, kinds, extra_prompts);
        Self::from_steps(steps.as_slice())
    }
}

/// The label of the prompt that the pane shows, when its last meaningful line
/// is a bare prompt.
pub open spec fn idle_label(prompts: Seq<(Seq<char>, Regex)>, lines: Seq<Seq<char>>) -> Option<
    Seq<char>,
> {
    match idle_pattern(prompts, lines) {
        Some(i) => Some(prompts[i].0),
        None => None,
    }
}

/// The position of the prompt that the pane shows, when its last meaningful
/// line is a bare prompt.
pub open spec fn idle_pattern(prompts: Seq<(Seq<char>, Regex)>, lines: Seq<Seq<char>>) -> Option<
    int,
> {
    match last_meaningful(lines) {
        Some(line) => idle_index(prompts, line),
        None => None,
    }
}

/// The label of the prompt of which the last meaningful line is a bare one, if
/// the REPL is idle and shows a known prompt.
pub fn detect_idle_kind<'a>(prompt: &'a Prompts, lines: &[&str]) -> (res: Option<&'a str>)
    ensures
        match res {
            Some(label) => idle_label(prompt@, views(lines@)) == Some(label@),
            None => idle_label(prompt@, views(lines@)) is None,
        },
{
    match last_meaningful_line(lines) {
        Some(line) => prompt.detect_idle(line),
        None => None,
    }
}

/// The position of the prompt of which the last meaningful line is a bare one,
/// if any.
pub fn detect_idle_index(prompt: &Prompts, lines: &[&str]) -> (res: Option<usize>)
    ensures
        match res {
            Some(i) => i < prompt@.len() && idle_pattern(prompt@, views(lines@)) == Some(i as int),
            None => idle_pattern(prompt@, views(lines@)) is None,
        },
{
    match last_meaningful_line(lines) {
        Some(line) => prompt.detect_idle_index(line),
        None => None,
    }
}

/// True when the last meaningful line of the pane is a bare prompt. An echoed
/// command such as `>>> time.sleep(5)` starts with the prompt, but the REPL is
/// busy with it.
pub fn is_repl_ready(prompt: &Prompts, lines: &[&str]) -> (res: bool)
    ensures
        res == (idle_pattern(prompt@, views(lines@)) is Some),
{
    detect_idle_kind(prompt, lines).is_some()
}

/// A bare prompt is a prompt line, as it stands or with the spaces that were
/// trimmed from it.
pub proof fn law_idle_line_is_prompt_line(prompts: Seq<(Seq<char>, Regex)>, line: Seq<char>)
    requires
        idle_index(prompts, line) is Some,
    ensures
        exists|n: nat| n <= TRIMMED_SPACES && prompt_line(prompts, #[trigger] spaced(line, n)),
{
    lemma_idle_index(prompts, line);
    let i = idle_index(prompts, line)->0;
    let re = prompts[i].1;
    let n: nat = if idle_span(line, regex_find(re, line)) {
        0
    } else {
        let k = choose|k: int|
            0 <= k < padded_spans(re, line).len() && whole_span(
                spaced(line, (k + 1) as nat),
                #[trigger] padded_spans(re, line)[k],
            );
        (k + 1) as nat
    };
    assert(spaced(line, 0) =~= line);
    assert(at_line_start(spans_in(prompts, spaced(line, n))[i]));
    assert(prompt_line(prompts, spaced(line, n)));
}

/// Asking for one pattern is stricter than asking for any, and the pattern
/// that is detected passes when it is asked for.
pub proof fn law_required_pattern(
    prompts: Seq<(Seq<char>, Regex)>,
    index: Option<usize>,
    line: Seq<char>,
)
    ensures
        idle_at(prompts, index, line) ==> idle_at(prompts, None, line),
        prompts.len() <= usize::MAX && idle_index(prompts, line) is Some ==> idle_at(
            prompts,
            Some(idle_index(prompts, line)->0 as usize),
            line,
        ),
{
    lemma_idle_index(prompts, line);
    if let Some(i) = index {
        if idle_at(prompts, index, line) {
            assert(idle_by(prompts[i as int].1, line));
        }
    }
}

/// What is left of a line has no surrounding whitespace.
pub proof fn law_command_is_trimmed(prompts: Seq<(Seq<char>, Regex)>, line: Seq<char>)
    ensures
        trimmed(command_in(prompts, line)) == command_in(prompts, line),
{
    lemma_stripped_is_trimmed(line, spans_in(prompts, line), 0);
}

proof fn lemma_stripped_is_trimmed(
    line: Seq<char>,
    spans: Seq<Option<(usize, usize)>>,
    from: int,
)
    ensures
        trimmed(stripped_from(line, spans, from)) == stripped_from(line, spans, from),
    decreases spans.len() - from,
{
    if from < 0 || from >= spans.len() {
        law_trimmed(line);
    } else {
        match spans[from] {
            Some((start, end)) if start == 0 => {
                law_trimmed(crate::pattern::suffix_from(line, end as int));
            },
            _ => {
                lemma_stripped_is_trimmed(line, spans, from + 1);
            },
        }
    }
}

/// A line that starts with a prompt is that prompt and then a command: where
/// the first pattern that matches at the start matches exactly `shown`, what
/// follows it, trimmed, is the command.
pub proof fn law_prompt_then_command(
    prompts: Seq<(Seq<char>, Regex)>,
    shown: Seq<char>,
    rest: Seq<char>,
    i: int,
    end: usize,
)
    requires
        0 <= i < prompts.len(),
        end == encode_utf8(shown).len(),
        regex_find(prompts[i].1, shown + rest) == Some((0usize, end)),
        forall|j: int|
            0 <= j < i ==> !at_line_start(regex_find((#[trigger] prompts[j]).1, shown + rest)),
    ensures
        prompt_line(prompts, shown + rest),
        command_in(prompts, shown + rest) == trimmed(rest),
        idle_span(shown + rest, regex_find(prompts[i].1, shown + rest)) == blank(rest),
{
    let line = shown + rest;
    let spans = spans_in(prompts, line);
    law_rest_follows_the_match(shown, rest);
    assert(at_line_start(spans[i]));
    assert forall|j: int| 0 <= j < i implies !at_line_start(#[trigger] spans[j]) by {
        assert(!at_line_start(regex_find(prompts[j].1, line)));
    }
    lemma_stripped_at(line, spans, 0, i);
}

/// The first span at the start of the line strips it.
proof fn lemma_stripped_at(
    line: Seq<char>,
    spans: Seq<Option<(usize, usize)>>,
    from: int,
    i: int,
)
    requires
        0 <= from <= i < spans.len(),
        at_line_start(spans[i]),
        forall|j: int| from <= j < i ==> !at_line_start(#[trigger] spans[j]),
    ensures
        Some(stripped_from(line, spans, from)) == stripped_by(line, spans[i]),
    decreases i - from,
{
    if from < i {
        assert(!at_line_start(spans[from]));
        lemma_stripped_at(line, spans, from + 1, i);
    }
}

/// A line that no pattern matches at its start is only trimmed: text before a
/// match in the middle of a line is never lost.
pub proof fn law_other_lines_keep_their_text(prompts: Seq<(Seq<char>, Regex)>, line: Seq<char>)
    requires
        !prompt_line(prompts, line),
    ensures
        command_in(prompts, line) == trimmed(line),
{
    lemma_nothing_stripped(line, spans_in(prompts, line), 0);
}

proof fn lemma_nothing_stripped(line: Seq<char>, spans: Seq<Option<(usize, usize)>>, from: int)
    requires
        !any_at_line_start(spans),
    ensures
        stripped_from(line, spans, from) == trimmed(line),
    decreases spans.len() - from,
{
    if 0 <= from < spans.len() {
        assert(!at_line_start(spans[from]));
        lemma_nothing_stripped(line, spans, from + 1);
    }
}

/// A set is built exactly when every kind is known and every pattern compiles.
/// It then has one entry for each step, in order, with the label of the step
/// and its pattern compiled.
pub proof fn law_built(steps: Seq<Result<(Seq<char>, Seq<char>), Seq<char>>>)
    ensures
        built(steps) is Ok <==> (forall|i: int|
            0 <= i < steps.len() ==> (#[trigger] steps[i] matches Ok((_, pattern)) && regex_new(
                pattern,
            ) is Ok)),
        built(steps) matches Ok(entries) ==> {
            &&& entries.len() == steps.len()
            &&& forall|i: int|
                0 <= i < entries.len() ==> (steps[i] matches Ok((label, pattern)) && (
                #[trigger] entries[i]).0 == label && regex_new(pattern) == Ok::<Regex, Error>(
                    entries[i].1,
                ))
        },
    decreases steps.len(),
{
    if steps.len() > 0 {
        let front = steps.drop_last();
        law_built(front);
        let n = steps.len() - 1;
        assert(forall|i: int| 0 <= i < n ==> #[trigger] front[i] == steps[i]);
        if built(steps) is Ok {
            assert(built(front) is Ok);
            assert forall|i: int| 0 <= i < steps.len() implies (#[trigger] steps[i] matches Ok((
                _,
                pattern,
            )) && regex_new(pattern) is Ok) by {
                if i < n {
                    assert(front[i] == steps[i]);
                }
            }
        }
        if forall|i: int|
            0 <= i < steps.len() ==> (#[trigger] steps[i] matches Ok((_, pattern)) && regex_new(
                pattern,
            ) is Ok) {
            assert forall|i: int| 0 <= i < front.len() implies (#[trigger] front[i] matches Ok((
                _,
                pattern,
            )) && regex_new(pattern) is Ok) by {
                assert(front[i] == steps[i]);
            }
            assert(steps[n] == steps.last());
        }
        if let Ok(entries) = built(steps) {
            let before = built(front)->Ok_0;
            assert(entries.drop_last() =~= before);
            assert forall|i: int| 0 <= i < entries.len() implies (steps[i] matches Ok((
                label,
                pattern,
            )) && (#[trigger] entries[i]).0 == label && regex_new(pattern) == Ok::<Regex, Error>(
                entries[i].1,
            )) by {
                if i < n {
                    assert(before[i] == entries[i]);
                    assert(front[i] == steps[i]);
                }
            }
        }
    }
}

/// A line is a prompt line exactly when some pattern matches from its first
/// byte on.
pub proof fn law_what_a_prompt_line_is(prompts: Seq<(Seq<char>, Regex)>, line: Seq<char>)
    ensures
        prompt_line(prompts, line) <==> exists|i: int|
            0 <= i < prompts.len() && (regex_find((#[trigger] prompts[i]).1, line) matches Some((
                start,
                _,
            )) && start == 0),
{
    let spans = spans_in(prompts, line);
    if prompt_line(prompts, line) {
        let i = choose|i: int| 0 <= i < spans.len() && at_line_start(#[trigger] spans[i]);
        assert(regex_find(prompts[i].1, line) == spans[i]);
    }
    if exists|i: int|
        0 <= i < prompts.len() && (regex_find((#[trigger] prompts[i]).1, line) matches Some((
            start,
            _,
        )) && start == 0) {
        let i = choose|i: int|
            0 <= i < prompts.len() && (regex_find((#[trigger] prompts[i]).1, line) matches Some((
                start,
                _,
            )) && start == 0);
        assert(at_line_start(spans[i]));
    }
}

/// The command of a line is what follows its prompt, trimmed, where the first
/// pattern that matches from the start matches exactly `shown`; a line that no
/// pattern matches from its start is its own command, trimmed.
pub proof fn law_what_the_command_is(
    prompts: Seq<(Seq<char>, Regex)>,
    shown: Seq<char>,
    rest: Seq<char>,
    i: int,
)
    requires
        0 <= i <= prompts.len(),
        forall|j: int|
            0 <= j < i ==> !(regex_find((#[trigger] prompts[j]).1, shown + rest) matches Some((
                start,
                _,
            )) && start == 0),
        i < prompts.len() ==> (regex_find(prompts[i].1, shown + rest) matches Some((start, end))
            && start == 0 && end == encode_utf8(shown).len()),
    ensures
        command_in(prompts, shown + rest) == (if i < prompts.len() {
            trimmed(rest)
        } else {
            trimmed(shown + rest)
        }),
{
    let line = shown + rest;
    let spans = spans_in(prompts, line);
    if i < prompts.len() {
        let (_, end) = regex_find(prompts[i].1, line)->0;
        assert forall|j: int| 0 <= j < i implies !at_line_start(
            regex_find((#[trigger] prompts[j]).1, line),
        ) by {}
        law_prompt_then_command(prompts, shown, rest, i, end);
    } else {
        law_what_a_prompt_line_is(prompts, line);
        law_other_lines_keep_their_text(prompts, line);
    }
}

/// Of several spans the first at the start of the line strips it, and without
/// one the line is only trimmed.
pub proof fn law_what_spans_strip(
    shown: Seq<char>,
    rest: Seq<char>,
    spans: Seq<Option<(usize, usize)>>,
    i: int,
)
    requires
        0 <= i <= spans.len(),
        forall|j: int|
            0 <= j < i ==> !(#[trigger] spans[j] matches Some((start, _)) && start == 0),
        i < spans.len() ==> (spans[i] matches Some((start, end)) && start == 0 && end
            == encode_utf8(shown).len()),
    ensures
        stripped(shown + rest, spans) == (if i < spans.len() {
            trimmed(rest)
        } else {
            trimmed(shown + rest)
        }),
        any_at_line_start(spans) <==> i < spans.len(),
{
    let line = shown + rest;
    law_rest_follows_the_match(shown, rest);
    assert forall|j: int| 0 <= j < i implies !at_line_start(#[trigger] spans[j]) by {}
    if i < spans.len() {
        assert(at_line_start(spans[i]));
        lemma_stripped_at(line, spans, 0, i);
    } else {
        lemma_nothing_stripped(line, spans, 0);
    }
}

/// The pattern that counts for a bare prompt is the first of which the line is
/// one; without such a pattern there is none.
pub proof fn law_first_bare_prompt(
    prompts: Seq<(Seq<char>, Regex)>,
    line: Seq<char>,
    i: int,
    index: usize,
)
    requires
        0 <= i <= prompts.len(),
        forall|j: int| 0 <= j < i ==> !idle_by((#[trigger] prompts[j]).1, line),
        i < prompts.len() ==> idle_by(prompts[i].1, line),
    ensures
        idle_index(prompts, line) == (if i < prompts.len() {
            Some(i)
        } else {
            None
        }),
        idle_at(prompts, None, line) <==> i < prompts.len(),
        idle_at(prompts, Some(index), line) <==> index < prompts.len() && idle_by(
            prompts[index as int].1,
            line,
        ),
{
    lemma_idle_index(prompts, line);
    if let Some(k) = idle_index(prompts, line) {
        if k < i {
            assert(!idle_by(prompts[k].1, line));
        }
        if i < k {
            assert(!idle_by(prompts[i].1, line));
        }
    }
}

/// Of several matches the first of which the line is a bare prompt counts.
pub proof fn law_first_bare_match(
    line: Seq<char>,
    matches: Seq<(Option<(usize, usize)>, Seq<Option<(usize, usize)>>)>,
    i: int,
)
    requires
        0 <= i <= matches.len(),
        forall|j: int| 0 <= j < i ==> !idle_line(line, (#[trigger] matches[j]).0, matches[j].1),
        i < matches.len() ==> idle_line(line, matches[i].0, matches[i].1),
    ensures
        first_idle(line, matches) == (if i < matches.len() {
            Some(i)
        } else {
            None
        }),
{
    lemma_first_idle(line, matches, 0);
    if let Some(k) = first_idle(line, matches) {
        if k < i {
            assert(!idle_line(line, matches[k].0, matches[k].1));
        }
        if i < k {
            assert(!idle_line(line, matches[i].0, matches[i].1));
        }
    }
}

/// The last line that is not blank decides what prompt a pane shows, whatever
/// comes before it and however many blank lines follow it: the first pattern
/// of which it is a bare prompt, with its label, or none.
pub proof fn law_last_line_decides(
    prompts: Seq<(Seq<char>, Regex)>,
    lines: Seq<Seq<char>>,
    k: int,
    i: int,
)
    requires
        0 <= k < lines.len(),
        !blank(lines[k]),
        forall|j: int| k < j < lines.len() ==> blank(#[trigger] lines[j]),
        0 <= i <= prompts.len(),
        forall|j: int| 0 <= j < i ==> !idle_by((#[trigger] prompts[j]).1, lines[k]),
        i < prompts.len() ==> idle_by(prompts[i].1, lines[k]),
    ensures
        idle_pattern(prompts, lines) == (if i < prompts.len() {
            Some(i)
        } else {
            None
        }),
        idle_label(prompts, lines) == (if i < prompts.len() {
            Some(prompts[i].0)
        } else {
            None
        }),
{
    law_blank_lines_do_not_count(lines, k);
    law_first_bare_prompt(prompts, lines[k], i, 0);
}

/// A blank pane shows no prompt.
pub proof fn law_blank_pane_shows_no_prompt(
    prompts: Seq<(Seq<char>, Regex)>,
    lines: Seq<Seq<char>>,
)
    requires
        forall|j: int| 0 <= j < lines.len() ==> blank(#[trigger] lines[j]),
    ensures
        idle_pattern(prompts, lines) is None,
        idle_label(prompts, lines) is None,
{
    law_last_meaningful(lines);
}

/// Kinds are taken one after the other: a known kind gives its patterns in
/// order, each under its name, an unknown one a failure with its name.
pub proof fn law_steps_of_kinds(
    names: Seq<Seq<char>>,
    name: Seq<char>,
    kinds: Map<Seq<char>, Seq<Seq<char>>>,
)
    ensures
        kind_steps(Seq::empty(), kinds).len() == 0,
        !kinds.contains_key(name) ==> kind_steps(names.push(name), kinds) == kind_steps(
            names,
            kinds,
        ).push(Err(name)),
        kinds.contains_key(name) ==> ({
            let before = kind_steps(names, kinds);
            let all = kind_steps(names.push(name), kinds);
            &&& all.len() == before.len() + kinds[name].len()
            &&& all.take(before.len() as int) == before
            &&& forall|i: int|
                0 <= i < kinds[name].len() ==> all[before.len() + i] == Ok::<_, Seq<char>>(
                    (name, #[trigger] kinds[name][i]),
                )
        }),
{
    let before = kind_steps(names, kinds);
    let all = kind_steps(names.push(name), kinds);
    assert(names.push(name).drop_last() =~= names);
    if kinds.contains_key(name) {
        assert(all.take(before.len() as int) =~= before);
    } else {
        assert(all =~= before.push(Err(name)));
    }
}

/// A pattern without a kind is its own label.
pub proof fn law_steps_of_patterns(patterns: Seq<Seq<char>>)
    ensures
        pattern_steps(patterns).len() == patterns.len(),
        forall|i: int|
            0 <= i < patterns.len() ==> pattern_steps(patterns)[i] == Ok::<_, Seq<char>>(
                (#[trigger] patterns[i], patterns[i]),
            ),
{
}

/// The first step that fails decides what is said: an unknown kind is named, a
/// refused pattern is named with the reason.
pub proof fn law_first_failure_is_told(
    steps: Seq<Result<(Seq<char>, Seq<char>), Seq<char>>>,
    i: int,
)
    requires
        0 <= i < steps.len(),
        forall|j: int|
            0 <= j < i ==> (#[trigger] steps[j] matches Ok((_, pattern)) && regex_new(
                pattern,
            ) is Ok),
        steps[i] matches Ok((_, pattern)) ==> regex_new(pattern) is Err,
    ensures
        built(steps) == Err::<Seq<(Seq<char>, Regex)>, _>(
            match steps[i] {
                Err(name) => "unknown REPL kind "@ + debug_text(name),
                Ok((_, pattern)) => "invalid prompt regex "@ + debug_text(pattern) + ": "@
                    + regex_error_text(regex_new(pattern)->Err_0),
            },
        ),
{
    let front = steps.take(i);
    law_built(front);
    assert forall|j: int| 0 <= j < front.len() implies (#[trigger] front[j] matches Ok((
        _,
        pattern,
    )) && regex_new(pattern) is Ok) by {
        assert(front[j] == steps[j]);
    }
    assert(steps.take(i + 1).drop_last() =~= front);
    assert(steps.take(i + 1).last() == steps[i]);
    lemma_built_fails(steps, i + 1);
}

/// The line at `k` is the last that is not blank.
pub open spec fn last_shown(lines: Seq<Seq<char>>, k: int) -> bool {
    &&& 0 <= k < lines.len()
    &&& !blank(lines[k])
    &&& forall|j: int| k < j < lines.len() ==> blank(#[trigger] lines[j])
}

/// `line` is itself a bare prompt: of the pattern at `index`, or of any when
/// that is `None`.
pub open spec fn bare_prompt_of(
    prompts: Seq<(Seq<char>, Regex)>,
    index: Option<usize>,
    line: Seq<char>,
) -> bool {
    if index is Some {
        index->0 < prompts.len() && idle_by(prompts[index->0 as int].1, line)
    } else {
        exists|i: int| 0 <= i < prompts.len() && idle_by((#[trigger] prompts[i]).1, line)
    }
}

/// The REPL waits for input: the last line of the pane that is not blank is
/// itself a bare prompt, of the pattern at `index`, or of any when that is
/// `None`.
pub open spec fn pane_waits(
    prompts: Seq<(Seq<char>, Regex)>,
    index: Option<usize>,
    lines: Seq<Seq<char>>,
) -> bool {
    exists|k: int| #[trigger]
        last_shown(lines, k) && bare_prompt_of(prompts, index, lines[k])
}

/// A pane shows a prompt exactly when its last line that is not blank is a bare
/// one.
pub proof fn law_pane_shows_a_prompt(
    prompts: Seq<(Seq<char>, Regex)>,
    lines: Seq<Seq<char>>,
    index: Option<usize>,
)
    ensures
        idle_pattern(prompts, lines) is Some <==> pane_waits(prompts, None, lines),
        idle_label(prompts, lines) is Some <==> pane_waits(prompts, None, lines),
        (last_meaningful(lines) matches Some(line) && idle_at(prompts, index, line))
            <==> pane_waits(prompts, index, lines),
{
    law_last_meaningful(lines);
    match last_meaningful(lines) {
        Some(line) => {
            let k = choose|k: int|
                0 <= k < lines.len() && last_meaningful(lines) == Some(#[trigger] lines[k])
                    && !blank(lines[k]) && forall|j: int|
                    k < j < lines.len() ==> blank(#[trigger] lines[j]);
            assert(last_shown(lines, k));
            assert forall|j: int| #[trigger] last_shown(lines, j) implies j == k by {
                if j < k {
                    assert(blank(lines[k]));
                }
                if k < j {
                    assert(blank(lines[j]));
                }
            }
            lemma_idle_index(prompts, line);
            if let Some(i) = idle_index(prompts, line) {
                assert(idle_by(prompts[i].1, lines[k]));
            }
            assert(pane_waits(prompts, None, lines) <==> bare_prompt_of(prompts, None, line));
            assert(pane_waits(prompts, index, lines) <==> bare_prompt_of(prompts, index, line));
        },
        None => {
            assert forall|j: int| !#[trigger] last_shown(lines, j) by {
                if 0 <= j < lines.len() {
                    assert(blank(lines[j]));
                }
            }
        },
    }
}

/// What was found is told of every pattern, in order: the first match in the
/// line as it stands, and in the line with one space after it, with two, and so
/// on up to sixteen.
pub proof fn law_every_pattern_is_looked_for(
    prompts: Seq<(Seq<char>, Regex)>,
    line: Seq<char>,
    i: int,
)
    requires
        0 <= i < prompts.len(),
    ensures
        spans_in(prompts, line).len() == prompts.len(),
        spans_in(prompts, line)[i] == regex_find(prompts[i].1, line),
        matches_in(prompts, line).len() == prompts.len(),
        matches_in(prompts, line)[i].0 == regex_find(prompts[i].1, line),
        matches_in(prompts, line)[i].1.len() == 16,
        forall|k: int|
            0 <= k < 16 ==> #[trigger] matches_in(prompts, line)[i].1[k] == regex_find(
                prompts[i].1,
                spaced(line, (k + 1) as nat),
            ),
{
}

/// The contents of steps and matches are all of them, in order.
pub proof fn law_step_contents(
    steps: Seq<PromptStep>,
    matches: Seq<PromptMatch>,
    label: String,
    pattern: String,
)
    ensures
        step_views(steps).len() == steps.len(),
        forall|i: int| 0 <= i < steps.len() ==> #[trigger] step_views(steps)[i] == steps[i]@,
        PromptStep::Pattern(label, pattern)@ == Ok::<_, Seq<char>>((label@, pattern@)),
        PromptStep::UnknownKind(label)@ == Err::<(Seq<char>, Seq<char>), _>(label@),
        match_views(matches).len() == matches.len(),
        forall|i: int|
            0 <= i < matches.len() ==> #[trigger] match_views(matches)[i] == (
                matches[i].span,
                matches[i].padded@,
            ),
{
}

}
