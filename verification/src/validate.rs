//! Sanity checks: custom prompt patterns against ordinary output, and the
//! socket path.
use vstd::prelude::*;

use crate::pattern::{
    compile_regex, debug_text, idle_by, idle_match, regex_find, regex_is_match, regex_new,
    show_debug,
};
use crate::text::{blank, is_blank, string_views, views};

verus! {

/// Lines that ordinary output is made of, and that a prompt pattern must not
/// match.
pub open spec fn output_like() -> Seq<Seq<char>> {
    seq![
        "1024"@,
        "0"@,
        "1"@,
        "7"@,
        "42"@,
        "100"@,
        "65536"@,
        "123456789"@,
        "3.14"@,
        "-1"@,
        "ok"@,
        "true"@,
        "false"@,
        "nil"@,
        "NIL"@,
        "hello"@,
        "foo"@,
        "(foo)"@,
    ]
}

/// Lines that ordinary output is made of, and that a prompt pattern must not
/// match.
pub fn output_like_samples() -> (res: Vec<&'static str>)
    ensures
        views(res@) == output_like(),
{
    let samples = vec![
        "1024",
        "0",
        "1",
        "7",
        "42",
        "100",
        "65536",
        "123456789",
        "3.14",
        "-1",
        "ok",
        "true",
        "false",
        "nil",
        "NIL",
        "hello",
        "foo",
        "(foo)",
    ];
    assert(views(samples@) =~= output_like());
    samples
}

/// The warning about a pattern that matches the output line `sample`, which
/// may be `idle`: a bare prompt of the pattern.
pub open spec fn output_warning_text(
    pattern: Seq<char>,
    sample: Seq<char>,
    idle: bool,
) -> Seq<char> {
    "prompt regex "@ + debug_text(pattern) + " also matches the ordinary output line "@
        + debug_text(sample) + (if idle {
        " as a bare idle prompt"@
    } else {
        Seq::empty()
    })
        + "; muxxy may treat that output as a prompt and drop it — anchor the pattern to the real prompt shape (e.g. require a trailing ']' or '> ')"@
}

/// The pattern matches the output line `sample`, or would take it for a bare
/// prompt of which the trailing spaces were trimmed.
pub open spec fn takes_output(re: regex::Regex, sample: Seq<char>) -> bool {
    regex_find(re, sample) is Some || idle_by(re, sample)
}

/// The first of `samples` from `from` on that the pattern matches.
pub open spec fn first_matched(
    re: regex::Regex,
    samples: Seq<Seq<char>>,
    from: int,
) -> Option<int>
    decreases samples.len() - from,
{
    if from < 0 || from >= samples.len() {
        None
    } else if takes_output(re, samples[from]) {
        Some(from)
    } else {
        first_matched(re, samples, from + 1)
    }
}

/// The warning about one pattern, if it compiles and matches an output line or
/// takes one for a bare prompt; it names the first such line.
pub open spec fn pattern_warning(pattern: Seq<char>) -> Option<Seq<char>> {
    match regex_new(pattern) {
        Ok(re) => match first_matched(re, output_like(), 0) {
            Some(i) => Some(
                output_warning_text(pattern, output_like()[i], idle_by(re, output_like()[i])),
            ),
            None => None,
        },
        Err(_) => None,
    }
}

/// The warnings about patterns, in order, at most one for each.
pub open spec fn pattern_warnings(patterns: Seq<Seq<char>>) -> Seq<Seq<char>>
    decreases patterns.len(),
{
    if patterns.len() == 0 {
        Seq::empty()
    } else {
        let before = pattern_warnings(patterns.drop_last());
        match pattern_warning(patterns.last()) {
            Some(warning) => before.push(warning),
            None => before,
        }
    }
}

/// The warning about a pattern that matches the output line `sample`, which
/// may be `idle`: a bare prompt of the pattern.
pub fn output_warning(pattern: &str, sample: &str, idle: bool) -> (res: String)
    ensures
        res@ == output_warning_text(pattern@, sample@, idle),
{
    let mut warning = "prompt regex ".to_string();
    warning.append(show_debug(pattern).as_str());
    warning.append(" also matches the ordinary output line ");
    warning.append(show_debug(sample).as_str());
    if idle {
        warning.append(" as a bare idle prompt");
    } else {
        assert(warning@ + Seq::<char>::empty() =~= warning@);
    }
    warning.append(
        "; muxxy may treat that output as a prompt and drop it — anchor the pattern to the real prompt shape (e.g. require a trailing ']' or '> ')",
    );
    warning
}

/// The warning about one pattern, if it matches a line of ordinary output.
fn check_pattern(pattern: &str) -> (res: Option<String>)
    ensures
        match res {
            Some(warning) => pattern_warning(pattern@) == Some(warning@),
            None => pattern_warning(pattern@) is None,
        },
{
    let re = match compile_regex(pattern) {
        Ok(re) => re,
        // Refused patterns are reported when the prompts are built.
        Err(_) => {
            return None;
        },
    };
    let samples = output_like_samples();
    for i in 0..samples.len()
        invariant
            regex_new(pattern@) == Ok::<regex::Regex, regex::Error>(re),
            views(samples@) == output_like(),
            samples@.len() == output_like().len(),
            first_matched(re, output_like(), 0) == first_matched(re, output_like(), i as int),
    {
        assert(views(samples@)[i as int] == samples@[i as int]@);
        let idle = idle_match(&re, samples[i]);
        if idle || regex_is_match(&re, samples[i]) {
            return Some(output_warning(pattern, samples[i], idle));
        }
    }
    None
}

/// Checks custom prompt patterns against lines of ordinary output, such as
/// bare numbers and short words. A hand-written pattern often matches them, or
/// takes them for a prompt whose trailing spaces were trimmed, and output would
/// then be dropped. Returns one warning for each such pattern; the pattern
/// still works.
pub fn validate_custom_prompts(prompts: &[String]) -> (res: Vec<String>)
    ensures
        string_views(res@) == pattern_warnings(string_views(prompts@)),
{
    let ghost all = string_views(prompts@);
    let mut warnings: Vec<String> = Vec::new();
    assert(all.take(0) =~= Seq::empty());
    assert(string_views(warnings@) =~= Seq::<Seq<char>>::empty());
    for i in 0..prompts.len()
        invariant
            all == string_views(prompts@),
            string_views(warnings@) == pattern_warnings(all.take(i as int)),
    {
        let ghost before = warnings@;
        assert(all.take(i + 1).drop_last() =~= all.take(i as int));
        assert(all.take(i + 1).last() == prompts@[i as int]@);
        if let Some(warning) = check_pattern(prompts[i].as_str()) {
            warnings.push(warning);
            assert(string_views(warnings@) =~= string_views(before).push(warning@));
        }
    }
    assert(all.take(all.len() as int) =~= all);
    warnings
}

/// A pattern draws a warning exactly when it compiles and matches a line of
/// ordinary output, or takes one for a bare prompt.
pub proof fn law_warned_patterns(pattern: Seq<char>)
    ensures
        pattern_warning(pattern) is Some <==> (regex_new(pattern) matches Ok(re) && exists|i: int|
            0 <= i < output_like().len() && takes_output(re, #[trigger] output_like()[i])),
{
    if let Ok(re) = regex_new(pattern) {
        lemma_first_matched(re, output_like(), 0);
    }
}

proof fn lemma_first_matched(re: regex::Regex, samples: Seq<Seq<char>>, from: int)
    requires
        0 <= from <= samples.len(),
    ensures
        match first_matched(re, samples, from) {
            Some(i) => from <= i < samples.len() && takes_output(re, samples[i]),
            None => forall|i: int|
                from <= i < samples.len() ==> !takes_output(re, #[trigger] samples[i]),
        },
    decreases samples.len() - from,
{
    if from < samples.len() && !takes_output(re, samples[from]) {
        lemma_first_matched(re, samples, from + 1);
    }
}

/// There is one warning for each pattern that draws one, and no other, in the
/// order of the patterns.
pub proof fn law_one_warning_per_pattern(patterns: Seq<Seq<char>>)
    ensures
        pattern_warnings(patterns) == patterns.filter(
            |p: Seq<char>| pattern_warning(p) is Some,
        ).map_values(|p: Seq<char>| pattern_warning(p)->0),
    decreases patterns.len(),
{
    reveal(Seq::filter);
    let drawn = patterns.filter(|p: Seq<char>| pattern_warning(p) is Some);
    if patterns.len() > 0 {
        law_one_warning_per_pattern(patterns.drop_last());
    }
    assert(pattern_warnings(patterns) =~= drawn.map_values(
        |p: Seq<char>| pattern_warning(p)->0,
    ));
}

/// What is said of a socket path that is empty or blank.
pub open spec fn empty_socket_text() -> Seq<char> {
    "socket path must not be empty"@
}

/// Accepts a socket path unless it is empty or holds only whitespace.
pub fn check_socket_path(path: &str) -> (res: Result<String, String>)
    ensures
        match res {
            Ok(p) => !blank(path@) && p@ == path@,
            Err(msg) => blank(path@) && msg@ == empty_socket_text(),
        },
{
    if is_blank(path) {
        Err("socket path must not be empty".to_string())
    } else {
        Ok(path.to_string())
    }
}

/// The warning about a pattern names the first line of ordinary output that it
/// matches or takes for a bare prompt, and says which of the two; a pattern
/// that does neither, or does not compile, draws none.
pub proof fn law_warning_names_the_first_line(pattern: Seq<char>, i: int)
    requires
        0 <= i <= output_like().len(),
        regex_new(pattern) matches Ok(re) ==> {
            &&& forall|j: int|
                0 <= j < i ==> regex_find(re, #[trigger] output_like()[j]) is None && !idle_by(
                    re,
                    output_like()[j],
                )
            &&& i < output_like().len() ==> regex_find(re, output_like()[i]) is Some || idle_by(
                re,
                output_like()[i],
            )
        },
    ensures
        pattern_warning(pattern) == (if regex_new(pattern) is Ok && i < output_like().len() {
            Some(
                "prompt regex "@ + debug_text(pattern)
                    + " also matches the ordinary output line "@ + debug_text(output_like()[i]) + (
                if idle_by(regex_new(pattern)->Ok_0, output_like()[i]) {
                    " as a bare idle prompt"@
                } else {
                    Seq::empty()
                })
                    + "; muxxy may treat that output as a prompt and drop it — anchor the pattern to the real prompt shape (e.g. require a trailing ']' or '> ')"@,
            )
        } else {
            None
        }),
{
    if let Ok(re) = regex_new(pattern) {
        lemma_first_matched(re, output_like(), 0);
        if let Some(k) = first_matched(re, output_like(), 0) {
            if k < i {
                assert(!takes_output(re, output_like()[k]));
            }
            lemma_first_matched_at(re, output_like(), 0, i);
        } else if i < output_like().len() {
            assert(!takes_output(re, output_like()[i]));
        }
    }
}

proof fn lemma_first_matched_at(re: regex::Regex, samples: Seq<Seq<char>>, from: int, i: int)
    requires
        0 <= from <= i < samples.len(),
        takes_output(re, samples[i]),
        forall|j: int| from <= j < i ==> !takes_output(re, #[trigger] samples[j]),
    ensures
        first_matched(re, samples, from) == Some(i),
    decreases i - from,
{
    if from < i {
        assert(!takes_output(re, samples[from]));
        lemma_first_matched_at(re, samples, from + 1, i);
    }
}

/// A warning names the pattern and the line, and says whether the line is a
/// bare prompt of the pattern.
pub proof fn law_warning_text(pattern: Seq<char>, sample: Seq<char>, idle: bool)
    ensures
        output_warning_text(pattern, sample, idle) == "prompt regex "@ + debug_text(pattern)
            + " also matches the ordinary output line "@ + debug_text(sample) + (if idle {
            " as a bare idle prompt"@
        } else {
            Seq::empty()
        })
            + "; muxxy may treat that output as a prompt and drop it — anchor the pattern to the real prompt shape (e.g. require a trailing ']' or '> ')"@,
        empty_socket_text() == "socket path must not be empty"@,
{
}

}
