//! Prompt patterns: the boundary to the `regex` crate, and what a match says
//! about the line it was found in.
use regex::{Error, Regex};
use vstd::prelude::*;
use vstd::utf8::{decode_utf8, encode_utf8, is_char_boundary};

use crate::text::{blank, is_blank, trim, trimmed};

verus! {

/// A compiled regular expression of the `regex` crate.
#[verifier::external_type_specification]
#[verifier::external_body]
pub struct ExRegex(Regex);

/// The reason for which the `regex` crate refuses a pattern.
#[verifier::external_type_specification]
#[verifier::external_body]
pub struct ExRegexError(Error);

/// What `Regex::new` makes of a pattern.
pub uninterp spec fn regex_new(pattern: Seq<char>) -> Result<Regex, Error>;

/// The byte offsets between which `Regex::find` finds the first match, or
/// `None` when there is no match.
pub uninterp spec fn regex_find(re: Regex, text: Seq<char>) -> Option<(usize, usize)>;

/// What `Display` writes for a refusal.
pub uninterp spec fn regex_error_text(e: Error) -> Seq<char>;

/// What `Debug` writes for a string: the string in double quotes, with
/// escapes.
pub uninterp spec fn debug_text(s: Seq<char>) -> Seq<char>;

/// Calls `Regex::new`, which compiles `pattern` or says why it does not. The
/// outcome depends on the pattern alone.
#[verifier::external_body]
pub(crate) fn compile_regex(pattern: &str) -> (res: Result<Regex, Error>)
    ensures
        res == regex_new(pattern@),
{
    Regex::new(pattern)
}

/// Calls `Regex::find` and takes the byte offsets of the match. They depend on
/// the expression and the text alone, come in order, and fall on character
/// boundaries of the text.
#[verifier::external_body]
pub(crate) fn find_regex(re: &Regex, text: &str) -> (res: Option<(usize, usize)>)
    ensures
        res == regex_find(*re, text@),
        span_within(text@, res),
{
    re.find(text).map(|m| (m.start(), m.end()))
}

/// Calls `Regex::is_match`, which is true if and only if `Regex::find` finds a
/// match.
#[verifier::external_body]
pub(crate) fn regex_is_match(re: &Regex, text: &str) -> (res: bool)
    ensures
        res == (regex_find(*re, text@) is Some),
{
    re.is_match(text)
}

/// Writes a refusal with its `Display`.
#[verifier::external_body]
fn show_regex_error(e: &Error) -> (res: String)
    ensures
        res@ == regex_error_text(*e),
{
    format!("{}", e)
}

/// Writes a string with its `Debug`.
#[verifier::external_body]
pub(crate) fn show_debug(s: &str) -> (res: String)
    ensures
        res@ == debug_text(s@),
{
    format!("{:?}", s)
}

/// `text` from the byte offset `at` on.
pub open spec fn suffix_from(text: Seq<char>, at: int) -> Seq<char> {
    decode_utf8(encode_utf8(text).subrange(at, encode_utf8(text).len() as int))
}

/// `span`, where there is one, lies within `text`: its ends are in order and
/// fall on character boundaries.
pub open spec fn span_within(text: Seq<char>, span: Option<(usize, usize)>) -> bool {
    span matches Some((start, end)) ==> {
        &&& start <= end <= encode_utf8(text).len()
        &&& is_char_boundary(encode_utf8(text), start as int)
        &&& is_char_boundary(encode_utf8(text), end as int)
    }
}

/// The match is at the start of its line.
pub open spec fn at_line_start(span: Option<(usize, usize)>) -> bool {
    span matches Some((start, _)) && start == 0
}

/// The match is at the start of `line` and only whitespace follows it.
pub open spec fn idle_span(line: Seq<char>, span: Option<(usize, usize)>) -> bool {
    span matches Some((start, end)) && start == 0 && blank(suffix_from(line, end as int))
}

/// The match is all of `text`.
pub open spec fn whole_span(text: Seq<char>, span: Option<(usize, usize)>) -> bool {
    span matches Some((start, end)) && start == 0 && end == encode_utf8(text).len()
}

/// How many trailing spaces of a prompt may have been trimmed.
pub const TRIMMED_SPACES: usize = 16;

/// `line` with `n` spaces after it.
pub open spec fn spaced(line: Seq<char>, n: nat) -> Seq<char> {
    line + Seq::new(n, |i: int| ' ')
}

/// `line` is a bare prompt, where `span` is the match in it and `padded` are
/// those in `line` with one space after it, with two, and so on: only
/// whitespace follows the match, or the match is all of a padded line. The
/// latter is a prompt that ends in spaces, which were trimmed.
pub open spec fn idle_line(
    line: Seq<char>,
    span: Option<(usize, usize)>,
    padded: Seq<Option<(usize, usize)>>,
) -> bool {
    idle_span(line, span) || exists|k: int|
        0 <= k < padded.len() && whole_span(spaced(line, (k + 1) as nat), #[trigger] padded[k])
}

/// Where `re` matches first in `line` with one space after it, with two, and so
/// on up to [`TRIMMED_SPACES`].
pub open spec fn padded_spans(re: Regex, line: Seq<char>) -> Seq<Option<(usize, usize)>> {
    Seq::new(
        TRIMMED_SPACES as nat,
        |k: int| regex_find(re, spaced(line, (k + 1) as nat)),
    )
}

/// `line` is a bare prompt of the pattern `re`.
pub open spec fn idle_by(re: Regex, line: Seq<char>) -> bool {
    idle_line(line, regex_find(re, line), padded_spans(re, line))
}

/// `line` without the match at its start and without surrounding whitespace,
/// or `None` when the match is elsewhere or there is none.
pub open spec fn stripped_by(line: Seq<char>, span: Option<(usize, usize)>) -> Option<Seq<char>> {
    match span {
        Some((start, end)) => if start == 0 {
            Some(trimmed(suffix_from(line, end as int)))
        } else {
            None
        },
        None => None,
    }
}

/// What is said of a pattern that does not compile.
pub open spec fn refusal_text(pattern: Seq<char>, e: Error) -> Seq<char> {
    "invalid prompt regex "@ + debug_text(pattern) + ": "@ + regex_error_text(e)
}

/// `s` from the byte offset `at` on.
fn text_from<'a>(s: &'a str, at: usize) -> (res: &'a str)
    requires
        is_char_boundary(encode_utf8(s@), at as int),
    ensures
        res@ == suffix_from(s@, at as int),
{
    let (_, rest) = s.split_at(at);
    proof {
        vstd::utf8::encode_utf8_decode_utf8(rest@);
    }
    rest
}

/// True when the match is at the start of its line.
pub fn is_at_line_start(span: Option<(usize, usize)>) -> (res: bool)
    ensures
        res == at_line_start(span),
{
    match span {
        Some((start, _)) => start == 0,
        None => false,
    }
}

/// True when the match is at the start of `line` and everything after it is
/// whitespace. Lines padded to the terminal width pass.
pub fn is_idle_span(line: &str, span: Option<(usize, usize)>) -> (res: bool)
    requires
        span_within(line@, span),
    ensures
        res == idle_span(line@, span),
{
    match span {
        Some((start, end)) => start == 0 && is_blank(text_from(line, end)),
        None => false,
    }
}

/// True when `line` is a bare prompt, where `span` is the match in it and
/// `padded` are those in `line` with one space after it, with two, and so on.
pub fn is_idle_line(
    line: &str,
    span: Option<(usize, usize)>,
    padded: &[Option<(usize, usize)>],
) -> (res: bool)
    requires
        span_within(line@, span),
    ensures
        res == idle_line(line@, span, padded@),
{
    if is_idle_span(line, span) {
        return true;
    }
    let len = line.as_bytes().len();
    for k in 0..padded.len()
        invariant
            len == encode_utf8(line@).len(),
            forall|j: int|
                0 <= j < k ==> !whole_span(spaced(line@, (j + 1) as nat), #[trigger] padded@[j]),
    {
        proof {
            lemma_spaced_len(line@, (k + 1) as nat);
        }
        if let Some((start, end)) = padded[k] {
            if start == 0 && end > k && end - (k + 1) == len {
                assert(whole_span(spaced(line@, (k + 1) as nat), padded@[k as int]));
                return true;
            }
        }
    }
    false
}

/// Where `re` matches first in `line` with one space after it, with two, and so
/// on up to [`TRIMMED_SPACES`].
pub fn find_padded(re: &Regex, line: &str) -> (res: Vec<Option<(usize, usize)>>)
    ensures
        res@ == padded_spans(*re, line@),
{
    let mut out: Vec<Option<(usize, usize)>> = Vec::new();
    let mut text = line.to_string();
    assert(text@ =~= spaced(line@, 0));
    for k in 0..TRIMMED_SPACES
        invariant
            text@ == spaced(line@, k as nat),
            out@.len() == k,
            forall|j: int|
                0 <= j < k ==> #[trigger] out@[j] == regex_find(
                    *re,
                    spaced(line@, (j + 1) as nat),
                ),
    {
        text.push(' ');
        assert(text@ =~= spaced(line@, (k + 1) as nat));
        out.push(find_regex(re, text.as_str()));
    }
    assert(out@ =~= padded_spans(*re, line@));
    out
}

/// True when `re` matches at the start of `line`.
pub fn prefix_match(re: &Regex, line: &str) -> (res: bool)
    ensures
        res == at_line_start(regex_find(*re, line@)),
{
    is_at_line_start(find_regex(re, line))
}

/// True when `line` is a bare prompt of `re`: it matches at the start, and
/// everything after the match is whitespace. Lines padded to the terminal
/// width pass, and so do lines of which up to [`TRIMMED_SPACES`] trailing
/// spaces were trimmed, so that a pattern which ends in spaces, such as
/// `^>>> `, still matches.
pub fn idle_match(re: &Regex, line: &str) -> (res: bool)
    ensures
        res == idle_by(*re, line@),
{
    is_idle_line(line, find_regex(re, line), find_padded(re, line).as_slice())
}

/// Cuts the match off the start of `line` and trims what is left; `None` when
/// there is no match or it is not at the start.
pub fn strip_span(line: &str, span: Option<(usize, usize)>) -> (res: Option<String>)
    requires
        span_within(line@, span),
    ensures
        match res {
            Some(rest) => stripped_by(line@, span) == Some(rest@),
            None => stripped_by(line@, span) is None,
        },
{
    match span {
        Some((start, end)) => if start == 0 {
            Some(trim(text_from(line, end)).to_string())
        } else {
            None
        },
        None => None,
    }
}

/// Compiles one prompt pattern, or says which pattern was refused and why.
pub fn compile(pattern: &str) -> (res: Result<Regex, String>)
    ensures
        match res {
            Ok(re) => regex_new(pattern@) == Ok::<Regex, Error>(re),
            Err(msg) => regex_new(pattern@) matches Err(e) && msg@ == refusal_text(pattern@, e),
        },
{
    match compile_regex(pattern) {
        Ok(re) => Ok(re),
        Err(e) => {
            let mut msg = "invalid prompt regex ".to_string();
            msg.append(show_debug(pattern).as_str());
            msg.append(": ");
            msg.append(show_regex_error(&e).as_str());
            Err(msg)
        },
    }
}

/// The encoding of two texts in a row.
proof fn lemma_encode_concat(a: Seq<char>, b: Seq<char>)
    ensures
        encode_utf8(a + b) == encode_utf8(a) + encode_utf8(b),
    decreases a.len(),
{
    if a.len() == 0 {
        assert(a + b =~= b);
        assert(encode_utf8(a) + encode_utf8(b) =~= encode_utf8(b));
    } else {
        lemma_encode_concat(a.drop_first(), b);
        assert((a + b).drop_first() =~= a.drop_first() + b);
        assert(encode_utf8(a + b) =~= encode_utf8(a) + encode_utf8(b));
    }
}

/// Each space takes one byte.
proof fn lemma_spaced_len(line: Seq<char>, n: nat)
    ensures
        encode_utf8(spaced(line, n)).len() == encode_utf8(line).len() + n,
{
    let spaces = Seq::new(n, |i: int| ' ');
    lemma_encode_concat(line, spaces);
    assert(vstd::utf8::is_ascii_chars(spaces));
    vstd::utf8::is_ascii_chars_encode_utf8(spaces);
}

/// A trimmed prompt is a bare prompt: where the pattern matches all of a line
/// that ends in `n` spaces, the line without them is a bare prompt, and so it
/// is with any number of them left.
pub proof fn law_trimmed_prompt_is_idle(re: Regex, line: Seq<char>, n: nat, left: nat)
    requires
        left <= n <= TRIMMED_SPACES,
        whole_span(spaced(line, n), regex_find(re, spaced(line, n))),
    ensures
        idle_by(re, spaced(line, left)),
{
    let shown = spaced(line, n);
    let seen = spaced(line, left);
    if left == n {
        law_rest_follows_the_match(shown, Seq::empty());
        assert(shown + Seq::<char>::empty() =~= shown);
    } else {
        let k = n - left - 1;
        assert(spaced(seen, (k + 1) as nat) =~= shown);
        assert(whole_span(spaced(seen, (k + 1) as nat), padded_spans(re, seen)[k]));
    }
}

/// What is left of a text after its start `a` is exactly what follows `a`,
/// whatever the characters.
pub proof fn law_rest_follows_the_match(a: Seq<char>, b: Seq<char>)
    ensures
        suffix_from(a + b, encode_utf8(a).len() as int) == b,
{
    lemma_encode_concat(a, b);
    let all = encode_utf8(a + b);
    assert(all.subrange(encode_utf8(a).len() as int, all.len() as int) =~= encode_utf8(b));
    vstd::utf8::encode_utf8_decode_utf8(b);
}

/// A padded line is the line and then that many spaces.
pub proof fn law_padding_is_spaces(line: Seq<char>, n: nat)
    ensures
        spaced(line, 0) == line,
        spaced(line, n + 1) == spaced(line, n).push(' '),
{
    assert(spaced(line, 0) =~= line);
    assert(spaced(line, n + 1) =~= spaced(line, n).push(' '));
}

/// When a line is a bare prompt, for every pattern and every line. Where the
/// pattern matches exactly `shown` at the start of the line, the line is a bare
/// prompt if `rest`, which follows, is blank. Any line is one if the pattern
/// matches all of it once one to sixteen trimmed spaces are put back. No other
/// line is one: neither a line with text after the prompt, nor one with the
/// prompt in its middle, nor one without a match.
pub proof fn law_what_a_bare_prompt_is(re: Regex, shown: Seq<char>, rest: Seq<char>)
    ensures
        ({
            let line = shown + rest;
            let trimmed_prompt = exists|n: nat|
                1 <= n <= 16 && (regex_find(re, #[trigger] spaced(line, n)) matches Some((
                    start,
                    end,
                )) && start == 0 && end == encode_utf8(line).len() + n);
            match regex_find(re, line) {
                Some((start, end)) => if start != 0 {
                    idle_by(re, line) <==> trimmed_prompt
                } else {
                    end == encode_utf8(shown).len() ==> (idle_by(re, line) <==> blank(rest)
                        || trimmed_prompt)
                },
                None => idle_by(re, line) <==> trimmed_prompt,
            }
        }),
{
    let line = shown + rest;
    law_rest_follows_the_match(shown, rest);
    let padded = padded_spans(re, line);
    if exists|k: int|
        0 <= k < padded.len() && whole_span(spaced(line, (k + 1) as nat), #[trigger] padded[k]) {
        let k = choose|k: int|
            0 <= k < padded.len() && whole_span(spaced(line, (k + 1) as nat), #[trigger] padded[k]);
        let n = (k + 1) as nat;
        lemma_spaced_len(line, n);
        assert(padded[k] == regex_find(re, spaced(line, n)));
        assert(1 <= n <= 16);
    }
    if exists|n: nat|
        1 <= n <= 16 && (regex_find(re, #[trigger] spaced(line, n)) matches Some((start, end))
            && start == 0 && end == encode_utf8(line).len() + n) {
        let n = choose|n: nat|
            1 <= n <= 16 && (regex_find(re, #[trigger] spaced(line, n)) matches Some((start, end))
                && start == 0 && end == encode_utf8(line).len() + n);
        lemma_spaced_len(line, n);
        let k = n - 1;
        assert(padded[k] == regex_find(re, spaced(line, n)));
        assert(whole_span(spaced(line, (k + 1) as nat), padded[k]));
    }
}

/// Cutting a match off a line: where exactly `shown` is matched at the start,
/// what follows it is left, trimmed; a match elsewhere cuts nothing off.
pub proof fn law_what_a_match_strips(
    shown: Seq<char>,
    rest: Seq<char>,
    start: usize,
    end: usize,
)
    requires
        end == encode_utf8(shown).len(),
    ensures
        stripped_by(shown + rest, Some((0, end))) == Some(trimmed(rest)),
        start > 0 ==> stripped_by(shown + rest, Some((start, end))) is None,
        stripped_by(shown + rest, None) is None,
        at_line_start(Some((start, end))) <==> start == 0,
        !at_line_start(None),
        idle_span(shown + rest, Some((start, end))) <==> start == 0 && blank(rest),
        !idle_span(shown + rest, None),
{
    law_rest_follows_the_match(shown, rest);
}

/// What is said of a refused pattern names the pattern and the reason.
pub proof fn law_refusal_names_pattern_and_reason(pattern: Seq<char>, e: Error)
    ensures
        refusal_text(pattern, e) == "invalid prompt regex "@ + debug_text(pattern) + ": "@
            + regex_error_text(e),
{
}

/// When a line is a bare prompt, by the matches that were found in it and in
/// the line with one space after it, with two, and so on: where exactly `shown`
/// is matched at the start and `rest` is blank, or where a padded line is
/// matched from its start to its end.
pub proof fn law_bare_prompt_by_matches(
    shown: Seq<char>,
    rest: Seq<char>,
    span: Option<(usize, usize)>,
    padded: Seq<Option<(usize, usize)>>,
)
    requires
        span matches Some((_, end)) ==> end == encode_utf8(shown).len(),
    ensures
        idle_line(shown + rest, span, padded) <==> {
            ||| (span matches Some((start, _)) && start == 0 && blank(rest))
            ||| exists|k: int|
                0 <= k < padded.len() && (#[trigger] padded[k] matches Some((start, end)) && start
                    == 0 && end == encode_utf8(shown + rest).len() + k + 1)
        },
{
    let line = shown + rest;
    law_rest_follows_the_match(shown, rest);
    assert forall|k: int| 0 <= k < padded.len() implies whole_span(
        spaced(line, (k + 1) as nat),
        #[trigger] padded[k],
    ) == (padded[k] matches Some((start, end)) && start == 0 && end == encode_utf8(line).len() + k
        + 1) by {
        lemma_spaced_len(line, (k + 1) as nat);
    }
}

}
