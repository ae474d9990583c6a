//! Reading a rendered mapping back: the rules by which a YAML reader gets the
//! entries out of the lines, and the proof that it gets those that were put
//! in.
use vstd::prelude::*;

use crate::text::{
    joined, law_join_undoes_split, law_split_undoes_join, lemma_joined_push, lemma_line_end,
    lemma_lines_of_len, line_end, lines_of,
};
use crate::yaml::{
    all_raw, all_raw_lines, block_header, block_lines, decimal, digit, end_mark, ends_empty,
    entry_lines, escape, escaped, exponent, hex_char, holds_pair, indented, indented_lines,
    indicator, mantissa, map_lines, non_string, plain_safe, quoted_text, raw, reads_as,
    scalar_text, starts_blank, terminated, YamlView,
};

verus! {

/// A reader takes `t`, without quotes, for a string: it has no outer blanks,
/// starts with no indicator, holds no comment and no key, and reads as no
/// other type.
pub open spec fn plain_string(t: Seq<char>) -> bool {
    &&& t.len() > 0
    &&& t.first() != ' ' && t.first() != '\t'
    &&& t.last() != ' ' && t.last() != '\t'
    &&& !indicator(t.first())
    &&& !holds_pair(t, ' ', '#') && !holds_pair(t, '\t', '#')
    &&& !holds_pair(t, ':', ' ') && !holds_pair(t, ':', '\t')
    &&& t.last() != ':'
    &&& !non_string(t)
}

/// The value of a hexadecimal digit in lower case.
pub open spec fn hex_value(c: char) -> int {
    if '0' <= c <= '9' {
        c as int - '0' as int
    } else {
        c as int - 'a' as int + 10
    }
}

/// The text that stands, escaped, within double quotes.
pub open spec fn unescaped(t: Seq<char>) -> Option<Seq<char>>
    decreases t.len(),
{
    if t.len() == 0 {
        Some(Seq::empty())
    } else if t[0] == '"' {
        None
    } else if t[0] != '\\' {
        prepend(t[0], unescaped(t.skip(1)))
    } else if t.len() < 2 {
        None
    } else if t[1] == '"' || t[1] == '\\' {
        prepend(t[1], unescaped(t.skip(2)))
    } else if t[1] == 'n' {
        prepend('\n', unescaped(t.skip(2)))
    } else if t[1] == 't' {
        prepend('\t', unescaped(t.skip(2)))
    } else if t[1] == 'r' {
        prepend('\r', unescaped(t.skip(2)))
    } else if t[1] == 'u' && t.len() >= 6 {
        prepend(
            (4096 * hex_value(t[2]) + 256 * hex_value(t[3]) + 16 * hex_value(t[4]) + hex_value(
                t[5],
            )) as char,
            unescaped(t.skip(6)),
        )
    } else {
        None
    }
}

/// `c` before a text, where there is one.
pub open spec fn prepend(c: char, t: Option<Seq<char>>) -> Option<Seq<char>> {
    match t {
        Some(t) => Some(seq![c] + t),
        None => None,
    }
}

/// The value of a scalar of one line.
pub open spec fn scalar_value(t: Seq<char>) -> Option<YamlView> {
    if t.len() >= 2 && t[0] == '"' && t.last() == '"' {
        match unescaped(t.subrange(1, t.len() - 1)) {
            Some(s) => Some(YamlView::Str(s)),
            None => None,
        }
    } else if t == "true"@ {
        Some(YamlView::Bool(true))
    } else if t == "false"@ {
        Some(YamlView::Bool(false))
    } else if t == "null"@ {
        Some(YamlView::Null)
    } else if plain_string(t) {
        Some(YamlView::Str(t))
    } else {
        None
    }
}

/// The number of spaces that `line` starts with.
pub open spec fn leading_spaces(line: Seq<char>) -> int
    decreases line.len(),
{
    if line.len() > 0 && line[0] == ' ' {
        1 + leading_spaces(line.drop_first())
    } else {
        0
    }
}

/// The number of lines at the start of `lines` that are empty or indented.
pub open spec fn block_len(lines: Seq<Seq<char>>) -> int
    decreases lines.len(),
{
    if lines.len() > 0 && (lines[0].len() == 0 || lines[0][0] == ' ') {
        1 + block_len(lines.drop_first())
    } else {
        0
    }
}

/// The indentation of a block: that of its first line that is not empty.
pub open spec fn block_indent(body: Seq<Seq<char>>) -> int
    decreases body.len(),
{
    if body.len() == 0 {
        0
    } else if body[0].len() == 0 {
        block_indent(body.drop_first())
    } else {
        leading_spaces(body[0])
    }
}

/// The first line that is not empty starts with a tab after its spaces, which
/// some readers refuse.
pub open spec fn tab_in_indent(body: Seq<Seq<char>>) -> bool
    decreases body.len(),
{
    if body.len() == 0 {
        false
    } else if body[0].len() == 0 {
        tab_in_indent(body.drop_first())
    } else {
        leading_spaces(body[0]) < body[0].len() && body[0][leading_spaces(body[0])] == '\t'
    }
}

/// `line` is empty or has an indentation of at least `k`.
pub open spec fn has_indent(line: Seq<char>, k: int) -> bool {
    line.len() == 0 || leading_spaces(line) >= k
}

/// The lines of a block without their indentation.
pub open spec fn unindented(body: Seq<Seq<char>>, k: int) -> Seq<Seq<char>> {
    Seq::new(
        body.len(),
        |i: int|
            if body[i].len() == 0 {
                body[i]
            } else {
                body[i].skip(k)
            },
    )
}

/// The lines without the empty ones at their end.
pub open spec fn without_final_empty(lines: Seq<Seq<char>>) -> Seq<Seq<char>>
    decreases lines.len(),
{
    if lines.len() > 0 && lines.last().len() == 0 {
        without_final_empty(lines.drop_last())
    } else {
        lines
    }
}

/// What becomes of the newlines at the end of a block.
pub enum Ending {
    /// There is none.
    Strip,
    /// There is one, unless the block is empty.
    Clip,
    /// All of them stay.
    Keep,
}

/// What introduces a literal block scalar: a bar, then the indentation where
/// it is said, then what becomes of the final newlines. `None` for a text that
/// introduces none.
pub open spec fn block_style(t: Seq<char>) -> Option<(Option<int>, Ending)> {
    if t.len() == 0 || t[0] != '|' {
        None
    } else {
        let said = t.len() > 1 && '1' <= t[1] <= '9';
        let indent = if said {
            Some(t[1] as int - '0' as int)
        } else {
            None
        };
        let rest = if said {
            t.skip(2)
        } else {
            t.skip(1)
        };
        if rest.len() == 0 {
            Some((indent, Ending::Clip))
        } else if rest.len() == 1 && rest[0] == '-' {
            Some((indent, Ending::Strip))
        } else if rest.len() == 1 && rest[0] == '+' {
            Some((indent, Ending::Keep))
        } else {
            None
        }
    }
}

/// The text of a literal block scalar. Where its indentation is not said, it is
/// that of its first line that is not empty, after which no tab may stand.
pub open spec fn block_value(
    indent: Option<int>,
    ending: Ending,
    body: Seq<Seq<char>>,
) -> Option<Seq<char>> {
    let k = match indent {
        Some(k) => k,
        None => block_indent(body),
    };
    if (indent is None && tab_in_indent(body)) || exists|i: int|
        0 <= i < body.len() && !has_indent(#[trigger] body[i], k) {
        None
    } else {
        let lines = unindented(body, k);
        let text = without_final_empty(lines);
        match ending {
            Ending::Strip => Some(joined(text)),
            Ending::Clip => if text.len() > 0 {
                Some(joined(text).push('\n'))
            } else {
                Some(Seq::empty())
            },
            Ending::Keep => Some(terminated(lines)),
        }
    }
}

/// The position of the first colon of `line`, or its length.
pub open spec fn colon_at(line: Seq<char>) -> int
    decreases line.len(),
{
    if line.len() == 0 || line[0] == ':' {
        0
    } else {
        1 + colon_at(line.drop_first())
    }
}

/// The entries that lines stand for, or `None` when they stand for none. Each
/// entry starts with its key, a colon and a space.
pub open spec fn read_lines(lines: Seq<Seq<char>>) -> Option<Seq<(Seq<char>, YamlView)>>
    decreases lines.len(),
{
    if lines.len() == 0 {
        Some(Seq::empty())
    } else {
        let head = lines[0];
        let c = colon_at(head);
        if c < 0 || c + 1 >= head.len() || head[c + 1] != ' ' || !plain_string(head.take(c)) {
            None
        } else {
            let key = head.take(c);
            let rest = head.skip(c + 2);
            if let Some((indent, ending)) = block_style(rest) {
                let n = block_len(lines.skip(1));
                if 0 <= n < lines.len() {
                    match (
                        block_value(indent, ending, lines.subrange(1, n + 1)),
                        read_lines(lines.skip(n + 1)),
                    ) {
                        (Some(s), Some(more)) => Some(seq![(key, YamlView::Str(s))] + more),
                        _ => None,
                    }
                } else {
                    None
                }
            } else {
                match (scalar_value(rest), read_lines(lines.skip(1))) {
                    (Some(value), Some(more)) => Some(seq![(key, value)] + more),
                    _ => None,
                }
            }
        }
    }
}

/// The entries that a text stands for: every line of it ends with a newline,
/// and every character can stand in a line.
pub open spec fn read_map(text: Seq<char>) -> Option<Seq<(Seq<char>, YamlView)>> {
    let lines = lines_of(text);
    if lines.last().len() == 0 && all_raw_lines(text) {
        read_lines(lines.drop_last())
    } else {
        None
    }
}

/// A key that needs no quotes and holds no colon.
pub open spec fn plain_key(key: Seq<char>) -> bool {
    plain_string(key) && !key.contains(':') && all_raw(key)
}

/// What stands escaped within double quotes reads back, for every text.
pub proof fn law_quoting_is_undone(s: Seq<char>)
    ensures
        unescaped(escaped(s)) == Some(s),
    decreases s.len(),
{
    if s.len() > 0 {
        law_quoting_is_undone(s.drop_first());
        lemma_escape_is_undone(s[0], escaped(s.drop_first()));
        assert(seq![s[0]] + s.drop_first() =~= s);
    }
}

/// An escaped character reads back, and the rest is read after it.
proof fn lemma_escape_is_undone(c: char, rest: Seq<char>)
    ensures
        unescaped(escape(c) + rest) == prepend(c, unescaped(rest)),
{
    let t = escape(c) + rest;
    let n = c as int;
    assert(t.skip(escape(c).len() as int) =~= rest);
    if !raw(c) && c != '\n' && c != '\r' {
        assert(t[0] == '\\' && t[1] == 'u');
        assert(t[2] == hex_char(n / 4096));
        assert(t[3] == hex_char(n / 256 % 16));
        assert(t[4] == hex_char(n / 16 % 16));
        assert(t[5] == hex_char(n % 16));
        lemma_hex_value(n / 4096);
        lemma_hex_value(n / 256 % 16);
        lemma_hex_value(n / 16 % 16);
        lemma_hex_value(n % 16);
    }
}

proof fn lemma_hex_value(n: int)
    requires
        0 <= n < 16,
    ensures
        hex_value(hex_char(n)) == n,
        raw(hex_char(n)),
{
}

/// An escaped character can stand in a line.
proof fn lemma_escape_is_raw(c: char)
    ensures
        all_raw(escape(c)),
{
    let n = c as int;
    if !raw(c) {
        lemma_hex_value(n / 4096);
        lemma_hex_value(n / 256 % 16);
        lemma_hex_value(n / 16 % 16);
        lemma_hex_value(n % 16);
    }
}

/// An escaped text can stand in a line.
proof fn lemma_escaped_is_raw(s: Seq<char>)
    ensures
        all_raw(escaped(s)),
    decreases s.len(),
{
    if s.len() > 0 {
        lemma_escaped_is_raw(s.drop_first());
        lemma_escape_is_raw(s[0]);
    }
}

/// A line of characters that can stand in a line holds no newline.
proof fn lemma_raw_is_one_line(s: Seq<char>)
    requires
        all_raw(s),
    ensures
        !s.contains('\n'),
{
    if s.contains('\n') {
        let i = choose|i: int| 0 <= i < s.len() && s[i] == '\n';
        assert(raw(s[i]));
    }
}

/// The lines of a text hold the characters of the text.
proof fn lemma_lines_are_raw(s: Seq<char>)
    requires
        all_raw_lines(s),
    ensures
        forall|i: int| 0 <= i < lines_of(s).len() ==> all_raw(#[trigger] lines_of(s)[i]),
    decreases s.len(),
{
    lemma_line_end(s);
    let n = line_end(s);
    let head = s.take(n);
    assert(all_raw(head));
    if n < s.len() {
        let rest = s.skip(n + 1);
        assert forall|i: int| 0 <= i < rest.len() implies raw(#[trigger] rest[i]) || rest[i]
            == '\n' by {
            assert(rest[i] == s[i + n + 1]);
        }
        lemma_lines_are_raw(rest);
        assert forall|i: int| 0 <= i < lines_of(s).len() implies all_raw(
            #[trigger] lines_of(s)[i],
        ) by {
            if i > 0 {
                assert(lines_of(s)[i] == lines_of(rest)[i - 1]);
            }
        }
    }
}

/// A string scalar reads back as the string, whatever its text, and is never
/// taken for the start of a block. In particular a text that reads as a number, a boolean, a null
/// or a date stays a string.
pub proof fn law_scalar_reads_back(s: Seq<char>)
    ensures
        scalar_value(scalar_text(s)) == Some(YamlView::Str(s)),
        block_style(scalar_text(s)) is None,
{
    reveal_strlit("true");
    reveal_strlit("false");
    reveal_strlit("null");
    reveal_strlit("-?:,[]{}#&*!|>'\"%@`");
    let t = scalar_text(s);
    if plain_safe(s) {
        let all = "-?:,[]{}#&*!|>'\"%@`"@;
        assert(all[15] == '"');
        assert(all[12] == '|');
        assert(indicator('"'));
        assert(indicator('|'));
        assert(s.first() == s[0]);
        assert(plain_string(s));
        assert(s != "true"@) by {
            if s == "true"@ {
                assert(reads_as(s, "true"@));
            }
        }
        assert(s != "false"@) by {
            if s == "false"@ {
                assert(reads_as(s, "false"@));
            }
        }
        assert(s != "null"@) by {
            if s == "null"@ {
                assert(reads_as(s, "null"@));
            }
        }
    } else {
        law_quoting_is_undone(s);
        assert(t[0] == '"');
        assert(t.last() == '"');
        assert(t.subrange(1, t.len() - 1) =~= escaped(s));
    }
}

/// Two more spaces before a line.
proof fn lemma_leading_spaces(line: Seq<char>)
    ensures
        leading_spaces(indented(line, 2)) == (if line.len() == 0 {
            0
        } else {
            2 + leading_spaces(line)
        }),
        leading_spaces(line) >= 0,
    decreases line.len(),
{
    if line.len() > 0 {
        let all = indented(line, 2);
        reveal_with_fuel(leading_spaces, 3);
        assert(all.drop_first().drop_first() =~= line);
        if line[0] == ' ' {
            lemma_leading_spaces(line.drop_first());
        }
    }
}

/// Where the indentation of a block is not said, its first line that is not
/// empty says it.
proof fn lemma_block_indent(lines: Seq<Seq<char>>)
    requires
        !starts_blank(lines),
    ensures
        !tab_in_indent(indented_lines(lines, 2)),
        block_indent(indented_lines(lines, 2)) == 2 || (block_indent(indented_lines(lines, 2)) == 0
            && forall|i: int| 0 <= i < lines.len() ==> (#[trigger] lines[i]).len() == 0),
    decreases lines.len(),
{
    let body = indented_lines(lines, 2);
    if lines.len() > 0 {
        assert(body[0] == indented(lines[0], 2));
        lemma_leading_spaces(lines[0]);
        if lines[0].len() == 0 {
            let rest = lines.drop_first();
            lemma_block_indent(rest);
            assert(body.drop_first() =~= indented_lines(rest, 2));
            if forall|i: int| 0 <= i < rest.len() ==> (#[trigger] rest[i]).len() == 0 {
                assert forall|i: int| 0 <= i < lines.len() implies (#[trigger] lines[i]).len()
                    == 0 by {
                    if i > 0 {
                        assert(rest[i - 1].len() == 0);
                    }
                }
            }
        }
    }
}

/// The last line of a text with a newline is empty exactly when the text ends
/// with one.
proof fn lemma_last_line(s: Seq<char>)
    requires
        s.contains('\n'),
    ensures
        lines_of(s).len() >= 2,
        lines_of(s).last().len() == 0 <==> s.last() == '\n',
        s == joined(lines_of(s).drop_last()) + seq!['\n'] + lines_of(s).last(),
{
    let lines = lines_of(s);
    lemma_lines_of_len(s);
    law_join_undoes_split(s);
    if lines.len() == 1 {
        assert(!lines[0].contains('\n'));
    }
    let front = lines.drop_last();
    let last = lines.last();
    assert(front.push(last) =~= lines);
    lemma_joined_push(front, last);
    if last.len() > 0 {
        assert(s.last() == last.last());
        assert(!lines[lines.len() - 1].contains('\n'));
        assert(last.contains(last.last()));
    }
}

/// What introduces a block says how it is to be read.
proof fn lemma_block_style(s: Seq<char>)
    ensures
        block_style(block_header(s, 2)) == Some(
            (
                if starts_blank(block_lines(s)) {
                    Some(2int)
                } else {
                    None
                },
                if ends_empty(s) {
                    Ending::Keep
                } else if s.len() > 0 && s.last() == '\n' {
                    Ending::Clip
                } else {
                    Ending::Strip
                },
            ),
        ),
        all_raw(block_header(s, 2)),
{
    let t = block_header(s, 2);
    let end = end_mark(s);
    if starts_blank(block_lines(s)) {
        assert(t[1] == '2');
        assert(t.skip(2) =~= end);
    } else {
        assert(t.skip(1) =~= end);
        assert(t.len() > 1 ==> t[1] == end[0]);
    }
}

/// The block that stands for a text of several lines reads back as the text.
pub proof fn law_block_reads_back(s: Seq<char>)
    requires
        s.contains('\n'),
    ensures
        block_style(block_header(s, 2)) matches Some((indent, ending)) && block_value(
            indent,
            ending,
            indented_lines(block_lines(s), 2),
        ) == Some(s),
{
    let lines = lines_of(s);
    let kept = block_lines(s);
    let body = indented_lines(kept, 2);
    lemma_block_style(s);
    lemma_last_line(s);
    let k = if starts_blank(kept) {
        2
    } else {
        block_indent(body)
    };
    if !starts_blank(kept) {
        lemma_block_indent(kept);
    }
    assert forall|i: int| 0 <= i < body.len() implies has_indent(#[trigger] body[i], k) by {
        lemma_leading_spaces(kept[i]);
        assert(body[i] == indented(kept[i], 2));
        assert(k == 2 || kept[i].len() == 0);
    }
    assert forall|i: int| 0 <= i < body.len() implies unindented(body, k)[i] == kept[i] by {
        assert(k == 2 || kept[i].len() == 0);
        if kept[i].len() > 0 {
            assert(body[i].skip(2) =~= kept[i]);
        }
    }
    assert(unindented(body, k) =~= kept);
    let front = lines.drop_last();
    if ends_empty(s) {
        lemma_terminated_is_joined(front);
        assert(lines.last() =~= Seq::empty());
        assert(front.push(Seq::<char>::empty()) =~= lines);
        law_join_undoes_split(s);
    } else if s.last() == '\n' {
        assert(joined(front).push('\n') =~= s);
        assert(front.last().len() > 0) by {
            if front.last().len() == 0 {
                if front.len() == 1 {
                    assert(s =~= seq!['\n']);
                } else {
                    let more = front.drop_last();
                    assert(more.push(front.last()) =~= front);
                    lemma_joined_push(more, front.last());
                    assert(s[s.len() - 2] == '\n');
                }
            }
        }
        reveal_with_fuel(without_final_empty, 2);
    } else {
        assert(without_final_empty(lines) == lines);
        law_join_undoes_split(s);
    }
}

/// A block reaches to the next line that is neither empty nor indented.
proof fn lemma_block_len(body: Seq<Seq<char>>, tail: Seq<Seq<char>>)
    requires
        forall|i: int|
            0 <= i < body.len() ==> (#[trigger] body[i]).len() == 0 || body[i][0] == ' ',
        tail.len() > 0 ==> tail[0].len() > 0 && tail[0][0] != ' ',
    ensures
        block_len(body + tail) == body.len(),
    decreases body.len(),
{
    let all = body + tail;
    if body.len() > 0 {
        assert(all[0] == body[0]);
        assert(all.drop_first() =~= body.drop_first() + tail);
        lemma_block_len(body.drop_first(), tail);
    } else if tail.len() > 0 {
        assert(all[0] == tail[0]);
    }
}

/// A word of lower-case letters and underscores is a key that needs no quotes,
/// unless it is one of those that read as another type.
pub proof fn lemma_word_is_plain(s: Seq<char>)
    requires
        s.len() >= 4,
        forall|i: int| 0 <= i < s.len() ==> 'a' <= #[trigger] s[i] <= 'z' || s[i] == '_',
        s[0] != 't' && s[0] != 'f' && s[0] != 'n' && s[0] != '_',
        s[1] != 'n',
    ensures
        plain_key(s),
{
    reveal_strlit("-?:,[]{}#&*!|>'\"%@`");
    reveal_strlit("inf");
    reveal_strlit("infinity");
    reveal_strlit("nan");
    reveal_strlit("true");
    reveal_strlit("false");
    reveal_strlit("yes");
    reveal_strlit("no");
    reveal_strlit("on");
    reveal_strlit("off");
    reveal_strlit("null");
    reveal_strlit("~");
    reveal_strlit(".inf");
    reveal_strlit(".nan");
    assert(s.first() == s[0] && s.last() == s[s.len() - 1]);
    assert(s.skip(0) =~= s);
    assert(!decimal(s)) by {
        if decimal(s) {
            let k = choose|k: int|
                0 <= k <= s.len() && mantissa(s.take(k)) && exponent(#[trigger] s.skip(k));
            let i = choose|i: int| 0 <= i < s.take(k).len() && digit(#[trigger] s.take(k)[i]);
            assert(s.take(k)[i] == s[i]);
        }
    }
    assert("infinity"@[1] == 'n');
    assert(!reads_as(s, "infinity"@));
    assert("true"@[0] == 't' && "false"@[0] == 'f' && "null"@[0] == 'n');
    assert(".inf"@[0] == '.' && ".nan"@[0] == '.');
}

/// The key of a line ends at its first colon.
proof fn lemma_colon_at(key: Seq<char>, rest: Seq<char>)
    requires
        !key.contains(':'),
    ensures
        colon_at(key + ": "@ + rest) == key.len(),
        (key + ": "@ + rest)[key.len() as int + 1] == ' ',
        (key + ": "@ + rest).take(key.len() as int) == key,
        (key + ": "@ + rest).skip(key.len() as int + 2) == rest,
        (key + ": "@ + rest).len() == key.len() + 2 + rest.len(),
    decreases key.len(),
{
    reveal_strlit(": ");
    let line = key + ": "@ + rest;
    assert(line.take(key.len() as int) =~= key);
    assert(line.skip(key.len() as int + 2) =~= rest);
    if key.len() == 0 {
        assert(line[0] == ':');
    } else {
        let t = key.drop_first();
        assert(line[0] == key[0]);
        assert(key.contains(key[0]));
        if t.contains(':') {
            let i = choose|i: int| 0 <= i < t.len() && t[i] == ':';
            assert(key[i + 1] == ':');
        }
        lemma_colon_at(t, rest);
        assert(line.drop_first() =~= t + ": "@ + rest);
    }
}

/// A line with a value of one line reads back as the entry, and the lines after
/// it are read on their own.
proof fn lemma_line_reads_back(
    key: Seq<char>,
    text: Seq<char>,
    value: YamlView,
    tail: Seq<Seq<char>>,
)
    requires
        plain_key(key),
        block_style(text) is None,
        scalar_value(text) == Some(value),
        read_lines(tail) is Some,
    ensures
        read_lines(seq![key + ": "@ + text] + tail) == Some(
            seq![(key, value)] + read_lines(tail)->0,
        ),
{
    let lines = seq![key + ": "@ + text] + tail;
    lemma_colon_at(key, text);
    assert(lines[0] == key + ": "@ + text);
    assert(lines.skip(1) =~= tail);
}

/// A block reads back as the entry, and the lines after it are read on their
/// own.
proof fn lemma_block_entry_reads_back(key: Seq<char>, s: Seq<char>, tail: Seq<Seq<char>>)
    requires
        plain_key(key),
        s.contains('\n'),
        tail.len() > 0 ==> tail[0].len() > 0 && tail[0][0] != ' ',
        read_lines(tail) is Some,
    ensures
        read_lines(
            seq![key + ": "@ + block_header(s, 2)] + indented_lines(block_lines(s), 2) + tail,
        ) == Some(seq![(key, YamlView::Str(s))] + read_lines(tail)->0),
{
    let header = block_header(s, 2);
    let body = indented_lines(block_lines(s), 2);
    let lines = seq![key + ": "@ + header] + body + tail;
    lemma_colon_at(key, header);
    assert(lines[0] == key + ": "@ + header);
    assert(lines.skip(1) =~= body + tail);
    assert forall|i: int| 0 <= i < body.len() implies (#[trigger] body[i]).len() == 0
        || body[i][0] == ' ' by {
        assert(body[i] == indented(block_lines(s)[i], 2));
    }
    lemma_block_len(body, tail);
    let n = body.len() as int;
    assert(lines.subrange(1, n + 1) =~= body);
    assert(lines.skip(n + 1) =~= tail);
    law_block_reads_back(s);
}

/// The first lines of an entry's rendering read back as the entry, and the
/// lines after it are read on their own.
proof fn lemma_entry_reads_back(key: Seq<char>, value: YamlView, tail: Seq<Seq<char>>)
    requires
        plain_key(key),
        tail.len() > 0 ==> tail[0].len() > 0 && tail[0][0] != ' ',
        read_lines(tail) is Some,
    ensures
        read_lines(entry_lines(key, value) + tail) == Some(
            seq![(key, value)] + read_lines(tail)->0,
        ),
{
    match value {
        YamlView::Str(s) if s.contains('\n') && all_raw_lines(s) => {
            lemma_block_entry_reads_back(key, s, tail);
        },
        YamlView::Str(s) => {
            law_scalar_reads_back(s);
            lemma_line_reads_back(key, scalar_text(s), value, tail);
        },
        YamlView::Bool(b) => {
            lemma_words_read_back();
            lemma_line_reads_back(
                key,
                if b {
                    "true"@
                } else {
                    "false"@
                },
                value,
                tail,
            );
        },
        YamlView::Null => {
            lemma_words_read_back();
            lemma_line_reads_back(key, "null"@, value, tail);
        },
    }
}

proof fn lemma_words_read_back()
    ensures
        scalar_value("true"@) == Some(YamlView::Bool(true)),
        scalar_value("false"@) == Some(YamlView::Bool(false)),
        scalar_value("null"@) == Some(YamlView::Null),
        block_style("true"@) is None,
        block_style("false"@) is None,
        block_style("null"@) is None,
{
    reveal_strlit("true");
    reveal_strlit("false");
    reveal_strlit("null");
    assert("true"@[0] == 't' && "false"@[0] == 'f' && "null"@[0] == 'n');
}

/// A mapping is rendered from its first entry on.
proof fn lemma_map_lines_first(entries: Seq<(Seq<char>, YamlView)>)
    requires
        entries.len() > 0,
    ensures
        map_lines(entries) == entry_lines(entries[0].0, entries[0].1) + map_lines(
            entries.drop_first(),
        ),
    decreases entries.len(),
{
    let first = entry_lines(entries[0].0, entries[0].1);
    let rest = entries.drop_first();
    let front = entries.drop_last();
    if entries.len() == 1 {
        assert(front =~= Seq::empty());
        assert(rest =~= Seq::empty());
        assert(map_lines(entries) =~= first + map_lines(rest));
    } else {
        lemma_map_lines_first(front);
        assert(front.drop_first() =~= rest.drop_last());
        assert(rest.last() == entries.last());
        assert(map_lines(entries) =~= first + map_lines(rest));
    }
}

/// The lines of a rendering read back as the entries.
proof fn lemma_lines_read_back(entries: Seq<(Seq<char>, YamlView)>)
    requires
        forall|i: int|
            0 <= i < entries.len() ==> plain_key((#[trigger] entries[i]).0),
    ensures
        read_lines(map_lines(entries)) == Some(entries),
        map_lines(entries).len() > 0 ==> map_lines(entries)[0].len() > 0 && map_lines(
            entries,
        )[0][0] != ' ',
    decreases entries.len(),
{
    if entries.len() == 0 {
        assert(entries =~= Seq::empty());
    } else {
        let rest = entries.drop_first();
        assert forall|i: int| 0 <= i < rest.len() implies plain_key((#[trigger] rest[i]).0) by {
            assert(rest[i] == entries[i + 1]);
        }
        lemma_lines_read_back(rest);
        lemma_map_lines_first(entries);
        let (key, value) = entries[0];
        assert(plain_key(key));
        lemma_entry_reads_back(key, value, map_lines(rest));
        assert(seq![(key, value)] + rest =~= entries);
        let head = entry_lines(key, value)[0];
        assert(map_lines(entries)[0] == head);
        assert(head[0] == key[0]);
    }
}

/// The lines of an entry hold characters that can stand in a line.
proof fn lemma_entry_lines_are_raw(key: Seq<char>, value: YamlView)
    requires
        plain_key(key),
    ensures
        forall|i: int|
            0 <= i < entry_lines(key, value).len() ==> all_raw(
                #[trigger] entry_lines(key, value)[i],
            ),
{
    reveal_strlit(": ");
    reveal_strlit("true");
    reveal_strlit("false");
    reveal_strlit("null");
    let lines = entry_lines(key, value);
    assert(all_raw(key + ": "@));
    match value {
        YamlView::Str(s) if s.contains('\n') && all_raw_lines(s) => {
            lemma_lines_are_raw(s);
            lemma_block_style(s);
            assert forall|i: int| 0 <= i < lines.len() implies all_raw(#[trigger] lines[i]) by {
                if i > 0 {
                    let line = block_lines(s)[i - 1];
                    assert(line == lines_of(s)[i - 1]);
                    assert(all_raw(line));
                    assert(lines[i] == indented(line, 2));
                } else {
                    assert(lines[0] == key + ": "@ + block_header(s, 2));
                }
            }
        },
        YamlView::Str(s) => {
            if !plain_safe(s) {
                lemma_escaped_is_raw(s);
                assert(scalar_text(s) == quoted_text(s));
            }
            assert(all_raw(scalar_text(s)));
        },
        _ => {},
    }
}

/// The lines of a rendering hold characters that can stand in a line.
proof fn lemma_map_lines_are_raw(entries: Seq<(Seq<char>, YamlView)>)
    requires
        forall|i: int|
            0 <= i < entries.len() ==> plain_key((#[trigger] entries[i]).0),
    ensures
        forall|i: int|
            0 <= i < map_lines(entries).len() ==> all_raw(#[trigger] map_lines(entries)[i]),
    decreases entries.len(),
{
    if entries.len() > 0 {
        let front = entries.drop_last();
        assert forall|i: int| 0 <= i < front.len() implies plain_key((#[trigger] front[i]).0) by {
            assert(front[i] == entries[i]);
        }
        lemma_map_lines_are_raw(front);
        let (key, value) = entries.last();
        assert(plain_key(entries[entries.len() - 1].0));
        lemma_entry_lines_are_raw(key, value);
        let before = map_lines(front);
        let all = map_lines(entries);
        assert forall|i: int| 0 <= i < all.len() implies all_raw(#[trigger] all[i]) by {
            if i < before.len() {
                assert(all[i] == before[i]);
            } else {
                assert(all[i] == entry_lines(key, value)[i - before.len()]);
            }
        }
    }
}

/// Lines with newlines after them hold the characters of the lines, and
/// newlines.
proof fn lemma_terminated_is_raw(lines: Seq<Seq<char>>)
    requires
        forall|i: int| 0 <= i < lines.len() ==> all_raw(#[trigger] lines[i]),
    ensures
        all_raw_lines(terminated(lines)),
    decreases lines.len(),
{
    if lines.len() > 0 {
        let front = lines.drop_last();
        assert forall|i: int| 0 <= i < front.len() implies all_raw(#[trigger] front[i]) by {
            assert(front[i] == lines[i]);
        }
        lemma_terminated_is_raw(front);
        assert(all_raw(lines[lines.len() - 1]));
    }
}

/// Lines with newlines after them are joined lines with an empty one at the
/// end.
proof fn lemma_terminated_is_joined(lines: Seq<Seq<char>>)
    ensures
        terminated(lines) == joined(lines.push(Seq::empty())),
    decreases lines.len(),
{
    if lines.len() == 0 {
        assert(lines.push(Seq::<char>::empty())[0] =~= Seq::<char>::empty());
        assert(terminated(lines) =~= joined(lines.push(Seq::empty())));
    } else {
        let front = lines.drop_last();
        lemma_terminated_is_joined(front);
        lemma_joined_push(lines, Seq::empty());
        assert(front.push(lines.last()) =~= lines);
        if front.len() > 0 {
            lemma_joined_push(front, lines.last());
            lemma_joined_push(front, Seq::empty());
            assert(terminated(lines) =~= joined(lines.push(Seq::empty())));
        } else {
            assert(joined(lines) =~= lines.last());
            assert(terminated(front) =~= Seq::empty());
            assert(terminated(lines) =~= joined(lines.push(Seq::empty())));
        }
    }
}

/// A rendered mapping reads back as the entries it was rendered from, in
/// order, each with its value: strings as strings, whatever their text, booleans
/// as booleans, nulls as nulls. Only the keys must be such that need no quotes.
pub proof fn law_map_reads_back(entries: Seq<(Seq<char>, YamlView)>)
    requires
        forall|i: int|
            0 <= i < entries.len() ==> plain_key((#[trigger] entries[i]).0),
    ensures
        read_map(terminated(map_lines(entries))) == Some(entries),
{
    let lines = map_lines(entries);
    let all = lines.push(Seq::<char>::empty());
    lemma_lines_read_back(entries);
    lemma_map_lines_are_raw(entries);
    lemma_terminated_is_raw(lines);
    lemma_terminated_is_joined(lines);
    assert forall|i: int| 0 <= i < all.len() implies !(#[trigger] all[i]).contains('\n') by {
        if i < lines.len() {
            assert(all[i] == lines[i]);
            lemma_raw_is_one_line(lines[i]);
        }
    }
    law_split_undoes_join(all);
    assert(all.drop_last() =~= lines);
}

}
