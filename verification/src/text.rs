//! Text primitives: whitespace, trimming, splitting and joining lines.
use vstd::prelude::*;

verus! {

/// `String::push` appends one character.
pub assume_specification[ String::push ](s: &mut String, c: char)
    ensures
        final(s)@ == old(s)@.push(c),
;

/// The characters of Unicode's `White_Space` property.
pub open spec fn whitespace(c: char) -> bool {
    ||| '\u{9}' <= c <= '\u{d}'
    ||| c == ' '
    ||| c == '\u{85}'
    ||| c == '\u{a0}'
    ||| c == '\u{1680}'
    ||| '\u{2000}' <= c <= '\u{200a}'
    ||| c == '\u{2028}'
    ||| c == '\u{2029}'
    ||| c == '\u{202f}'
    ||| c == '\u{205f}'
    ||| c == '\u{3000}'
}

/// True when every character of `s` is whitespace.
pub open spec fn blank(s: Seq<char>) -> bool {
    forall|i: int| 0 <= i < s.len() ==> whitespace(#[trigger] s[i])
}

/// `s` without its leading whitespace.
pub open spec fn trimmed_start(s: Seq<char>) -> Seq<char>
    decreases s.len(),
{
    if s.len() > 0 && whitespace(s.first()) {
        trimmed_start(s.drop_first())
    } else {
        s
    }
}

/// `s` without its trailing whitespace.
pub open spec fn trimmed_end(s: Seq<char>) -> Seq<char>
    decreases s.len(),
{
    if s.len() > 0 && whitespace(s.last()) {
        trimmed_end(s.drop_last())
    } else {
        s
    }
}

/// `s` without its leading and trailing whitespace.
pub open spec fn trimmed(s: Seq<char>) -> Seq<char> {
    trimmed_end(trimmed_start(s))
}

/// Tests one character for Unicode's `White_Space` property.
pub fn is_whitespace(c: char) -> (res: bool)
    ensures
        res == whitespace(c),
{
    ('\u{9}' <= c && c <= '\u{d}') || c == ' ' || c == '\u{85}' || c == '\u{a0}' || c == '\u{1680}'
        || ('\u{2000}' <= c && c <= '\u{200a}') || c == '\u{2028}' || c == '\u{2029}' || c
        == '\u{202f}' || c == '\u{205f}' || c == '\u{3000}'
}

/// True when `s` holds nothing but whitespace.
pub fn is_blank(s: &str) -> (res: bool)
    ensures
        res == blank(s@),
{
    for c in it: s.chars()
        invariant
            it.seq() == s@,
            forall|i: int| 0 <= i < it.index() ==> whitespace(#[trigger] s@[i]),
    {
        if !is_whitespace(c) {
            assert(s@[it.index() as int] == c);
            return false;
        }
    }
    true
}

/// Whitespace that leads `s` is cut off, up to the first other character.
proof fn lemma_trimmed_start(s: Seq<char>, k: int)
    requires
        0 <= k <= s.len(),
        forall|i: int| 0 <= i < k ==> whitespace(#[trigger] s[i]),
        k == s.len() || !whitespace(s[k]),
    ensures
        trimmed_start(s) == s.skip(k),
    decreases k,
{
    if k == 0 {
        assert(s.skip(0) =~= s);
    } else {
        assert(whitespace(s[0]));
        assert forall|i: int| 0 <= i < k - 1 implies whitespace(#[trigger] s.drop_first()[i]) by {
            assert(whitespace(s[i + 1]));
        }
        lemma_trimmed_start(s.drop_first(), k - 1);
        assert(s.drop_first().skip(k - 1) =~= s.skip(k));
    }
}

/// Whitespace that ends `s` is cut off, down to the last other character.
proof fn lemma_trimmed_end(s: Seq<char>, k: int)
    requires
        0 <= k <= s.len(),
        forall|i: int| k <= i < s.len() ==> whitespace(#[trigger] s[i]),
        k == 0 || !whitespace(s[k - 1]),
    ensures
        trimmed_end(s) == s.take(k),
    decreases s.len() - k,
{
    if k == s.len() {
        assert(s.take(k) =~= s);
    } else {
        assert(whitespace(s[s.len() - 1]));
        assert forall|i: int| k <= i < s.drop_last().len() implies whitespace(
            #[trigger] s.drop_last()[i],
        ) by {
            assert(whitespace(s[i]));
        }
        lemma_trimmed_end(s.drop_last(), k);
        assert(s.drop_last().take(k) =~= s.take(k));
    }
}

/// The number of leading whitespace characters of `s`, and the position after
/// its last other character (0 when there is none).
fn content_bounds(s: &str) -> (res: (usize, usize))
    ensures
        res.0 <= s@.len(),
        res.1 <= s@.len(),
        forall|i: int| 0 <= i < res.0 ==> whitespace(#[trigger] s@[i]),
        res.0 == s@.len() || !whitespace(s@[res.0 as int]),
        forall|i: int| res.1 <= i < s@.len() ==> whitespace(#[trigger] s@[i]),
        res.1 == 0 || !whitespace(s@[res.1 - 1]),
        res.0 == s@.len() || res.0 < res.1,
{
    let n: usize = s.unicode_len();
    let mut start: usize = 0;
    let mut end: usize = 0;
    let mut at: usize = 0;
    for c in it: s.chars()
        invariant
            it.seq() == s@,
            n == s@.len(),
            at == it.index(),
            start <= at <= n,
            end <= at,
            forall|i: int| 0 <= i < start ==> whitespace(#[trigger] s@[i]),
            start == at || !whitespace(s@[start as int]),
            forall|i: int| end <= i < at ==> whitespace(#[trigger] s@[i]),
            end == 0 || !whitespace(s@[end - 1]),
            start == at || start < end,
    {
        assert(s@[at as int] == c);
        if is_whitespace(c) {
            if start == at {
                start = start + 1;
            }
            at = at + 1;
        } else {
            at = at + 1;
            end = at;
        }
    }
    (start, end)
}

/// `s` without its leading and trailing whitespace.
pub fn trim<'a>(s: &'a str) -> (res: &'a str)
    ensures
        res@ == trimmed(s@),
{
    let (start, end) = content_bounds(s);
    proof {
        lemma_trimmed_start(s@, start as int);
    }
    if start < end {
        proof {
            let rest = s@.skip(start as int);
            assert forall|i: int| end - start <= i < rest.len() implies whitespace(
                #[trigger] rest[i],
            ) by {
                assert(whitespace(s@[i + start]));
            }
            assert(!whitespace(rest[end - start - 1]));
            lemma_trimmed_end(rest, end - start);
            assert(rest.take(end - start) =~= s@.subrange(start as int, end as int));
        }
        s.substring_char(start, end)
    } else {
        assert(s@.skip(start as int) =~= s@.subrange(0, 0));
        s.substring_char(0, 0)
    }
}

/// `s` without its trailing whitespace.
pub fn trim_end<'a>(s: &'a str) -> (res: &'a str)
    ensures
        res@ == trimmed_end(s@),
{
    let (_, end) = content_bounds(s);
    proof {
        lemma_trimmed_end(s@, end as int);
        assert(s@.take(end as int) =~= s@.subrange(0, end as int));
    }
    s.substring_char(0, end)
}

/// True when `a` and `b` hold the same characters.
pub fn same_text(a: &str, b: &str) -> (res: bool)
    ensures
        res == (a@ == b@),
{
    broadcast use vstd::utf8::encode_utf8_decode_utf8;

    let x = a.as_bytes();
    let y = b.as_bytes();
    if x.len() != y.len() {
        return false;
    }
    for i in 0..x.len()
        invariant
            x@ == vstd::utf8::encode_utf8(a@),
            y@ == vstd::utf8::encode_utf8(b@),
            x@.len() == y@.len(),
            forall|j: int| 0 <= j < i ==> x@[j] == y@[j],
    {
        if x[i] != y[i] {
            return false;
        }
    }
    proof {
        assert(x@ =~= y@);
        vstd::utf8::encode_utf8_decode_utf8(a@);
        vstd::utf8::encode_utf8_decode_utf8(b@);
    }
    true
}

/// The number of characters of `s` before its first newline, or all of them.
pub open spec fn line_end(s: Seq<char>) -> int
    decreases s.len(),
{
    if s.len() == 0 || s.first() == '\n' {
        0
    } else {
        1 + line_end(s.drop_first())
    }
}

/// The lines of `s`: what stands between its newlines, empty lines included.
/// There is always at least one line.
pub open spec fn lines_of(s: Seq<char>) -> Seq<Seq<char>>
    decreases s.len(),
{
    let k = line_end(s);
    if 0 <= k < s.len() {
        seq![s.take(k)] + lines_of(s.skip(k + 1))
    } else {
        seq![s]
    }
}

/// `parts` with one newline between each two of them.
pub open spec fn joined(parts: Seq<Seq<char>>) -> Seq<char>
    decreases parts.len(),
{
    if parts.len() == 0 {
        Seq::empty()
    } else if parts.len() == 1 {
        parts[0]
    } else {
        parts[0] + seq!['\n'] + joined(parts.drop_first())
    }
}

/// The contents of string slices.
pub open spec fn views(parts: Seq<&str>) -> Seq<Seq<char>> {
    Seq::new(parts.len(), |i: int| parts[i]@)
}

/// The contents of owned strings.
pub open spec fn string_views(parts: Seq<String>) -> Seq<Seq<char>> {
    Seq::new(parts.len(), |i: int| parts[i]@)
}

/// The contents of an optional string.
pub open spec fn opt_view(s: Option<String>) -> Option<Seq<char>> {
    match s {
        Some(s) => Some(s@),
        None => None,
    }
}

/// Owned copies of `parts`.
pub fn owned(parts: &[&str]) -> (res: Vec<String>)
    ensures
        string_views(res@) == views(parts@),
{
    let mut out: Vec<String> = Vec::new();
    for i in 0..parts.len()
        invariant
            out@.len() == i,
            forall|j: int| 0 <= j < i ==> (#[trigger] out@[j])@ == parts@[j]@,
    {
        out.push(parts[i].to_string());
    }
    assert(string_views(out@) =~= views(parts@));
    out
}

/// `parts` as string slices.
pub fn borrowed<'a>(parts: &'a [String]) -> (res: Vec<&'a str>)
    ensures
        views(res@) == string_views(parts@),
{
    let mut out: Vec<&'a str> = Vec::new();
    for i in 0..parts.len()
        invariant
            out@.len() == i,
            forall|j: int| 0 <= j < i ==> (#[trigger] out@[j])@ == parts@[j]@,
    {
        out.push(parts[i].as_str());
    }
    assert(views(out@) =~= string_views(parts@));
    out
}

/// `line_end` is the position of the first newline, or the length.
pub proof fn lemma_line_end(s: Seq<char>)
    ensures
        0 <= line_end(s) <= s.len(),
        forall|i: int| 0 <= i < line_end(s) ==> s[i] != '\n',
        line_end(s) < s.len() ==> s[line_end(s)] == '\n',
    decreases s.len(),
{
    if s.len() > 0 && s.first() != '\n' {
        let t = s.drop_first();
        lemma_line_end(t);
        assert forall|i: int| 0 <= i < line_end(s) implies s[i] != '\n' by {
            if i > 0 {
                assert(t[i - 1] == s[i]);
            }
        }
        if line_end(s) < s.len() {
            assert(t[line_end(t)] == s[line_end(s)]);
        }
    }
}

/// A position whose character is a newline and that no newline precedes is
/// `line_end`; without newlines it is the length.
proof fn lemma_line_end_is(s: Seq<char>, k: int)
    requires
        0 <= k <= s.len(),
        forall|i: int| 0 <= i < k ==> s[i] != '\n',
        k == s.len() || s[k] == '\n',
    ensures
        line_end(s) == k,
{
    lemma_line_end(s);
    if line_end(s) < k {
        assert(s[line_end(s)] == '\n');
    }
    if k < line_end(s) {
        assert(s[k] == '\n');
    }
}

/// Joining the lines of a text gives the text back.
pub proof fn law_join_undoes_split(s: Seq<char>)
    ensures
        joined(lines_of(s)) == s,
    decreases s.len(),
{
    lemma_line_end(s);
    let k = line_end(s);
    if k < s.len() {
        let rest = lines_of(s.skip(k + 1));
        law_join_undoes_split(s.skip(k + 1));
        lemma_lines_of_len(s.skip(k + 1));
        let all = lines_of(s);
        assert(all =~= seq![s.take(k)] + rest);
        assert(all.drop_first() =~= rest);
        assert(joined(all) == s.take(k) + seq!['\n'] + s.skip(k + 1));
        assert(s.take(k) + seq!['\n'] + s.skip(k + 1) =~= s);
    }
}

/// A text has at least one line, and no line of it holds a newline.
pub proof fn lemma_lines_of_len(s: Seq<char>)
    ensures
        lines_of(s).len() >= 1,
        forall|i: int|
            0 <= i < lines_of(s).len() ==> !(#[trigger] lines_of(s)[i]).contains('\n'),
    decreases s.len(),
{
    lemma_line_end(s);
    let k = line_end(s);
    if k < s.len() {
        lemma_lines_of_len(s.skip(k + 1));
        assert forall|i: int| 0 <= i < lines_of(s).len() implies !(
        #[trigger] lines_of(s)[i]).contains('\n') by {
            if i > 0 {
                assert(lines_of(s)[i] == lines_of(s.skip(k + 1))[i - 1]);
            }
        }
    }
}

/// Splitting what was joined gives the parts back, as long as there are some
/// and none of them holds a newline.
pub proof fn law_split_undoes_join(parts: Seq<Seq<char>>)
    requires
        parts.len() >= 1,
        forall|i: int| 0 <= i < parts.len() ==> !(#[trigger] parts[i]).contains('\n'),
    ensures
        lines_of(joined(parts)) == parts,
    decreases parts.len(),
{
    let s = joined(parts);
    let k = parts[0].len() as int;
    assert forall|i: int| 0 <= i < k implies parts[0][i] != '\n' by {
        assert(!parts[0].contains('\n'));
        assert(parts[0][i] == '\n' ==> parts[0].contains(parts[0][i]));
    }
    if parts.len() == 1 {
        lemma_line_end_is(s, k);
        assert(lines_of(s) =~= parts);
    } else {
        let rest = parts.drop_first();
        assert forall|i: int| 0 <= i < rest.len() implies !(#[trigger] rest[i]).contains(
            '\n',
        ) by {
            assert(!parts[i + 1].contains('\n'));
        }
        law_split_undoes_join(rest);
        lemma_line_end_is(s, k);
        assert(s.take(k) =~= parts[0]);
        assert(s.skip(k + 1) =~= joined(rest));
        assert(lines_of(s) =~= parts);
    }
}

/// The encoding of one character holds the newline byte only when the
/// character is the newline, and is then that byte alone.
proof fn lemma_newline_byte(c: char)
    ensures
        c == '\n' ==> vstd::utf8::encode_scalar(c as u32) == seq![10u8],
        c != '\n' ==> !vstd::utf8::encode_scalar(c as u32).contains(10u8),
{
    let u = c as u32;
    vstd::utf8::char_is_scalar(c);
    let b = vstd::utf8::encode_scalar(u);
    if vstd::utf8::has_width_1_encoding(u) {
        assert(vstd::utf8::leading_byte_width_1(u) == 10u8 <==> u == 10u32) by (bit_vector)
            requires
                vstd::utf8::has_width_1_encoding(u),
        ;
        if c != '\n' {
            assert(b.len() == 1);
            assert(b[0] != 10u8);
        } else {
            assert(b =~= seq![10u8]);
        }
    } else {
        assert(vstd::utf8::leading_byte_width_2(u) >= 0x80u8) by (bit_vector);
        assert(vstd::utf8::leading_byte_width_3(u) >= 0x80u8) by (bit_vector);
        assert(vstd::utf8::leading_byte_width_4(u) >= 0x80u8) by (bit_vector);
        assert(vstd::utf8::last_continuation_byte(u) >= 0x80u8) by (bit_vector);
        assert(vstd::utf8::second_last_continuation_byte(u) >= 0x80u8) by (bit_vector);
        assert(vstd::utf8::third_last_continuation_byte(u) >= 0x80u8) by (bit_vector);
        assert(forall|i: int| 0 <= i < b.len() ==> b[i] >= 0x80u8);
    }
}

/// The first newline byte of an encoding is where the first newline
/// character of the text is encoded.
proof fn lemma_first_newline_byte(s: Seq<char>, i: int)
    requires
        0 <= i < vstd::utf8::encode_utf8(s).len(),
        vstd::utf8::encode_utf8(s)[i] == 10u8,
        forall|j: int| 0 <= j < i ==> vstd::utf8::encode_utf8(s)[j] != 10u8,
    ensures
        line_end(s) < s.len(),
        vstd::utf8::encode_utf8(s).take(i) == vstd::utf8::encode_utf8(s.take(line_end(s))),
        vstd::utf8::encode_utf8(s).skip(i) == vstd::utf8::encode_utf8(s.skip(line_end(s))),
    decreases s.len(),
{
    let b = vstd::utf8::encode_utf8(s);
    let head = vstd::utf8::encode_scalar(s[0] as u32);
    let t = s.drop_first();
    let tail = vstd::utf8::encode_utf8(t);
    lemma_line_end(s);
    lemma_newline_byte(s[0]);
    assert(b =~= head + tail);
    if s[0] == '\n' {
        assert(b[0] == 10u8);
        assert(i == 0);
        assert(s.take(0) =~= Seq::<char>::empty());
        assert(b.take(0) =~= vstd::utf8::encode_utf8(s.take(0)));
        assert(s.skip(0) =~= s);
        assert(b.skip(0) =~= b);
    } else {
        let w = head.len() as int;
        if i < w {
            assert(head[i] == 10u8);
            assert(head.contains(10u8));
        }
        assert(tail[i - w] == b[i]);
        assert forall|j: int| 0 <= j < i - w implies tail[j] != 10u8 by {
            assert(tail[j] == b[j + w]);
        }
        lemma_first_newline_byte(t, i - w);
        let k = line_end(s);
        assert(k == 1 + line_end(t));
        assert(s.take(k).drop_first() =~= t.take(k - 1));
        assert(s.take(k)[0] == s[0]);
        assert(b.take(i) =~= head + tail.take(i - w));
        assert(s.skip(k) =~= t.skip(k - 1));
        assert(b.skip(i) =~= tail.skip(i - w));
    }
}

/// An encoding without a newline byte encodes a text without a newline.
proof fn lemma_no_newline_byte(s: Seq<char>)
    requires
        !vstd::utf8::encode_utf8(s).contains(10u8),
    ensures
        line_end(s) == s.len(),
    decreases s.len(),
{
    if s.len() > 0 {
        let b = vstd::utf8::encode_utf8(s);
        let head = vstd::utf8::encode_scalar(s[0] as u32);
        let tail = vstd::utf8::encode_utf8(s.drop_first());
        lemma_newline_byte(s[0]);
        assert(b =~= head + tail);
        if s[0] == '\n' {
            assert(b[0] == 10u8);
        }
        if tail.contains(10u8) {
            let j = choose|j: int| 0 <= j < tail.len() && tail[j] == 10u8;
            assert(b[j + head.len()] == 10u8);
        }
        lemma_no_newline_byte(s.drop_first());
    }
}

/// The first line of `s` and what follows its newline, or `None` when `s`
/// holds no newline.
fn split_first_line<'a>(s: &'a str) -> (res: Option<(&'a str, &'a str)>)
    ensures
        res is None <==> line_end(s@) == s@.len(),
        res matches Some((head, tail)) ==> {
            &&& line_end(s@) < s@.len()
            &&& head@ == s@.take(line_end(s@))
            &&& tail@ == s@.skip(line_end(s@) + 1)
        },
{
    let bytes = s.as_bytes();
    for i in 0..bytes.len()
        invariant
            bytes@ == vstd::utf8::encode_utf8(s@),
            forall|j: int| 0 <= j < i ==> bytes@[j] != 10u8,
    {
        if bytes[i] == 10u8 {
            let ghost k = line_end(s@);
            let ghost rest = s@.skip(k);
            proof {
                lemma_first_newline_byte(s@, i as int);
                lemma_line_end(s@);
                vstd::utf8::encode_utf8_valid_utf8(s@);
                vstd::utf8::is_char_boundary_iff_not_is_continuation_byte(bytes@, i as int);
            }
            let (head, from_newline) = s.split_at(i);
            proof {
                assert(bytes@.subrange(0, i as int) =~= bytes@.take(i as int));
                assert(bytes@.subrange(i as int, bytes@.len() as int) =~= bytes@.skip(i as int));
                lemma_same_encoding(head@, s@.take(k));
                lemma_same_encoding(from_newline@, rest);
                lemma_newline_byte('\n');
                assert(rest[0] == '\n');
                vstd::utf8::encode_utf8_valid_utf8(rest);
                vstd::utf8::encode_utf8_first_scalar(rest);
                reveal_with_fuel(vstd::utf8::is_char_boundary, 2);
            }
            let (_, tail) = from_newline.split_at(1);
            proof {
                let all = vstd::utf8::encode_utf8(rest);
                assert(all =~= seq![10u8] + vstd::utf8::encode_utf8(rest.drop_first()));
                assert(all.subrange(1, all.len() as int) =~= vstd::utf8::encode_utf8(
                    rest.drop_first(),
                ));
                lemma_same_encoding(tail@, rest.drop_first());
                assert(rest.drop_first() =~= s@.skip(k + 1));
            }
            return Some((head, tail));
        }
    }
    proof {
        lemma_no_newline_byte(s@);
    }
    None
}

/// Texts with the same encoding are the same.
proof fn lemma_same_encoding(a: Seq<char>, b: Seq<char>)
    requires
        vstd::utf8::encode_utf8(a) == vstd::utf8::encode_utf8(b),
    ensures
        a == b,
{
    vstd::utf8::encode_utf8_decode_utf8(a);
    vstd::utf8::encode_utf8_decode_utf8(b);
}

/// Splits captured pane text on newlines. An empty text is one empty line,
/// and a final newline is followed by one empty line.
pub fn split_lines<'a>(text: &'a str) -> (res: Vec<&'a str>)
    ensures
        views(res@) == lines_of(text@),
{
    let mut out: Vec<&'a str> = Vec::new();
    let mut rest: &'a str = text;
    assert(views(out@) + lines_of(rest@) =~= lines_of(text@));
    loop
        invariant
            views(out@) + lines_of(rest@) == lines_of(text@),
        decreases rest@.len(),
    {
        match split_first_line(rest) {
            Some((head, tail)) => {
                proof {
                    lemma_line_end(rest@);
                    assert(views(out@.push(head)) =~= views(out@) + seq![head@]);
                    assert(views(out@) + lines_of(rest@) =~= views(out@.push(head)) + lines_of(
                        tail@,
                    ));
                }
                out.push(head);
                rest = tail;
            },
            None => {
                assert(views(out@.push(rest)) =~= views(out@) + seq![rest@]);
                out.push(rest);
                return out;
            },
        }
    }
}

/// The last line that is not blank, or `None` when there is none.
pub open spec fn last_meaningful(lines: Seq<Seq<char>>) -> Option<Seq<char>>
    decreases lines.len(),
{
    if lines.len() == 0 {
        None
    } else if !blank(lines.last()) {
        Some(lines.last())
    } else {
        last_meaningful(lines.drop_last())
    }
}

/// The last meaningful line is one of the lines, and only blank lines follow
/// it; without it, all lines are blank.
pub proof fn law_last_meaningful(lines: Seq<Seq<char>>)
    ensures
        match last_meaningful(lines) {
            Some(line) => exists|i: int|
                0 <= i < lines.len() && last_meaningful(lines) == Some(#[trigger] lines[i])
                    && !blank(lines[i]) && forall|j: int|
                    i < j < lines.len() ==> blank(#[trigger] lines[j]),
            None => forall|j: int| 0 <= j < lines.len() ==> blank(#[trigger] lines[j]),
        },
    decreases lines.len(),
{
    if lines.len() > 0 {
        let n = lines.len() - 1;
        if !blank(lines.last()) {
            assert(last_meaningful(lines) == Some(lines[n]));
        } else {
            let front = lines.drop_last();
            law_last_meaningful(front);
            if last_meaningful(front) is Some {
                let i = choose|i: int|
                    0 <= i < front.len() && last_meaningful(front) == Some(#[trigger] front[i])
                        && !blank(front[i]) && forall|j: int|
                        i < j < front.len() ==> blank(#[trigger] front[j]);
                assert(last_meaningful(lines) == Some(lines[i]));
                assert forall|j: int| i < j < lines.len() implies blank(#[trigger] lines[j]) by {
                    if j < n {
                        assert(blank(front[j]));
                    }
                }
            } else {
                assert forall|j: int| 0 <= j < lines.len() implies blank(#[trigger] lines[j]) by {
                    if j < n {
                        assert(blank(front[j]));
                    }
                }
            }
        }
    }
}

/// The last line that holds more than whitespace, or `None` if there is none.
pub fn last_meaningful_line<'a>(lines: &[&'a str]) -> (res: Option<&'a str>)
    ensures
        match res {
            Some(line) => last_meaningful(views(lines@)) == Some(line@),
            None => last_meaningful(views(lines@)) is None,
        },
{
    let mut n: usize = lines.len();
    assert(views(lines@).take(n as int) =~= views(lines@));
    while n > 0
        invariant
            n <= lines@.len(),
            last_meaningful(views(lines@)) == last_meaningful(views(lines@).take(n as int)),
        decreases n,
    {
        let ghost seen = views(lines@).take(n as int);
        assert(seen.last() == lines@[n - 1]@);
        assert(seen.drop_last() =~= views(lines@).take(n - 1));
        if !is_blank(lines[n - 1]) {
            return Some(lines[n - 1]);
        }
        n = n - 1;
    }
    None
}

/// Joins `parts` with one newline between each two of them.
pub fn join_lines(parts: &[&str]) -> (res: String)
    ensures
        res@ == joined(views(parts@)),
{
    let mut out = String::new();
    let ghost all = views(parts@);
    assert(all.skip(0) =~= all);
    for i in 0..parts.len()
        invariant
            all == views(parts@),
            i == 0 ==> out@.len() == 0,
            0 < i < parts@.len() ==> out@ + seq!['\n'] + joined(all.skip(i as int)) == joined(all),
            0 < i && i == parts@.len() ==> out@ == joined(all),
    {
        let ghost rest = all.skip(i as int);
        assert(rest[0] == parts@[i as int]@);
        assert(rest.drop_first() =~= all.skip(i + 1));
        assert(rest.len() == parts@.len() - i);
        let ghost before = out@;
        if i > 0 {
            proof {
                reveal_strlit("\n");
                assert("\n"@ =~= seq!['\n']);
            }
            out.append("\n");
        } else {
            assert(rest =~= all);
        }
        out.append(parts[i]);
        proof {
            if rest.len() == 1 {
                if i == 0 {
                    assert(out@ =~= joined(all));
                } else {
                    assert(out@ =~= before + seq!['\n'] + joined(rest));
                }
            } else {
                let more = seq!['\n'] + joined(all.skip(i + 1));
                assert(joined(rest) =~= parts@[i as int]@ + more);
                if i == 0 {
                    assert(out@ + seq!['\n'] + joined(all.skip(i + 1)) =~= joined(rest));
                } else {
                    assert(out@ + seq!['\n'] + joined(all.skip(i + 1)) =~= before + seq!['\n']
                        + joined(rest));
                }
            }
        }
    }
    proof {
        if parts@.len() == 0 {
            assert(out@ =~= joined(all));
        }
    }
    out
}

/// Joins the lines of a multi-line command into one text to send: one line
/// per element, with a newline at the end. Sending it appends an Enter of its
/// own, so a block of lines is closed by exactly one blank line.
pub fn build_multi_line_text(lines: &[String]) -> (res: String)
    ensures
        res@ == joined(string_views(lines@)).push('\n'),
{
    let mut out = join_lines(borrowed(lines).as_slice());
    proof {
        reveal_strlit("\n");
        assert("\n"@ =~= seq!['\n']);
        assert(out@ + "\n"@ =~= out@.push('\n'));
    }
    out.append("\n");
    out
}

/// Trimming leaves neither leading nor trailing whitespace, and what is left
/// is empty exactly when the text was blank.
pub proof fn law_trimmed(s: Seq<char>)
    ensures
        trimmed(s).len() > 0 ==> !whitespace(trimmed(s).first()) && !whitespace(trimmed(s).last()),
        trimmed(s).len() == 0 <==> blank(s),
        trimmed(trimmed(s)) == trimmed(s),
        trimmed_end(trimmed(s)) == trimmed(s),
{
    lemma_trimmed_start_ends(s);
    lemma_trimmed_end_ends(trimmed_start(s));
    let t = trimmed(s);
    if t.len() > 0 {
        assert(t[0] == trimmed_start(s)[0]);
    }
}

/// Trimming the end leaves no trailing whitespace.
pub proof fn law_trimmed_end(s: Seq<char>)
    ensures
        trimmed_end(s).len() > 0 ==> !whitespace(trimmed_end(s).last()),
        trimmed_end(trimmed_end(s)) == trimmed_end(s),
{
    lemma_trimmed_end_ends(s);
}

proof fn lemma_trimmed_start_ends(s: Seq<char>)
    ensures
        trimmed_start(s).len() > 0 ==> !whitespace(trimmed_start(s).first()),
        trimmed_start(s).len() == 0 <==> blank(s),
    decreases s.len(),
{
    if s.len() > 0 && whitespace(s.first()) {
        let t = s.drop_first();
        lemma_trimmed_start_ends(t);
        if blank(t) {
            assert forall|i: int| 0 <= i < s.len() implies whitespace(#[trigger] s[i]) by {
                if i > 0 {
                    assert(s[i] == t[i - 1]);
                }
            }
        }
        if blank(s) {
            assert forall|i: int| 0 <= i < t.len() implies whitespace(#[trigger] t[i]) by {
                assert(whitespace(s[i + 1]));
            }
        }
    }
}

proof fn lemma_trimmed_end_ends(s: Seq<char>)
    ensures
        trimmed_end(s).len() > 0 ==> !whitespace(trimmed_end(s).last()),
        trimmed_end(s).len() <= s.len(),
        trimmed_end(s) == s.take(trimmed_end(s).len() as int),
        s.len() > 0 && !whitespace(s.first()) ==> trimmed_end(s).len() > 0,
        trimmed_end(s).len() > 0 ==> trimmed_end(s).first() == s.first(),
    decreases s.len(),
{
    if s.len() > 0 && whitespace(s.last()) {
        let t = s.drop_last();
        lemma_trimmed_end_ends(t);
        assert(t.take(trimmed_end(t).len() as int) =~= s.take(trimmed_end(t).len() as int));
    } else {
        assert(s.take(s.len() as int) =~= s);
    }
}

/// A multi-line text is its lines and then one empty line, which closes the
/// block.
pub proof fn law_multi_line_text_closes_block(lines: Seq<Seq<char>>)
    requires
        lines.len() >= 1,
        forall|i: int| 0 <= i < lines.len() ==> !(#[trigger] lines[i]).contains('\n'),
    ensures
        lines_of(joined(lines).push('\n')) == lines.push(Seq::empty()),
{
    let all = lines.push(Seq::<char>::empty());
    assert forall|i: int| 0 <= i < all.len() implies !(#[trigger] all[i]).contains('\n') by {
        if i < lines.len() {
            assert(!lines[i].contains('\n'));
        }
    }
    law_split_undoes_join(all);
    lemma_joined_push(lines, Seq::empty());
    assert(joined(lines) + seq!['\n'] + Seq::<char>::empty() =~= joined(lines).push('\n'));
}

/// Joining one more part puts a newline and the part at the end.
pub proof fn lemma_joined_push(parts: Seq<Seq<char>>, last: Seq<char>)
    requires
        parts.len() >= 1,
    ensures
        joined(parts.push(last)) == joined(parts) + seq!['\n'] + last,
    decreases parts.len(),
{
    let all = parts.push(last);
    assert(all.drop_first() =~= parts.drop_first().push(last));
    if parts.len() == 1 {
        assert(all.drop_first() =~= seq![last]);
        assert(joined(seq![last]) =~= last);
    } else {
        lemma_joined_push(parts.drop_first(), last);
        assert(joined(all) =~= joined(parts) + seq!['\n'] + last);
    }
}

/// What is joined of the later parts ends what is joined of all of them.
pub proof fn lemma_joined_suffix(parts: Seq<Seq<char>>, k: int)
    requires
        0 <= k <= parts.len(),
    ensures
        joined(parts.skip(k)).is_suffix_of(joined(parts)),
    decreases k,
{
    if k == 0 {
        assert(parts.skip(0) =~= parts);
    } else {
        let rest = parts.drop_first();
        lemma_joined_suffix(rest, k - 1);
        assert(rest.skip(k - 1) =~= parts.skip(k));
        let all = joined(parts);
        let tail = joined(parts.skip(k));
        if parts.len() > 1 {
            assert(all =~= parts[0] + seq!['\n'] + joined(rest));
            let d = all.len() - joined(rest).len();
            assert(all.subrange(all.len() - tail.len(), all.len() as int) =~= joined(rest).subrange(
                joined(rest).len() - tail.len(),
                joined(rest).len() as int,
            ));
        } else {
            assert(tail.len() == 0);
            assert(all.subrange(all.len() as int, all.len() as int) =~= tail);
        }
    }
}

/// The whitespace characters, by their numbers.
pub proof fn law_whitespace_characters(c: char)
    ensures
        whitespace(c) <==> ({
            let n = c as int;
            ||| 9 <= n <= 13
            ||| n == 32
            ||| n == 133
            ||| n == 160
            ||| n == 5760
            ||| 8192 <= n <= 8202
            ||| n == 8232
            ||| n == 8233
            ||| n == 8239
            ||| n == 8287
            ||| n == 12288
        }),
{
}

/// A text is blank exactly when its parts are, one character is blank exactly
/// when it is whitespace, and nothing is blank.
pub proof fn law_blank_by_parts(a: Seq<char>, b: Seq<char>, c: char)
    ensures
        blank(Seq::empty()),
        blank(seq![c]) <==> whitespace(c),
        blank(a + b) <==> blank(a) && blank(b),
{
    let all = a + b;
    assert(seq![c][0] == c);
    if blank(all) {
        assert forall|i: int| 0 <= i < a.len() implies whitespace(#[trigger] a[i]) by {
            assert(all[i] == a[i]);
        }
        assert forall|i: int| 0 <= i < b.len() implies whitespace(#[trigger] b[i]) by {
            assert(all[i + a.len()] == b[i]);
        }
    }
}

/// Trimming takes the whitespace around a text away and leaves the text
/// between untouched, whatever whitespace it holds within.
pub proof fn law_trimming_keeps_the_rest(before: Seq<char>, text: Seq<char>, after: Seq<char>)
    requires
        blank(before),
        blank(after),
        text.len() > 0,
        !whitespace(text.first()),
        !whitespace(text.last()),
    ensures
        trimmed(before + text + after) == text,
        trimmed_end(before + text + after) == before + text,
{
    let all = before + text + after;
    let k = before.len() as int;
    assert forall|i: int| 0 <= i < k implies whitespace(#[trigger] all[i]) by {
        assert(all[i] == before[i]);
    }
    assert(all[k] == text[0]);
    lemma_trimmed_start(all, k);
    let rest = all.skip(k);
    assert(rest =~= text + after);
    let n = text.len() as int;
    assert forall|i: int| n <= i < rest.len() implies whitespace(#[trigger] rest[i]) by {
        assert(rest[i] == after[i - n]);
    }
    assert(rest[n - 1] == text[n - 1]);
    lemma_trimmed_end(rest, n);
    assert(rest.take(n) =~= text);
    assert forall|i: int| k + n <= i < all.len() implies whitespace(#[trigger] all[i]) by {
        assert(all[i] == after[i - k - n]);
    }
    assert(all[k + n - 1] == text[n - 1]);
    lemma_trimmed_end(all, k + n);
    assert(all.take(k + n) =~= before + text);
}

/// Trimming leaves nothing of a blank text.
pub proof fn law_trimming_empties_blank_text(s: Seq<char>)
    requires
        blank(s),
    ensures
        trimmed(s) == Seq::<char>::empty(),
        trimmed_end(s) == Seq::<char>::empty(),
{
    lemma_trimmed_start(s, s.len() as int);
    assert(s.skip(s.len() as int) =~= Seq::empty());
    lemma_trimmed_end(s, 0);
    assert(s.take(0) =~= Seq::empty());
}

/// A text is split at its newlines and nowhere else: a text without one is one
/// line, and what follows a newline is split on its own.
pub proof fn law_lines_end_at_newlines(line: Seq<char>, rest: Seq<char>)
    requires
        !line.contains('\n'),
    ensures
        lines_of(line) == seq![line],
        lines_of(line.push('\n') + rest) == seq![line] + lines_of(rest),
{
    let k = line.len() as int;
    assert forall|i: int| 0 <= i < k implies line[i] != '\n' by {
        assert(line.contains(line[i]));
    }
    lemma_line_end_is(line, k);
    let all = line.push('\n') + rest;
    lemma_line_end_is(all, k);
    assert(all.take(k) =~= line);
    assert(all.skip(k + 1) =~= rest);
}

/// Joining puts one newline between two parts, and changes nothing else.
pub proof fn law_joining_adds_one_newline(parts: Seq<Seq<char>>, last: Seq<char>)
    ensures
        joined(Seq::empty()) == Seq::<char>::empty(),
        joined(seq![last]) == last,
        parts.len() > 0 ==> joined(parts.push(last)) == joined(parts) + seq!['\n'] + last,
{
    if parts.len() > 0 {
        lemma_joined_push(parts, last);
    }
}

/// The lines of two texts with a newline between them are those of the one and
/// then those of the other.
pub proof fn law_lines_of_two_texts(a: Seq<char>, b: Seq<char>)
    ensures
        lines_of(a.push('\n') + b) == lines_of(a) + lines_of(b),
    decreases a.len(),
{
    lemma_line_end(a);
    let k = line_end(a);
    let all = a.push('\n') + b;
    if k < a.len() {
        let line = a.take(k);
        let rest = a.skip(k + 1);
        assert(!line.contains('\n'));
        law_lines_of_two_texts(rest, b);
        law_lines_end_at_newlines(line, rest.push('\n') + b);
        assert(line.push('\n') + (rest.push('\n') + b) =~= all);
        assert(seq![line] + (lines_of(rest) + lines_of(b)) =~= seq![line] + lines_of(rest)
            + lines_of(b));
    } else {
        assert(!a.contains('\n'));
        law_lines_end_at_newlines(a, b);
    }
}

/// The lines of a blank text are blank.
pub proof fn law_lines_of_blank_text(s: Seq<char>)
    requires
        blank(s),
    ensures
        forall|i: int| 0 <= i < lines_of(s).len() ==> blank(#[trigger] lines_of(s)[i]),
    decreases s.len(),
{
    lemma_line_end(s);
    let k = line_end(s);
    if k < s.len() {
        let rest = s.skip(k + 1);
        assert forall|i: int| 0 <= i < rest.len() implies whitespace(#[trigger] rest[i]) by {
            assert(whitespace(s[i + k + 1]));
        }
        law_lines_of_blank_text(rest);
        assert forall|i: int| 0 <= i < lines_of(s).len() implies blank(
            #[trigger] lines_of(s)[i],
        ) by {
            if i > 0 {
                assert(lines_of(s)[i] == lines_of(rest)[i - 1]);
            }
        }
    }
}

/// The last line that is not blank is the meaningful one, whatever comes before
/// it and however many blank lines follow it.
pub proof fn law_blank_lines_do_not_count(lines: Seq<Seq<char>>, k: int)
    requires
        0 <= k < lines.len(),
        !blank(lines[k]),
        forall|j: int| k < j < lines.len() ==> blank(#[trigger] lines[j]),
    ensures
        last_meaningful(lines) == Some(lines[k]),
    decreases lines.len(),
{
    if k < lines.len() - 1 {
        assert(blank(lines[lines.len() - 1]));
        law_blank_lines_do_not_count(lines.drop_last(), k);
    }
}

/// A multi-line text is, line by line, the line and a newline.
pub proof fn law_multi_line_text_by_lines(lines: Seq<Seq<char>>, last: Seq<char>)
    ensures
        joined(seq![last]).push('\n') == last.push('\n'),
        lines.len() > 0 ==> joined(lines.push(last)).push('\n') == joined(lines).push('\n')
            + last.push('\n'),
{
    if lines.len() > 0 {
        lemma_joined_push(lines, last);
        assert(joined(lines.push(last)).push('\n') =~= joined(lines).push('\n') + last.push(
            '\n',
        ));
    }
}

/// The contents of strings are all of them, in order.
pub proof fn law_contents_are_complete(parts: Seq<&str>, strings: Seq<String>, s: String)
    ensures
        views(parts).len() == parts.len(),
        forall|i: int| 0 <= i < parts.len() ==> #[trigger] views(parts)[i] == parts[i]@,
        string_views(strings).len() == strings.len(),
        forall|i: int|
            0 <= i < strings.len() ==> #[trigger] string_views(strings)[i] == strings[i]@,
        opt_view(Some(s)) == Some(s@),
        opt_view(None) is None,
{
}

/// Blank lines at the end change nothing.
pub proof fn law_last_meaningful_ignores_blank_rows(
    lines: Seq<Seq<char>>,
    rows: Seq<Seq<char>>,
)
    requires
        forall|i: int| 0 <= i < rows.len() ==> blank(#[trigger] rows[i]),
    ensures
        last_meaningful(lines + rows) == last_meaningful(lines),
    decreases rows.len(),
{
    if rows.len() == 0 {
        assert(lines + rows =~= lines);
    } else {
        let front = rows.drop_last();
        assert forall|i: int| 0 <= i < front.len() implies blank(#[trigger] front[i]) by {
            assert(front[i] == rows[i]);
        }
        law_last_meaningful_ignores_blank_rows(lines, front);
        assert((lines + rows).drop_last() =~= lines + front);
        assert((lines + rows).last() == rows[rows.len() - 1]);
    }
}

}
