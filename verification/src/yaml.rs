//! A small YAML emitter for flat mappings.
//!
//! Strings of several lines become literal block scalars, so that captured
//! output reads as it appeared in the pane and still is YAML. Every string
//! reads back as it was; one with characters that cannot stand in a line as
//! they are is quoted.
use vstd::prelude::*;

use crate::text::{is_whitespace, lemma_lines_of_len, lines_of, split_lines, views, whitespace};

verus! {

/// A value in a mapping.
pub enum YamlValue<'a> {
    Str(&'a str),
    Bool(bool),
    Null,
}

/// The contents of a [`YamlValue`].
pub enum YamlView {
    Str(Seq<char>),
    Bool(bool),
    Null,
}

impl<'a> View for YamlValue<'a> {
    type V = YamlView;

    open spec fn view(&self) -> YamlView {
        match self {
            YamlValue::Str(s) => YamlView::Str(s@),
            YamlValue::Bool(b) => YamlView::Bool(*b),
            YamlValue::Null => YamlView::Null,
        }
    }
}

/// The contents of the entries of a mapping.
pub open spec fn entry_views(entries: Seq<(&str, YamlValue)>) -> Seq<(Seq<char>, YamlView)> {
    Seq::new(entries.len(), |i: int| (entries[i].0@, entries[i].1@))
}

/// The characters of `s`.
fn chars_of(s: &str) -> (res: Vec<char>)
    ensures
        res@ == s@,
{
    let mut out: Vec<char> = Vec::new();
    for c in it: s.chars()
        invariant
            it.seq() == s@,
            out@ == s@.take(it.index() as int),
    {
        out.push(c);
        assert(out@ =~= s@.take(it.index() as int + 1));
    }
    assert(s@.take(s@.len() as int) =~= s@);
    out
}

/// The character can stand in a line as it is: it is printable, and no reader
/// takes it for a line break or a byte order mark.
pub open spec fn raw(c: char) -> bool {
    let n = c as int;
    c == '\t' || (n >= 32 && !(127 <= n < 160) && n != 0x2028 && n != 0x2029 && n != 0xFEFF && n
        != 0xFFFE && n != 0xFFFF)
}

/// Every character can stand in a line as it is.
pub open spec fn all_raw(s: Seq<char>) -> bool {
    forall|i: int| 0 <= i < s.len() ==> raw(#[trigger] s[i])
}

/// Every character can stand in a line as it is, or ends one.
pub open spec fn all_raw_lines(s: Seq<char>) -> bool {
    forall|i: int| 0 <= i < s.len() ==> raw(#[trigger] s[i]) || s[i] == '\n'
}

/// A decimal digit.
pub open spec fn digit(c: char) -> bool {
    '0' <= c <= '9'
}

/// An octal digit.
pub open spec fn octal_digit(c: char) -> bool {
    '0' <= c <= '7'
}

/// A hexadecimal digit of either case.
pub open spec fn hex_digit(c: char) -> bool {
    digit(c) || 'a' <= c <= 'f' || 'A' <= c <= 'F'
}

/// `s` from `from` on, at least one character, is made of decimal digits.
pub open spec fn digits_from(s: Seq<char>, from: int) -> bool {
    from < s.len() && forall|i: int| from <= i < s.len() ==> digit(#[trigger] s[i])
}

/// `s` from `from` on, at least one character, is made of octal digits.
pub open spec fn octal_from(s: Seq<char>, from: int) -> bool {
    from < s.len() && forall|i: int| from <= i < s.len() ==> octal_digit(#[trigger] s[i])
}

/// `s` from `from` on, at least one character, is made of hexadecimal digits.
pub open spec fn hex_from(s: Seq<char>, from: int) -> bool {
    from < s.len() && forall|i: int| from <= i < s.len() ==> hex_digit(#[trigger] s[i])
}

/// `s` is `word` up to the case of ASCII letters, where `word` is in lower
/// case.
pub open spec fn reads_as(s: Seq<char>, word: Seq<char>) -> bool {
    s.len() == word.len() && forall|i: int|
        0 <= i < s.len() ==> #[trigger] s[i] == word[i] || ('A' <= s[i] <= 'Z' && s[i] as int + 32
            == word[i] as int)
}

/// The length of the sign that `s` may start with.
pub open spec fn sign_len(s: Seq<char>) -> int {
    if s.len() > 0 && (s[0] == '+' || s[0] == '-') {
        1
    } else {
        0
    }
}

/// Decimal digits with at most one point among, before or after them.
pub open spec fn mantissa(s: Seq<char>) -> bool {
    &&& forall|i: int| 0 <= i < s.len() ==> digit(#[trigger] s[i]) || s[i] == '.'
    &&& exists|i: int| 0 <= i < s.len() && digit(#[trigger] s[i])
    &&& forall|i: int, j: int|
        0 <= i < j < s.len() ==> !((#[trigger] s[i]) == '.' && (#[trigger] s[j]) == '.')
}

/// Nothing, or an `e` of either case, an optional sign and decimal digits.
pub open spec fn exponent(s: Seq<char>) -> bool {
    s.len() == 0 || ((s[0] == 'e' || s[0] == 'E') && digits_from(s.skip(1), sign_len(s.skip(1))))
}

/// A decimal number without a sign.
pub open spec fn decimal(s: Seq<char>) -> bool {
    exists|k: int| 0 <= k <= s.len() && mantissa(s.take(k)) && exponent(#[trigger] s.skip(k))
}

/// `s` reads as a number: an optional sign, and then a decimal number,
/// `inf`, `infinity` or `nan`.
pub open spec fn number(s: Seq<char>) -> bool {
    let t = s.skip(sign_len(s));
    decimal(t) || reads_as(t, "inf"@) || reads_as(t, "infinity"@) || reads_as(t, "nan"@)
}

/// `s` reads as a hexadecimal number: `0x` and digits.
pub open spec fn hex_number(s: Seq<char>) -> bool {
    s.len() > 2 && s[0] == '0' && (s[1] == 'x' || s[1] == 'X') && hex_from(s, 2)
}

/// `s` reads as an octal number: `0o` and digits, or digits after a zero.
pub open spec fn octal_number(s: Seq<char>) -> bool {
    s.len() > 1 && s[0] == '0' && (if s[1] == 'o' || s[1] == 'O' {
        octal_from(s, 2)
    } else {
        octal_from(s, 1)
    })
}

/// `s` reads as a binary number: `0b` and digits.
pub open spec fn binary_number(s: Seq<char>) -> bool {
    s.len() > 2 && s[0] == '0' && (s[1] == 'b' || s[1] == 'B') && forall|i: int|
        2 <= i < s.len() ==> #[trigger] s[i] == '0' || s[i] == '1'
}

/// `s` reads as a number that is not written in decimal: an optional sign, and
/// then a hexadecimal, octal or binary number, or `.inf`.
pub open spec fn special_number(s: Seq<char>) -> bool {
    let t = s.skip(sign_len(s));
    hex_number(t) || octal_number(t) || binary_number(t) || reads_as(t, ".inf"@)
}

/// `s` starts like a date: four digits and a hyphen.
pub open spec fn timestamp(s: Seq<char>) -> bool {
    s.len() > 4 && digit(s[0]) && digit(s[1]) && digit(s[2]) && digit(s[3]) && s[4] == '-'
}

/// `s` is a word that stands for a boolean, a null or a special number.
pub open spec fn reserved(s: Seq<char>) -> bool {
    ||| reads_as(s, "true"@)
    ||| reads_as(s, "false"@)
    ||| reads_as(s, "yes"@)
    ||| reads_as(s, "no"@)
    ||| reads_as(s, "on"@)
    ||| reads_as(s, "off"@)
    ||| reads_as(s, "null"@)
    ||| reads_as(s, "~"@)
    ||| reads_as(s, ".inf"@)
    ||| reads_as(s, ".nan"@)
}

/// A YAML reader takes the plain scalar `s` for something other than a string.
pub open spec fn non_string(s: Seq<char>) -> bool {
    number(s) || special_number(s) || timestamp(s) || reserved(s)
}

/// The character gives a scalar that starts with it another meaning.
pub open spec fn indicator(c: char) -> bool {
    "-?:,[]{}#&*!|>'\"%@`"@.contains(c)
}

/// `s` holds `a` directly followed by `b`.
pub open spec fn holds_pair(s: Seq<char>, a: char, b: char) -> bool {
    exists|i: int| 0 <= i < s.len() - 1 && #[trigger] s[i] == a && s[i + 1] == b
}

/// `s` can stand as a plain scalar and reads back as the string it is.
pub open spec fn plain_safe(s: Seq<char>) -> bool {
    &&& s.len() > 0
    &&& !whitespace(s.first())
    &&& !whitespace(s.last())
    &&& !indicator(s.first())
    &&& !holds_pair(s, ' ', '#') && !holds_pair(s, '\t', '#')
    &&& !holds_pair(s, ':', ' ') && !holds_pair(s, ':', '\t')
    &&& s.last() != ':'
    &&& all_raw(s)
    &&& !non_string(s)
}

fn is_digit(c: char) -> (res: bool)
    ensures
        res == digit(c),
{
    '0' <= c && c <= '9'
}

/// True when `c` is `d`, or `d` is the lower case of the ASCII letter `c`.
fn same_letter(c: char, d: char) -> (res: bool)
    ensures
        res == (c == d || ('A' <= c <= 'Z' && c as int + 32 == d as int)),
{
    c == d || ('A' <= c && c <= 'Z' && (c as u32) + 32 == d as u32)
}

/// True when `s` is `word` up to the case of ASCII letters.
fn matches_word(s: &Vec<char>, from: usize, word: &str) -> (res: bool)
    requires
        from <= s@.len(),
    ensures
        res == reads_as(s@.skip(from as int), word@),
{
    let w = chars_of(word);
    let ghost t = s@.skip(from as int);
    let n: usize = s.len();
    if n - from != w.len() {
        return false;
    }
    for i in 0..w.len()
        invariant
            from <= s@.len(),
            n == s@.len(),
            t == s@.skip(from as int),
            w@ == word@,
            t.len() == w@.len(),
            forall|j: int|
                0 <= j < i ==> #[trigger] t[j] == w@[j] || ('A' <= t[j] <= 'Z' && t[j] as int + 32
                    == w@[j] as int),
    {
        assert(t[i as int] == s@[from + i]);
        if !same_letter(s[from + i], w[i]) {
            return false;
        }
    }
    true
}

/// The length of the sign at `from`.
fn sign_at(s: &Vec<char>, from: usize) -> (res: usize)
    requires
        from <= s@.len(),
    ensures
        res == sign_len(s@.skip(from as int)),
        from + res <= s@.len(),
{
    if from < s.len() && (s[from] == '+' || s[from] == '-') {
        1
    } else {
        0
    }
}

/// True when decimal digits, at least one, are all that follows from `from`
/// on.
fn all_digits(s: &Vec<char>, from: usize) -> (res: bool)
    requires
        from <= s@.len(),
    ensures
        res == digits_from(s@, from as int),
{
    for i in from..s.len()
        invariant
            from <= s@.len(),
            forall|j: int| from <= j < i ==> digit(#[trigger] s@[j]),
    {
        if !is_digit(s[i]) {
            return false;
        }
    }
    from < s.len()
}

/// Digits and points end where a decimal number has its exponent.
proof fn lemma_decimal(s: Seq<char>, p: int)
    requires
        0 <= p <= s.len(),
        forall|i: int| 0 <= i < p ==> digit(#[trigger] s[i]) || s[i] == '.',
        p == s.len() || !(digit(s[p]) || s[p] == '.'),
    ensures
        decimal(s) <==> mantissa(s.take(p)) && exponent(s.skip(p)),
{
    if decimal(s) {
        let k = choose|k: int|
            0 <= k <= s.len() && mantissa(s.take(k)) && exponent(#[trigger] s.skip(k));
        if k < p {
            assert(s.skip(k)[0] == s[k]);
        }
        if k > p {
            assert(s.take(k)[p] == s[p]);
        }
        assert(k == p);
    }
}

/// True when a decimal number is what follows from `from` on.
fn is_decimal(s: &Vec<char>, from: usize) -> (res: bool)
    requires
        from <= s@.len(),
    ensures
        res == decimal(s@.skip(from as int)),
{
    let ghost t = s@.skip(from as int);
    let mut at: usize = from;
    let mut digits: bool = false;
    let mut points: bool = false;
    let mut twice: bool = false;
    while at < s.len() && (is_digit(s[at]) || s[at] == '.')
        invariant
            from <= at <= s@.len(),
            t == s@.skip(from as int),
            forall|i: int| 0 <= i < at - from ==> digit(#[trigger] t[i]) || t[i] == '.',
            digits <==> exists|i: int| 0 <= i < at - from && digit(#[trigger] t[i]),
            points <==> exists|i: int| 0 <= i < at - from && #[trigger] t[i] == '.',
            twice <==> exists|i: int, j: int|
                0 <= i < j < at - from && (#[trigger] t[i]) == '.' && (#[trigger] t[j]) == '.',
        decreases s@.len() - at,
    {
        let ghost here = at - from;
        assert(t[here] == s@[at as int]);
        if is_digit(s[at]) {
            digits = true;
            assert(digit(t[here]));
        } else {
            if points {
                let ghost i = choose|i: int| 0 <= i < here && #[trigger] t[i] == '.';
                assert(t[i] == '.' && t[here] == '.');
                twice = true;
            }
            points = true;
        }
        at = at + 1;
    }
    let ghost p = at - from;
    proof {
        if p < t.len() {
            assert(t[p] == s@[at as int]);
        }
        lemma_decimal(t, p);
        let m = t.take(p);
        assert(forall|i: int| 0 <= i < p ==> #[trigger] m[i] == t[i]);
        if digits {
            let i = choose|i: int| 0 <= i < p && digit(#[trigger] t[i]);
            assert(digit(m[i]));
        }
        if twice {
            let (i, j) = choose|i: int, j: int|
                0 <= i < j < p && (#[trigger] t[i]) == '.' && (#[trigger] t[j]) == '.';
            assert(m[i] == '.' && m[j] == '.');
        }
        assert(mantissa(m) <==> digits && !twice);
        assert(t.skip(p) =~= s@.skip(at as int));
    }
    if !digits || twice {
        return false;
    }
    if at == s.len() {
        return true;
    }
    if s[at] != 'e' && s[at] != 'E' {
        return false;
    }
    let after: usize = at + 1;
    let sign = sign_at(s, after);
    proof {
        let e = s@.skip(at as int).skip(1);
        assert(e =~= s@.skip(after as int));
        let k = sign as int;
        if digits_from(s@, after + k) {
            assert forall|i: int| k <= i < e.len() implies digit(#[trigger] e[i]) by {
                assert(digit(s@[after + i]));
            }
        }
        if digits_from(e, k) {
            assert forall|i: int| after + k <= i < s@.len() implies digit(#[trigger] s@[i]) by {
                assert(digit(e[i - after]));
            }
        }
    }
    all_digits(s, after + sign)
}

/// True when `s` reads as a number.
fn is_number(s: &Vec<char>) -> (res: bool)
    ensures
        res == number(s@),
{
    assert(s@.skip(0) =~= s@);
    let from = sign_at(s, 0);
    is_decimal(s, from) || matches_word(s, from, "inf") || matches_word(s, from, "infinity")
        || matches_word(s, from, "nan")
}

/// True when a hexadecimal number is what follows from `from` on.
fn is_hex(s: &Vec<char>, from: usize) -> (res: bool)
    requires
        from <= s@.len(),
    ensures
        res == hex_number(s@.skip(from as int)),
{
    let ghost t = s@.skip(from as int);
    if s.len() - from <= 2 || s[from] != '0' || (s[from + 1] != 'x' && s[from + 1] != 'X') {
        return false;
    }
    for i in from + 2..s.len()
        invariant
            t == s@.skip(from as int),
            from + 2 < s@.len(),
            t[0] == '0' && (t[1] == 'x' || t[1] == 'X'),
            forall|j: int| 2 <= j < i - from ==> hex_digit(#[trigger] t[j]),
    {
        let c = s[i];
        assert(t[i - from] == c);
        if !(is_digit(c) || ('a' <= c && c <= 'f') || ('A' <= c && c <= 'F')) {
            return false;
        }
    }
    true
}

/// True when an octal number is what follows from `from` on.
fn is_octal(s: &Vec<char>, from: usize) -> (res: bool)
    requires
        from <= s@.len(),
    ensures
        res == octal_number(s@.skip(from as int)),
{
    let ghost t = s@.skip(from as int);
    if s.len() - from <= 1 || s[from] != '0' {
        return false;
    }
    let skipped: usize = if s[from + 1] == 'o' || s[from + 1] == 'O' {
        2
    } else {
        1
    };
    for i in from + skipped..s.len()
        invariant
            t == s@.skip(from as int),
            from + skipped <= s@.len(),
            t.len() > 1,
            t[0] == '0',
            skipped == (if t[1] == 'o' || t[1] == 'O' {
                2int
            } else {
                1int
            }),
            forall|j: int| skipped <= j < i - from ==> octal_digit(#[trigger] t[j]),
    {
        let c = s[i];
        assert(t[i - from] == c);
        if !('0' <= c && c <= '7') {
            return false;
        }
    }
    from + skipped < s.len()
}

/// True when a binary number is what follows from `from` on.
fn is_binary(s: &Vec<char>, from: usize) -> (res: bool)
    requires
        from <= s@.len(),
    ensures
        res == binary_number(s@.skip(from as int)),
{
    let ghost t = s@.skip(from as int);
    if s.len() - from <= 2 || s[from] != '0' || (s[from + 1] != 'b' && s[from + 1] != 'B') {
        return false;
    }
    for i in from + 2..s.len()
        invariant
            t == s@.skip(from as int),
            from + 2 < s@.len(),
            t[0] == '0' && (t[1] == 'b' || t[1] == 'B'),
            forall|j: int| 2 <= j < i - from ==> #[trigger] t[j] == '0' || t[j] == '1',
    {
        let c = s[i];
        assert(t[i - from] == c);
        if c != '0' && c != '1' {
            return false;
        }
    }
    true
}

/// True when `s` reads as a number that is not written in decimal.
fn is_special_number(s: &Vec<char>) -> (res: bool)
    ensures
        res == special_number(s@),
{
    assert(s@.skip(0) =~= s@);
    let from = sign_at(s, 0);
    is_hex(s, from) || is_octal(s, from) || is_binary(s, from) || matches_word(s, from, ".inf")
}

/// True when `s` reads as a hexadecimal number.
pub fn looks_like_hex(s: &str) -> (res: bool)
    ensures
        res == hex_number(s@),
{
    assert(s@.skip(0) =~= s@);
    is_hex(&chars_of(s), 0)
}

/// True when `s` reads as an octal number, with `0o` or with a leading zero.
pub fn looks_like_octal(s: &str) -> (res: bool)
    ensures
        res == octal_number(s@),
{
    assert(s@.skip(0) =~= s@);
    is_octal(&chars_of(s), 0)
}

/// True when `s` starts like a date.
pub fn looks_like_timestamp(s: &str) -> (res: bool)
    ensures
        res == timestamp(s@),
{
    let chars = chars_of(s);
    chars.len() > 4 && is_digit(chars[0]) && is_digit(chars[1]) && is_digit(chars[2]) && is_digit(
        chars[3],
    ) && chars[4] == '-'
}

/// True when `s` stands for a boolean, a null or a special number.
fn is_reserved(s: &Vec<char>) -> (res: bool)
    ensures
        res == reserved(s@),
{
    assert(s@.skip(0) =~= s@);
    matches_word(s, 0, "true") || matches_word(s, 0, "false") || matches_word(s, 0, "yes")
        || matches_word(s, 0, "no") || matches_word(s, 0, "on") || matches_word(s, 0, "off")
        || matches_word(s, 0, "null") || matches_word(s, 0, "~") || matches_word(s, 0, ".inf")
        || matches_word(s, 0, ".nan")
}

/// True when a YAML reader would take the plain scalar `s` for something other
/// than a string: a number, a boolean, a null, a date.
pub fn looks_like_non_string(s: &str) -> (res: bool)
    ensures
        res == non_string(s@),
{
    let chars = chars_of(s);
    is_number(&chars) || is_special_number(&chars) || looks_like_timestamp(s) || is_reserved(
        &chars,
    )
}

/// True when `s` holds `a` directly followed by `b`.
fn has_pair(s: &Vec<char>, a: char, b: char) -> (res: bool)
    ensures
        res == holds_pair(s@, a, b),
{
    for i in 0..s.len()
        invariant
            forall|j: int| 0 <= j < i - 1 ==> !(#[trigger] s@[j] == a && s@[j + 1] == b),
    {
        if i > 0 && s[i - 1] == a && s[i] == b {
            assert(s@[i - 1] == a);
            return true;
        }
    }
    false
}

/// True when `c` is an indicator.
fn is_indicator(c: char) -> (res: bool)
    ensures
        res == indicator(c),
{
    let indicators = chars_of("-?:,[]{}#&*!|>'\"%@`");
    for i in 0..indicators.len()
        invariant
            indicators@ == "-?:,[]{}#&*!|>'\"%@`"@,
            forall|j: int| 0 <= j < i ==> indicators@[j] != c,
    {
        if indicators[i] == c {
            assert(indicators@[i as int] == c);
            return true;
        }
    }
    false
}

/// True when `c` can stand in a line as it is.
fn is_raw(c: char) -> (res: bool)
    ensures
        res == raw(c),
{
    let n: u32 = c as u32;
    c == '\t' || (n >= 32 && !(127 <= n && n < 160) && n != 0x2028 && n != 0x2029 && n != 0xFEFF
        && n != 0xFFFE && n != 0xFFFF)
}

/// True when every character can stand in a line as it is.
fn is_all_raw(s: &Vec<char>) -> (res: bool)
    ensures
        res == all_raw(s@),
{
    for i in 0..s.len()
        invariant
            forall|j: int| 0 <= j < i ==> raw(#[trigger] s@[j]),
    {
        if !is_raw(s[i]) {
            return false;
        }
    }
    true
}

/// True when `s` can stand as a plain scalar and reads back as a string.
pub fn is_plain_safe(s: &str) -> (res: bool)
    ensures
        res == plain_safe(s@),
{
    let chars = chars_of(s);
    let n = chars.len();
    if n == 0 {
        return false;
    }
    let first = chars[0];
    let last = chars[n - 1];
    if is_whitespace(first) || is_whitespace(last) || is_indicator(first) {
        return false;
    }
    if has_pair(&chars, ' ', '#') || has_pair(&chars, '\t', '#') {
        return false;
    }
    if has_pair(&chars, ':', ' ') || has_pair(&chars, ':', '\t') || last == ':' {
        return false;
    }
    if !is_all_raw(&chars) {
        return false;
    }
    !looks_like_non_string(s)
}

/// The hexadecimal digit for `n`, in lower case.
pub open spec fn hex_char(n: int) -> char {
    seq!['0', '1', '2', '3', '4', '5', '6', '7', '8', '9', 'a', 'b', 'c', 'd', 'e', 'f'][n]
}

/// How a character stands within double quotes.
pub open spec fn escape(c: char) -> Seq<char> {
    if c == '"' {
        seq!['\\', '"']
    } else if c == '\\' {
        seq!['\\', '\\']
    } else if c == '\n' {
        seq!['\\', 'n']
    } else if c == '\t' {
        seq!['\\', 't']
    } else if c == '\r' {
        seq!['\\', 'r']
    } else if raw(c) {
        seq![c]
    } else {
        let n = c as int;
        seq![
            '\\',
            'u',
            hex_char(n / 4096),
            hex_char(n / 256 % 16),
            hex_char(n / 16 % 16),
            hex_char(n % 16),
        ]
    }
}

/// How a text stands within double quotes.
pub open spec fn escaped(s: Seq<char>) -> Seq<char>
    decreases s.len(),
{
    if s.len() == 0 {
        Seq::empty()
    } else {
        escape(s[0]) + escaped(s.drop_first())
    }
}

/// `s` as a double-quoted scalar.
pub open spec fn quoted_text(s: Seq<char>) -> Seq<char> {
    seq!['"'] + escaped(s) + seq!['"']
}

/// `s` as a scalar of one line: plain where that is safe, otherwise in double
/// quotes.
pub open spec fn scalar_text(s: Seq<char>) -> Seq<char> {
    if plain_safe(s) {
        s
    } else {
        quoted_text(s)
    }
}

/// The lines, each with a newline after it.
pub open spec fn terminated(lines: Seq<Seq<char>>) -> Seq<char>
    decreases lines.len(),
{
    if lines.len() == 0 {
        Seq::empty()
    } else {
        terminated(lines.drop_last()) + lines.last().push('\n')
    }
}

/// The first line that is not empty starts with a space or a tab.
pub open spec fn starts_blank(lines: Seq<Seq<char>>) -> bool
    decreases lines.len(),
{
    if lines.len() == 0 {
        false
    } else if lines[0].len() == 0 {
        starts_blank(lines.drop_first())
    } else {
        lines[0][0] == ' ' || lines[0][0] == '\t'
    }
}

/// The text ends in an empty line of its own: in more than one newline, or in
/// one that nothing stands before.
pub open spec fn ends_empty(content: Seq<char>) -> bool {
    content.len() > 0 && content.last() == '\n' && (content.len() == 1 || content[content.len() - 2]
        == '\n')
}

/// The lines of a literal block scalar. Where all final newlines are kept, the
/// last one ends the last line, and no empty line stands for it.
pub open spec fn block_lines(content: Seq<char>) -> Seq<Seq<char>> {
    if ends_empty(content) {
        lines_of(content).drop_last()
    } else {
        lines_of(content)
    }
}

/// What says how much the lines of a block are indented; needed only where the
/// first line that is not empty would say something else.
pub open spec fn indent_mark(content: Seq<char>, indent: nat) -> Seq<char> {
    if starts_blank(block_lines(content)) && 1 <= indent <= 9 {
        seq![hex_char(indent as int)]
    } else {
        Seq::empty()
    }
}

/// What says how a block ends: `-` without a newline, `+` with all the newlines
/// that are there, nothing with one.
pub open spec fn end_mark(content: Seq<char>) -> Seq<char> {
    if ends_empty(content) {
        seq!['+']
    } else if content.len() > 0 && content.last() == '\n' {
        Seq::empty()
    } else {
        seq!['-']
    }
}

/// How a literal block scalar is introduced.
pub open spec fn block_header(content: Seq<char>, indent: nat) -> Seq<char> {
    seq!['|'] + indent_mark(content, indent) + end_mark(content)
}

/// `line` with `indent` spaces before it, unless it is empty.
pub open spec fn indented(line: Seq<char>, indent: nat) -> Seq<char> {
    if line.len() == 0 {
        line
    } else {
        Seq::new(indent, |i: int| ' ') + line
    }
}

/// Each line indented.
pub open spec fn indented_lines(lines: Seq<Seq<char>>, indent: nat) -> Seq<Seq<char>> {
    Seq::new(lines.len(), |i: int| indented(lines[i], indent))
}

/// The lines that stand for one entry of a mapping.
pub open spec fn entry_lines(key: Seq<char>, value: YamlView) -> Seq<Seq<char>> {
    match value {
        YamlView::Str(s) => if s.contains('\n') && all_raw_lines(s) {
            seq![key + ": "@ + block_header(s, 2)] + indented_lines(block_lines(s), 2)
        } else {
            seq![key + ": "@ + scalar_text(s)]
        },
        YamlView::Bool(b) => seq![
            key + ": "@ + (if b {
                "true"@
            } else {
                "false"@
            }),
        ],
        YamlView::Null => seq![key + ": "@ + "null"@],
    }
}

/// The lines that stand for a mapping, entry by entry.
pub open spec fn map_lines(entries: Seq<(Seq<char>, YamlView)>) -> Seq<Seq<char>>
    decreases entries.len(),
{
    if entries.len() == 0 {
        Seq::empty()
    } else {
        map_lines(entries.drop_last()) + entry_lines(entries.last().0, entries.last().1)
    }
}

/// Lines of two lists, one list after the other.
proof fn lemma_terminated_add(a: Seq<Seq<char>>, b: Seq<Seq<char>>)
    ensures
        terminated(a + b) == terminated(a) + terminated(b),
    decreases b.len(),
{
    if b.len() == 0 {
        assert(a + b =~= a);
        assert(terminated(a) + terminated(b) =~= terminated(a));
    } else {
        lemma_terminated_add(a, b.drop_last());
        assert((a + b).drop_last() =~= a + b.drop_last());
        assert((a + b).last() == b.last());
        assert(terminated(a + b) =~= terminated(a) + terminated(b));
    }
}

/// A single line with its newline.
proof fn lemma_terminated_one(line: Seq<char>)
    ensures
        terminated(seq![line]) == line.push('\n'),
{
    reveal_with_fuel(terminated, 2);
    assert(seq![line].drop_last() =~= Seq::<Seq<char>>::empty());
    assert(terminated(seq![line]) =~= line.push('\n'));
}

/// True when `s` holds a newline, and nothing else that cannot stand in a line
/// as it is.
fn fits_block(s: &str) -> (res: bool)
    ensures
        res == (s@.contains('\n') && all_raw_lines(s@)),
{
    let mut found: bool = false;
    for c in it: s.chars()
        invariant
            it.seq() == s@,
            found <==> exists|i: int| 0 <= i < it.index() && s@[i] == '\n',
            forall|i: int| 0 <= i < it.index() ==> raw(#[trigger] s@[i]) || s@[i] == '\n',
    {
        assert(s@[it.index() as int] == c);
        if c == '\n' {
            found = true;
        } else if !is_raw(c) {
            return false;
        }
    }
    found
}

/// The digit of `n` in hexadecimal.
fn hex_digit_char(n: u32) -> (res: char)
    requires
        n < 16,
    ensures
        res == hex_char(n as int),
{
    let digits = [
        '0',
        '1',
        '2',
        '3',
        '4',
        '5',
        '6',
        '7',
        '8',
        '9',
        'a',
        'b',
        'c',
        'd',
        'e',
        'f',
    ];
    digits[n as usize]
}

/// Appends `c` as it stands within double quotes.
fn push_escaped(out: &mut String, c: char)
    ensures
        final(out)@ == old(out)@ + escape(c),
{
    let ghost before = out@;
    if c == '"' {
        out.push('\\');
        out.push('"');
    } else if c == '\\' {
        out.push('\\');
        out.push('\\');
    } else if c == '\n' {
        out.push('\\');
        out.push('n');
    } else if c == '\t' {
        out.push('\\');
        out.push('t');
    } else if c == '\r' {
        out.push('\\');
        out.push('r');
    } else if is_raw(c) {
        out.push(c);
    } else {
        let n: u32 = c as u32;
        out.push('\\');
        out.push('u');
        out.push(hex_digit_char(n / 4096));
        out.push(hex_digit_char(n / 256 % 16));
        out.push(hex_digit_char(n / 16 % 16));
        out.push(hex_digit_char(n % 16));
    }
    assert(out@ =~= before + escape(c));
}

/// `s` as a double-quoted scalar.
pub fn quoted(s: &str) -> (res: String)
    ensures
        res@ == quoted_text(s@),
{
    let mut out = String::new();
    out.push('"');
    assert(out@ =~= seq!['"']);
    assert(s@.skip(0) =~= s@);
    for c in it: s.chars()
        invariant
            it.seq() == s@,
            out@ + escaped(s@.skip(it.index() as int)) == seq!['"'] + escaped(s@),
    {
        let ghost before = out@;
        let ghost rest = s@.skip(it.index() as int);
        assert(rest[0] == c);
        assert(rest.drop_first() =~= s@.skip(it.index() as int + 1));
        push_escaped(&mut out, c);
        assert(before + escaped(rest) =~= out@ + escaped(s@.skip(it.index() as int + 1)));
    }
    assert(s@.skip(s@.len() as int) =~= Seq::empty());
    assert(out@ + escaped(s@.skip(s@.len() as int)) =~= out@);
    out.push('"');
    assert(out@ =~= quoted_text(s@));
    out
}

/// `s` as a scalar of one line: plain where that is safe, otherwise in double
/// quotes.
pub fn scalar(s: &str) -> (res: String)
    ensures
        res@ == scalar_text(s@),
{
    if is_plain_safe(s) {
        s.to_string()
    } else {
        quoted(s)
    }
}

/// True when the first line that is not empty starts with a space or a tab.
fn has_blank_start(lines: &Vec<&str>, count: usize) -> (res: bool)
    requires
        count <= lines@.len(),
    ensures
        res == starts_blank(views(lines@).take(count as int)),
{
    let ghost all = views(lines@).take(count as int);
    assert(all.skip(0) =~= all);
    for i in 0..count
        invariant
            count <= lines@.len(),
            all == views(lines@).take(count as int),
            starts_blank(all) == starts_blank(all.skip(i as int)),
    {
        assert(all.skip(i as int)[0] == lines@[i as int]@);
        assert(all.skip(i as int).drop_first() =~= all.skip(i + 1));
        if !lines[i].is_empty() {
            let c = lines[i].get_char(0);
            return c == ' ' || c == '\t';
        }
    }
    assert(all.skip(count as int).len() == 0);
    false
}

/// `content` as a literal block scalar: its introduction, and then its lines,
/// those that are not empty with `indent` spaces before them.
pub fn block_scalar(content: &str, indent: usize) -> (res: String)
    ensures
        res@ == terminated(
            seq![block_header(content@, indent as nat)] + indented_lines(
                block_lines(content@),
                indent as nat,
            ),
        ),
{
    let mut pad = String::new();
    for i in 0..indent
        invariant
            pad@ == Seq::new(i as nat, |j: int| ' '),
    {
        pad.push(' ');
        assert(pad@ =~= Seq::new((i + 1) as nat, |j: int| ' '));
    }
    let lines = split_lines(content);
    let (ends, ends_twice) = final_newlines(content);
    proof {
        lemma_lines_of_len(content@);
    }
    let count: usize = if ends_twice {
        lines.len() - 1
    } else {
        lines.len()
    };
    let ghost kept = block_lines(content@);
    assert(kept =~= views(lines@).take(count as int));
    let ghost all = indented_lines(kept, indent as nat);
    let mut out = String::new();
    out.push('|');
    if has_blank_start(&lines, count) && 1 <= indent && indent <= 9 {
        out.push(hex_digit_char(indent as u32));
    }
    if ends_twice {
        out.push('+');
    } else if !ends {
        out.push('-');
    }
    assert(out@ =~= block_header(content@, indent as nat));
    out.push('\n');
    let ghost head = seq![block_header(content@, indent as nat)];
    proof {
        lemma_terminated_one(block_header(content@, indent as nat));
        assert(head + all.take(0) =~= head);
    }
    for i in 0..count
        invariant
            count <= lines@.len(),
            kept == views(lines@).take(count as int),
            all == indented_lines(kept, indent as nat),
            pad@ == Seq::new(indent as nat, |j: int| ' '),
            out@ == terminated(head + all.take(i as int)),
    {
        let ghost before = out@;
        assert(kept[i as int] == lines@[i as int]@);
        if !lines[i].is_empty() {
            out.append(pad.as_str());
            out.append(lines[i]);
        }
        out.push('\n');
        proof {
            assert((head + all.take(i + 1)).drop_last() =~= head + all.take(i as int));
            assert((head + all.take(i + 1)).last() == all[i as int]);
            assert(out@ =~= before + all[i as int].push('\n'));
        }
    }
    assert(all.take(all.len() as int) =~= all);
    out
}

/// Whether `s` ends with a newline, and whether it ends in an empty line of
/// its own.
fn final_newlines(s: &str) -> (res: (bool, bool))
    ensures
        res.0 == (s@.len() > 0 && s@.last() == '\n'),
        res.1 == ends_empty(s@),
{
    let chars = chars_of(s);
    let n = chars.len();
    let ends = n > 0 && chars[n - 1] == '\n';
    (ends, ends && (n == 1 || chars[n - 2] == '\n'))
}

/// Renders entries as a YAML mapping, in order.
pub fn render_map(entries: &[(&str, YamlValue)]) -> (res: String)
    ensures
        res@ == terminated(map_lines(entry_views(entries@))),
{
    let ghost all = entry_views(entries@);
    let mut out = String::new();
    assert(all.take(0) =~= Seq::empty());
    for i in 0..entries.len()
        invariant
            all == entry_views(entries@),
            out@ == terminated(map_lines(all.take(i as int))),
    {
        let ghost before = out@;
        let ghost key = entries@[i as int].0@;
        let ghost value = entries@[i as int].1@;
        assert(all.take(i + 1).drop_last() =~= all.take(i as int));
        assert(all.take(i + 1).last() == (key, value));
        out.append(entries[i].0);
        out.append(": ");
        match &entries[i].1 {
            YamlValue::Str(s) => {
                if fits_block(s) {
                    out.append(block_scalar(s, 2).as_str());
                    proof {
                        let header = block_header(s@, 2);
                        let rest = indented_lines(block_lines(s@), 2);
                        lemma_terminated_add(seq![header], rest);
                        lemma_terminated_one(header);
                        lemma_terminated_add(seq![key + ": "@ + header], rest);
                        lemma_terminated_one(key + ": "@ + header);
                        assert(out@ =~= before + terminated(entry_lines(key, value)));
                    }
                } else {
                    out.append(scalar(s).as_str());
                    out.push('\n');
                    proof {
                        lemma_terminated_one(key + ": "@ + scalar_text(s@));
                        assert(out@ =~= before + terminated(entry_lines(key, value)));
                    }
                }
            },
            YamlValue::Bool(b) => {
                if *b {
                    out.append("true");
                } else {
                    out.append("false");
                }
                out.push('\n');
                proof {
                    lemma_terminated_one(entry_lines(key, value)[0]);
                    assert(out@ =~= before + terminated(entry_lines(key, value)));
                }
            },
            YamlValue::Null => {
                out.append("null");
                out.push('\n');
                proof {
                    lemma_terminated_one(key + ": "@ + "null"@);
                    assert(out@ =~= before + terminated(entry_lines(key, value)));
                }
            },
        }
        proof {
            lemma_terminated_add(map_lines(all.take(i as int)), entry_lines(key, value));
        }
    }
    assert(all.take(all.len() as int) =~= all);
    out
}

/// An integer of any size, with or without a sign, reads as a number, so it is
/// quoted when it is a string.
pub proof fn law_integers_are_quoted(s: Seq<char>)
    requires
        digits_from(s, sign_len(s)),
    ensures
        number(s),
        scalar_text(s) == quoted_text(s),
{
    let t = s.skip(sign_len(s));
    let n = t.len() as int;
    assert(t.take(n) =~= t);
    assert(digit(t[0]));
    assert(mantissa(t.take(n)));
    assert(exponent(t.skip(n)));
}

/// Nothing, a plus or a minus.
pub open spec fn optional_sign(s: Seq<char>) -> bool {
    s.len() == 0 || (s.len() == 1 && (s[0] == '+' || s[0] == '-'))
}

/// Every character is one of the decimal digits.
pub open spec fn only_digits(s: Seq<char>) -> bool {
    forall|i: int| 0 <= i < s.len() ==> 48 <= #[trigger] s[i] as int <= 57
}

/// The sign is all that is cut off before a number is looked at.
proof fn lemma_after_sign(sign: Seq<char>, t: Seq<char>)
    requires
        optional_sign(sign),
        t.len() > 0,
        t[0] != '+' && t[0] != '-',
    ensures
        (sign + t).skip(sign_len(sign + t)) == t,
{
    let s = sign + t;
    if sign.len() == 0 {
        assert(s[0] == t[0]);
        assert(s.skip(0) =~= t);
    } else {
        assert(s[0] == sign[0]);
        assert(s.skip(1) =~= t);
    }
}

/// Digits, whatever their number, with a point anywhere among them or none,
/// with an exponent or without, with a sign or without, are a number and no
/// string.
pub proof fn law_decimal_numbers_are_no_strings(
    sign: Seq<char>,
    a: Seq<char>,
    b: Seq<char>,
    e: char,
    exponent_sign: Seq<char>,
    d: Seq<char>,
)
    requires
        optional_sign(sign),
        optional_sign(exponent_sign),
        only_digits(a),
        only_digits(b),
        only_digits(d),
        a.len() + b.len() > 0,
        d.len() > 0,
        e == 'e' || e == 'E',
    ensures
        a.len() > 0 ==> non_string(sign + a),
        non_string(sign + (a + seq!['.'] + b)),
        a.len() > 0 ==> non_string(sign + (a + (seq![e] + exponent_sign + d))),
        non_string(sign + ((a + seq!['.'] + b) + (seq![e] + exponent_sign + d))),
{
    let power = seq![e] + exponent_sign + d;
    let none = Seq::<char>::empty();
    assert(exponent(power)) by {
        assert(power[0] == e);
        let t = power.skip(1);
        assert(t =~= exponent_sign + d);
        let k = exponent_sign.len() as int;
        assert(d[0] as int >= 48);
        assert(sign_len(t) == k) by {
            if k == 0 {
                assert(t[0] == d[0]);
            } else {
                assert(t[0] == exponent_sign[0]);
            }
        }
        assert forall|i: int| k <= i < t.len() implies digit(#[trigger] t[i]) by {
            assert(t[i] == d[i - k]);
        }
    }
    let pointed = a + seq!['.'] + b;
    assert(mantissa(pointed)) by {
        assert forall|i: int| 0 <= i < pointed.len() implies digit(#[trigger] pointed[i])
            || pointed[i] == '.' by {
            if i < a.len() {
                assert(pointed[i] == a[i]);
            } else if i > a.len() {
                assert(pointed[i] == b[i - a.len() - 1]);
            }
        }
        assert forall|i: int, j: int| 0 <= i < j < pointed.len() implies !((#[trigger] pointed[i])
            == '.' && (#[trigger] pointed[j]) == '.') by {
            if i < a.len() {
                assert(pointed[i] == a[i]);
            }
            if j > a.len() {
                assert(pointed[j] == b[j - a.len() - 1]);
            }
        }
        if a.len() > 0 {
            assert(pointed[0] == a[0]);
            assert(digit(pointed[0]));
        } else {
            assert(pointed[a.len() as int + 1] == b[0]);
            assert(digit(pointed[a.len() as int + 1]));
        }
    }
    lemma_decimal_parts(sign, pointed, none);
    lemma_decimal_parts(sign, pointed, power);
    assert(pointed + none =~= pointed);
    if a.len() > 0 {
        assert(mantissa(a)) by {
            assert(digit(a[0]));
        }
        lemma_decimal_parts(sign, a, none);
        lemma_decimal_parts(sign, a, power);
        assert(a + none =~= a);
    }
}

proof fn lemma_decimal_parts(sign: Seq<char>, m: Seq<char>, e: Seq<char>)
    requires
        optional_sign(sign),
        mantissa(m),
        exponent(e),
    ensures
        number(sign + (m + e)),
{
    let t = m + e;
    let k = m.len() as int;
    let i = choose|i: int| 0 <= i < m.len() && digit(#[trigger] m[i]);
    assert(t[0] == m[0]);
    assert(digit(m[0]) || m[0] == '.');
    lemma_after_sign(sign, t);
    assert(t.take(k) =~= m);
    assert(t.skip(k) =~= e);
    assert(decimal(t));
}

/// Hexadecimal, octal and binary numbers are no strings, whatever the number of
/// their digits, with a sign or without.
pub proof fn law_other_numbers_are_no_strings(
    sign: Seq<char>,
    letter: char,
    d: Seq<char>,
)
    requires
        optional_sign(sign),
        d.len() > 0,
        ({
            ||| (letter == 'x' || letter == 'X') && forall|i: int|
                0 <= i < d.len() ==> (48 <= #[trigger] d[i] as int <= 57 || 65 <= d[i] as int <= 70
                    || 97 <= d[i] as int <= 102)
            ||| (letter == 'o' || letter == 'O') && forall|i: int|
                0 <= i < d.len() ==> 48 <= #[trigger] d[i] as int <= 55
            ||| (letter == 'b' || letter == 'B') && forall|i: int|
                0 <= i < d.len() ==> 48 <= #[trigger] d[i] as int <= 49
        }),
    ensures
        non_string(sign + (seq!['0', letter] + d)),
{
    let t = seq!['0', letter] + d;
    lemma_after_sign(sign, t);
    assert(t[0] == '0' && t[1] == letter);
    assert forall|i: int| 2 <= i < t.len() implies #[trigger] t[i] == d[i - 2] by {}
}

/// Dates, and the words for booleans, nulls and special numbers in any case,
/// are no strings.
pub proof fn law_dates_and_words_are_no_strings(
    sign: Seq<char>,
    year: Seq<char>,
    rest: Seq<char>,
    word: Seq<char>,
)
    requires
        optional_sign(sign),
        year.len() == 4,
        only_digits(year),
    ensures
        non_string(year + seq!['-'] + rest),
        reads_as(word, "true"@) || reads_as(word, "false"@) || reads_as(word, "yes"@) || reads_as(
            word,
            "no"@,
        ) || reads_as(word, "on"@) || reads_as(word, "off"@) || reads_as(word, "null"@) || reads_as(
            word,
            "~"@,
        ) || reads_as(word, ".nan"@) ==> non_string(word),
        reads_as(word, "inf"@) || reads_as(word, "infinity"@) || reads_as(word, "nan"@) || reads_as(
            word,
            ".inf"@,
        ) ==> non_string(sign + word),
{
    let date = year + seq!['-'] + rest;
    assert(date[0] == year[0] && date[1] == year[1] && date[2] == year[2] && date[3] == year[3]);
    assert(date[4] == '-');
    assert(timestamp(date));
    reveal_strlit("inf");
    reveal_strlit("infinity");
    reveal_strlit("nan");
    reveal_strlit(".inf");
    if reads_as(word, "inf"@) || reads_as(word, "infinity"@) || reads_as(word, "nan"@) || reads_as(
        word,
        ".inf"@,
    ) {
        assert("inf"@[0] == 'i' && "infinity"@[0] == 'i' && "nan"@[0] == 'n' && ".inf"@[0] == '.');
        assert(word[0] != '+' && word[0] != '-');
        lemma_after_sign(sign, word);
    }
}

/// A word is read in any case: the letters may be capital ones, and nothing
/// else may differ.
pub proof fn law_words_in_any_case(s: Seq<char>, word: Seq<char>)
    ensures
        reads_as(s, word) <==> s.len() == word.len() && forall|i: int|
            0 <= i < s.len() ==> #[trigger] s[i] == word[i] || (65 <= s[i] as int <= 90 && s[i] as int
                + 32 == word[i] as int),
{
    assert forall|i: int| 0 <= i < s.len() implies ((#[trigger] s[i] == word[i] || ('A' <= s[i]
        <= 'Z' && s[i] as int + 32 == word[i] as int)) <==> (s[i] == word[i] || (65 <= s[i] as int
        <= 90 && s[i] as int + 32 == word[i] as int))) by {}
}

/// The character can occur in a number or in a word that is no string.
pub open spec fn in_numbers_or_words(c: char) -> bool {
    let n = c as int;
    ||| 48 <= n <= 57
    ||| 65 <= n <= 90
    ||| 97 <= n <= 122
    ||| c == '.' || c == '+' || c == '-' || c == '~'
}

/// A text with any other character in it is a string, unless it starts like a
/// date.
pub proof fn law_other_texts_are_strings(s: Seq<char>, k: int)
    requires
        0 <= k < s.len(),
        !in_numbers_or_words(s[k]),
        !(s.len() > 4 && only_digits(s.take(4)) && s[4] == '-'),
    ensures
        !non_string(s),
{
    if timestamp(s) {
        assert forall|i: int| 0 <= i < s.take(4).len() implies 48 <= #[trigger] s.take(
            4,
        )[i] as int <= 57 by {
            assert(s.take(4)[i] == s[i]);
        }
    }
    let n = sign_len(s);
    let t = s.skip(n);
    if n > k {
        assert(s[0] == s[k]);
    }
    let j = k - n;
    assert(t[j] == s[k]);
    if decimal(t) {
        let m = choose|m: int|
            0 <= m <= t.len() && mantissa(t.take(m)) && exponent(#[trigger] t.skip(m));
        if j < m {
            assert(t.take(m)[j] == t[j]);
        } else {
            let e = t.skip(m);
            assert(e[j - m] == t[j]);
            if j - m > 0 {
                let f = e.skip(1);
                assert(f[j - m - 1] == t[j]);
                if j - m - 1 >= sign_len(f) {
                    assert(digit(f[j - m - 1]));
                }
            }
        }
    }
    lemma_word_letters(t, "inf"@, j);
    lemma_word_letters(t, "infinity"@, j);
    lemma_word_letters(t, "nan"@, j);
    lemma_word_letters(t, ".inf"@, j);
    lemma_word_letters(s, "true"@, k);
    lemma_word_letters(s, "false"@, k);
    lemma_word_letters(s, "yes"@, k);
    lemma_word_letters(s, "no"@, k);
    lemma_word_letters(s, "on"@, k);
    lemma_word_letters(s, "off"@, k);
    lemma_word_letters(s, "null"@, k);
    lemma_word_letters(s, "~"@, k);
    lemma_word_letters(s, ".inf"@, k);
    lemma_word_letters(s, ".nan"@, k);
    reveal_strlit("inf");
    reveal_strlit("infinity");
    reveal_strlit("nan");
    reveal_strlit("true");
    reveal_strlit("false");
    reveal_strlit("yes");
    reveal_strlit("no");
    reveal_strlit("on");
    reveal_strlit("off");
    reveal_strlit("null");
    reveal_strlit("~");
    reveal_strlit(".inf");
    reveal_strlit(".nan");
    assert(!number(s));
    assert(!special_number(s)) by {
        if hex_number(t) && j >= 2 {
            assert(hex_digit(t[j]));
        }
        if octal_number(t) && j >= 1 {
            if t[1] == 'o' || t[1] == 'O' {
                if j >= 2 {
                    assert(octal_digit(t[j]));
                }
            } else {
                assert(octal_digit(t[j]));
            }
        }
        if binary_number(t) && j >= 2 {
            assert(t[j] == '0' || t[j] == '1');
        }
    }
    assert(!reserved(s));
}

/// A text that reads as a word holds only letters of the word.
proof fn lemma_word_letters(s: Seq<char>, word: Seq<char>, k: int)
    requires
        0 <= k < s.len(),
        !in_numbers_or_words(s[k]),
    ensures
        reads_as(s, word) ==> 0 <= k < word.len() && s[k] == word[k],
{
}

/// When a string stands plain: it has no outer whitespace, starts with no
/// indicator, holds no comment and no key, no character that cannot stand in a
/// line, and is nothing but a string. Otherwise it stands in double quotes.
pub proof fn law_when_a_string_stands_plain(s: Seq<char>)
    ensures
        scalar_text(s) == s || scalar_text(s) == quoted_text(s),
        plain_safe(s) ==> scalar_text(s) == s,
        !plain_safe(s) ==> scalar_text(s) == quoted_text(s),
        plain_safe(s) <==> {
            &&& s.len() > 0
            &&& !whitespace(s[0]) && !whitespace(s[s.len() - 1])
            &&& !"-?:,[]{}#&*!|>'\"%@`"@.contains(s[0])
            &&& s[s.len() - 1] != ':'
            &&& forall|i: int|
                0 <= i < s.len() - 1 ==> !((#[trigger] s[i] == ' ' || s[i] == '\t') && s[i + 1]
                    == '#') && !(s[i] == ':' && (s[i + 1] == ' ' || s[i + 1] == '\t'))
            &&& forall|i: int| 0 <= i < s.len() ==> raw(#[trigger] s[i])
            &&& !non_string(s)
        },
{
}

/// The characters that can stand in a line, by their numbers.
pub proof fn law_raw_characters(c: char)
    ensures
        raw(c) <==> ({
            let n = c as int;
            ||| n == 9
            ||| 32 <= n <= 126
            ||| 160 <= n <= 8231
            ||| 8234 <= n <= 65278
            ||| 65280 <= n <= 65533
            ||| n >= 65536
        }),
{
}

/// Quoting puts double quotes around a text and escapes it character by
/// character. A character that can stand in a line stays, but for the quote and
/// the backslash; the others are written as escapes.
pub proof fn law_quoting_by_characters(s: Seq<char>, c: char)
    ensures
        quoted_text(s) == seq!['"'] + escaped(s) + seq!['"'],
        escaped(Seq::empty()) == Seq::<char>::empty(),
        escaped(s.push(c)) == escaped(s) + escape(c),
        c == '"' || c == '\\' ==> escape(c) == seq!['\\', c],
        c == '\n' ==> escape(c) == seq!['\\', 'n'],
        c == '\t' ==> escape(c) == seq!['\\', 't'],
        c == '\r' ==> escape(c) == seq!['\\', 'r'],
        raw(c) && c != '"' && c != '\\' && c != '\t' ==> escape(c) == seq![c],
        !raw(c) && c != '\n' && c != '\r' ==> ({
            let n = c as int;
            let hex = |d: int|
                if d < 10 {
                    (48 + d) as char
                } else {
                    (87 + d) as char
                };
            escape(c) == seq![
                '\\',
                'u',
                hex(n / 4096),
                hex(n / 256 % 16),
                hex(n / 16 % 16),
                hex(n % 16),
            ]
        }),
    decreases s.len(),
{
    if s.len() == 0 {
        assert(s.push(c).drop_first() =~= Seq::empty());
        assert(s.push(c)[0] == c);
        assert(s =~= Seq::empty());
        assert(escaped(s.push(c)) =~= escaped(s) + escape(c));
    } else {
        law_quoting_by_characters(s.drop_first(), c);
        assert(s.push(c).drop_first() =~= s.drop_first().push(c));
        assert(s.push(c)[0] == s[0]);
        assert(escaped(s.push(c)) =~= escaped(s) + escape(c));
    }
}

/// How a mapping is laid out: entry by entry, each line with a newline after
/// it. A string of several lines, where all of its characters can stand in a
/// line, is a block: what introduces it, then its lines, two spaces before each
/// that is not empty. Every other value stands on the line of its key.
pub proof fn law_layout_of_a_mapping(
    entries: Seq<(Seq<char>, YamlView)>,
    key: Seq<char>,
    s: Seq<char>,
    b: bool,
    lines: Seq<Seq<char>>,
    line: Seq<char>,
)
    ensures
        terminated(Seq::empty()) == Seq::<char>::empty(),
        terminated(lines.push(line)) == terminated(lines) + line + seq!['\n'],
        map_lines(Seq::empty()) == Seq::<Seq<char>>::empty(),
        map_lines(entries.push((key, YamlView::Bool(b)))) == map_lines(entries).push(
            key + ": "@ + (if b {
                "true"@
            } else {
                "false"@
            }),
        ),
        map_lines(entries.push((key, YamlView::Null))) == map_lines(entries).push(
            key + ": "@ + "null"@,
        ),
        !s.contains('\n') || (exists|i: int|
            0 <= i < s.len() && !raw(#[trigger] s[i]) && s[i] != '\n') ==> map_lines(
            entries.push((key, YamlView::Str(s))),
        ) == map_lines(entries).push(key + ": "@ + scalar_text(s)),
        s.contains('\n') && (forall|i: int|
            0 <= i < s.len() ==> raw(#[trigger] s[i]) || s[i] == '\n') ==> map_lines(
            entries.push((key, YamlView::Str(s))),
        ) == map_lines(entries).push(key + ": "@ + block_header(s, 2)) + block_lines(s).map_values(
            |l: Seq<char>|
                if l.len() == 0 {
                    l
                } else {
                    seq![' ', ' '] + l
                },
        ),
{
    let added = lines.push(line);
    assert(added.drop_last() =~= lines);
    assert(terminated(added) =~= terminated(lines) + line + seq!['\n']);
    let before = map_lines(entries);
    lemma_map_lines_push(entries, key, YamlView::Bool(b));
    lemma_map_lines_push(entries, key, YamlView::Null);
    lemma_map_lines_push(entries, key, YamlView::Str(s));
    assert(before + entry_lines(key, YamlView::Null) =~= before.push(key + ": "@ + "null"@));
    assert(before + entry_lines(key, YamlView::Bool(b)) =~= before.push(
        key + ": "@ + (if b {
            "true"@
        } else {
            "false"@
        }),
    ));
    if s.contains('\n') && all_raw_lines(s) {
        let pad = |l: Seq<char>|
            if l.len() == 0 {
                l
            } else {
                seq![' ', ' '] + l
            };
        let body = indented_lines(block_lines(s), 2);
        assert forall|i: int| 0 <= i < body.len() implies body[i] == #[trigger] block_lines(
            s,
        ).map_values(pad)[i] by {
            assert(Seq::new(2, |j: int| ' ') =~= seq![' ', ' ']);
        }
        assert(body =~= block_lines(s).map_values(pad));
        assert(before + entry_lines(key, YamlView::Str(s)) =~= before.push(
            key + ": "@ + block_header(s, 2),
        ) + body);
    } else {
        assert(before + entry_lines(key, YamlView::Str(s)) =~= before.push(
            key + ": "@ + scalar_text(s),
        ));
    }
}

proof fn lemma_map_lines_push(
    entries: Seq<(Seq<char>, YamlView)>,
    key: Seq<char>,
    value: YamlView,
)
    ensures
        map_lines(entries.push((key, value))) == map_lines(entries) + entry_lines(key, value),
{
    assert(entries.push((key, value)).drop_last() =~= entries);
}

/// What introduces a block, and its lines. `f` is the first line that is not
/// empty, or past the last: where it starts with a space or a tab, the
/// indentation is said, if one digit says it. A text that does not end in a
/// newline has `-`, one that ends in an empty line of its own has `+` and no
/// line for its last newline. Each line that is not empty is indented.
pub proof fn law_layout_of_a_block(s: Seq<char>, indent: nat, f: int)
    requires
        0 <= f <= block_lines(s).len(),
        forall|i: int| 0 <= i < f ==> (#[trigger] block_lines(s)[i]).len() == 0,
        f < block_lines(s).len() ==> block_lines(s)[f].len() > 0,
    ensures
        ({
            let n = s.len() as int;
            let ends = n > 0 && s[n - 1] == '\n';
            let twice = ends && (n == 1 || s[n - 2] == '\n');
            let said = f < block_lines(s).len() && (block_lines(s)[f][0] == ' ' || block_lines(
                s,
            )[f][0] == '\t') && 1 <= indent <= 9;
            &&& block_lines(s) == (if twice {
                lines_of(s).drop_last()
            } else {
                lines_of(s)
            })
            &&& block_header(s, indent) == seq!['|'] + (if said {
                seq![(48 + indent) as char]
            } else {
                Seq::empty()
            }) + (if twice {
                seq!['+']
            } else if ends {
                Seq::empty()
            } else {
                seq!['-']
            })
        }),
        indented_lines(block_lines(s), indent).len() == block_lines(s).len(),
        forall|i: int|
            0 <= i < block_lines(s).len() ==> indented_lines(block_lines(s), indent)[i] == (
            if (#[trigger] block_lines(s)[i]).len() == 0 {
                Seq::empty()
            } else {
                Seq::new(indent, |j: int| ' ') + block_lines(s)[i]
            }),
{
    lemma_starts_blank(block_lines(s), f);
    if 1 <= indent <= 9 {
        assert(hex_char(indent as int) == (48 + indent) as char);
    }
    assert forall|i: int| 0 <= i < block_lines(s).len() implies indented_lines(
        block_lines(s),
        indent,
    )[i] == (if (#[trigger] block_lines(s)[i]).len() == 0 {
        Seq::empty()
    } else {
        Seq::new(indent, |j: int| ' ') + block_lines(s)[i]
    }) by {
        if block_lines(s)[i].len() == 0 {
            assert(block_lines(s)[i] =~= Seq::empty());
        }
    }
}

proof fn lemma_starts_blank(lines: Seq<Seq<char>>, f: int)
    requires
        0 <= f <= lines.len(),
        forall|i: int| 0 <= i < f ==> (#[trigger] lines[i]).len() == 0,
        f < lines.len() ==> lines[f].len() > 0,
    ensures
        starts_blank(lines) <==> f < lines.len() && (lines[f][0] == ' ' || lines[f][0] == '\t'),
    decreases lines.len(),
{
    if f > 0 {
        assert(lines[0].len() == 0);
        let rest = lines.drop_first();
        assert forall|i: int| 0 <= i < f - 1 implies (#[trigger] rest[i]).len() == 0 by {
            assert(rest[i] == lines[i + 1]);
        }
        lemma_starts_blank(rest, f - 1);
    }
}

/// Digits, or digits with one point before, among or after them.
pub open spec fn digits_and_point(m: Seq<char>) -> bool {
    ||| m.len() > 0 && only_digits(m)
    ||| m.len() > 1 && exists|k: int|
        0 <= k < m.len() && #[trigger] m[k] == '.' && only_digits(m.take(k)) && only_digits(
            m.skip(k + 1),
        )
}

/// Nothing, or an `e` and digits, with a sign or without.
pub open spec fn power_of_ten(e: Seq<char>) -> bool {
    e.len() == 0 || {
        &&& e[0] == 'e' || e[0] == 'E'
        &&& {
            ||| e.len() > 1 && only_digits(e.skip(1))
            ||| e.len() > 2 && (e[1] == '+' || e[1] == '-') && only_digits(e.skip(2))
        }
    }
}

/// `s` without a sign at its start.
pub open spec fn without_sign(s: Seq<char>) -> Seq<char> {
    if s.len() > 0 && (s[0] == '+' || s[0] == '-') {
        s.skip(1)
    } else {
        s
    }
}

/// Exactly which texts are no strings: decimal numbers and special numbers with
/// a sign or without, hexadecimal, octal and binary ones too, dates, and the
/// words for booleans and nulls.
pub proof fn law_which_texts_are_no_strings(s: Seq<char>)
    ensures
        non_string(s) <==> ({
            let t = without_sign(s);
            ||| exists|k: int|
                0 <= k <= t.len() && digits_and_point(t.take(k)) && power_of_ten(
                    #[trigger] t.skip(k),
                )
            ||| reads_as(t, "inf"@) || reads_as(t, "infinity"@) || reads_as(t, "nan"@)
            ||| reads_as(t, ".inf"@) || hex_number(t) || octal_number(t) || binary_number(t)
            ||| s.len() > 4 && only_digits(s.take(4)) && s[4] == '-'
            ||| reads_as(s, "true"@) || reads_as(s, "false"@) || reads_as(s, "yes"@)
            ||| reads_as(s, "no"@) || reads_as(s, "on"@) || reads_as(s, "off"@)
            ||| reads_as(s, "null"@) || reads_as(s, "~"@) || reads_as(s, ".nan"@) || reads_as(
                s,
                ".inf"@,
            )
        }),
{
    let t = without_sign(s);
    assert(s.skip(0) =~= s);
    assert(t == s.skip(sign_len(s)));
    assert forall|k: int| 0 <= k <= t.len() implies (digits_and_point(t.take(k)) && power_of_ten(
        #[trigger] t.skip(k),
    )) == (mantissa(t.take(k)) && exponent(t.skip(k))) by {
        lemma_mantissa_form(t.take(k));
        lemma_exponent_form(t.skip(k));
    }
    assert(decimal(t) <==> exists|k: int|
        0 <= k <= t.len() && digits_and_point(t.take(k)) && power_of_ten(#[trigger] t.skip(k)));
    if s.len() > 4 {
        let year = s.take(4);
        assert(year[0] == s[0] && year[1] == s[1] && year[2] == s[2] && year[3] == s[3]);
        assert(timestamp(s) <==> only_digits(year) && s[4] == '-');
    }
}

proof fn lemma_mantissa_form(m: Seq<char>)
    ensures
        mantissa(m) <==> digits_and_point(m),
{
    if mantissa(m) {
        let d = choose|i: int| 0 <= i < m.len() && digit(#[trigger] m[i]);
        if exists|k: int| 0 <= k < m.len() && #[trigger] m[k] == '.' {
            let k = choose|k: int| 0 <= k < m.len() && #[trigger] m[k] == '.';
            assert forall|i: int| 0 <= i < m.take(k).len() implies 48 <= #[trigger] m.take(
                k,
            )[i] as int <= 57 by {
                assert(m.take(k)[i] == m[i]);
                assert(!(m[i] == '.' && m[k] == '.'));
                assert(digit(m[i]));
            }
            assert forall|i: int| 0 <= i < m.skip(k + 1).len() implies 48 <= #[trigger] m.skip(
                k + 1,
            )[i] as int <= 57 by {
                assert(m.skip(k + 1)[i] == m[i + k + 1]);
                assert(!(m[k] == '.' && m[i + k + 1] == '.'));
                assert(digit(m[i + k + 1]));
            }
            assert(d != k);
            assert(m[k] == '.' && only_digits(m.take(k)) && only_digits(m.skip(k + 1)));
        } else {
            assert forall|i: int| 0 <= i < m.len() implies 48 <= #[trigger] m[i] as int <= 57 by {
                assert(digit(m[i]));
            }
        }
    }
    if digits_and_point(m) {
        if m.len() > 0 && only_digits(m) {
            assert(digit(m[0]));
        } else {
            let k = choose|k: int|
                0 <= k < m.len() && #[trigger] m[k] == '.' && only_digits(m.take(k))
                    && only_digits(m.skip(k + 1));
            assert forall|i: int| 0 <= i < m.len() && i != k implies digit(#[trigger] m[i]) by {
                if i < k {
                    assert(m.take(k)[i] == m[i]);
                } else {
                    assert(m.skip(k + 1)[i - k - 1] == m[i]);
                }
            }
            if k == 0 {
                assert(digit(m[1]));
            } else {
                assert(digit(m[0]));
            }
        }
    }
}

proof fn lemma_exponent_form(e: Seq<char>)
    ensures
        exponent(e) <==> power_of_ten(e),
{
    if e.len() > 0 {
        let t = e.skip(1);
        assert(e.len() > 1 ==> t[0] == e[1]);
        lemma_digits_from(t, 0);
        assert(t.skip(0) =~= t);
        if e.len() > 1 {
            lemma_digits_from(t, 1);
            assert(t.skip(1) =~= e.skip(2));
            if only_digits(t) {
                assert(48 <= t[0] as int);
            }
        }
    }
}

proof fn lemma_digits_from(t: Seq<char>, k: int)
    requires
        0 <= k <= t.len(),
    ensures
        digits_from(t, k) <==> k < t.len() && only_digits(t.skip(k)),
{
    let u = t.skip(k);
    if digits_from(t, k) {
        assert forall|i: int| 0 <= i < u.len() implies 48 <= #[trigger] u[i] as int <= 57 by {
            assert(digit(t[i + k]));
        }
    }
    if only_digits(u) {
        assert forall|i: int| k <= i < t.len() implies digit(#[trigger] t[i]) by {
            assert(u[i - k] == t[i]);
        }
    }
}

/// Exactly which texts are hexadecimal, octal and binary numbers, and dates.
pub proof fn law_prefixed_numbers_and_dates(s: Seq<char>)
    ensures
        hex_number(s) <==> s.len() > 2 && s[0] == '0' && (s[1] == 'x' || s[1] == 'X') && forall|
            i: int,
        |
            2 <= i < s.len() ==> (48 <= #[trigger] s[i] as int <= 57 || 65 <= s[i] as int <= 70 || 97
                <= s[i] as int <= 102),
        octal_number(s) <==> s.len() > 1 && s[0] == '0' && ({
            ||| s.len() > 2 && (s[1] == 'o' || s[1] == 'O') && forall|i: int|
                2 <= i < s.len() ==> 48 <= #[trigger] s[i] as int <= 55
            ||| forall|i: int| 1 <= i < s.len() ==> 48 <= #[trigger] s[i] as int <= 55
        }),
        binary_number(s) <==> s.len() > 2 && s[0] == '0' && (s[1] == 'b' || s[1] == 'B') && forall|
            i: int,
        |
            2 <= i < s.len() ==> 48 <= #[trigger] s[i] as int <= 49,
        timestamp(s) <==> s.len() > 4 && s[4] == '-' && forall|i: int|
            0 <= i < 4 ==> 48 <= #[trigger] s[i] as int <= 57,
{
    if hex_number(s) {
        assert forall|i: int| 2 <= i < s.len() implies (48 <= #[trigger] s[i] as int <= 57 || 65
            <= s[i] as int <= 70 || 97 <= s[i] as int <= 102) by {
            assert(hex_digit(s[i]));
        }
    }
    if s.len() > 2 && forall|i: int|
        2 <= i < s.len() ==> (48 <= #[trigger] s[i] as int <= 57 || 65 <= s[i] as int <= 70 || 97
            <= s[i] as int <= 102) {
        assert(hex_from(s, 2));
    }
    if s.len() > 1 {
        if octal_from(s, 1) {
            assert forall|i: int| 1 <= i < s.len() implies 48 <= #[trigger] s[i] as int <= 55 by {
                assert(octal_digit(s[i]));
            }
        }
        if octal_from(s, 2) {
            assert forall|i: int| 2 <= i < s.len() implies 48 <= #[trigger] s[i] as int <= 55 by {
                assert(octal_digit(s[i]));
            }
        }
    }
    if binary_number(s) {
        assert forall|i: int| 2 <= i < s.len() implies 48 <= #[trigger] s[i] as int <= 49 by {
            assert(s[i] == '0' || s[i] == '1');
        }
    }
    if s.len() > 4 && s[4] == '-' && forall|i: int|
        0 <= i < 4 ==> 48 <= #[trigger] s[i] as int <= 57 {
        assert(digit(s[0]) && digit(s[1]) && digit(s[2]) && digit(s[3]));
    }
}

/// The contents of a mapping are all of its entries, in order.
pub proof fn law_entry_contents(entries: Seq<(&str, YamlValue)>, s: &str, b: bool)
    ensures
        entry_views(entries).len() == entries.len(),
        forall|i: int|
            0 <= i < entries.len() ==> #[trigger] entry_views(entries)[i] == (
                entries[i].0@,
                entries[i].1@,
            ),
        YamlValue::Str(s)@ == YamlView::Str(s@),
        YamlValue::Bool(b)@ == YamlView::Bool(b),
        YamlValue::Null@ == YamlView::Null,
{
}

}
