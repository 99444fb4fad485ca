//! TOML values, as they are written in a configuration file or in an
//! environment variable.
//!
//! Read: basic strings (`"..."`, with the escapes `\b \t \n \f \r \" \\`, and
//! `\u` with four hex digits or `\U` with eight) and literal strings (`'...'`),
//! each on one line; multi-line basic and literal strings (three quotes, a
//! line break right after the opening ones dropped, a backslash at the end of
//! a line joining it to the next in the basic form); integers in decimal, or
//! in hex, octal or binary after `0x`, `0o`, `0b`, with underscores between
//! digits, that fit in 64 bits; floats with a fraction, an exponent or both,
//! and `inf` and `nan` (kept as written, without underscores); `true` and
//! `false`; dates, times and date-times (kept as written, read by their shape);
//! arrays, which may span lines and hold comments; and inline tables on one
//! line. Keys are bare (`A-Za-z0-9_-`), basic strings or literal strings.

use vstd::prelude::*;

use crate::text::find_char;
use crate::text::lemma_find_char;
use crate::text::lemma_find_char_unique;
use crate::text::find_in_range;

verus! {

/// A TOML value.
#[derive(Debug)]
pub enum TomlValue {
    /// A string.
    Str(String),
    /// An integer.
    Int(i64),
    /// A float, kept as it is written (without underscores).
    Float(String),
    /// A date, a time or a date-time, kept as it is written.
    Datetime(String),
    /// A boolean.
    Bool(bool),
    /// An array.
    Array(Vec<TomlValue>),
    /// A table: its keys and values, in the order written.
    Table(Vec<(String, TomlValue)>),
}

/// The mathematical value of a [`TomlValue`].
pub enum TomlView {
    /// See [`TomlValue::Str`].
    Str(Seq<char>),
    /// See [`TomlValue::Int`].
    Int(int),
    /// See [`TomlValue::Float`].
    Float(Seq<char>),
    /// See [`TomlValue::Datetime`].
    Datetime(Seq<char>),
    /// See [`TomlValue::Bool`].
    Bool(bool),
    /// See [`TomlValue::Array`].
    Array(Seq<TomlView>),
    /// See [`TomlValue::Table`].
    Table(Seq<(Seq<char>, TomlView)>),
}

impl TomlValue {
    /// The mathematical value.
    pub open spec fn tv(self) -> TomlView
        decreases self,
    {
        match self {
            TomlValue::Str(s) => TomlView::Str(s@),
            TomlValue::Int(i) => TomlView::Int(i as int),
            TomlValue::Float(s) => TomlView::Float(s@),
            TomlValue::Datetime(s) => TomlView::Datetime(s@),
            TomlValue::Bool(b) => TomlView::Bool(b),
            TomlValue::Array(v) => TomlView::Array(
                Seq::new(
                    v@.len(),
                    |i: int|
                        if 0 <= i < v@.len() {
                            v@[i].tv()
                        } else {
                            TomlView::Bool(false)
                        },
                ),
            ),
            TomlValue::Table(v) => TomlView::Table(
                Seq::new(
                    v@.len(),
                    |i: int|
                        if 0 <= i < v@.len() {
                            (v@[i].0@, v@[i].1.tv())
                        } else {
                            (Seq::empty(), TomlView::Bool(false))
                        },
                ),
            ),
        }
    }
}

/// The outcome of reading a value or key at a position: what was read and where
/// reading stopped, or what is wrong.
pub type Parsed<A> = Result<(A, int), Seq<char>>;

/// Whether `c` is TOML whitespace within a line.
pub open spec fn is_blank(c: char) -> bool {
    c == ' ' || c == '\t'
}

/// The first position at or after `p` that is not whitespace.
pub open spec fn skip_blank(t: Seq<char>, p: int) -> int
    decreases t.len() - p,
{
    if 0 <= p < t.len() && is_blank(t[p]) {
        skip_blank(t, p + 1)
    } else {
        p
    }
}

/// Whether `c` may stand in a bare key.
pub open spec fn is_bare_char(c: char) -> bool {
    let u = c as u32;
    ||| 0x30 <= u <= 0x39
    ||| 0x41 <= u <= 0x5A
    ||| 0x61 <= u <= 0x7A
    ||| c == '_'
    ||| c == '-'
}

/// The end of the run of bare-key characters that starts at `p`.
pub open spec fn bare_end(t: Seq<char>, p: int) -> int
    decreases t.len() - p,
{
    if 0 <= p < t.len() && is_bare_char(t[p]) {
        bare_end(t, p + 1)
    } else {
        p
    }
}

/// What the escape `\e` stands for, if it is one this crate reads.
pub open spec fn unescape(e: char) -> Option<char> {
    if e == 'n' {
        Some('\n')
    } else if e == 't' {
        Some('\t')
    } else if e == 'r' {
        Some('\r')
    } else if e == 'b' {
        Some('\x08')
    } else if e == 'f' {
        Some('\x0C')
    } else if e == '"' {
        Some('"')
    } else if e == '\\' {
        Some('\\')
    } else {
        None
    }
}

/// The value of the hexadecimal digit `c`.
pub open spec fn hex_digit(c: char) -> Option<nat> {
    let u = c as u32;
    if 0x30 <= u <= 0x39 {
        Some((u - 0x30) as nat)
    } else if 0x41 <= u <= 0x46 {
        Some((u - 0x37) as nat)
    } else if 0x61 <= u <= 0x66 {
        Some((u - 0x57) as nat)
    } else {
        None
    }
}

/// The value of the hexadecimal digits `d`, when all of them are.
pub open spec fn hex_value(d: Seq<char>) -> Option<nat>
    decreases d.len(),
{
    if d.len() == 0 {
        Some(0)
    } else {
        match (hex_value(d.drop_last()), hex_digit(d.last())) {
            (Some(a), Some(b)) => Some(a * 16 + b),
            _ => None,
        }
    }
}

/// Whether `v` is a Unicode scalar value, the code of a `char`.
pub open spec fn is_scalar(v: nat) -> bool {
    v <= 0x10FFFF && !(0xD800 <= v <= 0xDFFF)
}

/// The character that the `w` hexadecimal digits from `p` on name, when they
/// are digits and name one.
pub open spec fn unicode_escape(t: Seq<char>, p: int, w: int) -> Option<char> {
    if p < 0 || p + w > t.len() {
        None
    } else {
        match hex_value(t.subrange(p, p + w)) {
            Some(v) => if is_scalar(v) {
                Some(v as char)
            } else {
                None
            },
            None => None,
        }
    }
}

/// The number of digits of the escape `\e`: 4 for `\u`, 8 for `\U`, none
/// for the others.
pub open spec fn unicode_width(e: char) -> int {
    if e == 'u' {
        4
    } else if e == 'U' {
        8
    } else {
        0
    }
}

/// The rest of a basic string whose text from `p` on is not read yet, `acc`
/// being what was read before.
pub open spec fn basic_string(t: Seq<char>, p: int, acc: Seq<char>) -> Parsed<Seq<char>>
    decreases t.len() - p,
{
    if p < 0 || p >= t.len() {
        Err("unterminated string"@)
    } else if t[p] == '"' {
        Ok((acc, p + 1))
    } else if t[p] == '\n' {
        Err("unterminated string"@)
    } else if t[p] == '\\' {
        if p + 1 >= t.len() {
            Err("unterminated string"@)
        } else if unicode_width(t[p + 1]) > 0 {
            let w = unicode_width(t[p + 1]);
            match unicode_escape(t, p + 2, w) {
                Some(c) => basic_string(t, p + 2 + w, acc.push(c)),
                None => Err("invalid unicode escape in string"@),
            }
        } else {
            match unescape(t[p + 1]) {
                Some(c) => basic_string(t, p + 2, acc.push(c)),
                None => Err("unsupported escape in string"@),
            }
        }
    } else {
        basic_string(t, p + 1, acc.push(t[p]))
    }
}

/// A literal string whose text starts at `p` (after its opening `'`).
pub open spec fn literal_string(t: Seq<char>, p: int) -> Parsed<Seq<char>> {
    if p < 0 || p > t.len() {
        Err("unterminated string"@)
    } else {
        let q = p + find_char(t.skip(p), '\'');
        if q >= t.len() || p + find_char(t.skip(p), '\n') < q {
            Err("unterminated string"@)
        } else {
            Ok((t.subrange(p, q), q + 1))
        }
    }
}

/// Whether the three characters at `p` are `q`: the delimiter of a
/// multi-line string.
pub open spec fn triple_at(t: Seq<char>, p: int, q: char) -> bool {
    0 <= p && p + 3 <= t.len() && t[p] == q && t[p + 1] == q && t[p + 2] == q
}

/// Where the text of a multi-line string starts, its opening delimiter ending
/// at `p`: a line break right after the delimiter is not part of the text.
pub open spec fn after_opening(t: Seq<char>, p: int) -> int {
    if 0 <= p < t.len() && t[p] == '\n' {
        p + 1
    } else if 0 <= p && p + 1 < t.len() && t[p] == '\r' && t[p + 1] == '\n' {
        p + 2
    } else {
        p
    }
}

/// How many quotes `q` (at most two) stand at `p`, right after a closing
/// delimiter: they belong to the text.
pub open spec fn extra_quotes(t: Seq<char>, p: int, q: char) -> int {
    if 0 <= p < t.len() && t[p] == q {
        if p + 1 < t.len() && t[p + 1] == q {
            2
        } else {
            1
        }
    } else {
        0
    }
}

/// The end of a multi-line string whose closing delimiter (three `q`) starts
/// at `p`, `acc` being its text before: up to two more quotes are text, a
/// sixth is an error.
pub open spec fn ml_close(t: Seq<char>, p: int, q: char, acc: Seq<char>) -> Parsed<Seq<char>> {
    let x = extra_quotes(t, p + 3, q);
    if x == 2 && 0 <= p + 5 < t.len() && t[p + 5] == q {
        Err("too many quotes in string"@)
    } else {
        Ok((acc + Seq::new(x as nat, |i: int| q), p + 3 + x))
    }
}

/// Whether `c` is whitespace or a line break.
pub open spec fn is_space_or_break(c: char) -> bool {
    c == ' ' || c == '\t' || c == '\n' || c == '\r'
}

/// The first position at or after `p` that is not whitespace or a line break.
pub open spec fn skip_space_nl(t: Seq<char>, p: int) -> int
    decreases t.len() - p,
{
    if 0 <= p < t.len() && is_space_or_break(t[p]) {
        skip_space_nl(t, p + 1)
    } else {
        p
    }
}

/// The rest of a multi-line basic string (`"""..."""`) whose text from `p` on is
/// not read yet, `acc` being what was read before. Line breaks are text; a
/// backslash at the end of a line drops the line break and the whitespace
/// after it.
pub open spec fn ml_basic_string(t: Seq<char>, p: int, acc: Seq<char>) -> Parsed<Seq<char>>
    decreases t.len() - p,
{
    if p < 0 || p >= t.len() {
        Err("unterminated string"@)
    } else if triple_at(t, p, '"') {
        ml_close(t, p, '"', acc)
    } else if t[p] == '\\' {
        let q = skip_blank(t, p + 1);
        if 0 <= q < t.len() && (t[q] == '\n' || t[q] == '\r') {
            let r = skip_space_nl(t, q);
            if r <= p || r > t.len() {
                Err("unterminated string"@)
            } else {
                ml_basic_string(t, r, acc)
            }
        } else if p + 1 >= t.len() {
            Err("unterminated string"@)
        } else if unicode_width(t[p + 1]) > 0 {
            let w = unicode_width(t[p + 1]);
            match unicode_escape(t, p + 2, w) {
                Some(c) => ml_basic_string(t, p + 2 + w, acc.push(c)),
                None => Err("invalid unicode escape in string"@),
            }
        } else {
            match unescape(t[p + 1]) {
                Some(c) => ml_basic_string(t, p + 2, acc.push(c)),
                None => Err("unsupported escape in string"@),
            }
        }
    } else {
        ml_basic_string(t, p + 1, acc.push(t[p]))
    }
}

/// The rest of a multi-line literal string (`'''...'''`) whose text from `p`
/// on is not read yet, `acc` being what was read before.
pub open spec fn ml_literal_string(t: Seq<char>, p: int, acc: Seq<char>) -> Parsed<Seq<char>>
    decreases t.len() - p,
{
    if p < 0 || p >= t.len() {
        Err("unterminated string"@)
    } else if triple_at(t, p, '\'') {
        ml_close(t, p, '\'', acc)
    } else {
        ml_literal_string(t, p + 1, acc.push(t[p]))
    }
}

/// A key starting at `p`.
pub open spec fn key_at(t: Seq<char>, p: int) -> Parsed<Seq<char>> {
    if p < 0 || p >= t.len() {
        Err("expected a key"@)
    } else if t[p] == '"' {
        basic_string(t, p + 1, Seq::empty())
    } else if t[p] == '\'' {
        literal_string(t, p + 1)
    } else {
        let q = bare_end(t, p);
        if q == p {
            Err("expected a key"@)
        } else {
            Ok((t.subrange(p, q), q))
        }
    }
}

/// Whether `c` may stand in a number.
pub open spec fn is_number_char(c: char) -> bool {
    let u = c as u32;
    ||| 0x30 <= u <= 0x39
    ||| c == '+'
    ||| c == '-'
    ||| c == '.'
    ||| c == '_'
    ||| c == 'e'
    ||| c == 'E'
}

/// The end of the run of number characters that starts at `p`.
pub open spec fn number_end(t: Seq<char>, p: int) -> int
    decreases t.len() - p,
{
    if 0 <= p < t.len() && is_number_char(t[p]) {
        number_end(t, p + 1)
    } else {
        p
    }
}

/// Whether `c` is an ASCII digit.
pub open spec fn is_digit(c: char) -> bool {
    0x30 <= (c as u32) <= 0x39
}

/// Whether `d` is a non-empty run of digits without a superfluous leading zero.
pub open spec fn is_digits(d: Seq<char>) -> bool {
    &&& d.len() > 0
    &&& forall|i: int| 0 <= i < d.len() ==> is_digit(#[trigger] d[i])
    &&& (d.len() == 1 || d[0] != '0')
}

/// Whether `d` is a non-empty run of digits.
pub open spec fn all_digits(d: Seq<char>) -> bool {
    &&& d.len() > 0
    &&& forall|i: int| 0 <= i < d.len() ==> is_digit(#[trigger] d[i])
}

/// `x` without its leading sign, if it has one.
pub open spec fn unsigned(x: Seq<char>) -> Seq<char> {
    if x.len() > 0 && (x[0] == '+' || x[0] == '-') {
        x.drop_first()
    } else {
        x
    }
}

/// The number that a run of digits denotes.
pub open spec fn digits_value(d: Seq<char>) -> nat
    decreases d.len(),
{
    if d.len() == 0 {
        0
    } else {
        digits_value(d.drop_last()) * 10 + ((d.last() as u32) - 0x30) as nat
    }
}

/// The integer an integer lexeme denotes.
pub open spec fn int_value(x: Seq<char>) -> int {
    if x.len() > 0 && x[0] == '-' {
        -(digits_value(unsigned(x)) as int)
    } else {
        digits_value(unsigned(x)) as int
    }
}

/// Where the exponent mark (`e` or `E`) of `d` stands, or `d.len()`.
pub open spec fn exponent_at(d: Seq<char>) -> int {
    let a = find_char(d, 'e') as int;
    let b = find_char(d, 'E') as int;
    if a < b {
        a
    } else {
        b
    }
}

/// Whether `x` is a float lexeme: an optional sign, an integer part, and a
/// fraction `.digits`, an exponent `e[sign]digits`, or both.
pub open spec fn is_float_lexeme(x: Seq<char>) -> bool {
    let d = unsigned(x);
    let e = exponent_at(d);
    let m = d.take(e);
    let i = find_char(m, '.') as int;
    &&& (i < m.len() || e < d.len())
    &&& is_digits(m.take(i))
    &&& (i < m.len() ==> all_digits(m.skip(i + 1)))
    &&& (e < d.len() ==> all_digits(unsigned(d.skip(e + 1))))
}

/// What a number lexeme without underscores denotes: an integer that fits in
/// 64 bits, or a float kept as written.
pub open spec fn number_value(x: Seq<char>) -> Result<TomlView, Seq<char>> {
    if is_digits(unsigned(x)) {
        let v = int_value(x);
        if i64::MIN <= v <= i64::MAX {
            Ok(TomlView::Int(v))
        } else {
            Err("integer out of range"@)
        }
    } else if is_float_lexeme(x) {
        Ok(TomlView::Float(x))
    } else {
        Err("invalid number"@)
    }
}

/// The value of `c` as a digit of base `r`, if it is one.
pub open spec fn radix_digit(c: char, r: nat) -> Option<nat> {
    match hex_digit(c) {
        Some(v) => if v < r {
            Some(v)
        } else {
            None
        },
        None => None,
    }
}

/// Whether the `i`th character of `x` is an underscore.
pub open spec fn underscore_at(x: Seq<char>, i: int) -> bool {
    x[i] == '_'
}

/// Whether every underscore of `x` stands between two digits of base `r`.
pub open spec fn underscores_ok(x: Seq<char>, r: nat) -> bool {
    forall|i: int|
        0 <= i < x.len() && #[trigger] underscore_at(x, i) ==> 0 < i < x.len() - 1 && radix_digit(
            x[i - 1],
            r,
        ) is Some && radix_digit(x[i + 1], r) is Some
}

/// `x` without its underscores.
pub open spec fn without_underscores(x: Seq<char>) -> Seq<char>
    decreases x.len(),
{
    if x.len() == 0 {
        x
    } else if x.last() == '_' {
        without_underscores(x.drop_last())
    } else {
        without_underscores(x.drop_last()).push(x.last())
    }
}

/// The base that the prefix letter `c` of `0x`, `0o` or `0b` names, or 0.
pub open spec fn radix_of(c: char) -> nat {
    if c == 'x' {
        16
    } else if c == 'o' {
        8
    } else if c == 'b' {
        2
    } else {
        0
    }
}

/// The end of the run of hexadecimal digits and underscores that starts at `p`.
pub open spec fn radix_end(t: Seq<char>, p: int) -> int
    decreases t.len() - p,
{
    if 0 <= p < t.len() && (hex_digit(t[p]) is Some || t[p] == '_') {
        radix_end(t, p + 1)
    } else {
        p
    }
}

/// The number that the digits `d` of base `r` denote.
pub open spec fn radix_value(d: Seq<char>, r: nat) -> nat
    decreases d.len(),
{
    if d.len() == 0 {
        0
    } else {
        radix_value(d.drop_last(), r) * r + match radix_digit(d.last(), r) {
            Some(v) => v,
            None => 0,
        }
    }
}

/// Whether the characters at `p` and `p + 1` are digits.
pub open spec fn two_digits(t: Seq<char>, p: int) -> bool {
    0 <= p && p + 2 <= t.len() && is_digit(t[p]) && is_digit(t[p + 1])
}

/// Whether a date `YYYY-MM-DD` stands at `p`.
pub open spec fn date_at(t: Seq<char>, p: int) -> bool {
    &&& two_digits(t, p)
    &&& two_digits(t, p + 2)
    &&& p + 10 <= t.len()
    &&& t[p + 4] == '-'
    &&& two_digits(t, p + 5)
    &&& t[p + 7] == '-'
    &&& two_digits(t, p + 8)
}

/// The number of digits from `p` on.
pub open spec fn digit_run(t: Seq<char>, p: int) -> int
    decreases t.len() - p,
{
    if 0 <= p < t.len() && is_digit(t[p]) {
        1 + digit_run(t, p + 1)
    } else {
        0
    }
}

/// The length of a time `HH:MM:SS`, with an optional fraction `.digits`, at
/// `p`; or 0.
pub open spec fn time_len(t: Seq<char>, p: int) -> int {
    if two_digits(t, p) && p + 8 <= t.len() && t[p + 2] == ':' && two_digits(t, p + 3) && t[p
        + 5] == ':' && two_digits(t, p + 6) {
        if p + 8 < t.len() && t[p + 8] == '.' && digit_run(t, p + 9) > 0 {
            9 + digit_run(t, p + 9)
        } else {
            8
        }
    } else {
        0
    }
}

/// The length of a time offset (`Z`, or `+HH:MM` / `-HH:MM`) at `p`; or 0.
pub open spec fn offset_len(t: Seq<char>, p: int) -> int {
    if 0 <= p < t.len() && (t[p] == 'Z' || t[p] == 'z') {
        1
    } else if 0 <= p && p + 6 <= t.len() && (t[p] == '+' || t[p] == '-') && two_digits(t, p + 1)
        && t[p + 3] == ':' && two_digits(t, p + 4) {
        6
    } else {
        0
    }
}

/// The length of a date-time at `p` (a date, a time, or a date, `T` or a
/// space, a time and an optional offset); or 0.
pub open spec fn datetime_len(t: Seq<char>, p: int) -> int {
    if date_at(t, p) {
        if p + 10 < t.len() && (t[p + 10] == 'T' || t[p + 10] == 't' || t[p + 10] == ' ')
            && time_len(t, p + 11) > 0 {
            11 + time_len(t, p + 11) + offset_len(t, p + 11 + time_len(t, p + 11))
        } else {
            10
        }
    } else {
        time_len(t, p)
    }
}

/// The length of `inf` or `nan`, with its optional sign, at `p`; or 0.
pub open spec fn special_float_len(t: Seq<char>, p: int) -> int {
    let s: int = if 0 <= p < t.len() && (t[p] == '+' || t[p] == '-') {
        1
    } else {
        0
    };
    if starts_with_at(t, p + s, seq!['i', 'n', 'f']) || starts_with_at(t, p + s, seq!['n', 'a', 'n']) {
        s + 3
    } else {
        0
    }
}

/// A number starting at `p`: `0x`, `0o` or `0b` and digits of that base, or
/// a decimal integer or float; underscores may stand between digits.
#[verifier::opaque]
pub open spec fn number_at(t: Seq<char>, p: int) -> Parsed<TomlView> {
    if 0 <= p && p + 1 < t.len() && t[p] == '0' && radix_of(t[p + 1]) > 0 {
        let r = radix_of(t[p + 1]);
        let q = radix_end(t, p + 2);
        let d = t.subrange(p + 2, q);
        if d.len() == 0 || !underscores_ok(d, r) || !(forall|i: int|
            0 <= i < d.len() ==> #[trigger] d[i] == '_' || radix_digit(d[i], r) is Some) {
            Err("invalid number"@)
        } else {
            let v = radix_value(without_underscores(d), r);
            if v <= i64::MAX {
                Ok((TomlView::Int(v as int), q))
            } else {
                Err("integer out of range"@)
            }
        }
    } else {
        let q = number_end(t, p);
        let x = t.subrange(p, q);
        if !underscores_ok(x, 10) {
            Err("invalid number"@)
        } else {
            match number_value(without_underscores(x)) {
                Ok(v) => Ok((v, q)),
                Err(m) => Err(m),
            }
        }
    }
}

/// Whether the text at `p` starts with `word`.
pub open spec fn starts_with_at(t: Seq<char>, p: int, word: Seq<char>) -> bool {
    0 <= p && p + word.len() <= t.len() && t.subrange(p, p + word.len()) == word
}

/// Whether `key` is among the keys of `entries`.
pub open spec fn has_key(entries: Seq<(Seq<char>, TomlView)>, key: Seq<char>) -> bool {
    exists|i: int| 0 <= i < entries.len() && #[trigger] entries[i].0 == key
}

/// A value starting at `p`.
pub open spec fn value_at(t: Seq<char>, p: int) -> Parsed<TomlView>
    decreases t.len() - p, 1int,
{
    if p < 0 || p >= t.len() {
        Err("expected a value"@)
    } else if triple_at(t, p, '"') {
        match ml_basic_string(t, after_opening(t, p + 3), Seq::empty()) {
            Ok((s, q)) => Ok((TomlView::Str(s), q)),
            Err(m) => Err(m),
        }
    } else if triple_at(t, p, '\'') {
        match ml_literal_string(t, after_opening(t, p + 3), Seq::empty()) {
            Ok((s, q)) => Ok((TomlView::Str(s), q)),
            Err(m) => Err(m),
        }
    } else if t[p] == '"' {
        match basic_string(t, p + 1, Seq::empty()) {
            Ok((s, q)) => Ok((TomlView::Str(s), q)),
            Err(m) => Err(m),
        }
    } else if t[p] == '\'' {
        match literal_string(t, p + 1) {
            Ok((s, q)) => Ok((TomlView::Str(s), q)),
            Err(m) => Err(m),
        }
    } else if t[p] == '[' {
        array_items(t, p + 1, Seq::empty())
    } else if t[p] == '{' {
        table_items(t, p + 1, Seq::empty())
    } else if starts_with_at(t, p, seq!['t', 'r', 'u', 'e']) {
        Ok((TomlView::Bool(true), p + 4))
    } else if starts_with_at(t, p, seq!['f', 'a', 'l', 's', 'e']) {
        Ok((TomlView::Bool(false), p + 5))
    } else if datetime_len(t, p) > 0 {
        Ok((TomlView::Datetime(t.subrange(p, p + datetime_len(t, p))), p + datetime_len(t, p)))
    } else if special_float_len(t, p) > 0 {
        Ok((TomlView::Float(t.subrange(p, p + special_float_len(t, p))), p + special_float_len(t, p)))
    } else if is_digit(t[p]) || t[p] == '+' || t[p] == '-' {
        number_at(t, p)
    } else {
        Err("expected a value"@)
    }
}

/// The first position at or after `p` that is not whitespace, a line break or
/// a comment: what may stand between the items of an array.
pub open spec fn skip_gap(t: Seq<char>, p: int) -> int
    decreases t.len() - p,
{
    if 0 <= p < t.len() && is_space_or_break(t[p]) {
        skip_gap(t, p + 1)
    } else if 0 <= p < t.len() && t[p] == '#' {
        let q = p + find_char(t.skip(p), '\n');
        if q <= p || q > t.len() {
            p
        } else {
            skip_gap(t, q)
        }
    } else {
        p
    }
}

/// The rest of an array from `p` on, `acc` holding the items read before.
pub open spec fn array_items(t: Seq<char>, p: int, acc: Seq<TomlView>) -> Parsed<TomlView>
    decreases t.len() - p, 2int,
{
    let q = skip_gap(t, p);
    if p < 0 || q < p || q >= t.len() {
        Err("unterminated array"@)
    } else if t[q] == ']' {
        Ok((TomlView::Array(acc), q + 1))
    } else {
        match value_at(t, q) {
            Err(m) => Err(m),
            Ok((v, r)) => {
                let r2 = skip_gap(t, r);
                if r2 < q || r2 >= t.len() {
                    Err("unterminated array"@)
                } else if t[r2] == ',' {
                    array_items(t, r2 + 1, acc.push(v))
                } else if t[r2] == ']' {
                    Ok((TomlView::Array(acc.push(v)), r2 + 1))
                } else {
                    Err("expected `,` or `]` in array"@)
                }
            },
        }
    }
}

/// The rest of an inline table from `p` on, `acc` holding the entries read
/// before.
pub open spec fn table_items(t: Seq<char>, p: int, acc: Seq<(Seq<char>, TomlView)>) -> Parsed<
    TomlView,
>
    decreases t.len() - p, 2int,
{
    let q = skip_blank(t, p);
    if p < 0 || q < p || q >= t.len() {
        Err("unterminated inline table"@)
    } else if t[q] == '}' && acc.len() == 0 {
        Ok((TomlView::Table(acc), q + 1))
    } else {
        match key_at(t, q) {
            Err(m) => Err(m),
            Ok((k, r)) => {
                let r1 = skip_blank(t, r);
                if r1 < q || r1 >= t.len() || t[r1] != '=' {
                    Err("expected `=` after key"@)
                } else {
                    let r2 = skip_blank(t, r1 + 1);
                    if r2 <= q || r2 > t.len() {
                        Err("expected a value"@)
                    } else {
                        match value_at(t, r2) {
                            Err(m) => Err(m),
                            Ok((v, r3)) => if has_key(acc, k) {
                                Err("duplicate key"@)
                            } else {
                                let r4 = skip_blank(t, r3);
                                if r4 < q || r4 >= t.len() {
                                    Err("unterminated inline table"@)
                                } else if t[r4] == ',' {
                                    table_items(t, r4 + 1, acc.push((k, v)))
                                } else if t[r4] == '}' {
                                    Ok((TomlView::Table(acc.push((k, v))), r4 + 1))
                                } else {
                                    Err("expected `,` or `}` in inline table"@)
                                }
                            },
                        }
                    }
                }
            },
        }
    }
}

/// What a parse of characters gave, against what it should give.
pub open spec fn chars_match(r: Result<(Vec<char>, usize), String>, s: Parsed<Seq<char>>) -> bool {
    match r {
        Ok((v, q)) => s matches Ok((sv, sq)) && v@ == sv && q == sq,
        Err(m) => s matches Err(sm) && m@ == sm,
    }
}

/// What a parse of a value gave, against what it should give.
pub open spec fn value_match(r: Result<(TomlValue, usize), String>, s: Parsed<TomlView>) -> bool {
    match r {
        Ok((v, q)) => s matches Ok((sv, sq)) && v.tv() == sv && q == sq,
        Err(m) => s matches Err(sm) && m@ == sm,
    }
}

/// The views of a run of values.
pub open spec fn views_of(v: Seq<TomlValue>) -> Seq<TomlView> {
    Seq::new(v.len(), |i: int| v[i].tv())
}

/// The views of a run of table entries.
pub open spec fn entry_views_of(v: Seq<(String, TomlValue)>) -> Seq<(Seq<char>, TomlView)> {
    Seq::new(v.len(), |i: int| (v[i].0@, v[i].1.tv()))
}

/// Calls `String::from_iter` over the characters of `cs`, which std documents
/// as the string of those characters in order; the contract claims exactly that.
#[verifier::external_body]
pub(crate) fn string_from_chars(cs: &Vec<char>) -> (s: String)
    ensures
        s@ == cs@,
{
    cs.iter().collect()
}

/// The characters `[a, b)` of `t`.
pub fn sub_chars(t: &Vec<char>, a: usize, b: usize) -> (v: Vec<char>)
    requires
        a <= b <= t@.len(),
    ensures
        v@ == t@.subrange(a as int, b as int),
{
    let mut v: Vec<char> = Vec::new();
    let mut i = a;
    while i < b
        invariant
            a <= i <= b <= t@.len(),
            v@ == t@.subrange(a as int, i as int),
        decreases b - i,
    {
        v.push(t[i]);
        assert(v@ =~= t@.subrange(a as int, i + 1));
        i = i + 1;
    }
    v
}

fn error_text(m: &str) -> (s: String)
    ensures
        s@ == m@,
{
    String::from_str(m)
}

/// [`skip_blank`], computed.
pub fn skip_blank_at(t: &Vec<char>, p: usize) -> (q: usize)
    requires
        p <= t@.len(),
    ensures
        q as int == skip_blank(t@, p as int),
        p <= q <= t@.len(),
{
    let mut q = p;
    while q < t.len() && (t[q] == ' ' || t[q] == '\t')
        invariant
            p <= q <= t@.len(),
            skip_blank(t@, p as int) == skip_blank(t@, q as int),
        decreases t@.len() - q,
    {
        q = q + 1;
    }
    q
}

fn is_bare_char_exec(c: char) -> (b: bool)
    ensures
        b == is_bare_char(c),
{
    let u = c as u32;
    (0x30 <= u && u <= 0x39) || (0x41 <= u && u <= 0x5A) || (0x61 <= u && u <= 0x7A) || c == '_'
        || c == '-'
}

fn is_number_char_exec(c: char) -> (b: bool)
    ensures
        b == is_number_char(c),
{
    let u = c as u32;
    (0x30 <= u && u <= 0x39) || c == '+' || c == '-' || c == '.' || c == '_' || c == 'e' || c
        == 'E'
}

fn is_digit_exec(c: char) -> (b: bool)
    ensures
        b == is_digit(c),
{
    let u = c as u32;
    0x30 <= u && u <= 0x39
}

/// [`bare_end`], computed.
fn bare_end_at(t: &Vec<char>, p: usize) -> (q: usize)
    requires
        p <= t@.len(),
    ensures
        q as int == bare_end(t@, p as int),
        p <= q <= t@.len(),
{
    let mut q = p;
    while q < t.len() && is_bare_char_exec(t[q])
        invariant
            p <= q <= t@.len(),
            bare_end(t@, p as int) == bare_end(t@, q as int),
        decreases t@.len() - q,
    {
        q = q + 1;
    }
    q
}

/// [`number_end`], computed.
fn number_end_at(t: &Vec<char>, p: usize) -> (q: usize)
    requires
        p <= t@.len(),
    ensures
        q as int == number_end(t@, p as int),
        p <= q <= t@.len(),
{
    let mut q = p;
    while q < t.len() && is_number_char_exec(t[q])
        invariant
            p <= q <= t@.len(),
            number_end(t@, p as int) == number_end(t@, q as int),
        decreases t@.len() - q,
    {
        q = q + 1;
    }
    q
}

fn unescape_exec(e: char) -> (r: Option<char>)
    ensures
        r == unescape(e),
{
    if e == 'n' {
        Some('\n')
    } else if e == 't' {
        Some('\t')
    } else if e == 'r' {
        Some('\r')
    } else if e == 'b' {
        Some('\x08')
    } else if e == 'f' {
        Some('\x0C')
    } else if e == '"' {
        Some('"')
    } else if e == '\\' {
        Some('\\')
    } else {
        None
    }
}

/// 16 to the power `i`.
pub open spec fn pow16(i: nat) -> nat
    decreases i,
{
    if i == 0 {
        1
    } else {
        16 * pow16((i - 1) as nat)
    }
}

proof fn lemma_pow16_bound(i: nat)
    requires
        i <= 8,
    ensures
        pow16(i) <= 0x1_0000_0000,
    decreases 8 - i,
{
    if i < 8 {
        lemma_pow16_bound(i + 1);
    } else {
        assert(pow16(0) == 1);
        assert(pow16(1) == 16);
        assert(pow16(2) == 0x100);
        assert(pow16(3) == 0x1000);
        assert(pow16(4) == 0x1_0000);
        assert(pow16(5) == 0x10_0000);
        assert(pow16(6) == 0x100_0000);
        assert(pow16(7) == 0x1000_0000);
        assert(pow16(8) == 0x1_0000_0000);
    }
}

/// The value of the hexadecimal digit `c`, computed.
fn hex_digit_exec(c: char) -> (d: Option<u32>)
    ensures
        match hex_digit(c) {
            Some(v) => d == Some(v as u32),
            None => d is None,
        },
{
    let u = c as u32;
    if 0x30 <= u && u <= 0x39 {
        Some(u - 0x30)
    } else if 0x41 <= u && u <= 0x46 {
        Some(u - 0x37)
    } else if 0x61 <= u && u <= 0x66 {
        Some(u - 0x57)
    } else {
        None
    }
}

/// [`unicode_escape`], computed.
fn unicode_escape_exec(t: &Vec<char>, p: usize, w: usize) -> (r: Option<char>)
    requires
        p <= t@.len(),
        w == 4 || w == 8,
    ensures
        r == unicode_escape(t@, p as int, w as int),
{
    if w > t.len() - p {
        return None;
    }
    let mut v: u64 = 0;
    let mut bound: u64 = 1;
    let mut i: usize = 0;
    proof {
        lemma_pow16_bound(w as nat);
    }
    while i < w
        invariant
            i <= w <= 8,
            p + w <= t@.len(),
            t@.len() == t.len(),
            hex_value(t@.subrange(p as int, p + i)) == Some(v as nat),
            bound == pow16(i as nat),
            v < bound,
            pow16(w as nat) <= 0x1_0000_0000,
        decreases w - i,
    {
        let ghost d = t@.subrange(p as int, p + i + 1);
        assert(d.drop_last() =~= t@.subrange(p as int, p + i));
        assert(d.last() == t@[p + i]);
        match hex_digit_exec(t[p + i]) {
            None => {
                proof {
                    lemma_hex_value_none_grows(t@.subrange(p as int, p + w), (i + 1) as nat);
                    assert(t@.subrange(p as int, p + w).take(i + 1) =~= d);
                }
                return None;
            },
            Some(h) => {
                proof {
                    lemma_pow16_bound((i + 1) as nat);
                    lemma_pow16_monotone((i + 1) as nat, w as nat);
                    assert(v * 16 + h < bound * 16) by (nonlinear_arith)
                        requires
                            v < bound,
                            h < 16,
                    ;
                }
                v = v * 16 + h as u64;
                bound = bound * 16;
                i = i + 1;
            },
        }
    }
    if v <= 0x10FFFF && !(0xD800 <= v && v <= 0xDFFF) {
        char_from_u32(v as u32)
    } else {
        None
    }
}

proof fn lemma_pow16_monotone(i: nat, j: nat)
    requires
        i <= j,
    ensures
        pow16(i) <= pow16(j),
    decreases j - i,
{
    if i < j {
        lemma_pow16_monotone(i, (j - 1) as nat);
    }
}

/// Digits with a non-digit among the first `k` have no value.
proof fn lemma_hex_value_none_grows(d: Seq<char>, k: nat)
    requires
        k <= d.len(),
        hex_value(d.take(k as int)) is None,
    ensures
        hex_value(d) is None,
    decreases d.len() - k,
{
    if k < d.len() {
        assert(d.take(k as int + 1).drop_last() =~= d.take(k as int));
        lemma_hex_value_none_grows(d, k + 1);
    } else {
        assert(d.take(k as int) =~= d);
    }
}

/// `char::from_u32`: the character whose code is `v`. Its documentation says
/// it returns `None` exactly when `v` is not a Unicode scalar value (above
/// `0x10FFFF`, or a surrogate from `0xD800` to `0xDFFF`); this states that.
#[verifier::external_body]
fn char_from_u32(v: u32) -> (c: Option<char>)
    ensures
        match c {
            Some(ch) => is_scalar(v as nat) && ch == (v as char),
            None => !is_scalar(v as nat),
        },
{
    char::from_u32(v)
}

/// [`basic_string`] from `p` on, with nothing read before.
pub fn basic_string_at(t: &Vec<char>, p: usize) -> (r: Result<(Vec<char>, usize), String>)
    requires
        p <= t@.len(),
    ensures
        chars_match(r, basic_string(t@, p as int, Seq::empty())),
{
    let mut acc: Vec<char> = Vec::new();
    let mut q = p;
    loop
        invariant
            p <= q <= t@.len(),
            basic_string(t@, p as int, Seq::empty()) == basic_string(t@, q as int, acc@),
        decreases t@.len() - q,
    {
        if q >= t.len() {
            return Err(error_text("unterminated string"));
        }
        let c = t[q];
        if c == '"' {
            return Ok((acc, q + 1));
        } else if c == '\n' {
            return Err(error_text("unterminated string"));
        } else if c == '\\' {
            if q + 1 >= t.len() {
                return Err(error_text("unterminated string"));
            }
            let e = t[q + 1];
            if e == 'u' || e == 'U' {
                let w: usize = if e == 'u' {
                    4
                } else {
                    8
                };
                match unicode_escape_exec(t, q + 2, w) {
                    Some(d) => {
                        acc.push(d);
                        q = q + 2 + w;
                    },
                    None => {
                        return Err(error_text("invalid unicode escape in string"));
                    },
                }
            } else {
                match unescape_exec(e) {
                    Some(d) => {
                        acc.push(d);
                        q = q + 2;
                    },
                    None => {
                        return Err(error_text("unsupported escape in string"));
                    },
                }
            }
        } else {
            acc.push(c);
            q = q + 1;
        }
    }
}

/// [`triple_at`], computed.
fn triple_at_exec(t: &Vec<char>, p: usize, q: char) -> (b: bool)
    requires
        p <= t@.len(),
    ensures
        b == triple_at(t@, p as int, q),
{
    t.len() - p >= 3 && t[p] == q && t[p + 1] == q && t[p + 2] == q
}

/// [`after_opening`], computed.
fn after_opening_exec(t: &Vec<char>, p: usize) -> (q: usize)
    requires
        p <= t@.len(),
    ensures
        q == after_opening(t@, p as int),
        p <= q <= t@.len(),
{
    if p < t.len() && t[p] == '\n' {
        p + 1
    } else if t.len() - p > 1 && t[p] == '\r' && t[p + 1] == '\n' {
        p + 2
    } else {
        p
    }
}

/// [`ml_close`], computed.
fn ml_close_exec(t: &Vec<char>, p: usize, q: char, acc: Vec<char>) -> (r: Result<
    (Vec<char>, usize),
    String,
>)
    requires
        triple_at(t@, p as int, q),
    ensures
        chars_match(r, ml_close(t@, p as int, q, acc@)),
        r matches Ok((_, e)) ==> p < e <= t@.len(),
{
    assert(t@.len() == t.len());
    let e = p + 3;
    let x: usize = if e < t.len() && t[e] == q {
        if t.len() - e > 1 && t[e + 1] == q {
            2
        } else {
            1
        }
    } else {
        0
    };
    if x == 2 && t.len() - e > 2 && t[e + 2] == q {
        return Err(error_text("too many quotes in string"));
    }
    let ghost before = acc@;
    let mut acc = acc;
    let mut i: usize = 0;
    assert(before + Seq::new(0nat, |j: int| q) =~= before);
    while i < x
        invariant
            i <= x <= 2,
            acc@ == before + Seq::new(i as nat, |j: int| q),
        decreases x - i,
    {
        acc.push(q);
        i = i + 1;
        assert(acc@ =~= before + Seq::new(i as nat, |j: int| q));
    }
    Ok((acc, e + x))
}

/// [`skip_space_nl`], computed.
fn skip_space_nl_at(t: &Vec<char>, p: usize) -> (q: usize)
    requires
        p <= t@.len(),
    ensures
        q as int == skip_space_nl(t@, p as int),
        p <= q <= t@.len(),
{
    let mut q = p;
    while q < t.len() && (t[q] == ' ' || t[q] == '\t' || t[q] == '\n' || t[q] == '\r')
        invariant
            p <= q <= t@.len(),
            skip_space_nl(t@, p as int) == skip_space_nl(t@, q as int),
        decreases t@.len() - q,
    {
        q = q + 1;
    }
    q
}

/// [`ml_basic_string`] from `p` on, with nothing read before.
fn ml_basic_string_at(t: &Vec<char>, p: usize) -> (r: Result<(Vec<char>, usize), String>)
    requires
        p <= t@.len(),
    ensures
        chars_match(r, ml_basic_string(t@, p as int, Seq::empty())),
        r matches Ok((_, e)) ==> p < e <= t@.len(),
{
    let mut acc: Vec<char> = Vec::new();
    let mut q = p;
    loop
        invariant
            p <= q <= t@.len(),
            ml_basic_string(t@, p as int, Seq::empty()) == ml_basic_string(t@, q as int, acc@),
        decreases t@.len() - q,
    {
        if q >= t.len() {
            return Err(error_text("unterminated string"));
        }
        if triple_at_exec(t, q, '"') {
            return ml_close_exec(t, q, '"', acc);
        }
        let c = t[q];
        if c == '\\' {
            let b = skip_blank_at(t, q + 1);
            if b < t.len() && (t[b] == '\n' || t[b] == '\r') {
                q = skip_space_nl_at(t, b);
            } else if q + 1 >= t.len() {
                return Err(error_text("unterminated string"));
            } else {
                let e = t[q + 1];
                if e == 'u' || e == 'U' {
                    let w: usize = if e == 'u' {
                        4
                    } else {
                        8
                    };
                    match unicode_escape_exec(t, q + 2, w) {
                        Some(d) => {
                            acc.push(d);
                            q = q + 2 + w;
                        },
                        None => {
                            return Err(error_text("invalid unicode escape in string"));
                        },
                    }
                } else {
                    match unescape_exec(e) {
                        Some(d) => {
                            acc.push(d);
                            q = q + 2;
                        },
                        None => {
                            return Err(error_text("unsupported escape in string"));
                        },
                    }
                }
            }
        } else {
            acc.push(c);
            q = q + 1;
        }
    }
}

/// [`ml_literal_string`] from `p` on, with nothing read before.
fn ml_literal_string_at(t: &Vec<char>, p: usize) -> (r: Result<(Vec<char>, usize), String>)
    requires
        p <= t@.len(),
    ensures
        chars_match(r, ml_literal_string(t@, p as int, Seq::empty())),
        r matches Ok((_, e)) ==> p < e <= t@.len(),
{
    let mut acc: Vec<char> = Vec::new();
    let mut q = p;
    loop
        invariant
            p <= q <= t@.len(),
            ml_literal_string(t@, p as int, Seq::empty()) == ml_literal_string(t@, q as int, acc@),
        decreases t@.len() - q,
    {
        if q >= t.len() {
            return Err(error_text("unterminated string"));
        }
        if triple_at_exec(t, q, '\'') {
            return ml_close_exec(t, q, '\'', acc);
        }
        acc.push(t[q]);
        q = q + 1;
    }
}

/// [`literal_string`], computed.
pub fn literal_string_at(t: &Vec<char>, p: usize) -> (r: Result<(Vec<char>, usize), String>)
    requires
        p <= t@.len(),
    ensures
        chars_match(r, literal_string(t@, p as int)),
{
    let q = find_in_range(t, p, t.len(), '\'');
    let nl = find_in_range(t, p, t.len(), '\n');
    assert(t@.subrange(p as int, t@.len() as int) =~= t@.skip(p as int));
    if q >= t.len() || nl < q {
        Err(error_text("unterminated string"))
    } else {
        Ok((sub_chars(t, p, q), q + 1))
    }
}

/// [`key_at`], computed.
pub fn key_at_exec(t: &Vec<char>, p: usize) -> (r: Result<(Vec<char>, usize), String>)
    requires
        p <= t@.len(),
    ensures
        chars_match(r, key_at(t@, p as int)),
        r matches Ok((_, q)) ==> p < q <= t@.len(),
{
    if p >= t.len() {
        Err(error_text("expected a key"))
    } else if t[p] == '"' {
        let r = basic_string_at(t, p + 1);
        proof {
            lemma_basic_string_advances(t@, (p + 1) as int, Seq::empty());
        }
        r
    } else if t[p] == '\'' {
        literal_string_at(t, p + 1)
    } else {
        let q = bare_end_at(t, p);
        if q == p {
            Err(error_text("expected a key"))
        } else {
            Ok((sub_chars(t, p, q), q))
        }
    }
}

/// A basic string that ends ends past where it starts and within the text.
pub proof fn lemma_basic_string_advances(t: Seq<char>, p: int, acc: Seq<char>)
    ensures
        basic_string(t, p, acc) matches Ok((_, q)) ==> p < q <= t.len(),
    decreases t.len() - p,
{
    if 0 <= p < t.len() && t[p] != '"' {
        if t[p] == '\\' {
            if p + 1 < t.len() {
                if unicode_width(t[p + 1]) > 0 {
                    let w = unicode_width(t[p + 1]);
                    if let Some(c) = unicode_escape(t, p + 2, w) {
                        lemma_basic_string_advances(t, p + 2 + w, acc.push(c));
                    }
                } else if let Some(c) = unescape(t[p + 1]) {
                    lemma_basic_string_advances(t, p + 2, acc.push(c));
                }
            }
        } else {
            lemma_basic_string_advances(t, p + 1, acc.push(t[p]));
        }
    }
}

/// Whether `[a, b)` of `t` is a run of digits, and (when `strict`) one without a
/// superfluous leading zero.
fn digits_in(t: &Vec<char>, a: usize, b: usize, strict: bool) -> (ok: bool)
    requires
        a <= b <= t@.len(),
    ensures
        ok == (if strict {
            is_digits(t@.subrange(a as int, b as int))
        } else {
            all_digits(t@.subrange(a as int, b as int))
        }),
{
    let ghost d = t@.subrange(a as int, b as int);
    if a == b {
        return false;
    }
    let mut i = a;
    while i < b
        invariant
            a <= i <= b <= t@.len(),
            d == t@.subrange(a as int, b as int),
            forall|j: int| 0 <= j < i - a ==> is_digit(#[trigger] d[j]),
        decreases b - i,
    {
        if !is_digit_exec(t[i]) {
            assert(!is_digit(d[i - a]));
            return false;
        }
        i = i + 1;
    }
    if strict && b - a > 1 && t[a] == '0' {
        assert(d[0] == '0');
        return false;
    }
    true
}

/// The digits of a number weigh at least as much as any of their prefixes.
pub proof fn lemma_digits_value_prefix(d: Seq<char>, k: int)
    requires
        0 <= k <= d.len(),
    ensures
        digits_value(d.take(k)) <= digits_value(d),
    decreases d.len(),
{
    if k < d.len() {
        assert(d.drop_last().take(k) =~= d.take(k));
        lemma_digits_value_prefix(d.drop_last(), k);
    } else {
        assert(d.take(k) =~= d);
    }
}

/// [`radix_digit`], computed.
fn radix_digit_exec(c: char, r: u64) -> (d: Option<u64>)
    ensures
        match radix_digit(c, r as nat) {
            Some(v) => d == Some(v as u64),
            None => d is None,
        },
{
    match hex_digit_exec(c) {
        Some(v) => if (v as u64) < r {
            Some(v as u64)
        } else {
            None
        },
        None => None,
    }
}

/// [`radix_of`], computed.
fn radix_of_exec(c: char) -> (r: u64)
    ensures
        r == radix_of(c),
{
    if c == 'x' {
        16
    } else if c == 'o' {
        8
    } else if c == 'b' {
        2
    } else {
        0
    }
}

/// [`radix_end`], computed.
fn radix_end_at(t: &Vec<char>, p: usize) -> (q: usize)
    requires
        p <= t@.len(),
    ensures
        q as int == radix_end(t@, p as int),
        p <= q <= t@.len(),
{
    let mut q = p;
    while q < t.len() && (hex_digit_exec(t[q]).is_some() || t[q] == '_')
        invariant
            p <= q <= t@.len(),
            radix_end(t@, p as int) == radix_end(t@, q as int),
        decreases t@.len() - q,
    {
        q = q + 1;
    }
    q
}

/// [`underscores_ok`] of `[a, b)` of `t`, computed.
fn underscores_ok_at(t: &Vec<char>, a: usize, b: usize, r: u64) -> (ok: bool)
    requires
        a <= b <= t@.len(),
    ensures
        ok == underscores_ok(t@.subrange(a as int, b as int), r as nat),
{
    let ghost x = t@.subrange(a as int, b as int);
    let mut i = a;
    while i < b
        invariant
            a <= i <= b <= t@.len(),
            x == t@.subrange(a as int, b as int),
            forall|j: int|
                0 <= j < i - a && #[trigger] underscore_at(x, j) ==> 0 < j < x.len() - 1 && radix_digit(
                    x[j - 1],
                    r as nat,
                ) is Some && radix_digit(x[j + 1], r as nat) is Some,
        decreases b - i,
    {
        assert(underscore_at(x, i - a) == (t@[i as int] == '_'));
        if t[i] == '_' {
            if i == a || i + 1 >= b {
                return false;
            }
            assert(x[i - a - 1] == t@[i - 1]);
            assert(x[i - a + 1] == t@[i + 1]);
            if radix_digit_exec(t[i - 1], r).is_none() || radix_digit_exec(t[i + 1], r).is_none() {
                return false;
            }
        }
        i = i + 1;
    }
    true
}

/// [`without_underscores`] of `[a, b)` of `t`, computed.
fn without_underscores_at(t: &Vec<char>, a: usize, b: usize) -> (w: Vec<char>)
    requires
        a <= b <= t@.len(),
    ensures
        w@ == without_underscores(t@.subrange(a as int, b as int)),
{
    let ghost x = t@.subrange(a as int, b as int);
    let mut w: Vec<char> = Vec::new();
    let mut i = a;
    assert(x.take(0) =~= Seq::<char>::empty());
    while i < b
        invariant
            a <= i <= b <= t@.len(),
            x == t@.subrange(a as int, b as int),
            w@ == without_underscores(x.take(i - a)),
        decreases b - i,
    {
        assert(x.take(i - a + 1).drop_last() =~= x.take(i - a));
        assert(x.take(i - a + 1).last() == t@[i as int]);
        if t[i] != '_' {
            w.push(t[i]);
        }
        i = i + 1;
    }
    assert(x.take(b - a) =~= x);
    w
}

/// A number of base `r` from `p` on, its prefix `0x`, `0o` or `0b` at `p`.
fn radix_number_exec(t: &Vec<char>, p: usize, r: u64) -> (res: Result<(TomlValue, usize), String>)
    requires
        p + 1 < t@.len(),
        t@[p as int] == '0',
        radix_of(t@[p + 1]) == r,
        r > 0,
    ensures
        value_match(res, number_at(t@, p as int)),
        res matches Ok((_, q)) ==> p < q <= t@.len(),
{
    proof {
        reveal(number_at);
    }
    assert(t@.len() == t.len());
    let q = radix_end_at(t, p + 2);
    let ghost d = t@.subrange(p + 2, q as int);
    if q == p + 2 {
        return Err(error_text("invalid number"));
    }
    if !underscores_ok_at(t, p + 2, q, r) {
        return Err(error_text("invalid number"));
    }
    let mut acc: u128 = 0;
    let mut over = false;
    let mut i = p + 2;
    assert(d.take(0) =~= Seq::<char>::empty());
    while i < q
        invariant
            p + 2 <= i <= q <= t@.len(),
            d == t@.subrange(p + 2, q as int),
            2 <= r <= 16,
            p + 1 < t@.len(),
            t@[p as int] == '0',
            radix_of(t@[p + 1]) == r,
            q as int == radix_end(t@, p + 2),
            q > p + 2,
            underscores_ok(d, r as nat),
            forall|j: int| 0 <= j < i - p - 2 ==> #[trigger] d[j] == '_' || radix_digit(d[j], r as nat) is Some,
            !over ==> acc == radix_value(without_underscores(d.take(i - p - 2)), r as nat) && acc
                <= i64::MAX,
            over ==> radix_value(without_underscores(d.take(i - p - 2)), r as nat) > i64::MAX,
        decreases q - i,
    {
        let k = i - p - 2;
        let ghost before = without_underscores(d.take(k as int));
        assert(d.take(k + 1).drop_last() =~= d.take(k as int));
        assert(d.take(k + 1).last() == d[k as int]);
        assert(d[k as int] == t@[i as int]);
        let c = t[i];
        if c != '_' {
            match radix_digit_exec(c, r) {
                None => {
                    proof {
                        assert(!(d[k as int] == '_' || radix_digit(d[k as int], r as nat) is Some));
                        assert(!(forall|j: int|
                            0 <= j < d.len() ==> #[trigger] d[j] == '_' || radix_digit(d[j], r as nat) is Some));
                        reveal(number_at);
                    }
                    return Err(error_text("invalid number"));
                },
                Some(v) => {
                    let ghost after = before.push(c);
                    assert(after.drop_last() =~= before);
                    assert(radix_value(after, r as nat) == radix_value(before, r as nat) * r + v);
                    if !over {
                        assert(acc * (r as u128) + (v as u128) <= (i64::MAX as u128) * 16 + 15)
                            by (nonlinear_arith)
                            requires
                                acc <= i64::MAX,
                                r <= 16,
                                v < 16,
                        ;
                        acc = acc * (r as u128) + (v as u128);
                        if acc > i64::MAX as u128 {
                            over = true;
                        }
                    } else {
                        assert(radix_value(before, r as nat) * r >= radix_value(before, r as nat))
                            by (nonlinear_arith)
                            requires
                                r >= 2,
                        ;
                    }
                },
            }
        }
        i = i + 1;
    }
    assert(d.take(q - p - 2) =~= d);
    if over {
        Err(error_text("integer out of range"))
    } else {
        Ok((TomlValue::Int(acc as i64), q))
    }
}

/// [`number_value`], computed.
fn number_value_exec(x: &Vec<char>) -> (res: Result<TomlValue, String>)
    ensures
        match res {
            Ok(v) => number_value(x@) == Ok::<TomlView, Seq<char>>(v.tv()),
            Err(m) => number_value(x@) == Err::<TomlView, Seq<char>>(m@),
        },
{
    let q = x.len();
    let signed = q > 0 && (x[0] == '+' || x[0] == '-');
    let neg = q > 0 && x[0] == '-';
    let ds: usize = if signed {
        1
    } else {
        0
    };
    assert(unsigned(x@) =~= x@.subrange(ds as int, q as int));
    let ghost d = x@.subrange(ds as int, q as int);
    if digits_in(x, ds, q, true) {
        let mut acc: u64 = 0;
        let mut over = false;
        let mut i = ds;
        assert(d.take(0) =~= Seq::<char>::empty());
        while i < q && !over
            invariant
                ds <= i <= q == x@.len(),
                d == x@.subrange(ds as int, q as int),
                is_digits(d),
                over ==> digits_value(d) > u64::MAX,
                !over ==> acc == digits_value(d.take(i - ds)),
            decreases q - i,
        {
            assert(x@[i as int] == d[i - ds]);
            assert(is_digit(d[i - ds]));
            assert(d.take(i - ds + 1).drop_last() =~= d.take(i - ds));
            assert(d.take(i - ds + 1).last() == d[i - ds]);
            let dig = (x[i] as u32 - 0x30) as u64;
            match acc.checked_mul(10) {
                Some(m) => match m.checked_add(dig) {
                    Some(n) => {
                        acc = n;
                    },
                    None => {
                        proof {
                            lemma_digits_value_prefix(d, i - ds + 1);
                        }
                        over = true;
                    },
                },
                None => {
                    proof {
                        lemma_digits_value_prefix(d, i - ds + 1);
                    }
                    over = true;
                },
            }
            i = i + 1;
        }
        if !over {
            assert(d.take(q - ds) =~= d);
        }
        if over {
            return Err(error_text("integer out of range"));
        }
        if neg {
            if acc > 0x8000_0000_0000_0000u64 {
                Err(error_text("integer out of range"))
            } else if acc == 0x8000_0000_0000_0000u64 {
                Ok(TomlValue::Int(i64::MIN))
            } else {
                Ok(TomlValue::Int(-(acc as i64)))
            }
        } else {
            if acc > 0x7FFF_FFFF_FFFF_FFFFu64 {
                Err(error_text("integer out of range"))
            } else {
                Ok(TomlValue::Int(acc as i64))
            }
        }
    } else {
        let e1 = find_in_range(x, ds, q, 'e');
        let e2 = find_in_range(x, ds, q, 'E');
        let e = if e1 < e2 {
            e1
        } else {
            e2
        };
        let dot = find_in_range(x, ds, e, '.');
        let ghost m = d.take(e - ds);
        assert(m =~= x@.subrange(ds as int, e as int));
        assert(m.take(dot - ds) =~= x@.subrange(ds as int, dot as int));
        let mut ok = (dot < e || e < q) && digits_in(x, ds, dot, true);
        if ok && dot < e {
            assert(m.skip(dot - ds + 1) =~= x@.subrange(dot + 1, e as int));
            ok = digits_in(x, dot + 1, e, false);
        }
        if ok && e < q {
            let es: usize = if e + 1 < q && (x[e + 1] == '+' || x[e + 1] == '-') {
                e + 2
            } else {
                e + 1
            };
            assert(d.skip(e - ds + 1) =~= x@.subrange(e + 1, q as int));
            assert(unsigned(d.skip(e - ds + 1)) =~= x@.subrange(es as int, q as int));
            ok = digits_in(x, es, q, false);
        }
        if ok {
            Ok(TomlValue::Float(string_from_chars(x)))
        } else {
            Err(error_text("invalid number"))
        }
    }
}

/// [`number_at`], computed.
pub fn number_at_exec(t: &Vec<char>, p: usize) -> (r: Result<(TomlValue, usize), String>)
    requires
        p < t@.len(),
    ensures
        value_match(r, number_at(t@, p as int)),
        r matches Ok((_, q)) ==> p < q <= t@.len(),
{
    proof {
        reveal(number_at);
    }
    if t.len() - p > 1 && t[p] == '0' {
        let r = radix_of_exec(t[p + 1]);
        if r > 0 {
            return radix_number_exec(t, p, r);
        }
    }
    let q = number_end_at(t, p);
    if !underscores_ok_at(t, p, q, 10) {
        return Err(error_text("invalid number"));
    }
    let x = without_underscores_at(t, p, q);
    match number_value_exec(&x) {
        Ok(v) => {
            proof {
                if q == p {
                    assert(t@.subrange(p as int, q as int) =~= Seq::<char>::empty());
                    assert(x@ =~= Seq::<char>::empty());
                    assert(unsigned(x@) =~= Seq::<char>::empty());
                }
            }
            Ok((v, q))
        },
        Err(m) => Err(m),
    }
}

/// [`two_digits`], computed.
fn two_digits_exec(t: &Vec<char>, p: usize) -> (b: bool)
    requires
        p <= t@.len(),
    ensures
        b == two_digits(t@, p as int),
{
    t.len() - p >= 2 && is_digit_exec(t[p]) && is_digit_exec(t[p + 1])
}

/// [`date_at`], computed.
fn date_at_exec(t: &Vec<char>, p: usize) -> (b: bool)
    requires
        p <= t@.len(),
    ensures
        b == date_at(t@, p as int),
{
    t.len() - p >= 10 && two_digits_exec(t, p) && two_digits_exec(t, p + 2) && t[p + 4] == '-'
        && two_digits_exec(t, p + 5) && t[p + 7] == '-' && two_digits_exec(t, p + 8)
}

/// [`digit_run`], computed.
fn digit_run_exec(t: &Vec<char>, p: usize) -> (n: usize)
    requires
        p <= t@.len(),
    ensures
        n as int == digit_run(t@, p as int),
        p + n <= t@.len(),
{
    let mut q = p;
    while q < t.len() && is_digit_exec(t[q])
        invariant
            p <= q <= t@.len(),
            digit_run(t@, p as int) == (q - p) + digit_run(t@, q as int),
        decreases t@.len() - q,
    {
        q = q + 1;
    }
    q - p
}

/// [`time_len`], computed.
fn time_len_exec(t: &Vec<char>, p: usize) -> (n: usize)
    requires
        p <= t@.len(),
    ensures
        n as int == time_len(t@, p as int),
        p + n <= t@.len(),
{
    if t.len() - p >= 8 && two_digits_exec(t, p) && t[p + 2] == ':' && two_digits_exec(t, p + 3)
        && t[p + 5] == ':' && two_digits_exec(t, p + 6) {
        if t.len() - p > 8 && t[p + 8] == '.' {
            let f = digit_run_exec(t, p + 9);
            if f > 0 {
                return 9 + f;
            }
        }
        8
    } else {
        0
    }
}

/// [`offset_len`], computed.
fn offset_len_exec(t: &Vec<char>, p: usize) -> (n: usize)
    requires
        p <= t@.len(),
    ensures
        n as int == offset_len(t@, p as int),
        p + n <= t@.len(),
{
    if p < t.len() && (t[p] == 'Z' || t[p] == 'z') {
        1
    } else if t.len() - p >= 6 && (t[p] == '+' || t[p] == '-') && two_digits_exec(t, p + 1)
        && t[p + 3] == ':' && two_digits_exec(t, p + 4) {
        6
    } else {
        0
    }
}

/// [`datetime_len`], computed.
fn datetime_len_exec(t: &Vec<char>, p: usize) -> (n: usize)
    requires
        p <= t@.len(),
    ensures
        n as int == datetime_len(t@, p as int),
        p + n <= t@.len(),
{
    if date_at_exec(t, p) {
        if t.len() - p > 10 && (t[p + 10] == 'T' || t[p + 10] == 't' || t[p + 10] == ' ') {
            let tl = time_len_exec(t, p + 11);
            if tl > 0 {
                return 11 + tl + offset_len_exec(t, p + 11 + tl);
            }
        }
        10
    } else {
        time_len_exec(t, p)
    }
}

/// [`special_float_len`], computed.
fn special_float_len_exec(t: &Vec<char>, p: usize) -> (n: usize)
    requires
        p < t@.len(),
    ensures
        n as int == special_float_len(t@, p as int),
        n <= t@.len() - p,
{
    assert(t@.len() == t.len());
    let s: usize = if t[p] == '+' || t[p] == '-' {
        1
    } else {
        0
    };
    if starts_with_exec(t, p + s, &vec!['i', 'n', 'f']) || starts_with_exec(t, p + s, &vec!['n', 'a', 'n']) {
        s + 3
    } else {
        0
    }
}

/// Whether the text at `p` starts with `word`.
fn starts_with_exec(t: &Vec<char>, p: usize, word: &Vec<char>) -> (b: bool)
    requires
        p <= t@.len(),
    ensures
        b == starts_with_at(t@, p as int, word@),
{
    let tl = t.len();
    if word.len() > tl - p {
        return false;
    }
    let mut i: usize = 0;
    while i < word.len()
        invariant
            tl == t@.len(),
            p + word@.len() <= t@.len(),
            p <= t@.len(),
            0 <= i <= word@.len(),
            forall|j: int| 0 <= j < i ==> t@[p + j] == word@[j],
        decreases word@.len() - i,
    {
        let k: usize = p + i;
        if t[k] != word[i] {
            assert(t@.subrange(p as int, p + word@.len())[i as int] != word@[i as int]);
            return false;
        }
        i = i + 1;
    }
    assert(t@.subrange(p as int, p + word@.len()) =~= word@);
    true
}

/// [`value_at`], computed.
pub fn value_at_exec(t: &Vec<char>, p: usize) -> (r: Result<(TomlValue, usize), String>)
    requires
        p <= t@.len(),
    ensures
        value_match(r, value_at(t@, p as int)),
        r matches Ok((_, q)) ==> p < q <= t@.len(),
    decreases t@.len() - p, 1int,
{
    if p >= t.len() {
        return Err(error_text("expected a value"));
    }
    let c = t[p];
    if triple_at_exec(t, p, '"') {
        let start = after_opening_exec(t, p + 3);
        match ml_basic_string_at(t, start) {
            Ok((cs, q)) => Ok((TomlValue::Str(string_from_chars(&cs)), q)),
            Err(m) => Err(m),
        }
    } else if triple_at_exec(t, p, '\'') {
        let start = after_opening_exec(t, p + 3);
        match ml_literal_string_at(t, start) {
            Ok((cs, q)) => Ok((TomlValue::Str(string_from_chars(&cs)), q)),
            Err(m) => Err(m),
        }
    } else if c == '"' {
        proof {
            lemma_basic_string_advances(t@, (p + 1) as int, Seq::empty());
        }
        match basic_string_at(t, p + 1) {
            Ok((cs, q)) => Ok((TomlValue::Str(string_from_chars(&cs)), q)),
            Err(m) => Err(m),
        }
    } else if c == '\'' {
        match literal_string_at(t, p + 1) {
            Ok((cs, q)) => Ok((TomlValue::Str(string_from_chars(&cs)), q)),
            Err(m) => Err(m),
        }
    } else if c == '[' {
        array_at(t, p + 1)
    } else if c == '{' {
        table_at(t, p + 1)
    } else if starts_with_exec(t, p, &vec!['t', 'r', 'u', 'e']) {
        Ok((TomlValue::Bool(true), p + 4))
    } else if starts_with_exec(t, p, &vec!['f', 'a', 'l', 's', 'e']) {
        Ok((TomlValue::Bool(false), p + 5))
    } else if datetime_len_exec(t, p) > 0 {
        let n = datetime_len_exec(t, p);
        let cs = sub_chars(t, p, p + n);
        Ok((TomlValue::Datetime(string_from_chars(&cs)), p + n))
    } else if special_float_len_exec(t, p) > 0 {
        let n = special_float_len_exec(t, p);
        let cs = sub_chars(t, p, p + n);
        Ok((TomlValue::Float(string_from_chars(&cs)), p + n))
    } else if is_digit_exec(c) || c == '+' || c == '-' {
        number_at_exec(t, p)
    } else {
        Err(error_text("expected a value"))
    }
}

/// [`skip_gap`], computed.
fn skip_gap_at(t: &Vec<char>, p: usize) -> (q: usize)
    requires
        p <= t@.len(),
    ensures
        q as int == skip_gap(t@, p as int),
        p <= q <= t@.len(),
{
    let mut q = p;
    loop
        invariant
            p <= q <= t@.len(),
            skip_gap(t@, p as int) == skip_gap(t@, q as int),
        decreases t@.len() - q,
    {
        if q >= t.len() {
            return q;
        }
        let c = t[q];
        if c == ' ' || c == '\t' || c == '\n' || c == '\r' {
            q = q + 1;
        } else if c == '#' {
            let e = find_in_range(t, q, t.len(), '\n');
            assert(t@.subrange(q as int, t@.len() as int) =~= t@.skip(q as int));
            if e <= q {
                return q;
            }
            q = e;
        } else {
            return q;
        }
    }
}

/// [`array_items`] from `p` on, with nothing read before.
fn array_at(t: &Vec<char>, p: usize) -> (r: Result<(TomlValue, usize), String>)
    requires
        1 <= p <= t@.len(),
    ensures
        value_match(r, array_items(t@, p as int, Seq::empty())),
        r matches Ok((_, q)) ==> p < q <= t@.len(),
    decreases t@.len() - p, 2int,
{
    let mut acc: Vec<TomlValue> = Vec::new();
    let mut pos = p;
    assert(views_of(acc@) =~= Seq::<TomlView>::empty());
    loop
        invariant
            p <= pos <= t@.len(),
            array_items(t@, p as int, Seq::empty()) == array_items(t@, pos as int, views_of(acc@)),
        decreases t@.len() - pos,
    {
        let q = skip_gap_at(t, pos);
        if q >= t.len() {
            return Err(error_text("unterminated array"));
        }
        if t[q] == ']' {
            let ghost items = acc@;
            let v = TomlValue::Array(acc);
            assert(v.tv()->Array_0 =~= views_of(items));
            return Ok((v, q + 1));
        }
        match value_at_exec(t, q) {
            Err(m) => {
                return Err(m);
            },
            Ok((v, r)) => {
                let r2 = skip_gap_at(t, r);
                if r2 >= t.len() {
                    return Err(error_text("unterminated array"));
                }
                let ghost before = acc@;
                let ghost vv = v.tv();
                acc.push(v);
                assert(views_of(acc@) =~= views_of(before).push(vv));
                if t[r2] == ',' {
                    pos = r2 + 1;
                } else if t[r2] == ']' {
                    let ghost items = acc@;
                    let w = TomlValue::Array(acc);
                    assert(w.tv()->Array_0 =~= views_of(items));
                    return Ok((w, r2 + 1));
                } else {
                    return Err(error_text("expected `,` or `]` in array"));
                }
            },
        }
    }
}

/// Whether `key` is among the keys of `entries`.
pub(crate) fn has_key_exec(entries: &Vec<(String, TomlValue)>, key: &Vec<char>) -> (b: bool)
    ensures
        b == has_key(entry_views_of(entries@), key@),
{
    let k = string_from_chars(key);
    let mut i: usize = 0;
    while i < entries.len()
        invariant
            0 <= i <= entries@.len(),
            k@ == key@,
            forall|j: int| 0 <= j < i ==> entries@[j].0@ != key@,
        decreases entries@.len() - i,
    {
        if entries[i].0.eq(&k) {
            assert(entry_views_of(entries@)[i as int].0 == key@);
            return true;
        }
        i = i + 1;
    }
    assert forall|j: int| 0 <= j < entry_views_of(entries@).len() implies #[trigger] entry_views_of(
        entries@,
    )[j].0 != key@ by {}
    false
}

/// [`table_items`] from `p` on, with nothing read before.
fn table_at(t: &Vec<char>, p: usize) -> (r: Result<(TomlValue, usize), String>)
    requires
        1 <= p <= t@.len(),
    ensures
        value_match(r, table_items(t@, p as int, Seq::empty())),
        r matches Ok((_, q)) ==> p < q <= t@.len(),
    decreases t@.len() - p, 2int,
{
    let mut acc: Vec<(String, TomlValue)> = Vec::new();
    let mut pos = p;
    assert(entry_views_of(acc@) =~= Seq::<(Seq<char>, TomlView)>::empty());
    loop
        invariant
            p <= pos <= t@.len(),
            table_items(t@, p as int, Seq::empty()) == table_items(
                t@,
                pos as int,
                entry_views_of(acc@),
            ),
        decreases t@.len() - pos,
    {
        let q = skip_blank_at(t, pos);
        if q >= t.len() {
            return Err(error_text("unterminated inline table"));
        }
        if t[q] == '}' && acc.len() == 0 {
            let ghost items = acc@;
            let v = TomlValue::Table(acc);
            assert(v.tv()->Table_0 =~= entry_views_of(items));
            return Ok((v, q + 1));
        }
        match key_at_exec(t, q) {
            Err(m) => {
                return Err(m);
            },
            Ok((k, r)) => {
                let r1 = skip_blank_at(t, r);
                if r1 >= t.len() || t[r1] != '=' {
                    return Err(error_text("expected `=` after key"));
                }
                let r2 = skip_blank_at(t, r1 + 1);
                match value_at_exec(t, r2) {
                    Err(m) => {
                        return Err(m);
                    },
                    Ok((v, r3)) => {
                        if has_key_exec(&acc, &k) {
                            return Err(error_text("duplicate key"));
                        }
                        let r4 = skip_blank_at(t, r3);
                        if r4 >= t.len() {
                            return Err(error_text("unterminated inline table"));
                        }
                        let ghost before = acc@;
                        let ghost ev = (k@, v.tv());
                        let ks = string_from_chars(&k);
                        acc.push((ks, v));
                        assert(entry_views_of(acc@) =~= entry_views_of(before).push(ev));
                        if t[r4] == ',' {
                            pos = r4 + 1;
                        } else if t[r4] == '}' {
                            let ghost items = acc@;
                            let w = TomlValue::Table(acc);
                            assert(w.tv()->Table_0 =~= entry_views_of(items));
                            return Ok((w, r4 + 1));
                        } else {
                            return Err(error_text("expected `,` or `}` in inline table"));
                        }
                    },
                }
            },
        }
    }
}

/// How the character `c` is written inside a basic string: `"`, `\` and the
/// control characters with a short escape are escaped, anything else is
/// written as it is.
pub open spec fn escaped_char(c: char) -> Seq<char> {
    if c == '"' {
        seq!['\\', '"']
    } else if c == '\\' {
        seq!['\\', '\\']
    } else if c == '\n' {
        seq!['\\', 'n']
    } else if c == '\t' {
        seq!['\\', 't']
    } else if c == '\r' {
        seq!['\\', 'r']
    } else if c == '\x08' {
        seq!['\\', 'b']
    } else if c == '\x0C' {
        seq!['\\', 'f']
    } else {
        seq![c]
    }
}

/// The text of `s` inside a basic string.
pub open spec fn escaped(s: Seq<char>) -> Seq<char>
    decreases s.len(),
{
    if s.len() == 0 {
        Seq::empty()
    } else {
        escaped_char(s[0]) + escaped(s.drop_first())
    }
}

/// `s` written as a basic string: `"`, its escaped text, `"`.
pub open spec fn quoted(s: Seq<char>) -> Seq<char> {
    seq!['"'] + escaped(s) + seq!['"']
}

/// Reading the escaped text of `s` and its closing quote, from `p` on, gives
/// back `s` after what was read before.
proof fn lemma_escaped_reads_back(t: Seq<char>, p: int, acc: Seq<char>, s: Seq<char>)
    requires
        0 <= p,
        p + escaped(s).len() + 1 <= t.len(),
        t.subrange(p, p + escaped(s).len() + 1) == escaped(s) + seq!['"'],
    ensures
        basic_string(t, p, acc) == Ok::<(Seq<char>, int), Seq<char>>((acc + s, p + escaped(s).len() + 1)),
    decreases s.len(),
{
    let w = escaped(s) + seq!['"'];
    assert(t[p] == w[0]);
    if s.len() == 0 {
        assert(acc + s =~= acc);
    } else {
        let c = s[0];
        let e = escaped_char(c);
        let r = s.drop_first();
        assert(escaped(s) == e + escaped(r));
        assert(t[p + 1] == w[1]) by {
            assert(t.subrange(p, p + escaped(s).len() + 1)[1] == t[p + 1]);
        }
        let q = p + e.len();
        assert(t.subrange(q, q + escaped(r).len() + 1) =~= escaped(r) + seq!['"']) by {
            assert forall|j: int| 0 <= j < escaped(r).len() + 1 implies t.subrange(
                q,
                q + escaped(r).len() + 1,
            )[j] == (escaped(r) + seq!['"'])[j] by {
                assert(t.subrange(p, p + escaped(s).len() + 1)[e.len() + j] == t[q + j]);
                assert(w[e.len() + j] == (escaped(r) + seq!['"'])[j]);
            }
        }
        lemma_escaped_reads_back(t, q, acc.push(c), r);
        assert(acc.push(c) + r =~= acc + s);
    }
}

/// How the character `c` is written inside a multi-line basic string: `"`
/// and `\` are escaped, anything else (line breaks included) is written as it
/// is.
pub open spec fn ml_escaped_char(c: char) -> Seq<char> {
    if c == '"' || c == '\\' {
        seq!['\\', c]
    } else {
        seq![c]
    }
}

/// The text of `s` inside a multi-line basic string.
pub open spec fn ml_escaped(s: Seq<char>) -> Seq<char>
    decreases s.len(),
{
    if s.len() == 0 {
        Seq::empty()
    } else {
        ml_escaped_char(s[0]) + ml_escaped(s.drop_first())
    }
}

/// Whether three `'` follow each other somewhere in `s`.
pub open spec fn has_triple_quote(s: Seq<char>) -> bool {
    exists|i: int| 0 <= i && i + 2 < s.len() && #[trigger] s[i] == '\'' && s[i + 1] == '\''
        && s[i + 2] == '\''
}

/// The four ways TOML writes a string.
pub enum StringForm {
    /// Between double quotes, with escapes.
    Basic,
    /// Between single quotes, as it is.
    Literal,
    /// Between three double quotes, a line break after the first three, with
    /// `"` and `\` escaped.
    MultiLineBasic,
    /// Between three single quotes, a line break after the first three, as it is.
    MultiLineLiteral,
}

/// `s` written in the form `f`.
pub open spec fn written_as(s: Seq<char>, f: StringForm) -> Seq<char> {
    match f {
        StringForm::Basic => quoted(s),
        StringForm::Literal => seq!['\''] + s + seq!['\''],
        StringForm::MultiLineBasic => seq!['"', '"', '"', '\n'] + ml_escaped(s) + seq!['"', '"', '"'],
        StringForm::MultiLineLiteral => seq!['\'', '\'', '\'', '\n'] + s + seq!['\'', '\'', '\''],
    }
}

/// Whether `s` can be written in the form `f`: a literal string holds no `'`
/// and no line break, a multi-line literal string no three `'` in a row.
pub open spec fn writable_as(s: Seq<char>, f: StringForm) -> bool {
    match f {
        StringForm::Literal => forall|i: int| 0 <= i < s.len() ==> #[trigger] s[i] != '\'' && s[i] != '\n',
        StringForm::MultiLineLiteral => !has_triple_quote(s),
        _ => true,
    }
}

/// Reading the text of a multi-line basic string written from `s`, and its
/// closing delimiter, gives back `s` after what was read before.
proof fn lemma_ml_escaped_reads_back(t: Seq<char>, p: int, acc: Seq<char>, s: Seq<char>)
    requires
        0 <= p,
        p + ml_escaped(s).len() + 3 <= t.len(),
        t.subrange(p, p + ml_escaped(s).len() + 3) == ml_escaped(s) + seq!['"', '"', '"'],
        p + ml_escaped(s).len() + 3 == t.len() || t[p + ml_escaped(s).len() + 3] != '"',
    ensures
        ml_basic_string(t, p, acc) == Ok::<(Seq<char>, int), Seq<char>>(
            (acc + s, p + ml_escaped(s).len() + 3),
        ),
    decreases s.len(),
{
    let w = ml_escaped(s) + seq!['"', '"', '"'];
    let end = p + ml_escaped(s).len() + 3;
    assert forall|j: int| 0 <= j < w.len() implies t[p + j] == w[j] by {
        assert(t.subrange(p, end)[j] == t[p + j]);
    }
    if s.len() == 0 {
        assert(t[p] == w[0] && t[p + 1] == w[1] && t[p + 2] == w[2]);
        assert(extra_quotes(t, p + 3, '"') == 0);
        assert(acc + Seq::new(0nat, |i: int| '"') =~= acc);
        assert(acc + s =~= acc);
    } else {
        let c = s[0];
        let e = ml_escaped_char(c);
        let r = s.drop_first();
        assert(ml_escaped(s) == e + ml_escaped(r));
        let q = p + e.len();
        assert(t.subrange(q, q + ml_escaped(r).len() + 3) =~= ml_escaped(r) + seq!['"', '"', '"']) by {
            assert forall|j: int| 0 <= j < ml_escaped(r).len() + 3 implies t.subrange(
                q,
                q + ml_escaped(r).len() + 3,
            )[j] == (ml_escaped(r) + seq!['"', '"', '"'])[j] by {
                assert(t[p + e.len() + j] == w[e.len() + j]);
            }
        }
        assert(t[p] == w[0]);
        if c == '"' || c == '\\' {
            assert(t[p + 1] == w[1]);
            assert(skip_blank(t, p + 1) == p + 1);
        }
        lemma_ml_escaped_reads_back(t, q, acc.push(c), r);
        assert(acc.push(c) + r =~= acc + s);
    }
}

/// Reading the text of a multi-line literal string written from `s`, and its
/// closing delimiter, gives back `s` after what was read before.
proof fn lemma_ml_literal_reads_back(t: Seq<char>, p: int, acc: Seq<char>, s: Seq<char>)
    requires
        0 <= p,
        p + s.len() + 3 <= t.len(),
        t.subrange(p, p + s.len() + 3) == s + seq!['\'', '\'', '\''],
        p + s.len() + 3 == t.len() || t[p + s.len() + 3] != '\'',
        !has_triple_quote(s),
    ensures
        ml_literal_string(t, p, acc) == Ok::<(Seq<char>, int), Seq<char>>((acc + s, p + s.len() + 3)),
    decreases s.len(),
{
    let w = s + seq!['\'', '\'', '\''];
    let end = p + s.len() + 3;
    assert forall|j: int| 0 <= j < w.len() implies t[p + j] == w[j] by {
        assert(t.subrange(p, end)[j] == t[p + j]);
    }
    assert(t[p] == w[0] && t[p + 1] == w[1] && t[p + 2] == w[2]);
    if s.len() == 0 {
        assert(extra_quotes(t, p + 3, '\'') == 0);
        assert(acc + Seq::new(0nat, |i: int| '\'') =~= acc);
        assert(acc + s =~= acc);
    } else if s.len() == 1 && s[0] == '\'' {
        assert(t[p + 3] == w[3]);
        assert(extra_quotes(t, p + 3, '\'') == 1);
        assert(acc + Seq::new(1nat, |i: int| '\'') =~= acc + s);
    } else if s.len() == 2 && s[0] == '\'' && s[1] == '\'' {
        assert(t[p + 3] == w[3] && t[p + 4] == w[4]);
        assert(extra_quotes(t, p + 3, '\'') == 2);
        assert(acc + Seq::new(2nat, |i: int| '\'') =~= acc + s);
    } else {
        if s.len() >= 3 {
            assert(!(s[0] == '\'' && s[1] == '\'' && s[2] == '\''));
        }
        assert(!triple_at(t, p, '\''));
        let r = s.drop_first();
        assert(!has_triple_quote(r)) by {
            if has_triple_quote(r) {
                let i = choose|i: int| 0 <= i && i + 2 < r.len() && #[trigger] r[i] == '\''
                    && r[i + 1] == '\'' && r[i + 2] == '\'';
                assert(s[i + 1] == '\'' && s[i + 2] == '\'' && s[i + 3] == '\'');
            }
        }
        assert(t.subrange(p + 1, p + 1 + r.len() + 3) =~= r + seq!['\'', '\'', '\'']) by {
            assert forall|j: int| 0 <= j < r.len() + 3 implies t.subrange(p + 1, p + 1 + r.len() + 3)[j]
                == (r + seq!['\'', '\'', '\''])[j] by {
                assert(t[p + 1 + j] == w[1 + j]);
            }
        }
        lemma_ml_literal_reads_back(t, p + 1, acc.push(s[0]), r);
        assert(acc.push(s[0]) + r =~= acc + s);
    }
}

proof fn lemma_reads_back_basic(t: Seq<char>, p: int, s: Seq<char>)
    requires
        writable_as(s, StringForm::Basic),
        0 <= p,
        p + written_as(s, StringForm::Basic).len() <= t.len(),
        t.subrange(p, p + written_as(s, StringForm::Basic).len()) == written_as(s, StringForm::Basic),
        p + written_as(s, StringForm::Basic).len() == t.len() || (t[p + written_as(s, StringForm::Basic).len()] != '"' && t[p
            + written_as(s, StringForm::Basic).len()] != '\''),
    ensures
        value_at(t, p) == Ok::<(TomlView, int), Seq<char>>(
            (TomlView::Str(s), p + written_as(s, StringForm::Basic).len()),
        ),
{
    let f = StringForm::Basic;
    let w = written_as(s, f);
    let end = p + w.len();
    assert forall|j: int| 0 <= j < w.len() implies t[p + j] == w[j] by {
        assert(t.subrange(p, end)[j] == t[p + j]);
    }

            assert(t[p] == w[0] && t[p + 1] == w[1]);
            if s.len() == 0 {
                assert(w.len() == 2);
            } else {
                assert(escaped(s) == escaped_char(s[0]) + escaped(s.drop_first()));
                assert(w[1] == escaped(s)[0]);
            }
            assert(!triple_at(t, p, '"'));
            assert(t.subrange(p + 1, p + 1 + escaped(s).len() as int + 1) =~= escaped(s) + seq!['"']) by {
                assert forall|j: int| 0 <= j < escaped(s).len() + 1 implies t.subrange(
                    p + 1,
                    p + 1 + escaped(s).len() as int + 1,
                )[j] == (escaped(s) + seq!['"'])[j] by {
                    assert(t[p + 1 + j] == w[1 + j]);
                }
            }
            lemma_escaped_reads_back(t, p + 1, Seq::empty(), s);
            assert(Seq::<char>::empty() + s =~= s);
        }

proof fn lemma_reads_back_literal(t: Seq<char>, p: int, s: Seq<char>)
    requires
        writable_as(s, StringForm::Literal),
        0 <= p,
        p + written_as(s, StringForm::Literal).len() <= t.len(),
        t.subrange(p, p + written_as(s, StringForm::Literal).len()) == written_as(s, StringForm::Literal),
        p + written_as(s, StringForm::Literal).len() == t.len() || (t[p + written_as(s, StringForm::Literal).len()] != '"' && t[p
            + written_as(s, StringForm::Literal).len()] != '\''),
    ensures
        value_at(t, p) == Ok::<(TomlView, int), Seq<char>>(
            (TomlView::Str(s), p + written_as(s, StringForm::Literal).len()),
        ),
{
    let f = StringForm::Literal;
    let w = written_as(s, f);
    let end = p + w.len();
    assert forall|j: int| 0 <= j < w.len() implies t[p + j] == w[j] by {
        assert(t.subrange(p, end)[j] == t[p + j]);
    }

            assert(t[p] == w[0] && t[p + 1] == w[1]);
            if s.len() == 0 {
                assert(w.len() == 2);
            } else {
                assert(w[1] == s[0]);
            }
            assert(!triple_at(t, p, '"'));
            assert(!triple_at(t, p, '\''));
            let u = t.skip(p + 1);
            assert forall|j: int| 0 <= j < s.len() implies u[j] != '\'' && u[j] != '\n' by {
                assert(u[j] == w[1 + j]);
            }
            assert(u[s.len() as int] == w[s.len() as int + 1]);
            lemma_find_char(u, '\'');
            lemma_find_char(u, '\n');
            if find_char(u, '\'') < s.len() {
                assert(u[find_char(u, '\'') as int] == '\'');
            }
            if find_char(u, '\n') < s.len() {
                assert(u[find_char(u, '\n') as int] == '\n');
            }
            assert(find_char(u, '\'') == s.len());
            assert(t.subrange(p + 1, p + 1 + s.len()) =~= s) by {
                assert forall|j: int| 0 <= j < s.len() implies t.subrange(p + 1, p + 1 + s.len())[j]
                    == s[j] by {
                    assert(t[p + 1 + j] == w[1 + j]);
                }
            }
        }

proof fn lemma_reads_back_ml_basic(t: Seq<char>, p: int, s: Seq<char>)
    requires
        writable_as(s, StringForm::MultiLineBasic),
        0 <= p,
        p + written_as(s, StringForm::MultiLineBasic).len() <= t.len(),
        t.subrange(p, p + written_as(s, StringForm::MultiLineBasic).len()) == written_as(s, StringForm::MultiLineBasic),
        p + written_as(s, StringForm::MultiLineBasic).len() == t.len() || (t[p + written_as(s, StringForm::MultiLineBasic).len()] != '"' && t[p
            + written_as(s, StringForm::MultiLineBasic).len()] != '\''),
    ensures
        value_at(t, p) == Ok::<(TomlView, int), Seq<char>>(
            (TomlView::Str(s), p + written_as(s, StringForm::MultiLineBasic).len()),
        ),
{
    let f = StringForm::MultiLineBasic;
    let w = written_as(s, f);
    let end = p + w.len();
    assert forall|j: int| 0 <= j < w.len() implies t[p + j] == w[j] by {
        assert(t.subrange(p, end)[j] == t[p + j]);
    }

            assert(t[p] == w[0] && t[p + 1] == w[1] && t[p + 2] == w[2] && t[p + 3] == w[3]);
            assert(after_opening(t, p + 3) == p + 4);
            assert(t.subrange(p + 4, p + 4 + ml_escaped(s).len() + 3) =~= ml_escaped(s) + seq![
                '"',
                '"',
                '"',
            ]) by {
                assert forall|j: int| 0 <= j < ml_escaped(s).len() + 3 implies t.subrange(
                    p + 4,
                    p + 4 + ml_escaped(s).len() + 3,
                )[j] == (ml_escaped(s) + seq!['"', '"', '"'])[j] by {
                    assert(t[p + 4 + j] == w[4 + j]);
                }
            }
            lemma_ml_escaped_reads_back(t, p + 4, Seq::empty(), s);
            assert(Seq::<char>::empty() + s =~= s);
        }

proof fn lemma_reads_back_ml_literal(t: Seq<char>, p: int, s: Seq<char>)
    requires
        writable_as(s, StringForm::MultiLineLiteral),
        0 <= p,
        p + written_as(s, StringForm::MultiLineLiteral).len() <= t.len(),
        t.subrange(p, p + written_as(s, StringForm::MultiLineLiteral).len()) == written_as(s, StringForm::MultiLineLiteral),
        p + written_as(s, StringForm::MultiLineLiteral).len() == t.len() || (t[p + written_as(s, StringForm::MultiLineLiteral).len()] != '"' && t[p
            + written_as(s, StringForm::MultiLineLiteral).len()] != '\''),
    ensures
        value_at(t, p) == Ok::<(TomlView, int), Seq<char>>(
            (TomlView::Str(s), p + written_as(s, StringForm::MultiLineLiteral).len()),
        ),
{
    let f = StringForm::MultiLineLiteral;
    let w = written_as(s, f);
    let end = p + w.len();
    assert forall|j: int| 0 <= j < w.len() implies t[p + j] == w[j] by {
        assert(t.subrange(p, end)[j] == t[p + j]);
    }

            assert(t[p] == w[0] && t[p + 1] == w[1] && t[p + 2] == w[2] && t[p + 3] == w[3]);
            assert(!triple_at(t, p, '"'));
            assert(after_opening(t, p + 3) == p + 4);
            assert(t.subrange(p + 4, p + 4 + s.len() + 3) =~= s + seq!['\'', '\'', '\'']) by {
                assert forall|j: int| 0 <= j < s.len() + 3 implies t.subrange(
                    p + 4,
                    p + 4 + s.len() + 3,
                )[j] == (s + seq!['\'', '\'', '\''])[j] by {
                    assert(t[p + 4 + j] == w[4 + j]);
                }
            }
            lemma_ml_literal_reads_back(t, p + 4, Seq::empty(), s);
            assert(Seq::<char>::empty() + s =~= s);
        }

/// What a write gives back: a string written in any of TOML's four forms that
/// can hold it reads back as itself, whatever precedes it and whatever follows
/// it but a quote.
pub proof fn law_a_written_string_reads_back(t: Seq<char>, p: int, s: Seq<char>, f: StringForm)
    requires
        writable_as(s, f),
        0 <= p,
        p + written_as(s, f).len() <= t.len(),
        t.subrange(p, p + written_as(s, f).len()) == written_as(s, f),
        p + written_as(s, f).len() == t.len() || (t[p + written_as(s, f).len()] != '"' && t[p
            + written_as(s, f).len()] != '\''),
    ensures
        value_at(t, p) == Ok::<(TomlView, int), Seq<char>>(
            (TomlView::Str(s), p + written_as(s, f).len()),
        ),
{
    match f {
        StringForm::Basic => lemma_reads_back_basic(t, p, s),
        StringForm::Literal => lemma_reads_back_literal(t, p, s),
        StringForm::MultiLineBasic => lemma_reads_back_ml_basic(t, p, s),
        StringForm::MultiLineLiteral => lemma_reads_back_ml_literal(t, p, s),
    }
}

/// Whether `d` is a decimal integer part as TOML writes one: digits, and a
/// single `0` or none leading.
pub open spec fn integer_part(d: Seq<char>) -> bool {
    &&& d.len() > 0
    &&& forall|i: int| 0 <= i < d.len() ==> 0x30 <= (#[trigger] d[i]) as u32 <= 0x39
    &&& (d.len() == 1 || d[0] != '0')
}

/// Whether `d` is a non-empty run of decimal digits.
pub open spec fn digit_string(d: Seq<char>) -> bool {
    &&& d.len() > 0
    &&& forall|i: int| 0 <= i < d.len() ==> 0x30 <= (#[trigger] d[i]) as u32 <= 0x39
}

/// A text with no `c` among its characters: its first `c` is at its end.
proof fn lemma_no_char(s: Seq<char>, c: char)
    requires
        forall|i: int| 0 <= i < s.len() ==> #[trigger] s[i] != c,
    ensures
        find_char(s, c) == s.len(),
{
    lemma_find_char(s, c);
    if find_char(s, c) < s.len() {
        assert(s[find_char(s, c) as int] == c);
    }
}

/// A float with a fraction: an integer part (`0`, or digits not led by `0`),
/// `.` and a run of digits is the float of that text, whatever the digits:
/// `0.5`, `0.25`, `3.14`.
pub proof fn law_a_fraction_is_a_float(ip: Seq<char>, fp: Seq<char>)
    requires
        integer_part(ip),
        digit_string(fp),
    ensures
        number_value(ip + seq!['.'] + fp) == Ok::<TomlView, Seq<char>>(
            TomlView::Float(ip + seq!['.'] + fp),
        ),
{
    let x = ip + seq!['.'] + fp;
    let n = ip.len() as int;
    assert forall|i: int| 0 <= i < x.len() implies #[trigger] x[i] != 'e' && x[i] != 'E' && (i
        != n ==> x[i] != '.') by {
        if i < n {
            assert(x[i] == ip[i]);
        } else if i > n {
            assert(x[i] == fp[i - n - 1]);
        }
    }
    assert(x[0] == ip[0]);
    assert(unsigned(x) == x);
    assert(x[n] == '.');
    assert(!is_digit(x[n]));
    lemma_no_char(x, 'e');
    lemma_no_char(x, 'E');
    assert(exponent_at(x) == x.len());
    assert(x.take(x.len() as int) =~= x);
    lemma_find_char_unique(x, '.', n);
    assert(x.take(n) =~= ip);
    assert(x.skip(n + 1) =~= fp);
    assert(is_digits(ip));
    assert(all_digits(fp));
}

/// A float with an exponent: an integer part, `e` and a run of digits is the
/// float of that text: `0e0`, `1e6`.
pub proof fn law_an_exponent_makes_a_float(ip: Seq<char>, ex: Seq<char>)
    requires
        integer_part(ip),
        digit_string(ex),
    ensures
        number_value(ip + seq!['e'] + ex) == Ok::<TomlView, Seq<char>>(
            TomlView::Float(ip + seq!['e'] + ex),
        ),
{
    let x = ip + seq!['e'] + ex;
    let n = ip.len() as int;
    assert forall|i: int| 0 <= i < x.len() implies #[trigger] x[i] != 'E' && x[i] != '.' && (i
        != n ==> x[i] != 'e') by {
        if i < n {
            assert(x[i] == ip[i]);
        } else if i > n {
            assert(x[i] == ex[i - n - 1]);
        }
    }
    assert(x[0] == ip[0]);
    assert(unsigned(x) == x);
    assert(x[n] == 'e');
    assert(!is_digit(x[n]));
    lemma_find_char_unique(x, 'e', n);
    lemma_no_char(x, 'E');
    assert(exponent_at(x) == n);
    assert(x.take(n) =~= ip);
    assert forall|i: int| 0 <= i < ip.len() implies #[trigger] ip[i] != '.' by {}
    lemma_no_char(ip, '.');
    assert(ip.take(n) =~= ip);
    assert(x.skip(n + 1) =~= ex);
    assert(ex[0] != '+' && ex[0] != '-');
    assert(unsigned(ex) == ex);
    assert(is_digits(ip));
    assert(all_digits(ex));
}

/// A sign in front of a float keeps it a float of its text: `-0.1`, `+2.5`.
pub proof fn law_a_signed_fraction_is_a_float(sign: char, ip: Seq<char>, fp: Seq<char>)
    requires
        sign == '+' || sign == '-',
        integer_part(ip),
        digit_string(fp),
    ensures
        number_value(seq![sign] + ip + seq!['.'] + fp) == Ok::<TomlView, Seq<char>>(
            TomlView::Float(seq![sign] + ip + seq!['.'] + fp),
        ),
{
    let y = ip + seq!['.'] + fp;
    let x = seq![sign] + ip + seq!['.'] + fp;
    assert(x =~= seq![sign] + y);
    assert(unsigned(x) =~= y);
    law_a_fraction_is_a_float(ip, fp);
    assert(unsigned(y) == y) by {
        assert(y[0] == ip[0]);
    }
}

/// A single digit is the integer it names: `0` to `9`.
pub proof fn law_a_digit_is_its_integer(c: char)
    requires
        0x30 <= c as u32 <= 0x39,
    ensures
        number_value(seq![c]) == Ok::<TomlView, Seq<char>>(TomlView::Int(c as u32 - 0x30)),
{
    let x = seq![c];
    assert(unsigned(x) == x);
    assert(x.drop_last() =~= Seq::<char>::empty());
    assert(digits_value(Seq::<char>::empty()) == 0);
    assert(x.last() == c);
    assert(is_digits(x));
    assert(digits_value(x) == c as u32 - 0x30);
}

/// Writing one more digit after an integer (not led by `0`) makes it ten
/// times as large plus that digit, while it fits in 64 bits.
pub proof fn law_one_more_digit(d: Seq<char>, c: char, v: int)
    requires
        integer_part(d),
        d[0] != '0',
        0x30 <= c as u32 <= 0x39,
        number_value(d) == Ok::<TomlView, Seq<char>>(TomlView::Int(v)),
        0 <= v * 10 + (c as u32 - 0x30) <= i64::MAX,
    ensures
        number_value(d.push(c)) == Ok::<TomlView, Seq<char>>(
            TomlView::Int(v * 10 + (c as u32 - 0x30)),
        ),
{
    let x = d.push(c);
    assert(x[0] == d[0]);
    assert(unsigned(d) == d);
    assert(unsigned(x) == x);
    assert(is_digits(d));
    assert(is_digits(x)) by {
        assert forall|i: int| 0 <= i < x.len() implies is_digit(#[trigger] x[i]) by {
            if i < d.len() {
                assert(x[i] == d[i]);
            }
        }
    }
    assert(x.drop_last() =~= d);
    assert(v == digits_value(d));
}

} // verus!
