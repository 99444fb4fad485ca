//! Character-level helpers: whitespace, trimming, ASCII case and decimal
//! rendering, each with the exact meaning that std documents for it.

use vstd::prelude::*;

use crate::toml::string_from_chars;

verus! {

/// Unicode's `White_Space` property, the set that `char::is_whitespace` and
/// `str::trim` use.
pub open spec fn is_space(c: char) -> bool {
    let u = c as u32;
    ||| 0x09 <= u <= 0x0D
    ||| u == 0x20
    ||| u == 0x85
    ||| u == 0xA0
    ||| u == 0x1680
    ||| 0x2000 <= u <= 0x200A
    ||| u == 0x2028
    ||| u == 0x2029
    ||| u == 0x202F
    ||| u == 0x205F
    ||| u == 0x3000
}

/// `s` without its leading characters that satisfy `drop`.
pub open spec fn strip_start(s: Seq<char>, drop: spec_fn(char) -> bool) -> Seq<char>
    decreases s.len(),
{
    if s.len() > 0 && drop(s[0]) {
        strip_start(s.drop_first(), drop)
    } else {
        s
    }
}

/// `s` without its trailing characters that satisfy `drop`.
pub open spec fn strip_end(s: Seq<char>, drop: spec_fn(char) -> bool) -> Seq<char>
    decreases s.len(),
{
    if s.len() > 0 && drop(s.last()) {
        strip_end(s.drop_last(), drop)
    } else {
        s
    }
}

/// The characters that a trim removes: whitespace, or the double quote.
pub open spec fn trimmed_by(quotes: bool) -> spec_fn(char) -> bool {
    if quotes {
        |c: char| c == '"'
    } else {
        |c: char| is_space(c)
    }
}

/// `s` without its leading and trailing characters that `trimmed_by(quotes)` names.
pub open spec fn strip(s: Seq<char>, quotes: bool) -> Seq<char> {
    strip_end(strip_start(s, trimmed_by(quotes)), trimmed_by(quotes))
}

/// What `str::trim` returns: leading and trailing whitespace removed.
pub open spec fn trim(s: Seq<char>) -> Seq<char> {
    strip(s, false)
}

/// What `str::trim_matches('"')` returns: every leading and trailing `"` removed.
pub open spec fn trim_quotes(s: Seq<char>) -> Seq<char> {
    strip(s, true)
}

/// The index of the first `c` in `s`, or `s.len()` when there is none.
pub open spec fn find_char(s: Seq<char>, c: char) -> nat
    decreases s.len(),
{
    if s.len() == 0 || s[0] == c {
        0
    } else {
        1 + find_char(s.drop_first(), c)
    }
}

/// `find_char` is the first position that holds `c`, or the length.
pub proof fn lemma_find_char(s: Seq<char>, c: char)
    ensures
        find_char(s, c) <= s.len(),
        forall|j: int| 0 <= j < find_char(s, c) ==> s[j] != c,
        find_char(s, c) < s.len() ==> s[find_char(s, c) as int] == c,
    decreases s.len(),
{
    if s.len() > 0 && s[0] != c {
        lemma_find_char(s.drop_first(), c);
        assert forall|j: int| 0 <= j < find_char(s, c) implies s[j] != c by {
            if j > 0 {
                assert(s[j] == s.drop_first()[j - 1]);
            }
        }
    }
}

/// How many times `c` occurs in `s`.
pub open spec fn count_char(s: Seq<char>, c: char) -> nat
    decreases s.len(),
{
    if s.len() == 0 {
        0
    } else {
        (if s[0] == c {
            1nat
        } else {
            0nat
        }) + count_char(s.drop_first(), c)
    }
}

/// A position with no `c` before it that holds `c` (or is the end) is `find_char`.
pub proof fn lemma_find_char_unique(s: Seq<char>, c: char, i: int)
    requires
        0 <= i <= s.len(),
        forall|j: int| 0 <= j < i ==> s[j] != c,
        i < s.len() ==> s[i] == c,
    ensures
        find_char(s, c) == i,
    decreases s.len(),
{
    if s.len() > 0 && s[0] != c {
        assert(i > 0);
        assert forall|j: int| 0 <= j < i - 1 implies s.drop_first()[j] != c by {
            assert(s.drop_first()[j] == s[j + 1]);
        }
        if i - 1 < s.len() - 1 {
            assert(s.drop_first()[i - 1] == s[i]);
        }
        lemma_find_char_unique(s.drop_first(), c, i - 1);
    }
}

/// Counting over a concatenation adds up.
pub proof fn lemma_count_char_concat(x: Seq<char>, y: Seq<char>, c: char)
    ensures
        count_char(x + y, c) == count_char(x, c) + count_char(y, c),
    decreases x.len(),
{
    if x.len() > 0 {
        assert((x + y).drop_first() =~= x.drop_first() + y);
        lemma_count_char_concat(x.drop_first(), y, c);
    } else {
        assert(x + y =~= y);
    }
}

/// Whether `c` has Unicode's `White_Space` property.
pub fn is_space_char(c: char) -> (b: bool)
    ensures
        b == is_space(c),
{
    let u = c as u32;
    (0x09 <= u && u <= 0x0D) || u == 0x20 || u == 0x85 || u == 0xA0 || u == 0x1680 || (0x2000
        <= u && u <= 0x200A) || u == 0x2028 || u == 0x2029 || u == 0x202F || u == 0x205F || u
        == 0x3000
}

/// Whether a trim with `quotes` removes `c`.
fn is_trimmed(c: char, quotes: bool) -> (b: bool)
    ensures
        b == (trimmed_by(quotes))(c),
{
    if quotes {
        c == '"'
    } else {
        is_space_char(c)
    }
}

/// Narrows `[a, b)` past the leading and trailing characters of `cs` that a trim
/// with `quotes` removes: the result is the range of `strip` of that slice.
pub fn strip_range(cs: &Vec<char>, a: usize, b: usize, quotes: bool) -> (r: (usize, usize))
    requires
        a <= b <= cs@.len(),
    ensures
        a <= r.0 <= r.1 <= b,
        cs@.subrange(r.0 as int, r.1 as int) == strip(cs@.subrange(a as int, b as int), quotes),
{
    let ghost drop = trimmed_by(quotes);
    let mut lo = a;
    while lo < b && is_trimmed(cs[lo], quotes)
        invariant
            a <= lo <= b <= cs@.len(),
            drop == trimmed_by(quotes),
            strip_start(cs@.subrange(a as int, b as int), drop) == strip_start(
                cs@.subrange(lo as int, b as int),
                drop,
            ),
        decreases b - lo,
    {
        assert(cs@.subrange(lo as int, b as int).drop_first() =~= cs@.subrange(
            lo + 1,
            b as int,
        ));
        lo = lo + 1;
    }
    assert(strip_start(cs@.subrange(lo as int, b as int), drop) == cs@.subrange(
        lo as int,
        b as int,
    ));
    let mut hi = b;
    while hi > lo && is_trimmed(cs[hi - 1], quotes)
        invariant
            a <= lo <= hi <= b <= cs@.len(),
            drop == trimmed_by(quotes),
            strip_end(cs@.subrange(lo as int, b as int), drop) == strip_end(
                cs@.subrange(lo as int, hi as int),
                drop,
            ),
        decreases hi - lo,
    {
        assert(cs@.subrange(lo as int, hi as int).drop_last() =~= cs@.subrange(
            lo as int,
            hi - 1,
        ));
        hi = hi - 1;
    }
    (lo, hi)
}

/// The first position in `[a, b)` of `cs` that holds `c`, or `b`.
pub fn find_in_range(cs: &Vec<char>, a: usize, b: usize, c: char) -> (i: usize)
    requires
        a <= b <= cs@.len(),
    ensures
        a <= i <= b,
        i - a == find_char(cs@.subrange(a as int, b as int), c),
{
    let mut i = a;
    while i < b && cs[i] != c
        invariant
            a <= i <= b <= cs@.len(),
            forall|j: int| a <= j < i ==> cs@[j] != c,
        decreases b - i,
    {
        i = i + 1;
    }
    proof {
        let s = cs@.subrange(a as int, b as int);
        assert forall|j: int| 0 <= j < i - a implies s[j] != c by {
            assert(s[j] == cs@[a + j]);
        }
        lemma_find_char_unique(s, c, i - a);
    }
    i
}

/// The characters of `s`, in order.
pub fn chars_of(s: &str) -> (cs: Vec<char>)
    ensures
        cs@ == s@,
{
    let mut cs: Vec<char> = Vec::new();
    for c in it: s.chars()
        invariant
            cs@ == it.seq().take(it.index() as int),
    {
        cs.push(c);
    }
    cs
}

/// The decimal digit for `d < 10`.
pub open spec fn digit(d: nat) -> char {
    if d == 0 {
        '0'
    } else if d == 1 {
        '1'
    } else if d == 2 {
        '2'
    } else if d == 3 {
        '3'
    } else if d == 4 {
        '4'
    } else if d == 5 {
        '5'
    } else if d == 6 {
        '6'
    } else if d == 7 {
        '7'
    } else if d == 8 {
        '8'
    } else {
        '9'
    }
}

/// The decimal notation of `n`, as integers are displayed: no sign, no leading zeros.
pub open spec fn decimal(n: nat) -> Seq<char>
    decreases n,
{
    if n < 10 {
        seq![digit(n)]
    } else {
        decimal(n / 10).push(digit(n % 10))
    }
}

/// The one-character text of the digit `d`.
fn digit_text(d: usize) -> (t: String)
    requires
        d < 10,
    ensures
        t@ == seq![digit(d as nat)],
{
    let lit = if d == 0 {
        proof { reveal_strlit("0"); }
        "0"
    } else if d == 1 {
        proof { reveal_strlit("1"); }
        "1"
    } else if d == 2 {
        proof { reveal_strlit("2"); }
        "2"
    } else if d == 3 {
        proof { reveal_strlit("3"); }
        "3"
    } else if d == 4 {
        proof { reveal_strlit("4"); }
        "4"
    } else if d == 5 {
        proof { reveal_strlit("5"); }
        "5"
    } else if d == 6 {
        proof { reveal_strlit("6"); }
        "6"
    } else if d == 7 {
        proof { reveal_strlit("7"); }
        "7"
    } else if d == 8 {
        proof { reveal_strlit("8"); }
        "8"
    } else {
        proof { reveal_strlit("9"); }
        "9"
    };
    let t = String::from_str(lit);
    assert(t@ =~= seq![digit(d as nat)]);
    t
}

/// Renders `n` in decimal, e.g. `42` as `"42"`.
pub fn decimal_text(n: usize) -> (t: String)
    ensures
        t@ == decimal(n as nat),
    decreases n,
{
    if n < 10 {
        digit_text(n)
    } else {
        let mut t = decimal_text(n / 10);
        let last = digit_text(n % 10);
        t.append(last.as_str());
        assert(t@ =~= decimal(n as nat));
        t
    }
}

/// `c` with the ASCII letters `a`-`z` mapped to `A`-`Z`, anything else unchanged.
pub open spec fn ascii_upper_char(c: char) -> char {
    if 0x61 <= (c as u32) <= 0x7A {
        ((c as u32) - 0x20) as char
    } else {
        c
    }
}

/// `s` with every ASCII letter in upper case, anything else unchanged.
pub open spec fn ascii_upper(s: Seq<char>) -> Seq<char> {
    Seq::new(s.len(), |i: int| ascii_upper_char(s[i]))
}

/// [`ascii_upper_char`], computed.
fn ascii_upper_char_exec(c: char) -> (d: char)
    ensures
        d == ascii_upper_char(c),
{
    let u = c as u32;
    if 0x61 <= u && u <= 0x7A {
        let b = (u - 0x20) as u8;
        b as char
    } else {
        c
    }
}

/// `s` with every ASCII letter in upper case, anything else unchanged.
pub(crate) fn to_ascii_uppercase(s: &str) -> (t: String)
    ensures
        t@ == ascii_upper(s@),
{
    let cs = chars_of(s);
    let mut up: Vec<char> = Vec::new();
    let mut i: usize = 0;
    while i < cs.len()
        invariant
            i <= cs@.len(),
            cs@ == s@,
            up@ == ascii_upper(cs@.take(i as int)),
        decreases cs@.len() - i,
    {
        up.push(ascii_upper_char_exec(cs[i]));
        i = i + 1;
        assert(up@ =~= ascii_upper(cs@.take(i as int)));
    }
    assert(cs@.take(cs@.len() as int) =~= cs@);
    string_from_chars(&up)
}

/// Upper-casing in ASCII: every letter `a` to `z` becomes its capital, `A` to
/// `Z`, and every other character stays as it is.
pub proof fn law_ascii_upper_char(c: char)
    ensures
        0x61 <= c as u32 <= 0x7A ==> ascii_upper_char(c) as u32 == c as u32 - 0x20,
        !(0x61 <= c as u32 <= 0x7A) ==> ascii_upper_char(c) == c,
{
}

/// An upper-cased text has the same length, and holds no ASCII lower-case
/// letter.
pub proof fn law_ascii_upper_leaves_no_lower_case(s: Seq<char>)
    ensures
        ascii_upper(s).len() == s.len(),
        forall|i: int| 0 <= i < s.len() ==> !(0x61 <= #[trigger] ascii_upper(s)[i] as u32 <= 0x7A),
{
    assert forall|i: int| 0 <= i < s.len() implies !(0x61 <= #[trigger] ascii_upper(s)[i] as u32
        <= 0x7A) by {
        law_ascii_upper_char(s[i]);
    }
}

} // verus!
