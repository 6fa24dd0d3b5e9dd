//! Literal values: cooking string literals, reading integer literals and
//! recognising the syntax of float literals.
use vstd::prelude::*;

use crate::lexer::is_digit;
use crate::text::string_from_chars;

verus! {

// ---------------------------------------------------------------------------
// String literals
// ---------------------------------------------------------------------------

/// The character an escape sequence `\e` stands for.
pub open spec fn escaped_char(e: char) -> char {
    if e == 'n' {
        '\n'
    } else if e == 'r' {
        '\r'
    } else if e == 't' {
        '\t'
    } else {
        e
    }
}

/// The body of a string literal with its escape sequences replaced, or
/// `None` when it ends in a lone backslash.
pub open spec fn unescape(s: Seq<char>) -> Option<Seq<char>>
    decreases s.len(),
{
    if s.len() == 0 {
        Some(seq![])
    } else if s[0] != '\\' {
        match unescape(s.skip(1)) {
            Some(r) => Some(seq![s[0]] + r),
            None => None,
        }
    } else if s.len() == 1 {
        None
    } else {
        match unescape(s.skip(2)) {
            Some(r) => Some(seq![escaped_char(s[1])] + r),
            None => None,
        }
    }
}

/// The value of a quoted string literal, or the message explaining why it
/// is not one.
pub open spec fn cook_spec(raw: Seq<char>) -> Result<Seq<char>, Seq<char>> {
    if raw.len() == 0 {
        Err("empty string literal"@)
    } else if (raw[0] != '"' && raw[0] != '\'') || raw.last() != raw[0] || raw.len() < 2 {
        Err("invalid string literal"@)
    } else {
        match unescape(raw.subrange(1, raw.len() - 1)) {
            Some(v) => Ok(v),
            None => Err("unterminated escape sequence"@),
        }
    }
}

fn escape_value(e: char) -> (r: char)
    ensures
        r == escaped_char(e),
{
    match e {
        'n' => '\n',
        'r' => '\r',
        't' => '\t',
        other => other,
    }
}

/// Cooks a quoted string literal (`"..."` or `'...'`): strips the quotes
/// and replaces escape sequences.
pub fn cook_string_literal(raw: &[char]) -> (r: Result<String, &'static str>)
    ensures
        match r {
            Ok(v) => cook_spec(raw@) == Ok::<Seq<char>, Seq<char>>(v@),
            Err(m) => cook_spec(raw@) == Err::<Seq<char>, Seq<char>>(m@),
        },
{
    if raw.len() == 0 {
        return Err("empty string literal");
    }
    let delimiter = raw[0];
    let last = raw[raw.len() - 1];
    if (delimiter != '"' && delimiter != '\'') || last != delimiter || raw.len() < 2 {
        return Err("invalid string literal");
    }
    let ghost inner = raw@.subrange(1, raw@.len() - 1);
    let end = raw.len() - 1;
    let mut out: Vec<char> = Vec::new();
    let mut i: usize = 1;
    while i < end
        invariant
            end == raw@.len() - 1,
            1 <= i <= end,
            raw@.len() >= 2,
            raw@[0] == '"' || raw@[0] == '\'',
            raw@.last() == raw@[0],
            inner == raw@.subrange(1, raw@.len() - 1),
            unescape(inner) == match unescape(raw@.subrange(i as int, end as int)) {
                Some(rest) => Some(out@ + rest),
                None => None,
            },
        decreases end + 1 - i,
    {
        let ghost s = raw@.subrange(i as int, end as int);
        let ch = raw[i];
        if ch != '\\' {
            out.push(ch);
            proof {
                assert(s.skip(1) =~= raw@.subrange(i + 1, end as int));
                assert(s[0] == ch);
                match unescape(s.skip(1)) {
                    Some(rest) => {
                        assert(out@ + rest =~= out@.drop_last() + (seq![ch] + rest));
                    },
                    None => {},
                }
            }
            i = i + 1;
        } else {
            if i + 1 >= end {
                proof {
                    assert(s.len() == 1);
                    assert(s[0] == '\\');
                    assert(unescape(s) is None);
                }
                return Err("unterminated escape sequence");
            }
            let c = escape_value(raw[i + 1]);
            out.push(c);
            proof {
                assert(s.skip(2) =~= raw@.subrange(i + 2, end as int));
                assert(s[1] == raw@[i + 1]);
                match unescape(s.skip(2)) {
                    Some(rest) => {
                        assert(out@ + rest =~= out@.drop_last() + (seq![c] + rest));
                    },
                    None => {},
                }
            }
            i = i + 2;
        }
    }
    proof {
        assert(raw@.subrange(i as int, end as int) =~= Seq::<char>::empty());
        assert(out@ + Seq::<char>::empty() =~= out@);
    }
    Ok(string_from_chars(out.as_slice()))
}

// ---------------------------------------------------------------------------
// Integer literals
// ---------------------------------------------------------------------------

pub open spec fn all_digits(s: Seq<char>) -> bool {
    forall|i: int| 0 <= i < s.len() ==> is_digit(#[trigger] s[i])
}

/// The value of a sequence of decimal digits.
pub open spec fn digits_value(ds: Seq<char>) -> nat
    decreases ds.len(),
{
    if ds.len() == 0 {
        0
    } else {
        digits_value(ds.drop_last()) * 10 + (ds.last() as nat - '0' as nat) as nat
    }
}

/// The value of an `i64` written in decimal with an optional sign, as the
/// standard library reads it, or `None` when the text is not such a number
/// or the number does not fit.
pub open spec fn i64_from_text(t: Seq<char>) -> Option<i64> {
    let neg = t.len() > 0 && t[0] == '-';
    let ds = if t.len() > 0 && (t[0] == '-' || t[0] == '+') {
        t.skip(1)
    } else {
        t
    };
    if ds.len() == 0 || !all_digits(ds) {
        None
    } else {
        let v: int = if neg {
            -(digits_value(ds) as int)
        } else {
            digits_value(ds) as int
        };
        if i64::MIN <= v <= i64::MAX {
            Some(v as i64)
        } else {
            None
        }
    }
}

/// Reads an `i64` written in decimal with an optional sign.
pub fn parse_i64(t: &[char]) -> (r: Option<i64>)
    ensures
        r == i64_from_text(t@),
{
    let n = t.len();
    let mut start: usize = 0;
    let mut neg = false;
    if n > 0 && (t[0] == '-' || t[0] == '+') {
        neg = t[0] == '-';
        start = 1;
    }
    let ghost ds = if n > 0 && (t@[0] == '-' || t@[0] == '+') {
        t@.skip(1)
    } else {
        t@
    };
    assert(ds =~= t@.skip(start as int));
    if start >= n {
        return None;
    }
    // The magnitude, bounded by 2^63 (the magnitude of i64::MIN).
    let limit: u64 = 0x8000_0000_0000_0000;
    let mut mag: u64 = 0;
    let mut i: usize = start;
    let mut overflow = false;
    while i < n
        invariant
            n == t@.len(),
            limit == 0x8000_0000_0000_0000u64,
            start <= i <= n,
            ds == (if n > 0 && (t@[0] == '-' || t@[0] == '+') {
                t@.skip(1)
            } else {
                t@
            }),
            neg == (n > 0 && t@[0] == '-'),
            start == (if n > 0 && (t@[0] == '-' || t@[0] == '+') {
                1usize
            } else {
                0usize
            }),
            ds =~= t@.skip(start as int),
            forall|k: int| start <= k < i ==> is_digit(#[trigger] t@[k]),
            !overflow ==> mag == digits_value(t@.subrange(start as int, i as int)),
            !overflow ==> mag <= limit,
            overflow ==> digits_value(t@.subrange(start as int, i as int)) > limit,
        decreases n - i,
    {
        let c = t[i];
        if !('0' <= c && c <= '9') {
            proof {
                assert(ds[i - start] == c);
                assert(!is_digit(ds[i - start]));
            }
            return None;
        }
        let ghost pre = t@.subrange(start as int, i as int);
        let ghost next = t@.subrange(start as int, i + 1);
        assert(next.drop_last() =~= pre);
        assert((c as u32) >= 48 && (c as u32) <= 57);
        let d = (c as u32 - '0' as u32) as u64;
        assert(d <= 9);
        if !overflow {
            if mag > (limit - d) / 10 {
                overflow = true;
            } else {
                mag = mag * 10 + d;
            }
        }
        i = i + 1;
    }
    assert(t@.subrange(start as int, n as int) =~= ds);
    assert(all_digits(ds)) by {
        assert forall|k: int| 0 <= k < ds.len() implies is_digit(#[trigger] ds[k]) by {
            assert(ds[k] == t@[k + start]);
        }
    }
    if overflow {
        return None;
    }
    if neg {
        if mag == limit {
            Some(i64::MIN)
        } else {
            Some(-(mag as i64))
        }
    } else {
        if mag > 0x7FFF_FFFF_FFFF_FFFF {
            None
        } else {
            Some(mag as i64)
        }
    }
}

// ---------------------------------------------------------------------------
// Float literals
// ---------------------------------------------------------------------------

/// The text without one leading sign character.
pub open spec fn strip_sign(s: Seq<char>) -> Seq<char> {
    if s.len() > 0 && (s[0] == '+' || s[0] == '-') {
        s.skip(1)
    } else {
        s
    }
}

/// Lower-case ASCII letter of `c`.
pub open spec fn ascii_lower(c: char) -> char {
    if 'A' <= c && c <= 'Z' {
        ((c as u32) + 32) as char
    } else {
        c
    }
}

/// Whether `s` spells `word` (given in lower case) ignoring ASCII case.
pub open spec fn eq_ignore_case(s: Seq<char>, word: Seq<char>) -> bool {
    s.len() == word.len() && forall|i: int| 0 <= i < s.len() ==> ascii_lower(#[trigger] s[i])
        == word[i]
}

/// Index of the first non-digit at or after `i`.
pub open spec fn digits_end(s: Seq<char>, i: nat) -> nat
    decreases s.len() - i,
{
    if i < s.len() && is_digit(s[i as int]) {
        digits_end(s, i + 1)
    } else {
        i
    }
}

/// An exponent: `e` or `E`, an optional sign and at least one digit.
pub open spec fn exponent_syntax(r: Seq<char>) -> bool {
    r.len() >= 2 && (r[0] == 'e' || r[0] == 'E') && strip_sign(r.skip(1)).len() > 0 && all_digits(
        strip_sign(r.skip(1)),
    )
}

/// Digits with an optional fractional part (at least one digit in all),
/// then an optional exponent.
pub open spec fn number_syntax(s: Seq<char>) -> bool {
    let a = digits_end(s, 0);
    let frac = a < s.len() && s[a as int] == '.';
    let b = if frac {
        digits_end(s, a + 1)
    } else {
        a
    };
    let count = if frac {
        a + (b - (a + 1))
    } else {
        a as int
    };
    count > 0 && (b == s.len() || exponent_syntax(s.skip(b as int)))
}

/// Whether the standard library reads `t` as an `f64`: an optional sign,
/// then `inf`, `infinity` or `nan` in any case, or a decimal number.
pub open spec fn f64_syntax(t: Seq<char>) -> bool {
    let s = strip_sign(t);
    eq_ignore_case(s, "inf"@) || eq_ignore_case(s, "infinity"@) || eq_ignore_case(s, "nan"@)
        || number_syntax(s)
}

fn lower(c: char) -> (r: char)
    ensures
        r == ascii_lower(c),
{
    if 'A' <= c && c <= 'Z' {
        let b = (c as u8) + 32;
        b as char
    } else {
        c
    }
}

fn eq_word(s: &[char], from: usize, word: &str) -> (r: bool)
    requires
        from <= s@.len(),
    ensures
        r == eq_ignore_case(s@.skip(from as int), word@),
{
    let w = crate::text::to_chars(word);
    let ghost t = s@.skip(from as int);
    let slen = s.len();
    if slen - from != w.len() {
        return false;
    }
    let mut i: usize = 0;
    while i < w.len()
        invariant
            slen == s@.len(),
            w@ == word@,
            t == s@.skip(from as int),
            t.len() == w@.len(),
            s@.len() - from == w@.len(),
            from <= s@.len(),
            i <= w@.len(),
            forall|k: int| 0 <= k < i ==> ascii_lower(#[trigger] t[k]) == w@[k],
        decreases w@.len() - i,
    {
        if lower(s[from + i]) != w[i] {
            assert(t[i as int] == s@[from + i]);
            return false;
        }
        assert(t[i as int] == s@[from + i]);
        i = i + 1;
    }
    true
}

fn scan_digits(s: &[char], i: usize) -> (r: usize)
    requires
        i <= s@.len(),
    ensures
        r == digits_end(s@, i as nat),
        i <= r <= s@.len(),
    decreases s@.len() - i,
{
    if i < s.len() && '0' <= s[i] && s[i] <= '9' {
        scan_digits(s, i + 1)
    } else {
        i
    }
}

fn all_digits_from(s: &[char], i: usize) -> (r: bool)
    requires
        i <= s@.len(),
    ensures
        r == all_digits(s@.skip(i as int)),
{
    let j = scan_digits(s, i);
    proof {
        lemma_digits_end(s@, i as nat);
    }
    if j == s.len() {
        assert forall|k: int| 0 <= k < s@.skip(i as int).len() implies is_digit(
            #[trigger] s@.skip(i as int)[k],
        ) by {
            assert(s@.skip(i as int)[k] == s@[i + k]);
        }
        true
    } else {
        assert(s@.skip(i as int)[j - i] == s@[j as int]);
        false
    }
}

proof fn lemma_digits_end(s: Seq<char>, i: nat)
    requires
        i <= s.len(),
    ensures
        i <= digits_end(s, i) <= s.len(),
        forall|k: int| i <= k < digits_end(s, i) ==> is_digit(#[trigger] s[k]),
        digits_end(s, i) < s.len() ==> !is_digit(s[digits_end(s, i) as int]),
    decreases s.len() - i,
{
    if i < s.len() && is_digit(s[i as int]) {
        lemma_digits_end(s, i + 1);
    }
}

/// Whether `t[b..]` is an exponent.
fn is_exponent(t: &[char], b: usize) -> (r: bool)
    requires
        b <= t@.len(),
    ensures
        r == exponent_syntax(t@.skip(b as int)),
{
    let ghost r = t@.skip(b as int);
    if t.len() - b < 2 {
        return false;
    }
    let e = t[b];
    assert(r[0] == e);
    if !(e == 'e' || e == 'E') {
        return false;
    }
    let c = b + 1;
    let d: usize = if t[c] == '+' || t[c] == '-' {
        c + 1
    } else {
        c
    };
    assert(r.skip(1) =~= t@.skip(c as int));
    assert(strip_sign(r.skip(1)) =~= t@.skip(d as int));
    if d >= t.len() {
        return false;
    }
    all_digits_from(t, d)
}

/// Whether `t[start..]` is a decimal number (with optional exponent).
fn is_number(t: &[char], start: usize) -> (r: bool)
    requires
        start <= t@.len(),
    ensures
        r == number_syntax(t@.skip(start as int)),
{
    let ghost s = t@.skip(start as int);
    let a = scan_digits(t, start);
    proof {
        lemma_digits_end_shift(t@, start as nat, 0);
    }
    let frac = a < t.len() && t[a] == '.';
    if frac {
        assert(s[a - start] == t@[a as int]);
    } else if a < t.len() {
        assert(s[a - start] == t@[a as int]);
    }
    let b = if frac {
        scan_digits(t, a + 1)
    } else {
        a
    };
    proof {
        if frac {
            lemma_digits_end_shift(t@, start as nat, (a - start + 1) as nat);
        }
    }
    let count = if frac {
        (a - start) + (b - (a + 1))
    } else {
        a - start
    };
    if count == 0 {
        return false;
    }
    if b == t.len() {
        return true;
    }
    assert(s.skip(b - start) =~= t@.skip(b as int));
    is_exponent(t, b)
}

/// Whether `t` is a float literal that the standard library accepts.
pub fn is_f64_syntax(t: &[char]) -> (r: bool)
    ensures
        r == f64_syntax(t@),
{
    let start: usize = if t.len() > 0 && (t[0] == '+' || t[0] == '-') {
        1
    } else {
        0
    };
    assert(strip_sign(t@) =~= t@.skip(start as int));
    if eq_word(t, start, "inf") || eq_word(t, start, "infinity") || eq_word(t, start, "nan") {
        return true;
    }
    is_number(t, start)
}

proof fn lemma_digits_end_shift(t: Seq<char>, start: nat, i: nat)
    requires
        start + i <= t.len(),
    ensures
        digits_end(t.skip(start as int), i) + start == digits_end(t, start + i),
    decreases t.len() - (start + i),
{
    let s = t.skip(start as int);
    if start + i < t.len() {
        assert(s[i as int] == t[start + i as int]);
        if is_digit(t[(start + i) as int]) {
            lemma_digits_end_shift(t, start, i + 1);
        }
    }
}

// ---------------------------------------------------------------------------
// Laws of string literals
// ---------------------------------------------------------------------------

/// What the body of a literal cooks to, character by character.  An escape
/// `\n`, `\r` or `\t` gives a line feed, a carriage return or a tab; any
/// other escaped character (a quote, a backslash, a letter) stands for
/// itself; a character that is not a backslash stands for itself; a lone
/// backslash at the end makes the literal invalid.
pub proof fn lemma_unescape_steps(s: Seq<char>, c: char)
    ensures
        c != '\\' ==> unescape(seq![c] + s) == match unescape(s) {
            Some(r) => Some(seq![c] + r),
            None => None::<Seq<char>>,
        },
        unescape(seq!['\\', 'n'] + s) == match unescape(s) {
            Some(r) => Some(seq!['\n'] + r),
            None => None::<Seq<char>>,
        },
        unescape(seq!['\\', 'r'] + s) == match unescape(s) {
            Some(r) => Some(seq!['\r'] + r),
            None => None::<Seq<char>>,
        },
        unescape(seq!['\\', 't'] + s) == match unescape(s) {
            Some(r) => Some(seq!['\t'] + r),
            None => None::<Seq<char>>,
        },
        (c != 'n' && c != 'r' && c != 't') ==> unescape(seq!['\\', c] + s) == match unescape(s) {
            Some(r) => Some(seq![c] + r),
            None => None::<Seq<char>>,
        },
        unescape(seq!['\\']) is None,
        unescape(seq![]) == Some(Seq::<char>::empty()),
{
    assert((seq![c] + s).skip(1) =~= s);
    assert((seq!['\\', 'n'] + s).skip(2) =~= s);
    assert((seq!['\\', 'r'] + s).skip(2) =~= s);
    assert((seq!['\\', 't'] + s).skip(2) =~= s);
    assert((seq!['\\', c] + s).skip(2) =~= s);
}

/// A literal between two equal quotes, `"` or `'`, cooks to its unescaped
/// body; it is refused only when the body ends in a lone backslash.
pub proof fn lemma_cook_quoted(q: char, body: Seq<char>)
    requires
        q == '"' || q == '\'',
    ensures
        cook_spec(seq![q] + body + seq![q]) == match unescape(body) {
            Some(v) => Ok::<Seq<char>, Seq<char>>(v),
            None => Err("unterminated escape sequence"@),
        },
{
    let raw = seq![q] + body + seq![q];
    assert(raw[0] == q);
    assert(raw.last() == q);
    assert(raw.subrange(1, raw.len() - 1) =~= body);
}

} // verus!
