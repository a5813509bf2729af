//! Quoted and unquoted strings, with escape sequences and unicode sequences (`\u{XXXX}`).
//!
//! A quoted string starts and ends with the same quote, `'` or `"`; the other quote may stand in
//! it unescaped. An unquoted string is non-empty and ends at whitespace or at a quote.
//! Both may hold the escapes `\n`, `\r`, `\t`, `\b`, `\f`, `\\`, `\/`, `\"`, `\'` and
//! `\u{X}` with one to six hexadecimal digits; the null character is allowed in neither form.
use vstd::prelude::*;

use crate::chars::{lemma_span_end, lemma_span_end_at, scan, span_end, std_char_from_u32, CharClass};
use crate::error::{ErrorKind, ParseError};
use crate::primitives::integer::digits_value;
use crate::text::{lemma_subrange_of, push_char, skip_chars, to_chars};

verus! {

/// Which delimiter a string has.
#[derive(Debug, Clone, Copy, PartialEq, Eq)]
pub enum QuoteType {
    Single,
    Double,
    Unquoted,
}

/// The characters that a literal run of a string with the given delimiter may hold.
pub open spec fn literal_class(q: QuoteType) -> CharClass {
    match q {
        QuoteType::Single => CharClass::SingleQuoted,
        QuoteType::Double => CharClass::DoubleQuoted,
        QuoteType::Unquoted => CharClass::Unquoted,
    }
}

/// A unicode sequence at `j`: `u{`, one to six hexadecimal digits, `}`; its end and the code
/// point, which must be a Unicode scalar value other than 0.
pub open spec fn spec_unicode(s: Seq<char>, j: int) -> Option<(int, nat)> {
    if 0 <= j && j + 1 < s.len() && s[j] == 'u' && s[j + 1] == '{' {
        let h = j + 2;
        let run = span_end(s, h, CharClass::HexDigit);
        let he = if run < h + 6 {
            run
        } else {
            h + 6
        };
        let v = digits_value(s, h, he, 16);
        if he > h && he < s.len() && s[he] == '}' && v <= 0x10FFFF && !(0xD800 <= v && v <= 0xDFFF)
            && v != 0 {
            Some((he + 1, v))
        } else {
            None
        }
    } else {
        None
    }
}

/// The character that a one-letter escape (the letter after `\`) stands for.
pub open spec fn escape_char(c: char) -> Option<char> {
    if c == 'n' {
        Some('\n')
    } else if c == 'r' {
        Some('\r')
    } else if c == 't' {
        Some('\t')
    } else if c == 'b' {
        Some('\u{8}')
    } else if c == 'f' {
        Some('\u{c}')
    } else if c == '\\' || c == '/' || c == '"' || c == '\'' {
        Some(c)
    } else {
        None
    }
}

/// An escape sequence at `i`; its end and the character it stands for.
pub open spec fn spec_escaped(s: Seq<char>, i: int) -> Option<(int, char)> {
    if 0 <= i && i + 1 < s.len() && s[i] == '\\' {
        match spec_unicode(s, i + 1) {
            Some((e, v)) => Some((e, (v as u32) as char)),
            None => match escape_char(s[i + 1]) {
                Some(c) => Some((i + 2, c)),
                None => None,
            },
        }
    } else {
        None
    }
}

/// A fragment at `i`: a non-empty literal run, or else an escape sequence; its end and the
/// characters it stands for.
pub open spec fn spec_fragment(s: Seq<char>, i: int, q: QuoteType) -> Option<(int, Seq<char>)> {
    let e = span_end(s, i, literal_class(q));
    if e > i {
        Some((e, s.subrange(i, e)))
    } else {
        match spec_escaped(s, i) {
            Some((e2, c)) => Some((e2, seq![c])),
            None => None,
        }
    }
}

/// The fragments from `i` on, as many as read: where they end, and the characters they stand for.
pub open spec fn spec_fragments(s: Seq<char>, i: int, q: QuoteType) -> (int, Seq<char>)
    decreases s.len() - i,
{
    if 0 <= i < s.len() {
        match spec_fragment(s, i, q) {
            Some((e, t)) => if i < e <= s.len() {
                let rest = spec_fragments(s, e, q);
                (rest.0, t + rest.1)
            } else {
                (i, seq![])
            },
            None => (i, seq![]),
        }
    } else {
        (i, seq![])
    }
}

/// A quoted string at `i`: the quote at `i`, fragments, and the same quote; its end and contents.
pub open spec fn spec_quoted_string(s: Seq<char>, i: int) -> Option<(int, Seq<char>)> {
    if 0 <= i < s.len() && (s[i] == '\'' || s[i] == '"') {
        let q = if s[i] == '\'' {
            QuoteType::Single
        } else {
            QuoteType::Double
        };
        let f = spec_fragments(s, i + 1, q);
        if f.0 < s.len() && s[f.0] == s[i] {
            Some((f.0 + 1, f.1))
        } else {
            None
        }
    } else {
        None
    }
}

/// An unquoted string at `i`: fragments that stand for at least one character.
pub open spec fn spec_unquoted_string(s: Seq<char>, i: int) -> Option<(int, Seq<char>)> {
    let f = spec_fragments(s, i, QuoteType::Unquoted);
    if f.1.len() > 0 {
        Some(f)
    } else {
        None
    }
}

/// A string at `i`: a quoted string, or else an unquoted one.
pub open spec fn spec_string(s: Seq<char>, i: int) -> Option<(int, Seq<char>)> {
    match spec_quoted_string(s, i) {
        Some(r) => Some(r),
        None => spec_unquoted_string(s, i),
    }
}

proof fn lemma_unicode_bounds(s: Seq<char>, j: int)
    requires
        0 <= j <= s.len(),
    ensures
        spec_unicode(s, j) matches Some((e, v)) ==> j + 3 < e <= s.len() && v <= 0xFFFFFF,
{
    if j + 1 < s.len() {
        lemma_span_end(s, j + 2, CharClass::HexDigit);
    }
    if let Some((e, v)) = spec_unicode(s, j) {
        let h = j + 2;
        let run = span_end(s, h, CharClass::HexDigit);
        let he = if run < h + 6 {
            run
        } else {
            h + 6
        };
        lemma_hex_bound(s, h, he);
    }
}

/// At most six hexadecimal digits stand for a number below 2^24.
proof fn lemma_hex_bound(s: Seq<char>, a: int, b: int)
    requires
        a <= b <= a + 6,
        forall|k: int| a <= k < b ==> crate::chars::is_hex_digit(#[trigger] s[k]),
    ensures
        digits_value(s, a, b, 16) < pow16(b - a),
    decreases b - a,
{
    if b > a {
        lemma_hex_bound(s, a, b - 1);
        let x = digits_value(s, a, b - 1, 16);
        let p = pow16(b - 1 - a);
        assert(crate::chars::digit_value(s[b - 1]) < 16);
        assert(x * 16 + crate::chars::digit_value(s[b - 1]) < p * 16) by (nonlinear_arith)
            requires
                x < p,
                crate::chars::digit_value(s[b - 1]) < 16,
        ;
    }
}

pub open spec fn pow16(n: int) -> nat
    decreases n,
{
    if n <= 0 {
        1
    } else {
        16 * pow16(n - 1)
    }
}

proof fn lemma_fragment_bounds(s: Seq<char>, i: int, q: QuoteType)
    requires
        0 <= i <= s.len(),
    ensures
        spec_fragment(s, i, q) matches Some((e, t)) ==> i < e <= s.len(),
{
    lemma_span_end(s, i, literal_class(q));
    if i + 1 <= s.len() {
        lemma_unicode_bounds(s, i + 1);
    }
}

proof fn lemma_fragments_bounds(s: Seq<char>, i: int, q: QuoteType)
    requires
        0 <= i <= s.len(),
    ensures
        i <= spec_fragments(s, i, q).0 <= s.len(),
    decreases s.len() - i,
{
    if i < s.len() {
        lemma_fragment_bounds(s, i, q);
        if let Some((e, t)) = spec_fragment(s, i, q) {
            lemma_fragments_bounds(s, e, q);
        }
    }
}

fn escape_letter(c: char) -> (r: Option<char>)
    ensures
        r == escape_char(c),
{
    if c == 'n' {
        Some('\n')
    } else if c == 'r' {
        Some('\r')
    } else if c == 't' {
        Some('\t')
    } else if c == 'b' {
        Some('\u{8}')
    } else if c == 'f' {
        Some('\u{c}')
    } else if c == '\\' || c == '/' || c == '"' || c == '\'' {
        Some(c)
    } else {
        None
    }
}

fn unicode_at(s: &[char], j: usize) -> (r: Option<(usize, char)>)
    requires
        j <= s@.len(),
    ensures
        r is Some <==> spec_unicode(s@, j as int) is Some,
        r matches Some((e, c)) ==> spec_unicode(s@, j as int) == Some((e as int, (c as u32) as nat)),
{
    proof {
        lemma_unicode_bounds(s@, j as int);
    }
    if j < s.len() && j + 1 < s.len() && s[j] == 'u' && s[j + 1] == '{' {
        let h = j + 2;
        let run = scan(s, h, CharClass::HexDigit);
        let he = if run - h < 6 {
            run
        } else {
            h + 6
        };
        proof {
            lemma_span_end(s@, h as int, CharClass::HexDigit);
            lemma_hex_bound(s@, h as int, he as int);
            assert(pow16(6) == 0x1000000) by {
                reveal_with_fuel(pow16, 7);
            }
            lemma_pow16_mono(he - h, 6);
        }
        if he > h && he < s.len() && s[he] == '}' {
            let v = hex_value(s, h, he);
            if v <= 0x10FFFF && !(0xD800 <= v && v <= 0xDFFF) && v != 0 {
                match std_char_from_u32(v) {
                    Some(c) => Some((he + 1, c)),
                    None => None,
                }
            } else {
                None
            }
        } else {
            None
        }
    } else {
        None
    }
}

proof fn lemma_code_point_char(c: char, v: u32)
    requires
        c as u32 == v,
    ensures
        v as char == c,
{
}

proof fn lemma_pow16_mono(a: int, b: int)
    requires
        0 <= a <= b,
    ensures
        pow16(a) <= pow16(b),
    decreases b - a,
{
    if a < b {
        lemma_pow16_mono(a, b - 1);
    }
}

/// The value of the hexadecimal digits `s[a..b]`, of which there are at most six.
fn hex_value(s: &[char], a: usize, b: usize) -> (r: u32)
    requires
        a <= b <= s@.len(),
        digits_value(s@, a as int, b as int, 16) < 0x1000000,
        forall|k: int| a <= k < b ==> crate::chars::is_hex_digit(#[trigger] s@[k]),
    ensures
        r == digits_value(s@, a as int, b as int, 16),
{
    let mut acc: u32 = 0;
    let mut i = a;
    while i < b
        invariant
            a <= i <= b <= s@.len(),
            digits_value(s@, a as int, b as int, 16) < 0x1000000,
            acc == digits_value(s@, a as int, i as int, 16),
        decreases b - i,
    {
        proof {
            lemma_digits_value_prefix(s@, a as int, i + 1, b as int);
        }
        let c = s[i];
        let d: u32 = if '0' <= c && c <= '9' {
            c as u32 - '0' as u32
        } else if 'a' <= c && c <= 'f' {
            c as u32 - 'a' as u32 + 10
        } else if 'A' <= c && c <= 'F' {
            c as u32 - 'A' as u32 + 10
        } else {
            0
        };
        acc = acc * 16 + d;
        i = i + 1;
    }
    acc
}

/// A prefix of a hexadecimal number is no larger than the number.
proof fn lemma_digits_value_prefix(s: Seq<char>, a: int, c: int, b: int)
    requires
        a <= c <= b,
    ensures
        digits_value(s, a, c, 16) <= digits_value(s, a, b, 16),
    decreases b - c,
{
    if c < b {
        lemma_digits_value_prefix(s, a, c, b - 1);
    }
}

fn escaped_at(s: &[char], i: usize) -> (r: Option<(usize, char)>)
    requires
        i <= s@.len(),
    ensures
        r is Some <==> spec_escaped(s@, i as int) is Some,
        r matches Some((e, c)) ==> spec_escaped(s@, i as int) == Some((e as int, c)),
{
    proof {
        if i + 1 <= s@.len() {
            lemma_unicode_bounds(s@, i + 1);
        }
    }
    if i < s.len() && i + 1 < s.len() && s[i] == '\\' {
        match unicode_at(s, i + 1) {
            Some((e, c)) => {
                proof {
                    let v = spec_unicode(s@, i + 1).unwrap().1;
                    lemma_code_point_char(c, v as u32);
                }
                Some((e, c))
            },
            None => match escape_letter(s[i + 1]) {
                Some(c) => Some((i + 2, c)),
                None => None,
            },
        }
    } else {
        None
    }
}

/// Reads the fragments from `i` on and appends what they stand for to `out`; returns their end.
fn fragments_at(s: &[char], i: usize, q: QuoteType, out: &mut String) -> (e: usize)
    requires
        i <= s@.len(),
    ensures
        e == spec_fragments(s@, i as int, q).0,
        final(out)@ == old(out)@ + spec_fragments(s@, i as int, q).1,
{
    let cls = match q {
        QuoteType::Single => CharClass::SingleQuoted,
        QuoteType::Double => CharClass::DoubleQuoted,
        QuoteType::Unquoted => CharClass::Unquoted,
    };
    let ghost out0 = out@;
    let mut j = i;
    loop
        invariant
            i <= j <= s@.len(),
            cls == literal_class(q),
            spec_fragments(s@, i as int, q).0 == spec_fragments(s@, j as int, q).0,
            old(out)@ + spec_fragments(s@, i as int, q).1 == out@ + spec_fragments(
                s@,
                j as int,
                q,
            ).1,
        ensures
            j == spec_fragments(s@, i as int, q).0,
            old(out)@ + spec_fragments(s@, i as int, q).1 == out@,
        decreases s@.len() - j,
    {
        if j >= s.len() {
            assert(out@ + seq![] =~= out@);
            break;
        }
        proof {
            lemma_fragment_bounds(s@, j as int, q);
        }
        let e = scan(s, j, cls);
        if e > j {
            let ghost before = out@;
            let mut k = j;
            while k < e
                invariant
                    j <= k <= e <= s@.len(),
                    out@ == before + s@.subrange(j as int, k as int),
                decreases e - k,
            {
                push_char(out, s[k]);
                k = k + 1;
                assert(out@ =~= before + s@.subrange(j as int, k as int));
            }
            proof {
                let rest = spec_fragments(s@, e as int, q).1;
                assert(before + (s@.subrange(j as int, e as int) + rest) =~= (before + s@.subrange(
                    j as int,
                    e as int,
                )) + rest);
            }
            j = e;
        } else {
            match escaped_at(s, j) {
                Some((e2, c)) => {
                    let ghost before = out@;
                    push_char(out, c);
                    proof {
                        let rest = spec_fragments(s@, e2 as int, q).1;
                        assert(before + (seq![c] + rest) =~= (before.push(c)) + rest);
                    }
                    j = e2;
                },
                None => {
                    assert(out@ + seq![] =~= out@);
                    break;
                },
            }
        }
    }
    j
}

/// Reads a quoted string at `i` (see `spec_quoted_string`).
pub fn quoted_string_at(s: &[char], i: usize) -> (r: Option<(usize, String)>)
    requires
        i <= s@.len(),
    ensures
        r is Some <==> spec_quoted_string(s@, i as int) is Some,
        r matches Some((e, t)) ==> spec_quoted_string(s@, i as int) == Some((e as int, t@)),
{
    if i < s.len() && (s[i] == '\'' || s[i] == '"') {
        let q = if s[i] == '\'' {
            QuoteType::Single
        } else {
            QuoteType::Double
        };
        let mut out = String::new();
        let e = fragments_at(s, i + 1, q, &mut out);
        proof {
            lemma_fragments_bounds(s@, i + 1, q);
            assert(out@ =~= spec_fragments(s@, i + 1, q).1);
        }
        if e < s.len() && s[e] == s[i] {
            Some((e + 1, out))
        } else {
            None
        }
    } else {
        None
    }
}

/// Reads an unquoted string at `i` (see `spec_unquoted_string`).
pub fn unquoted_string_at(s: &[char], i: usize) -> (r: Option<(usize, String)>)
    requires
        i <= s@.len(),
    ensures
        r is Some <==> spec_unquoted_string(s@, i as int) is Some,
        r matches Some((e, t)) ==> spec_unquoted_string(s@, i as int) == Some((e as int, t@)),
{
    let mut out = String::new();
    let e = fragments_at(s, i, QuoteType::Unquoted, &mut out);
    proof {
        assert(out@ =~= spec_fragments(s@, i as int, QuoteType::Unquoted).1);
    }
    if !out.as_str().is_empty() {
        Some((e, out))
    } else {
        None
    }
}

/// Reads a string at `i` (see `spec_string`).
pub fn string_at(s: &[char], i: usize) -> (r: Option<(usize, String)>)
    requires
        i <= s@.len(),
    ensures
        r is Some <==> spec_string(s@, i as int) is Some,
        r matches Some((e, t)) ==> spec_string(s@, i as int) == Some((e as int, t@)) && i < e
            <= s@.len(),
{
    proof {
        lemma_string_bounds(s@, i as int);
    }
    match quoted_string_at(s, i) {
        Some(r) => Some(r),
        None => unquoted_string_at(s, i),
    }
}

/// A string ends after where it starts, within the input.
pub proof fn lemma_string_bounds(s: Seq<char>, i: int)
    requires
        0 <= i <= s.len(),
    ensures
        spec_string(s, i) matches Some((e, t)) ==> i < e <= s.len(),
{
    if i < s.len() {
        lemma_fragments_bounds(s, i + 1, QuoteType::Single);
        lemma_fragments_bounds(s, i + 1, QuoteType::Double);
    }
    lemma_fragments_bounds(s, i, QuoteType::Unquoted);
    if spec_fragments(s, i, QuoteType::Unquoted).1.len() > 0 {
        if spec_fragments(s, i, QuoteType::Unquoted).0 == i {
            lemma_fragments_empty(s, i, QuoteType::Unquoted);
        }
    }
}

/// Fragments that end where they start stand for no characters.
proof fn lemma_fragments_empty(s: Seq<char>, i: int, q: QuoteType)
    requires
        0 <= i <= s.len(),
        spec_fragments(s, i, q).0 == i,
    ensures
        spec_fragments(s, i, q).1.len() == 0,
{
    if i < s.len() {
        lemma_fragment_bounds(s, i, q);
        if let Some((e, t)) = spec_fragment(s, i, q) {
            lemma_fragments_bounds(s, e, q);
        }
    }
}

/// Parses a quoted string at the start of `input` and advances `input` past it.
///
/// The first character chooses the quote: `'` or `"`; the string ends at the next unescaped
/// occurrence of the same quote. On failure `input` is left as it was.
pub fn parse_quoted_string<'a>(input: &mut &'a str) -> (r: Result<String, ParseError>)
    ensures
        match spec_quoted_string(old(input)@, 0) {
            Some((e, t)) => r matches Ok(v) && v@ == t && final(input)@ == old(input)@.skip(e),
            None => r == Err::<String, ParseError>(ParseError { offset: 0, kind: ErrorKind::String })
                && final(input)@ == old(input)@,
        },
{
    let text: &'a str = *input;
    let s = to_chars(text);
    match quoted_string_at(&s, 0) {
        Some((e, v)) => {
            proof {
                lemma_fragments_bounds(s@, 1, QuoteType::Single);
                lemma_fragments_bounds(s@, 1, QuoteType::Double);
            }
            *input = skip_chars(text, e, s.len());
            Ok(v)
        },
        None => Err(ParseError { offset: 0, kind: ErrorKind::String }),
    }
}

/// Parses an unquoted string at the start of `input` and advances `input` past it.
///
/// The string is non-empty, and ends at whitespace, at a quote, or at a backslash that starts
/// no escape sequence. On failure `input` is left as it was.
pub fn parse_unquoted_string<'a>(input: &mut &'a str) -> (r: Result<String, ParseError>)
    ensures
        match spec_unquoted_string(old(input)@, 0) {
            Some((e, t)) => r matches Ok(v) && v@ == t && final(input)@ == old(input)@.skip(e),
            None => r == Err::<String, ParseError>(ParseError { offset: 0, kind: ErrorKind::String })
                && final(input)@ == old(input)@,
        },
{
    let text: &'a str = *input;
    let s = to_chars(text);
    match unquoted_string_at(&s, 0) {
        Some((e, v)) => {
            proof {
                lemma_fragments_bounds(s@, 0, QuoteType::Unquoted);
            }
            *input = skip_chars(text, e, s.len());
            Ok(v)
        },
        None => Err(ParseError { offset: 0, kind: ErrorKind::String }),
    }
}

/// Parses a quoted string, or else an unquoted one, at the start of `input` and advances `input`
/// past it. On failure `input` is left as it was.
pub fn parse_string<'a>(input: &mut &'a str) -> (r: Result<String, ParseError>)
    ensures
        match spec_string(old(input)@, 0) {
            Some((e, t)) => r matches Ok(v) && v@ == t && final(input)@ == old(input)@.skip(e),
            None => r == Err::<String, ParseError>(ParseError { offset: 0, kind: ErrorKind::String })
                && final(input)@ == old(input)@,
        },
{
    let text: &'a str = *input;
    let s = to_chars(text);
    match string_at(&s, 0) {
        Some((e, v)) => {
            *input = skip_chars(text, e, s.len());
            Ok(v)
        },
        None => Err(ParseError { offset: 0, kind: ErrorKind::String }),
    }
}

} // verus!

verus! {

/// Whether `c` is written as an escape inside a string with the given delimiter: line feed,
/// carriage return, tab, backslash, and the quote of a quoted string.
pub open spec fn escaped_in(c: char, q: QuoteType) -> bool {
    ||| c == '\n'
    ||| c == '\r'
    ||| c == '\t'
    ||| c == '\\'
    ||| (q == QuoteType::Single && c == '\'')
    ||| (q == QuoteType::Double && c == '"')
}

/// The letter that follows the backslash in the escape of `c`.
pub open spec fn escape_mark(c: char) -> char {
    if c == '\n' {
        'n'
    } else if c == '\r' {
        'r'
    } else if c == '\t' {
        't'
    } else {
        c
    }
}

/// How `c` is written inside a string with the given delimiter.
pub open spec fn char_text(c: char, q: QuoteType) -> Seq<char> {
    if escaped_in(c, q) {
        seq!['\\', escape_mark(c)]
    } else {
        seq![c]
    }
}

/// How the characters `t` are written inside a string with the given delimiter.
pub open spec fn body_text(t: Seq<char>, q: QuoteType) -> Seq<char>
    decreases t.len(),
{
    if t.len() == 0 {
        seq![]
    } else {
        char_text(t[0], q) + body_text(t.drop_first(), q)
    }
}

/// Whether the characters `t` can be written inside a string with the given delimiter: none is
/// the null character, and each is escaped or may stand in a literal run.
pub open spec fn writable(t: Seq<char>, q: QuoteType) -> bool {
    forall|k: int|
        0 <= k < t.len() ==> #[trigger] t[k] != '\0' && (escaped_in(t[k], q) || literal_class(
            q,
        ).contains(t[k]))
}

/// The delimiter of a string quoted with `q`.
pub open spec fn quote_type(q: char) -> QuoteType {
    if q == '\'' {
        QuoteType::Single
    } else {
        QuoteType::Double
    }
}

/// `t` written as a string quoted with `q` (`'` or `"`).
pub open spec fn quoted_text(t: Seq<char>, q: char) -> Seq<char> {
    seq![q] + body_text(t, quote_type(q)) + seq![q]
}

/// The number of characters at the start of `t` that are written as themselves.
pub open spec fn plain_len(t: Seq<char>, q: QuoteType) -> nat
    decreases t.len(),
{
    if t.len() == 0 || escaped_in(t[0], q) {
        0
    } else {
        1 + plain_len(t.drop_first(), q)
    }
}

/// The characters written as themselves come first, then the rest is written on.
proof fn lemma_body_plain_prefix(t: Seq<char>, q: QuoteType)
    ensures
        plain_len(t, q) <= t.len(),
        body_text(t, q) == t.take(plain_len(t, q) as int) + body_text(t.skip(plain_len(t, q) as int), q),
        forall|k: int| 0 <= k < plain_len(t, q) ==> !escaped_in(#[trigger] t[k], q),
        plain_len(t, q) < t.len() ==> escaped_in(t[plain_len(t, q) as int], q),
    decreases t.len(),
{
    if t.len() == 0 {
        assert(t.take(0) =~= Seq::<char>::empty());
        assert(t.skip(0) =~= t);
    } else if escaped_in(t[0], q) {
        assert(t.take(0) =~= Seq::<char>::empty());
        assert(t.skip(0) =~= t);
    } else {
        let r = t.drop_first();
        lemma_body_plain_prefix(r, q);
        let m = plain_len(r, q) as int;
        assert(t.take(m + 1) =~= seq![t[0]] + r.take(m));
        assert(t.skip(m + 1) =~= r.skip(m));
        assert forall|k: int| 0 <= k < m + 1 implies !escaped_in(#[trigger] t[k], q) by {
            if k > 0 {
                assert(t[k] == r[k - 1]);
            }
        }
        if m + 1 < t.len() {
            assert(t[m + 1] == r[m]);
        }
    }
}

/// Where the written characters start with an escape, the first fragment is that escape, and
/// the rest are written after it.
proof fn lemma_escape_first(s: Seq<char>, i: int, t: Seq<char>, q: QuoteType)
    requires
        writable(t, q),
        t.len() > 0,
        escaped_in(t[0], q),
        0 <= i,
        i + body_text(t, q).len() <= s.len(),
        s.subrange(i, i + body_text(t, q).len()) == body_text(t, q),
    ensures
        spec_fragment(s, i, q) == Some((i + 2, seq![t[0]])),
        writable(t.drop_first(), q),
        body_text(t, q).len() == 2 + body_text(t.drop_first(), q).len(),
        s.subrange(i + 2, i + 2 + body_text(t.drop_first(), q).len()) == body_text(t.drop_first(), q),
{
    let b = body_text(t, q);
    let c = t[0];
    let r = t.drop_first();
    let br = body_text(r, q);
    assert(b == seq!['\\', escape_mark(c)] + br);
    assert(s.subrange(i, i + b.len())[0] == s[i]);
    assert(s.subrange(i, i + b.len())[1] == s[i + 1]);
    lemma_span_end_at(s, i, i, literal_class(q));
    assert(spec_unicode(s, i + 1) is None);
    assert(escape_char(escape_mark(c)) == Some(c));
    assert(writable(r, q)) by {
        assert forall|k: int| 0 <= k < r.len() implies #[trigger] r[k] != '\0' && (escaped_in(
            r[k],
            q,
        ) || literal_class(q).contains(r[k])) by {
            assert(r[k] == t[k + 1]);
        }
    }
    lemma_subrange_of(s, i, b, 2, b.len() as int);
    assert(b.subrange(2, b.len() as int) =~= br);
}

/// Where the written characters start with characters written as themselves, the first fragment
/// is the run of them, and the rest are written after it.
proof fn lemma_plain_first(s: Seq<char>, i: int, t: Seq<char>, q: QuoteType)
    requires
        writable(t, q),
        t.len() > 0,
        !escaped_in(t[0], q),
        0 <= i,
        i + body_text(t, q).len() <= s.len(),
        s.subrange(i, i + body_text(t, q).len()) == body_text(t, q),
        i + body_text(t, q).len() == s.len() || (!literal_class(q).contains(
            s[i + body_text(t, q).len()],
        ) && s[i + body_text(t, q).len()] != '\\'),
    ensures
        ({
            let m = plain_len(t, q) as int;
            &&& 0 < m <= t.len()
            &&& spec_fragment(s, i, q) == Some((i + m, t.take(m)))
            &&& writable(t.skip(m), q)
            &&& body_text(t, q).len() == m + body_text(t.skip(m), q).len()
            &&& s.subrange(i + m, i + m + body_text(t.skip(m), q).len()) == body_text(t.skip(m), q)
        }),
{
    let b = body_text(t, q);
    let n = b.len() as int;
    lemma_body_plain_prefix(t, q);
    let m = plain_len(t, q) as int;
    let rest = t.skip(m);
    let br = body_text(rest, q);
    assert(b == t.take(m) + br);
    lemma_subrange_of(s, i, b, 0, m);
    assert(b.subrange(0, m) =~= t.take(m));
    lemma_subrange_of(s, i, b, m, n);
    assert(b.subrange(m, n) =~= br);
    assert(writable(rest, q)) by {
        assert forall|k: int| 0 <= k < rest.len() implies #[trigger] rest[k] != '\0' && (escaped_in(
            rest[k],
            q,
        ) || literal_class(q).contains(rest[k])) by {
            assert(rest[k] == t[m + k]);
        }
    }
    assert forall|k: int| i <= k < i + m implies literal_class(q).contains(#[trigger] s[k]) by {
        assert(s.subrange(i, i + m)[k - i] == s[k]);
        assert(t.take(m)[k - i] == t[k - i]);
        assert(!escaped_in(t[k - i], q));
    }
    if rest.len() > 0 {
        assert(rest[0] == t[m]);
        assert(br == char_text(rest[0], q) + body_text(rest.drop_first(), q));
        assert(s.subrange(i + m, i + n)[0] == s[i + m]);
    }
    lemma_span_end_at(s, i, i + m, literal_class(q));
}

/// Written characters that the end of the input, or a character that neither continues a
/// literal run nor starts an escape, follows read back as themselves.
proof fn lemma_body_fragments(s: Seq<char>, i: int, t: Seq<char>, q: QuoteType)
    requires
        writable(t, q),
        0 <= i,
        i + body_text(t, q).len() <= s.len(),
        s.subrange(i, i + body_text(t, q).len()) == body_text(t, q),
        i + body_text(t, q).len() == s.len() || (!literal_class(q).contains(
            s[i + body_text(t, q).len()],
        ) && s[i + body_text(t, q).len()] != '\\'),
    ensures
        spec_fragments(s, i, q) == (i + body_text(t, q).len(), t),
    decreases t.len(),
{
    if t.len() == 0 {
        if i < s.len() {
            lemma_span_end_at(s, i, i, literal_class(q));
        }
    } else if escaped_in(t[0], q) {
        lemma_escape_first(s, i, t, q);
        lemma_body_fragments(s, i + 2, t.drop_first(), q);
        assert(seq![t[0]] + t.drop_first() =~= t);
    } else {
        lemma_plain_first(s, i, t, q);
        let m = plain_len(t, q) as int;
        lemma_body_fragments(s, i + m, t.skip(m), q);
        assert(t.take(m) + t.skip(m) =~= t);
    }
}

/// A string written between quotes reads back as itself, wherever it stands in the input.
pub proof fn lemma_quoted_string_round_trip(s: Seq<char>, i: int, t: Seq<char>, q: char)
    requires
        q == '\'' || q == '"',
        forall|k: int| 0 <= k < t.len() ==> t[k] != '\0',
        0 <= i,
        i + quoted_text(t, q).len() <= s.len(),
        s.subrange(i, i + quoted_text(t, q).len()) == quoted_text(t, q),
    ensures
        spec_string(s, i) == Some((i + quoted_text(t, q).len(), t)),
{
    let qt = quote_type(q);
    let w = quoted_text(t, q);
    let b = body_text(t, qt);
    assert forall|k: int| 0 <= k < w.len() implies s[i + k] == w[k] by {
        assert(s.subrange(i, i + w.len())[k] == s[i + k]);
    }
    assert(w[0] == q);
    assert(s.subrange(i, i + w.len())[0] == s[i]);
    assert(s[i + 1 + b.len()] == w[1 + b.len() as int]);
    assert(writable(t, qt));
    assert(s.subrange(i + 1, i + 1 + b.len()) =~= b) by {
        assert forall|k: int| 0 <= k < b.len() implies s.subrange(i + 1, i + 1 + b.len())[k]
            == b[k] by {
            assert(s[i + 1 + k] == w[1 + k]);
        }
    }
    lemma_body_fragments(s, i + 1, t, qt);
}

/// A string written without quotes reads back as itself, wherever it stands in the input, where
/// whitespace or the end of the input follows it: it is not empty, starts with no quote, and each
/// character is escaped or may stand in an unquoted literal run.
pub proof fn lemma_unquoted_string_round_trip(s: Seq<char>, i: int, t: Seq<char>)
    requires
        t.len() > 0,
        writable(t, QuoteType::Unquoted),
        0 <= i,
        i + body_text(t, QuoteType::Unquoted).len() <= s.len(),
        s.subrange(i, i + body_text(t, QuoteType::Unquoted).len()) == body_text(t, QuoteType::Unquoted),
        i + body_text(t, QuoteType::Unquoted).len() == s.len() || crate::chars::is_white_space(
            s[i + body_text(t, QuoteType::Unquoted).len()],
        ),
    ensures
        spec_string(s, i) == Some((i + body_text(t, QuoteType::Unquoted).len(), t)),
{
    let b = body_text(t, QuoteType::Unquoted);
    assert(b == char_text(t[0], QuoteType::Unquoted) + body_text(t.drop_first(), QuoteType::Unquoted));
    assert(s[i] == b[0]) by {
        assert(s.subrange(i, i + b.len())[0] == s[i]);
    }
    assert(s[i] != '\'' && s[i] != '"');
    lemma_body_fragments(s, i, t, QuoteType::Unquoted);
}

} // verus!

verus! {

/// Characters that are not escaped in an unquoted string are written as themselves.
proof fn lemma_body_unescaped(t: Seq<char>, q: QuoteType)
    requires
        forall|k: int| 0 <= k < t.len() ==> !escaped_in(#[trigger] t[k], q),
    ensures
        body_text(t, q) == t,
    decreases t.len(),
{
    if t.len() > 0 {
        assert(!escaped_in(t[0], q));
        assert forall|k: int| 0 <= k < t.drop_first().len() implies !escaped_in(
            #[trigger] t.drop_first()[k],
            q,
        ) by {
            assert(t.drop_first()[k] == t[k + 1]);
        }
        lemma_body_unescaped(t.drop_first(), q);
        assert(seq![t[0]] + t.drop_first() =~= t);
    }
}

/// A non-empty run of characters that are neither Unicode whitespace nor `"`, `'`, `\` or the
/// null character reads as an unquoted string holding exactly those characters, wherever it
/// stands in the input, where whitespace or the end of the input follows it.
pub proof fn lemma_unquoted_run_reads_itself(s: Seq<char>, i: int, t: Seq<char>)
    requires
        t.len() > 0,
        forall|k: int|
            0 <= k < t.len() ==> !crate::chars::is_white_space(#[trigger] t[k]) && t[k] != '"'
                && t[k] != '\'' && t[k] != '\\' && t[k] != '\0',
        0 <= i,
        i + t.len() <= s.len(),
        s.subrange(i, i + t.len()) == t,
        i + t.len() == s.len() || crate::chars::is_white_space(s[i + t.len()]),
    ensures
        spec_unquoted_string(s, i) == Some((i + t.len(), t)),
        spec_string(s, i) == Some((i + t.len(), t)),
{
    lemma_body_unescaped(t, QuoteType::Unquoted);
    assert(writable(t, QuoteType::Unquoted));
    lemma_unquoted_string_round_trip(s, i, t);
    assert(s.subrange(i, i + t.len())[0] == s[i]);
    assert(spec_quoted_string(s, i) is None);
}

} // verus!
