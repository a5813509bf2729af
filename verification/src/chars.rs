//! Character classes of the SKV grammar, and maximal runs of characters of one class.
use vstd::prelude::*;

verus! {

/// The ASCII whitespace characters that separate items: space, tab, carriage return, line feed.
pub open spec fn is_multispace(c: char) -> bool {
    c == ' ' || c == '\t' || c == '\r' || c == '\n'
}

/// The characters with the Unicode `White_Space` property.
pub open spec fn is_white_space(c: char) -> bool {
    ||| ('\u{9}' <= c && c <= '\u{d}')
    ||| c == ' '
    ||| c == '\u{85}'
    ||| c == '\u{a0}'
    ||| c == '\u{1680}'
    ||| ('\u{2000}' <= c && c <= '\u{200a}')
    ||| c == '\u{2028}'
    ||| c == '\u{2029}'
    ||| c == '\u{202f}'
    ||| c == '\u{205f}'
    ||| c == '\u{3000}'
}

pub open spec fn is_ascii_digit(c: char) -> bool {
    '0' <= c && c <= '9'
}

pub open spec fn is_ascii_upper(c: char) -> bool {
    'A' <= c && c <= 'Z'
}

pub open spec fn is_ascii_lower(c: char) -> bool {
    'a' <= c && c <= 'z'
}

pub open spec fn is_ascii_alpha(c: char) -> bool {
    is_ascii_upper(c) || is_ascii_lower(c)
}

pub open spec fn is_ascii_alnum(c: char) -> bool {
    is_ascii_alpha(c) || is_ascii_digit(c)
}

pub open spec fn is_hex_digit(c: char) -> bool {
    is_ascii_digit(c) || ('a' <= c && c <= 'f') || ('A' <= c && c <= 'F')
}

pub open spec fn is_oct_digit(c: char) -> bool {
    '0' <= c && c <= '7'
}

pub open spec fn is_bin_digit(c: char) -> bool {
    c == '0' || c == '1'
}

/// A character that may appear in a key part.
pub open spec fn is_key_char(c: char) -> bool {
    is_ascii_alnum(c) || c == '_'
}

/// A character that may start a key part: a key character that is not a digit.
pub open spec fn is_key_start(c: char) -> bool {
    is_ascii_alpha(c) || c == '_'
}

/// The lowercase form of an ASCII letter; any other character is unchanged.
pub open spec fn ascii_lower(c: char) -> char {
    if is_ascii_upper(c) {
        (c as u32 + 32) as char
    } else {
        c
    }
}

/// The value of a digit character in the given radix (2, 8, 10 or 16).
pub open spec fn digit_value(c: char) -> nat {
    if is_ascii_digit(c) {
        (c as u32 - '0' as u32) as nat
    } else if 'a' <= c && c <= 'f' {
        (c as u32 - 'a' as u32 + 10) as nat
    } else if 'A' <= c && c <= 'F' {
        (c as u32 - 'A' as u32 + 10) as nat
    } else {
        0
    }
}

/// What `char::is_alphanumeric` returns for `c` (Unicode `Alphabetic` or `Numeric`).
pub uninterp spec fn char_is_alphanumeric(c: char) -> bool;

/// Calls `char::is_alphanumeric`, whose result is named `char_is_alphanumeric`.
#[verifier::external_body]
fn std_is_alphanumeric(c: char) -> (r: bool)
    ensures
        r == char_is_alphanumeric(c),
{
    c.is_alphanumeric()
}

/// Calls `char::from_u32`, which gives the character with the code point `v`,
/// or `None` where `v` is no Unicode scalar value (above 0x10FFFF, or a surrogate).
#[verifier::external_body]
pub(crate) fn std_char_from_u32(v: u32) -> (r: Option<char>)
    ensures
        (v <= 0x10FFFF && !(0xD800 <= v && v <= 0xDFFF)) <==> r is Some,
        r matches Some(c) ==> c as u32 == v,
{
    char::from_u32(v)
}

/// The classes of characters over which the grammar takes maximal runs.
#[derive(Clone, Copy, PartialEq, Eq, Debug)]
pub enum CharClass {
    Multispace,
    WhiteSpace,
    KeyChar,
    DecDigit,
    HexDigit,
    OctDigit,
    BinDigit,
    /// Characters of a literal run inside a single-quoted string.
    SingleQuoted,
    /// Characters of a literal run inside a double-quoted string.
    DoubleQuoted,
    /// Characters of a literal run of an unquoted string.
    Unquoted,
    /// Characters that `char::is_alphanumeric` accepts, and `_`.
    AlnumOrUnderscore,
}

impl CharClass {
    pub open spec fn contains(self, c: char) -> bool {
        match self {
            CharClass::Multispace => is_multispace(c),
            CharClass::WhiteSpace => is_white_space(c),
            CharClass::KeyChar => is_key_char(c),
            CharClass::DecDigit => is_ascii_digit(c),
            CharClass::HexDigit => is_hex_digit(c),
            CharClass::OctDigit => is_oct_digit(c),
            CharClass::BinDigit => is_bin_digit(c),
            CharClass::SingleQuoted => c != '\'' && c != '\\' && c != '\0',
            CharClass::DoubleQuoted => c != '"' && c != '\\' && c != '\0',
            CharClass::Unquoted => !is_white_space(c) && c != '"' && c != '\'' && c != '\\'
                && c != '\0',
            CharClass::AlnumOrUnderscore => char_is_alphanumeric(c) || c == '_',
        }
    }

    /// Whether `c` belongs to this class.
    pub fn has(self, c: char) -> (r: bool)
        ensures
            r == self.contains(c),
    {
        match self {
            CharClass::Multispace => multispace(c),
            CharClass::WhiteSpace => white_space(c),
            CharClass::KeyChar => ('a' <= c && c <= 'z') || ('A' <= c && c <= 'Z') || ('0' <= c
                && c <= '9') || c == '_',
            CharClass::DecDigit => '0' <= c && c <= '9',
            CharClass::HexDigit => ('0' <= c && c <= '9') || ('a' <= c && c <= 'f') || ('A' <= c
                && c <= 'F'),
            CharClass::OctDigit => '0' <= c && c <= '7',
            CharClass::BinDigit => c == '0' || c == '1',
            CharClass::SingleQuoted => c != '\'' && c != '\\' && c != '\0',
            CharClass::DoubleQuoted => c != '"' && c != '\\' && c != '\0',
            CharClass::Unquoted => !white_space(c) && c != '"' && c != '\'' && c != '\\' && c
                != '\0',
            CharClass::AlnumOrUnderscore => std_is_alphanumeric(c) || c == '_',
        }
    }
}

/// Whether `c` is one of the ASCII whitespace characters that separate items.
pub fn multispace(c: char) -> (r: bool)
    ensures
        r == is_multispace(c),
{
    c == ' ' || c == '\t' || c == '\r' || c == '\n'
}

/// Whether `c` has the Unicode `White_Space` property, as `char::is_whitespace` decides.
pub fn white_space(c: char) -> (r: bool)
    ensures
        r == is_white_space(c),
{
    ('\u{9}' <= c && c <= '\u{d}') || c == ' ' || c == '\u{85}' || c == '\u{a0}' || c == '\u{1680}'
        || ('\u{2000}' <= c && c <= '\u{200a}') || c == '\u{2028}' || c == '\u{2029}' || c
        == '\u{202f}' || c == '\u{205f}' || c == '\u{3000}'
}

/// The end of the maximal run of characters of class `cls` that starts at `i`.
pub open spec fn span_end(s: Seq<char>, i: int, cls: CharClass) -> int
    decreases s.len() - i,
{
    if 0 <= i < s.len() && cls.contains(s[i]) {
        span_end(s, i + 1, cls)
    } else {
        i
    }
}

/// A run ends no earlier than it starts and no later than the input, holds only characters
/// of its class, and stops at the end of the input or at a character outside the class.
pub proof fn lemma_span_end(s: Seq<char>, i: int, cls: CharClass)
    requires
        0 <= i <= s.len(),
    ensures
        i <= span_end(s, i, cls) <= s.len(),
        forall|k: int| i <= k < span_end(s, i, cls) ==> cls.contains(#[trigger] s[k]),
        span_end(s, i, cls) == s.len() || !cls.contains(s[span_end(s, i, cls)]),
    decreases s.len() - i,
{
    if i < s.len() && cls.contains(s[i]) {
        lemma_span_end(s, i + 1, cls);
    }
}

/// A run of characters of class `cls` from `i` to `e` that the end of the input or a character
/// outside the class follows is the maximal one.
pub proof fn lemma_span_end_at(s: Seq<char>, i: int, e: int, cls: CharClass)
    requires
        0 <= i <= e <= s.len(),
        forall|k: int| i <= k < e ==> cls.contains(#[trigger] s[k]),
        e == s.len() || !cls.contains(s[e]),
    ensures
        span_end(s, i, cls) == e,
    decreases e - i,
{
    if i < e {
        lemma_span_end_at(s, i + 1, e, cls);
    }
}

/// A run within a text `t` that stands at `j` in `s`, where what follows `t` is outside the class,
/// ends where it ends in `t`.
pub proof fn lemma_span_end_shift(s: Seq<char>, j: int, t: Seq<char>, a: int, cls: CharClass)
    requires
        0 <= j,
        j + t.len() <= s.len(),
        s.subrange(j, j + t.len()) == t,
        0 <= a <= t.len(),
        j + t.len() == s.len() || !cls.contains(s[j + t.len()]),
    ensures
        span_end(s, j + a, cls) == j + span_end(t, a, cls),
{
    lemma_span_end(t, a, cls);
    let e = span_end(t, a, cls);
    assert forall|k: int| j + a <= k < j + e implies cls.contains(#[trigger] s[k]) by {
        assert(s.subrange(j, j + t.len())[k - j] == s[k]);
    }
    if e < t.len() {
        assert(s.subrange(j, j + t.len())[e] == s[j + e]);
    }
    lemma_span_end_at(s, j + a, j + e, cls);
}

/// A run in `s` that ends within `s[i..e]` ends at the same place in `s[i..e]`.
pub proof fn lemma_span_end_sub(s: Seq<char>, i: int, e: int, a: int, cls: CharClass)
    requires
        0 <= i <= i + a <= e <= s.len(),
        span_end(s, i + a, cls) <= e,
    ensures
        span_end(s.subrange(i, e), a, cls) == span_end(s, i + a, cls) - i,
{
    lemma_span_end(s, i + a, cls);
    let r = span_end(s, i + a, cls);
    let t = s.subrange(i, e);
    assert forall|k: int| a <= k < r - i implies cls.contains(#[trigger] t[k]) by {
        assert(t[k] == s[i + k]);
    }
    if r < e {
        assert(t[r - i] == s[r]);
    }
    lemma_span_end_at(t, a, r - i, cls);
}

/// Scans the maximal run of characters of class `cls` from `i`; returns where it ends.
pub fn scan(s: &[char], i: usize, cls: CharClass) -> (e: usize)
    requires
        i <= s@.len(),
    ensures
        e == span_end(s@, i as int, cls),
        i <= e <= s@.len(),
{
    let mut j = i;
    while j < s.len() && cls.has(s[j])
        invariant
            i <= j <= s@.len(),
            span_end(s@, i as int, cls) == span_end(s@, j as int, cls),
        decreases s@.len() - j,
    {
        j = j + 1;
    }
    j
}

} // verus!
