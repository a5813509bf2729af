//! Decimal floating-point numbers, written as `f64`'s `FromStr` reads them.
//!
//! A trailing exponent letter without digits (`1.5e`) is not part of the number: the number
//! ends before it. NaN and infinity are `nan`, `inf` and `infinity`, in any case, and may be
//! prefixed with `\$` (`\$nan`, `-\$inf`).
use vstd::prelude::*;

use crate::chars::{
    lemma_span_end, lemma_span_end_at, lemma_span_end_shift, lemma_span_end_sub, scan, span_end,
    CharClass,
};
use crate::error::{ErrorKind, ParseError};
use crate::primitives::boolean::{caseless_at, matches_caseless};
use crate::text::{skip_chars, string_of, to_chars};

verus! {

pub open spec fn is_sign(c: char) -> bool {
    c == '+' || c == '-'
}

/// The digits and point of a number at `j`: digits with an optional point and optional
/// fraction digits, or a point followed by digits; where it ends.
pub open spec fn spec_mantissa_end(s: Seq<char>, j: int) -> Option<int> {
    let d = span_end(s, j, CharClass::DecDigit);
    if d > j {
        if d < s.len() && s[d] == '.' {
            Some(span_end(s, d + 1, CharClass::DecDigit))
        } else {
            Some(d)
        }
    } else if 0 <= j && j + 1 < s.len() && s[j] == '.' && span_end(s, j + 1, CharClass::DecDigit)
        > j + 1 {
        Some(span_end(s, j + 1, CharClass::DecDigit))
    } else {
        None
    }
}

/// Where an optional exponent at `k` ends: `e` or `E`, an optional sign and at least one digit;
/// without digits there is no exponent and the result is `k`.
pub open spec fn spec_exponent_end(s: Seq<char>, k: int) -> int {
    if 0 <= k < s.len() && (s[k] == 'e' || s[k] == 'E') {
        let m = if k + 1 < s.len() && is_sign(s[k + 1]) {
            k + 2
        } else {
            k + 1
        };
        if span_end(s, m, CharClass::DecDigit) > m {
            span_end(s, m, CharClass::DecDigit)
        } else {
            k
        }
    } else {
        k
    }
}

/// Where a number at `i` ends: an optional sign, a mantissa and an optional exponent.
pub open spec fn spec_float_end(s: Seq<char>, i: int) -> Option<int> {
    let j = if 0 <= i < s.len() && is_sign(s[i]) {
        i + 1
    } else {
        i
    };
    match spec_mantissa_end(s, j) {
        Some(k) => Some(spec_exponent_end(s, k)),
        None => None,
    }
}

pub open spec fn nan_text() -> Seq<char> {
    seq!['n', 'a', 'n']
}

pub open spec fn inf_text() -> Seq<char> {
    seq!['i', 'n', 'f']
}

pub open spec fn infinity_text() -> Seq<char> {
    seq!['i', 'n', 'f', 'i', 'n', 'i', 't', 'y']
}

/// Where `nan`, `infinity` or `inf` (in any case, the first that matches) at `i` ends.
pub open spec fn spec_special_end(s: Seq<char>, i: int) -> Option<int> {
    if matches_caseless(s, i, nan_text()) {
        Some(i + 3)
    } else if matches_caseless(s, i, infinity_text()) {
        Some(i + 8)
    } else if matches_caseless(s, i, inf_text()) {
        Some(i + 3)
    } else {
        None
    }
}

/// Where a number, or else NaN or infinity, at `i` ends.
pub open spec fn spec_float_or_special_end(s: Seq<char>, i: int) -> Option<int> {
    match spec_float_end(s, i) {
        Some(e) => Some(e),
        None => spec_special_end(s, i),
    }
}

/// Whether the characters at `i` are `\$`.
pub open spec fn has_dollar_escape(s: Seq<char>, i: int) -> bool {
    0 <= i && i + 1 < s.len() && s[i] == '\\' && s[i + 1] == '$'
}

/// A double at `i`: where it ends, and the text that `f64`'s `FromStr` reads (without `\$`).
///
/// That is an optional `\$` and then a number, NaN or infinity; or a sign, `\$`, and NaN or
/// infinity.
pub open spec fn spec_double(s: Seq<char>, i: int) -> Option<(int, Seq<char>)> {
    if has_dollar_escape(s, i) {
        match spec_float_or_special_end(s, i + 2) {
            Some(e) => Some((e, s.subrange(i + 2, e))),
            None => None,
        }
    } else {
        match spec_float_or_special_end(s, i) {
            Some(e) => Some((e, s.subrange(i, e))),
            None => if 0 <= i < s.len() && is_sign(s[i]) && has_dollar_escape(s, i + 1) {
                match spec_special_end(s, i + 3) {
                    Some(e) => Some((e, seq![s[i]] + s.subrange(i + 3, e))),
                    None => None,
                }
            } else {
                None
            },
        }
    }
}

/// Whether `t` is, as a whole, the text of a double: a number, NaN or infinity, or a sign
/// followed by NaN or infinity.
pub open spec fn is_double_text(t: Seq<char>) -> bool {
    ||| spec_float_or_special_end(t, 0) == Some(t.len() as int)
    ||| (t.len() > 0 && is_sign(t[0]) && spec_special_end(t, 1) == Some(t.len() as int))
}

proof fn lemma_mantissa_bounds(s: Seq<char>, j: int)
    requires
        0 <= j <= s.len(),
    ensures
        spec_mantissa_end(s, j) matches Some(k) ==> j < k <= s.len(),
{
    lemma_span_end(s, j, CharClass::DecDigit);
    let d = span_end(s, j, CharClass::DecDigit);
    if d < s.len() {
        lemma_span_end(s, d + 1, CharClass::DecDigit);
    }
    if j + 1 < s.len() {
        lemma_span_end(s, j + 1, CharClass::DecDigit);
    }
}

proof fn lemma_exponent_bounds(s: Seq<char>, k: int)
    requires
        0 <= k <= s.len(),
    ensures
        k <= spec_exponent_end(s, k) <= s.len(),
{
    if k < s.len() {
        lemma_span_end(s, k + 1, CharClass::DecDigit);
        if k + 1 < s.len() {
            lemma_span_end(s, k + 2, CharClass::DecDigit);
        }
    }
}

pub proof fn lemma_float_or_special_bounds(s: Seq<char>, i: int)
    requires
        0 <= i <= s.len(),
    ensures
        spec_float_or_special_end(s, i) matches Some(e) ==> i < e <= s.len(),
        spec_special_end(s, i) matches Some(e) ==> i < e <= s.len(),
{
    if i < s.len() {
        lemma_mantissa_bounds(s, i + 1);
    }
    lemma_mantissa_bounds(s, i);
    let j = if 0 <= i < s.len() && is_sign(s[i]) {
        i + 1
    } else {
        i
    };
    if let Some(k) = spec_mantissa_end(s, j) {
        lemma_exponent_bounds(s, k);
    }
}

fn mantissa_end(s: &[char], j: usize) -> (r: Option<usize>)
    requires
        j <= s@.len(),
    ensures
        match spec_mantissa_end(s@, j as int) {
            Some(k) => r == Some(k as usize),
            None => r is None,
        },
{
    proof {
        lemma_mantissa_bounds(s@, j as int);
    }
    let d = scan(s, j, CharClass::DecDigit);
    if d > j {
        if d < s.len() && s[d] == '.' {
            Some(scan(s, d + 1, CharClass::DecDigit))
        } else {
            Some(d)
        }
    } else if j < s.len() && j + 1 < s.len() && s[j] == '.' {
        let e = scan(s, j + 1, CharClass::DecDigit);
        if e > j + 1 {
            Some(e)
        } else {
            None
        }
    } else {
        None
    }
}

fn exponent_end(s: &[char], k: usize) -> (r: usize)
    requires
        k <= s@.len(),
    ensures
        r == spec_exponent_end(s@, k as int),
{
    if k < s.len() && (s[k] == 'e' || s[k] == 'E') {
        let m = if k + 1 < s.len() && (s[k + 1] == '+' || s[k + 1] == '-') {
            k + 2
        } else {
            k + 1
        };
        let e = scan(s, m, CharClass::DecDigit);
        if e > m {
            e
        } else {
            k
        }
    } else {
        k
    }
}

fn float_end(s: &[char], i: usize) -> (r: Option<usize>)
    requires
        i <= s@.len(),
    ensures
        r is Some <==> spec_float_end(s@, i as int) is Some,
        r matches Some(e) ==> spec_float_end(s@, i as int) == Some(e as int) && i < e <= s@.len(),
{
    let j = if i < s.len() && (s[i] == '+' || s[i] == '-') {
        i + 1
    } else {
        i
    };
    proof {
        lemma_mantissa_bounds(s@, j as int);
        lemma_float_or_special_bounds(s@, i as int);
    }
    match mantissa_end(s, j) {
        Some(k) => Some(exponent_end(s, k)),
        None => None,
    }
}

fn special_end(s: &[char], i: usize) -> (r: Option<usize>)
    requires
        i <= s@.len(),
    ensures
        r is Some <==> spec_special_end(s@, i as int) is Some,
        r matches Some(e) ==> spec_special_end(s@, i as int) == Some(e as int) && e <= s@.len(),
{
    let nan = ['n', 'a', 'n'];
    let inf = ['i', 'n', 'f'];
    let infinity = ['i', 'n', 'f', 'i', 'n', 'i', 't', 'y'];
    assert(nan@ == nan_text());
    assert(inf@ == inf_text());
    assert(infinity@ == infinity_text());
    let n = s.len();
    if caseless_at(s, i, &nan) {
        Some(i + 3)
    } else if caseless_at(s, i, &infinity) {
        Some(i + 8)
    } else if caseless_at(s, i, &inf) {
        Some(i + 3)
    } else {
        None
    }
}

/// Where a number, NaN or infinity at `i` ends (see `spec_float_or_special_end`).
pub fn float_or_special_end(s: &[char], i: usize) -> (r: Option<usize>)
    requires
        i <= s@.len(),
    ensures
        r is Some <==> spec_float_or_special_end(s@, i as int) is Some,
        r matches Some(e) ==> spec_float_or_special_end(s@, i as int) == Some(e as int) && i < e
            <= s@.len(),
{
    proof {
        lemma_float_or_special_bounds(s@, i as int);
    }
    match float_end(s, i) {
        Some(e) => Some(e),
        None => special_end(s, i),
    }
}

fn dollar_escape_at(s: &[char], i: usize) -> (r: bool)
    requires
        i <= s@.len(),
    ensures
        r == has_dollar_escape(s@, i as int),
{
    i < s.len() && i + 1 < s.len() && s[i] == '\\' && s[i + 1] == '$'
}

/// The text of a double: a number, NaN or infinity, as `f64`'s `FromStr` reads it.
#[derive(Debug, PartialEq)]
pub struct DoubleLiteral {
    text: String,
}

impl View for DoubleLiteral {
    type V = Seq<char>;

    closed spec fn view(&self) -> Seq<char> {
        self.text@
    }
}

impl DoubleLiteral {
    #[verifier::type_invariant]
    closed spec fn inv(self) -> bool {
        is_double_text(self.text@)
    }

    /// The text of a double, where `s` as a whole is one (see `is_double_text`).
    pub fn new(s: &str) -> (r: Option<DoubleLiteral>)
        ensures
            is_double_text(s@) <==> r is Some,
            r matches Some(d) ==> d@ == s@,
    {
        let c = to_chars(s);
        let n = c.len();
        let whole = match float_or_special_end(&c, 0) {
            Some(e) => e == n,
            None => false,
        };
        let signed_special = n > 0 && (c[0] == '+' || c[0] == '-') && match special_end(&c, 1) {
            Some(e) => e == n,
            None => false,
        };
        if whole || signed_special {
            assert(c@.subrange(0, n as int) =~= c@);
            Some(DoubleLiteral { text: string_of(&c, 0, n) })
        } else {
            None
        }
    }

    /// The text of the double.
    pub fn as_str(&self) -> (r: &str)
        ensures
            r@ == self@,
            is_double_text(r@),
    {
        proof {
            use_type_invariant(self);
        }
        self.text.as_str()
    }

    /// Whether two doubles have the same text.
    pub fn same(&self, other: &DoubleLiteral) -> (r: bool)
        ensures
            r == (self@ == other@),
    {
        self.text == other.text
    }

    /// A copy of this double.
    pub fn copy(&self) -> (r: DoubleLiteral)
        ensures
            r@ == self@,
    {
        proof {
            use_type_invariant(self);
        }
        DoubleLiteral { text: self.text.clone() }
    }

    pub(crate) fn from_text(text: String) -> (r: DoubleLiteral)
        requires
            is_double_text(text@),
        ensures
            r@ == text@,
    {
        DoubleLiteral { text }
    }
}

impl Clone for DoubleLiteral {
    fn clone(&self) -> (r: DoubleLiteral)
        ensures
            r@ == self@,
    {
        self.copy()
    }
}

/// Reads a double at `i` (see `spec_double`); returns its end and its text.
pub fn double_at(s: &[char], i: usize) -> (r: Option<(usize, DoubleLiteral)>)
    requires
        i <= s@.len(),
    ensures
        r is Some <==> spec_double(s@, i as int) is Some,
        r matches Some((e, d)) ==> spec_double(s@, i as int) == Some((e as int, d@)) && i < e
            <= s@.len(),
{
    let n = s.len();
    proof {
        lemma_float_or_special_bounds(s@, i as int);
        if i + 3 <= s@.len() {
            lemma_float_or_special_bounds(s@, i + 3);
        }
        if spec_double(s@, i as int) is Some {
            lemma_double_text(s@, i as int);
        }
    }
    if dollar_escape_at(s, i) {
        match float_or_special_end(s, i + 2) {
            Some(e) => Some((e, DoubleLiteral::from_text(string_of(s, i + 2, e)))),
            None => None,
        }
    } else {
        match float_or_special_end(s, i) {
            Some(e) => Some((e, DoubleLiteral::from_text(string_of(s, i, e)))),
            None => {
                if i < s.len() && (s[i] == '+' || s[i] == '-') && dollar_escape_at(s, i + 1) {
                    match special_end(s, i + 3) {
                        Some(e) => {
                            let mut t = String::new();
                            crate::text::push_char(&mut t, s[i]);
                            let rest = string_of(s, i + 3, e);
                            t.append(rest.as_str());
                            assert(t@ =~= seq![s@[i as int]] + s@.subrange(i + 3, e as int));
                            Some((e, DoubleLiteral::from_text(t)))
                        },
                        None => None,
                    }
                } else {
                    None
                }
            },
        }
    }
}

/// Parses a number, NaN or infinity at the start of `input` and advances `input` past it.
///
/// On failure `input` is left as it was.
pub fn parse_double<'a>(input: &mut &'a str) -> (r: Result<DoubleLiteral, ParseError>)
    ensures
        match spec_float_or_special_end(old(input)@, 0) {
            Some(e) => r matches Ok(d) && d@ == old(input)@.subrange(0, e) && final(input)@ == old(
                input,
            )@.skip(e),
            None => r == Err::<DoubleLiteral, ParseError>(
                ParseError { offset: 0, kind: ErrorKind::Double },
            ) && final(input)@ == old(input)@,
        },
{
    let text: &'a str = *input;
    let s = to_chars(text);
    match float_or_special_end(&s, 0) {
        Some(e) => {
            proof {
                lemma_float_or_special_sub(s@, 0);
            }
            *input = skip_chars(text, e, s.len());
            Ok(DoubleLiteral::from_text(string_of(&s, 0, e)))
        },
        None => Err(ParseError { offset: 0, kind: ErrorKind::Double }),
    }
}

} // verus!

verus! {

/// Whether the characters at `i` spell a lowercase ASCII word, any case, read the same where the
/// text `t` that stands at `j` is followed by whitespace or the end of the input.
proof fn lemma_caseless_shift(s: Seq<char>, j: int, t: Seq<char>, lit: Seq<char>)
    requires
        0 <= j,
        j + t.len() <= s.len(),
        s.subrange(j, j + t.len()) == t,
        j + t.len() == s.len() || crate::chars::is_multispace(s[j + t.len()]),
        forall|k: int| 0 <= k < lit.len() ==> crate::chars::is_ascii_lower(#[trigger] lit[k]),
    ensures
        matches_caseless(s, j, lit) == matches_caseless(t, 0, lit),
{
    assert forall|k: int| 0 <= k < t.len() implies s[j + k] == t[k] by {
        assert(s.subrange(j, j + t.len())[k] == s[j + k]);
    }
    if matches_caseless(t, 0, lit) {
        assert forall|k: int| 0 <= k < lit.len() implies crate::chars::ascii_lower(#[trigger] s[j + k])
            == lit[k] by {
            assert(crate::chars::ascii_lower(t[0 + k]) == lit[k]);
        }
    }
    if matches_caseless(s, j, lit) && !matches_caseless(t, 0, lit) {
        if lit.len() <= t.len() {
            assert forall|k: int| 0 <= k < lit.len() implies crate::chars::ascii_lower(
                #[trigger] t[0 + k],
            ) == lit[k] by {
                assert(crate::chars::ascii_lower(s[j + k]) == lit[k]);
            }
        } else {
            let k = t.len() as int;
            assert(crate::chars::ascii_lower(s[j + k]) == lit[k]);
        }
    }
}

/// The number that a whole text reads as is read the same wherever the text stands in the input,
/// where whitespace or the end of the input follows it.
proof fn lemma_float_end_shift(s: Seq<char>, j: int, t: Seq<char>)
    requires
        spec_float_end(t, 0) == Some(t.len() as int),
        0 <= j,
        j + t.len() <= s.len(),
        s.subrange(j, j + t.len()) == t,
        j + t.len() == s.len() || crate::chars::is_multispace(s[j + t.len()]),
    ensures
        spec_float_end(s, j) == Some(j + t.len()),
{
    let n = t.len() as int;
    let dc = CharClass::DecDigit;
    assert forall|k: int| 0 <= k < n implies s[j + k] == t[k] by {
        assert(s.subrange(j, j + n)[k] == s[j + k]);
    }
    let x: int = if 0 < n && is_sign(t[0]) {
        1
    } else {
        0
    };
    if n > 0 {
        assert(s[j + 0] == t[0]);
    }
    lemma_span_end_shift(s, j, t, x, dc);
    lemma_span_end(t, x, dc);
    let d = span_end(t, x, dc);
    let k = spec_mantissa_end(t, x).unwrap();
    if d > x {
        if d < n && t[d] == '.' {
            assert(s[j + d] == t[d]);
            lemma_span_end_shift(s, j, t, d + 1, dc);
        } else if d < n {
            assert(s[j + d] == t[d]);
        }
    } else {
        assert(s[j + x] == t[x]);
        lemma_span_end_shift(s, j, t, x + 1, dc);
    }
    assert(spec_mantissa_end(s, j + x) == Some(j + k));
    lemma_mantissa_bounds(t, x);
    if k < n {
        assert(s[j + k] == t[k]);
        if k + 1 < n {
            assert(s[j + k + 1] == t[k + 1]);
            lemma_span_end_shift(s, j, t, k + 1, dc);
            if k + 2 <= n {
                lemma_span_end_shift(s, j, t, k + 2, dc);
            }
        } else {
            lemma_span_end(t, k + 1, dc);
        }
    }
}

/// NaN or infinity, written as a whole text, is read the same wherever the text stands in the
/// input, where whitespace or the end of the input follows it.
proof fn lemma_special_end_shift(s: Seq<char>, j: int, t: Seq<char>)
    requires
        0 <= j,
        j + t.len() <= s.len(),
        s.subrange(j, j + t.len()) == t,
        j + t.len() == s.len() || crate::chars::is_multispace(s[j + t.len()]),
    ensures
        spec_special_end(s, j) == match spec_special_end(t, 0) {
            Some(e) => Some(j + e),
            None => None::<int>,
        },
{
    lemma_caseless_shift(s, j, t, nan_text());
    lemma_caseless_shift(s, j, t, infinity_text());
    lemma_caseless_shift(s, j, t, inf_text());
}

/// A double written as a number, NaN or infinity (as `f64`'s `FromStr` reads it, without a sign
/// before NaN or infinity) reads back as its text, wherever it stands in the input, where
/// whitespace or the end of the input follows it.
pub proof fn lemma_double_round_trip(s: Seq<char>, j: int, t: Seq<char>)
    requires
        spec_float_or_special_end(t, 0) == Some(t.len() as int),
        0 <= j,
        j + t.len() <= s.len(),
        s.subrange(j, j + t.len()) == t,
        j + t.len() == s.len() || crate::chars::is_multispace(s[j + t.len()]),
    ensures
        spec_double(s, j) == Some((j + t.len(), t)),
{
    lemma_float_or_special_bounds(t, 0);
    assert(s.subrange(j, j + t.len())[0] == s[j]);
    lemma_special_end_shift(s, j, t);
    if spec_float_end(t, 0) is Some {
        lemma_float_end_shift(s, j, t);
        lemma_mantissa_bounds(t, 0);
    } else {
        // NaN or infinity starts with a letter, where no number starts
        assert(crate::chars::ascii_lower(t[0int + 0int]) == 'n' || crate::chars::ascii_lower(
            t[0int + 0int],
        ) == 'i') by {
            if matches_caseless(t, 0, nan_text()) {
                assert(crate::chars::ascii_lower(t[0int + 0int]) == nan_text()[0]);
            } else if matches_caseless(t, 0, infinity_text()) {
                assert(crate::chars::ascii_lower(t[0int + 0int]) == infinity_text()[0]);
            } else {
                assert(crate::chars::ascii_lower(t[0int + 0int]) == inf_text()[0]);
            }
        }
        lemma_span_end_at(s, j, j, CharClass::DecDigit);
    }
}

/// The text of a double neither starts nor ends with whitespace.
pub proof fn lemma_double_text_ends(t: Seq<char>)
    requires
        spec_float_or_special_end(t, 0) == Some(t.len() as int),
    ensures
        t.len() > 0,
        !crate::chars::is_white_space(t[0]),
        !crate::chars::is_white_space(t.last()),
{
    let n = t.len() as int;
    let dc = CharClass::DecDigit;
    lemma_float_or_special_bounds(t, 0);
    if spec_float_end(t, 0) is Some {
        let x: int = if is_sign(t[0]) {
            1
        } else {
            0
        };
        lemma_span_end(t, x, dc);
        let d = span_end(t, x, dc);
        let k = spec_mantissa_end(t, x).unwrap();
        if x + 1 <= n {
            lemma_span_end(t, x + 1, dc);
        }
        if d > x && d < n && t[d] == '.' {
            lemma_span_end(t, d + 1, dc);
        }
        lemma_mantissa_bounds(t, x);
        if k < n {
            if k + 1 <= n {
                lemma_span_end(t, k + 1, dc);
            }
            if k + 2 <= n {
                lemma_span_end(t, k + 2, dc);
            }
            assert(crate::chars::is_ascii_digit(t[n - 1]));
        }
    } else {
        let lit = if matches_caseless(t, 0, nan_text()) {
            nan_text()
        } else if matches_caseless(t, 0, infinity_text()) {
            infinity_text()
        } else {
            inf_text()
        };
        assert(matches_caseless(t, 0, lit));
        assert(n == lit.len());
        assert(crate::chars::ascii_lower(t[0int + 0int]) == lit[0]);
        assert(crate::chars::ascii_lower(t[0int + (n - 1)]) == lit[n - 1]);
    }
}

/// Whether the characters at `i` spell a word, any case, reads the same in a part of the input
/// that holds the word.
proof fn lemma_caseless_sub(s: Seq<char>, i: int, e: int, lit: Seq<char>)
    requires
        0 <= i <= e <= s.len(),
        lit.len() <= e - i,
    ensures
        matches_caseless(s.subrange(i, e), 0, lit) == matches_caseless(s, i, lit),
{
    let t = s.subrange(i, e);
    if matches_caseless(s, i, lit) {
        assert forall|k: int| 0 <= k < lit.len() implies crate::chars::ascii_lower(#[trigger] t[0 + k])
            == lit[k] by {
            assert(t[k] == s[i + k]);
        }
    }
    if matches_caseless(t, 0, lit) {
        assert forall|k: int| 0 <= k < lit.len() implies crate::chars::ascii_lower(#[trigger] s[i + k])
            == lit[k] by {
            assert(t[0 + k] == s[i + k]);
        }
    }
}

/// NaN or infinity read at `i` is, as a text of its own, a whole NaN or infinity.
proof fn lemma_special_end_sub(s: Seq<char>, i: int)
    requires
        0 <= i <= s.len(),
        spec_special_end(s, i) is Some,
    ensures
        spec_special_end(s.subrange(i, spec_special_end(s, i).unwrap()), 0) == Some(
            spec_special_end(s, i).unwrap() - i,
        ),
{
    let e = spec_special_end(s, i).unwrap();
    lemma_caseless_sub(s, i, e, nan_text());
    lemma_caseless_sub(s, i, e, inf_text());
    if e - i == 8 {
        lemma_caseless_sub(s, i, e, infinity_text());
    }
}

/// A number read at `i` is, as a text of its own, a whole number.
proof fn lemma_float_end_sub(s: Seq<char>, i: int)
    requires
        0 <= i <= s.len(),
        spec_float_end(s, i) is Some,
    ensures
        spec_float_end(s.subrange(i, spec_float_end(s, i).unwrap()), 0) == Some(
            spec_float_end(s, i).unwrap() - i,
        ),
{
    let e = spec_float_end(s, i).unwrap();
    let t = s.subrange(i, e);
    let dc = CharClass::DecDigit;
    let j = if 0 <= i < s.len() && is_sign(s[i]) {
        i + 1
    } else {
        i
    };
    let k = spec_mantissa_end(s, j).unwrap();
    lemma_mantissa_bounds(s, j);
    lemma_exponent_bounds(s, k);
    assert(t[0] == s[i]);
    lemma_span_end(s, j, dc);
    let d = span_end(s, j, dc);
    if d > j {
        if d < s.len() && s[d] == '.' {
            lemma_span_end(s, d + 1, dc);
        }
    } else {
        lemma_span_end(s, j + 1, dc);
    }
    lemma_span_end_sub(s, i, e, j - i, dc);
    if d > j {
        if d < s.len() && s[d] == '.' {
            assert(t[d - i] == s[d]);
            lemma_span_end_sub(s, i, e, d + 1 - i, dc);
        } else if d < e {
            assert(t[d - i] == s[d]);
        }
    } else {
        assert(t[j - i] == s[j]);
        lemma_span_end_sub(s, i, e, j + 1 - i, dc);
    }
    assert(spec_mantissa_end(t, j - i) == Some(k - i));
    if k < e {
        assert(t[k - i] == s[k]);
        let m = if k + 1 < s.len() && is_sign(s[k + 1]) {
            k + 2
        } else {
            k + 1
        };
        lemma_span_end(s, m, dc);
        if k + 1 < e {
            assert(t[k + 1 - i] == s[k + 1]);
        }
        lemma_span_end_sub(s, i, e, m - i, dc);
    }
}

/// What `spec_float_or_special_end` reads at `i` is, as a text of its own, a whole double.
pub proof fn lemma_float_or_special_sub(s: Seq<char>, i: int)
    requires
        0 <= i <= s.len(),
        spec_float_or_special_end(s, i) is Some,
    ensures
        spec_float_or_special_end(s.subrange(i, spec_float_or_special_end(s, i).unwrap()), 0)
            == Some(spec_float_or_special_end(s, i).unwrap() - i),
{
    let e = spec_float_or_special_end(s, i).unwrap();
    let t = s.subrange(i, e);
    if spec_float_end(s, i) is Some {
        lemma_float_end_sub(s, i);
    } else {
        lemma_special_end_sub(s, i);
        lemma_float_or_special_bounds(s, i);
        assert(t[0] == s[i]);
        assert(crate::chars::ascii_lower(s[i + 0]) == 'n' || crate::chars::ascii_lower(s[i + 0])
            == 'i') by {
            if matches_caseless(s, i, nan_text()) {
                assert(crate::chars::ascii_lower(s[i + 0]) == nan_text()[0]);
            } else if matches_caseless(s, i, infinity_text()) {
                assert(crate::chars::ascii_lower(s[i + 0]) == infinity_text()[0]);
            } else {
                assert(crate::chars::ascii_lower(s[i + 0]) == inf_text()[0]);
            }
        }
        lemma_span_end_at(t, 0, 0, CharClass::DecDigit);
    }
}

/// The text of a double that is read is the text of a double.
pub proof fn lemma_double_text(s: Seq<char>, i: int)
    requires
        0 <= i <= s.len(),
        spec_double(s, i) is Some,
    ensures
        is_double_text(spec_double(s, i).unwrap().1),
{
    let t = spec_double(s, i).unwrap().1;
    if has_dollar_escape(s, i) {
        lemma_float_or_special_bounds(s, i + 2);
        lemma_float_or_special_sub(s, i + 2);
    } else if spec_float_or_special_end(s, i) is Some {
        lemma_float_or_special_bounds(s, i);
        lemma_float_or_special_sub(s, i);
    } else {
        let e = spec_special_end(s, i + 3).unwrap();
        lemma_float_or_special_bounds(s, i + 3);
        lemma_special_end_sub(s, i + 3);
        let u = s.subrange(i + 3, e);
        assert(t == seq![s[i]] + u);
        assert(t.subrange(1, 1 + u.len() as int) =~= u);
        lemma_special_end_shift(t, 1, u);
    }
}

} // verus!

verus! {

/// Whether every character of `t` is an ASCII decimal digit.
pub open spec fn all_decimal_digits(t: Seq<char>) -> bool {
    forall|k: int| 0 <= k < t.len() ==> '0' <= #[trigger] t[k] && t[k] <= '9'
}

/// The text of a decimal number: an optional sign, digits, optionally a point and digits, and
/// optionally `e` or `E`, an optional sign and digits.
pub open spec fn number_text(
    sign: Seq<char>,
    a: Seq<char>,
    point: bool,
    b: Seq<char>,
    exp: Option<(char, Seq<char>, Seq<char>)>,
) -> Seq<char> {
    let fr = if point {
        seq!['.'] + b
    } else {
        seq![]
    };
    let ex = match exp {
        Some((l, es, c)) => seq![l] + es + c,
        None => seq![],
    };
    sign + a + fr + ex
}

/// A decimal number reads as a whole, where whitespace or the end of the input follows it:
/// its sign, all digits before the point, the point, all digits after it, and the whole
/// exponent belong to it. It has digits before the point, or else a point and digits after it;
/// an exponent has at least one digit.
#[verifier::spinoff_prover]
pub proof fn lemma_number_reads_whole(
    sign: Seq<char>,
    a: Seq<char>,
    point: bool,
    b: Seq<char>,
    exp: Option<(char, Seq<char>, Seq<char>)>,
    rest: Seq<char>,
)
    requires
        sign.len() == 0 || (sign.len() == 1 && (sign[0] == '+' || sign[0] == '-')),
        all_decimal_digits(a),
        all_decimal_digits(b),
        !point ==> b.len() == 0,
        a.len() > 0 || (point && b.len() > 0),
        exp matches Some((l, es, c)) ==> (l == 'e' || l == 'E') && (es.len() == 0 || (es.len()
            == 1 && (es[0] == '+' || es[0] == '-'))) && c.len() > 0 && all_decimal_digits(c),
        rest.len() == 0 || crate::chars::is_white_space(rest[0]),
    ensures
        spec_float_or_special_end(number_text(sign, a, point, b, exp) + rest, 0) == Some(
            number_text(sign, a, point, b, exp).len() as int,
        ),
        spec_double(number_text(sign, a, point, b, exp) + rest, 0) == Some(
            (
                number_text(sign, a, point, b, exp).len() as int,
                number_text(sign, a, point, b, exp),
            ),
        ),
{
    let t = number_text(sign, a, point, b, exp);
    let s = t + rest;
    let dc = CharClass::DecDigit;
    let fr: Seq<char> = if point {
        seq!['.'] + b
    } else {
        seq![]
    };
    let ex: Seq<char> = match exp {
        Some((l, es, c)) => seq![l] + es + c,
        None => seq![],
    };
    let j = sign.len() as int;
    let p = j + a.len();
    let m = p + fr.len();
    let n = m + ex.len();
    assert(t == sign + a + fr + ex);
    assert(n == t.len());
    assert forall|k: int| 0 <= k < j implies #[trigger] s[k] == sign[k] by {}
    assert forall|k: int| j <= k < p implies #[trigger] s[k] == a[k - j] by {}
    assert forall|k: int| p <= k < m implies #[trigger] s[k] == fr[k - p] by {}
    assert forall|k: int| m <= k < n implies #[trigger] s[k] == ex[k - m] by {}
    assert forall|k: int| n <= k < s.len() implies #[trigger] s[k] == rest[k - n] by {}
    // what follows the number is no digit, point, sign or exponent letter
    let after_ok = n == s.len() || (s[n] != '.' && !dc.contains(s[n]) && s[n] != 'e' && s[n]
        != 'E');
    assert(after_ok) by {
        if n < s.len() {
            assert(s[n] == rest[0]);
        }
    }
    // the sign
    if j == 1 {
        assert(s[0] == sign[0]);
    } else if p > j {
        assert(s[0] == a[0]);
    } else {
        assert(s[0] == fr[0]);
    }
    // the digits before the point
    assert forall|k: int| j <= k < p implies dc.contains(#[trigger] s[k]) by {
        assert(s[k] == a[k - j]);
    }
    let after_a = p == s.len() || !dc.contains(s[p]);
    assert(after_a) by {
        if p < m {
            assert(s[p] == fr[0]);
        } else if p < n {
            assert(s[p] == ex[0]);
        }
    }
    lemma_span_end_at(s, j, p, dc);
    // the digits after the point
    if point {
        assert(s[p] == '.') by {
            assert(s[p] == fr[0]);
        }
        assert forall|k: int| p + 1 <= k < m implies dc.contains(#[trigger] s[k]) by {
            assert(s[k] == fr[k - p]);
            assert(fr[k - p] == b[k - p - 1]);
        }
        let after_b = m == s.len() || !dc.contains(s[m]);
        assert(after_b) by {
            if m < n {
                assert(s[m] == ex[0]);
            }
        }
        lemma_span_end_at(s, p + 1, m, dc);
        if p == j {
            assert(j + 1 < s.len());
            assert(s[j + 1] == b[0]);
        }
    } else {
        assert(m == p);
        assert(p == s.len() || s[p] != '.') by {
            if p < n {
                assert(s[p] == ex[0]);
            }
        }
    }
    assert(spec_mantissa_end(s, j) == Some(m));
    // the exponent
    match exp {
        Some((l, es, c)) => {
            assert(s[m] == l) by {
                assert(s[m] == ex[0]);
            }
            let q = m + 1 + es.len();
            if es.len() == 1 {
                assert(s[m + 1] == es[0]) by {
                    assert(s[m + 1] == ex[1]);
                }
            } else {
                assert(s[m + 1] == c[0]) by {
                    assert(s[m + 1] == ex[1]);
                }
            }
            assert forall|k: int| q <= k < n implies dc.contains(#[trigger] s[k]) by {
                assert(s[k] == ex[k - m]);
                assert(ex[k - m] == c[k - q]);
            }
            lemma_span_end_at(s, q, n, dc);
        },
        None => {
            assert(m == n);
        },
    }
    assert(spec_exponent_end(s, m) == n);
    assert(spec_float_end(s, 0) == Some(n));
    assert(s.subrange(0, n) =~= t);
    assert(!has_dollar_escape(s, 0));
}

} // verus!

verus! {

/// A decimal number written as digits, a point and digits (none or any number of them) reads
/// as a whole, where whitespace or the end of the input follows it: every digit after the point
/// belongs to the number.
pub proof fn lemma_decimal_reads_whole(a: Seq<char>, b: Seq<char>, rest: Seq<char>)
    requires
        a.len() > 0,
        forall|k: int| 0 <= k < a.len() ==> crate::chars::is_ascii_digit(#[trigger] a[k]),
        forall|k: int| 0 <= k < b.len() ==> crate::chars::is_ascii_digit(#[trigger] b[k]),
        rest.len() == 0 || crate::chars::is_white_space(rest[0]),
    ensures
        spec_float_or_special_end(a + seq!['.'] + b + rest, 0) == Some((a.len() + 1 + b.len()) as int),
        spec_double(a + seq!['.'] + b + rest, 0) == Some(
            ((a.len() + 1 + b.len()) as int, a + seq!['.'] + b),
        ),
{
    let s = a + seq!['.'] + b + rest;
    let p = a.len() as int;
    let n = p + 1 + b.len();
    let dc = CharClass::DecDigit;
    assert forall|k: int| 0 <= k < p implies dc.contains(#[trigger] s[k]) by {
        assert(s[k] == a[k]);
    }
    assert(s[p] == '.');
    lemma_span_end_at(s, 0, p, dc);
    assert forall|k: int| p + 1 <= k < n implies dc.contains(#[trigger] s[k]) by {
        assert(s[k] == b[k - p - 1]);
    }
    if n < s.len() {
        assert(s[n] == rest[0]);
    }
    lemma_span_end_at(s, p + 1, n, dc);
    assert(s[0] == a[0]);
    assert(s.subrange(0, n) =~= a + seq!['.'] + b);
}

} // verus!
