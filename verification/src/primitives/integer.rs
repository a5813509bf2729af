//! Integers in decimal, hexadecimal (`0x`), octal (`0o`) or binary (`0b`) form, with an
//! optional leading `-` before the radix prefix.
use vstd::prelude::*;

use crate::chars::{ascii_lower, digit_value, lemma_span_end, lemma_span_end_at, scan, span_end, CharClass};
use crate::error::{ErrorKind, ParseError};
use crate::text::{skip_chars, to_chars};

verus! {

/// The number that the digits `s[a..b]` spell in the given radix.
pub open spec fn digits_value(s: Seq<char>, a: int, b: int, radix: nat) -> nat
    decreases b - a,
{
    if b <= a {
        0
    } else {
        digits_value(s, a, b - 1, radix) * radix + digit_value(s[b - 1])
    }
}

/// The maximal run of digits of class `cls` from `start`, and its value, where the run is
/// non-empty and its value fits in `u64`.
pub open spec fn spec_digit_run(s: Seq<char>, start: int, cls: CharClass, radix: nat) -> Option<
    (int, nat),
> {
    let e = span_end(s, start, cls);
    if e > start && digits_value(s, start, e, radix) <= u64::MAX {
        Some((e, digits_value(s, start, e, radix)))
    } else {
        None
    }
}

/// `0` and the radix letter (in either case) at `i`, then a digit run of that radix.
pub open spec fn spec_prefixed_run(
    s: Seq<char>,
    i: int,
    letter: char,
    cls: CharClass,
    radix: nat,
) -> Option<(int, nat)> {
    if 0 <= i && i + 2 <= s.len() && s[i] == '0' && ascii_lower(s[i + 1]) == letter {
        spec_digit_run(s, i + 2, cls, radix)
    } else {
        None
    }
}

/// An unsigned integer at `i`: the first of the hexadecimal, octal, binary and decimal forms
/// that reads there; its end and its value.
pub open spec fn spec_unsigned_integer(s: Seq<char>, i: int) -> Option<(int, nat)> {
    match spec_prefixed_run(s, i, 'x', CharClass::HexDigit, 16) {
        Some(r) => Some(r),
        None => match spec_prefixed_run(s, i, 'o', CharClass::OctDigit, 8) {
            Some(r) => Some(r),
            None => match spec_prefixed_run(s, i, 'b', CharClass::BinDigit, 2) {
                Some(r) => Some(r),
                None => if 0 <= i <= s.len() {
                    spec_digit_run(s, i, CharClass::DecDigit, 10)
                } else {
                    None
                },
            },
        },
    }
}

/// An integer at `i`: an unsigned integer, negated where a `-` precedes it; its end and its
/// value, where the value fits in `i64`.
pub open spec fn spec_integer(s: Seq<char>, i: int) -> Option<(int, int)> {
    if 0 <= i < s.len() && s[i] == '-' {
        match spec_unsigned_integer(s, i + 1) {
            Some((e, v)) => if v <= 0x8000_0000_0000_0000 {
                Some((e, -v))
            } else {
                None
            },
            None => None,
        }
    } else {
        match spec_unsigned_integer(s, i) {
            Some((e, v)) => if v <= i64::MAX {
                Some((e, v as int))
            } else {
                None
            },
            None => None,
        }
    }
}

pub open spec fn class_radix(cls: CharClass) -> nat {
    match cls {
        CharClass::HexDigit => 16,
        CharClass::OctDigit => 8,
        CharClass::BinDigit => 2,
        _ => 10,
    }
}

/// Appending a digit does not make a number smaller.
proof fn lemma_digits_value_mono(s: Seq<char>, a: int, c: int, b: int, radix: nat)
    requires
        a <= c <= b,
        radix >= 1,
    ensures
        digits_value(s, a, c, radix) <= digits_value(s, a, b, radix),
    decreases b - c,
{
    if c < b {
        lemma_digits_value_mono(s, a, c, b - 1, radix);
        let x = digits_value(s, a, b - 1, radix);
        assert(x <= x * radix) by (nonlinear_arith)
            requires
                radix >= 1,
        ;
    }
}

/// The value of a digit character.
fn char_digit(c: char) -> (r: u64)
    ensures
        r == digit_value(c),
{
    if '0' <= c && c <= '9' {
        (c as u32 - '0' as u32) as u64
    } else if 'a' <= c && c <= 'f' {
        (c as u32 - 'a' as u32 + 10) as u64
    } else if 'A' <= c && c <= 'F' {
        (c as u32 - 'A' as u32 + 10) as u64
    } else {
        0
    }
}

/// The value of the digits `s[a..b]` in the radix of `cls`, or `None` where it exceeds `u64`.
fn digits_to_u64(s: &[char], a: usize, b: usize, cls: CharClass) -> (r: Option<u64>)
    requires
        a <= b <= s@.len(),
    ensures
        r matches Some(v) ==> v == digits_value(s@, a as int, b as int, class_radix(cls)),
        r is None ==> digits_value(s@, a as int, b as int, class_radix(cls)) > u64::MAX,
{
    let radix: u64 = match cls {
        CharClass::HexDigit => 16,
        CharClass::OctDigit => 8,
        CharClass::BinDigit => 2,
        _ => 10,
    };
    let mut acc: u64 = 0;
    let mut i = a;
    while i < b
        invariant
            a <= i <= b <= s@.len(),
            radix == class_radix(cls),
            acc == digits_value(s@, a as int, i as int, class_radix(cls)),
        decreases b - i,
    {
        let d = char_digit(s[i]);
        match acc.checked_mul(radix) {
            Some(m) => match m.checked_add(d) {
                Some(n) => {
                    acc = n;
                },
                None => {
                    proof {
                        lemma_digits_value_mono(s@, a as int, i + 1, b as int, class_radix(cls));
                    }
                    return None;
                },
            },
            None => {
                proof {
                    lemma_digits_value_mono(s@, a as int, i + 1, b as int, class_radix(cls));
                }
                return None;
            },
        }
        i = i + 1;
    }
    Some(acc)
}

/// The maximal digit run of class `cls` from `start` and its value (see `spec_digit_run`).
fn digit_run(s: &[char], start: usize, cls: CharClass) -> (r: Option<(usize, u64)>)
    requires
        start <= s@.len(),
    ensures
        match spec_digit_run(s@, start as int, cls, class_radix(cls)) {
            Some((e, v)) => r == Some((e as usize, v as u64)),
            None => r is None,
        },
{
    let e = scan(s, start, cls);
    if e == start {
        return None;
    }
    match digits_to_u64(s, start, e, cls) {
        Some(v) => Some((e, v)),
        None => None,
    }
}

fn prefixed_run(s: &[char], i: usize, letter: char, cls: CharClass) -> (r: Option<(usize, u64)>)
    requires
        i <= s@.len(),
    ensures
        match spec_prefixed_run(s@, i as int, letter, cls, class_radix(cls)) {
            Some((e, v)) => r == Some((e as usize, v as u64)),
            None => r is None,
        },
{
    if s.len() >= 2 && i <= s.len() - 2 && s[i] == '0' && lower(s[i + 1]) == letter {
        digit_run(s, i + 2, cls)
    } else {
        None
    }
}

/// The lowercase form of an ASCII letter; any other character is unchanged.
pub fn lower(c: char) -> (r: char)
    ensures
        r == ascii_lower(c),
{
    if 'A' <= c && c <= 'Z' {
        ((c as u8) + 32) as char
    } else {
        c
    }
}

/// Reads an unsigned integer at `i` (see `spec_unsigned_integer`).
fn unsigned_integer_at(s: &[char], i: usize) -> (r: Option<(usize, u64)>)
    requires
        i <= s@.len(),
    ensures
        match spec_unsigned_integer(s@, i as int) {
            Some((e, v)) => r == Some((e as usize, v as u64)),
            None => r is None,
        },
{
    match prefixed_run(s, i, 'x', CharClass::HexDigit) {
        Some(r) => Some(r),
        None => match prefixed_run(s, i, 'o', CharClass::OctDigit) {
            Some(r) => Some(r),
            None => match prefixed_run(s, i, 'b', CharClass::BinDigit) {
                Some(r) => Some(r),
                None => digit_run(s, i, CharClass::DecDigit),
            },
        },
    }
}

/// Reads an integer at `i` (see `spec_integer`); returns its end and its value.
pub fn integer_at(s: &[char], i: usize) -> (r: Option<(usize, i64)>)
    requires
        i <= s@.len(),
    ensures
        r is Some <==> spec_integer(s@, i as int) is Some,
        r matches Some((e, v)) ==> spec_integer(s@, i as int) == Some((e as int, v as int)) && i < e
            <= s@.len(),
{
    proof {
        reveal_span_facts(s@, i as int);
    }
    if i < s.len() && s[i] == '-' {
        match unsigned_integer_at(s, i + 1) {
            Some((e, v)) => {
                if v <= 0x8000_0000_0000_0000u64 {
                    let n: i64 = if v == 0x8000_0000_0000_0000u64 {
                        i64::MIN
                    } else {
                        -(v as i64)
                    };
                    Some((e, n))
                } else {
                    None
                }
            },
            None => None,
        }
    } else {
        match unsigned_integer_at(s, i) {
            Some((e, v)) => {
                if v <= i64::MAX as u64 {
                    Some((e, v as i64))
                } else {
                    None
                }
            },
            None => None,
        }
    }
}

/// The runs that an integer is read from lie within the input, after `i`.
proof fn reveal_span_facts(s: Seq<char>, i: int)
    requires
        0 <= i <= s.len(),
    ensures
        spec_unsigned_integer(s, i) matches Some((e, v)) ==> i < e <= s.len(),
        i < s.len() ==> (spec_unsigned_integer(s, i + 1) matches Some((e, v)) ==> i + 1 < e
            <= s.len()),
{
    lemma_unsigned_bounds(s, i);
    if i < s.len() {
        lemma_unsigned_bounds(s, i + 1);
    }
}

proof fn lemma_unsigned_bounds(s: Seq<char>, i: int)
    requires
        0 <= i <= s.len(),
    ensures
        spec_unsigned_integer(s, i) matches Some((e, v)) ==> i < e <= s.len(),
{
    lemma_span_end(s, i, CharClass::DecDigit);
    if i + 2 <= s.len() {
        lemma_span_end(s, i + 2, CharClass::HexDigit);
        lemma_span_end(s, i + 2, CharClass::OctDigit);
        lemma_span_end(s, i + 2, CharClass::BinDigit);
    }
}

/// Parses an integer at the start of `input` and advances `input` past it.
///
/// On failure `input` is left as it was.
pub fn parse_integer<'a>(input: &mut &'a str) -> (r: Result<i64, ParseError>)
    ensures
        match spec_integer(old(input)@, 0) {
            Some((e, v)) => r == Ok::<i64, ParseError>(v as i64) && final(input)@ == old(
                input,
            )@.skip(e),
            None => r == Err::<i64, ParseError>(ParseError { offset: 0, kind: ErrorKind::Integer })
                && final(input)@ == old(input)@,
        },
{
    let text: &'a str = *input;
    let s = to_chars(text);
    match integer_at(&s, 0) {
        Some((e, v)) => {
            *input = skip_chars(text, e, s.len());
            Ok(v)
        },
        None => Err(ParseError { offset: 0, kind: ErrorKind::Integer }),
    }
}

} // verus!

verus! {

/// Whether `radix` is one that integers may be written in: 2, 8, 10 or 16.
pub open spec fn is_radix(radix: nat) -> bool {
    radix == 2 || radix == 8 || radix == 10 || radix == 16
}

/// The digit character for `d` (below 16), in lowercase.
pub open spec fn digit_char(d: nat) -> char {
    if d < 10 {
        (d + 48) as char
    } else {
        (d + 87) as char
    }
}

/// The digits of `n` in `radix`, most significant first, without leading zeros.
pub open spec fn digits_of(n: nat, radix: nat) -> Seq<char>
    decreases n,
{
    if radix < 2 || n < radix {
        seq![digit_char(n)]
    } else {
        proof {
            vstd::arithmetic::div_mod::lemma_div_is_strictly_smaller(n as int, radix as int);
        }
        digits_of(n / radix, radix).push(digit_char(n % radix))
    }
}

/// The class of the digits of `radix`.
pub open spec fn radix_class(radix: nat) -> CharClass {
    if radix == 16 {
        CharClass::HexDigit
    } else if radix == 8 {
        CharClass::OctDigit
    } else if radix == 2 {
        CharClass::BinDigit
    } else {
        CharClass::DecDigit
    }
}

/// The prefix of an integer written in `radix`: `0x`, `0o` or `0b`, and none in decimal.
pub open spec fn radix_prefix(radix: nat) -> Seq<char> {
    if radix == 16 {
        seq!['0', 'x']
    } else if radix == 8 {
        seq!['0', 'o']
    } else if radix == 2 {
        seq!['0', 'b']
    } else {
        seq![]
    }
}

/// `v` written in `radix`: a `-` where it is negative, the prefix of the radix, then the digits
/// of its magnitude.
pub open spec fn integer_text(v: int, radix: nat) -> Seq<char> {
    let sign = if v < 0 {
        seq!['-']
    } else {
        seq![]
    };
    let magnitude: nat = if v < 0 {
        (-v) as nat
    } else {
        v as nat
    };
    sign + radix_prefix(radix) + digits_of(magnitude, radix)
}

proof fn lemma_digit_char(d: nat, radix: nat)
    requires
        is_radix(radix),
        d < radix,
    ensures
        radix_class(radix).contains(digit_char(d)),
        digit_value(digit_char(d)) == d,
        digit_char(d) == '0' <==> d == 0,
{
}

/// The digits of `n`, wherever they stand in `s`, are digits of the radix that spell `n`; the
/// first is `0` only where `n` is.
pub proof fn lemma_digits_of(n: nat, radix: nat, s: Seq<char>, a: int)
    requires
        is_radix(radix),
        0 <= a,
        a + digits_of(n, radix).len() <= s.len(),
        s.subrange(a, a + digits_of(n, radix).len()) == digits_of(n, radix),
    ensures
        digits_of(n, radix).len() >= 1,
        forall|k: int|
            a <= k < a + digits_of(n, radix).len() ==> radix_class(radix).contains(#[trigger] s[k]),
        digits_value(s, a, a + digits_of(n, radix).len(), radix) == n,
        digits_of(n, radix)[0] == '0' ==> n == 0,
    decreases n,
{
    let d = digits_of(n, radix);
    let len = d.len() as int;
    assert forall|k: int| 0 <= k < len implies s[a + k] == d[k] by {
        assert(s.subrange(a, a + len)[k] == s[a + k]);
    }
    if n < radix {
        lemma_digit_char(n, radix);
        assert(s[a] == d[0]);
        assert(digits_value(s, a, a, radix) == 0);
    } else {
        vstd::arithmetic::div_mod::lemma_div_is_strictly_smaller(n as int, radix as int);
        let q = n / radix;
        let r = n % radix;
        vstd::arithmetic::div_mod::lemma_mod_pos_bound(n as int, radix as int);
        vstd::arithmetic::div_mod::lemma_fundamental_div_mod(n as int, radix as int);
        let dq = digits_of(q, radix);
        assert(d == dq.push(digit_char(r)));
        assert(s.subrange(a, a + dq.len()) =~= dq) by {
            assert forall|k: int| 0 <= k < dq.len() implies s.subrange(a, a + dq.len())[k]
                == dq[k] by {
                assert(s[a + k] == d[k]);
            }
        }
        lemma_digits_of(q, radix, s, a);
        lemma_digit_char(r, radix);
        assert(d[len - 1] == digit_char(r));
        assert(s.subrange(a, a + len)[len - 1] == s[a + len - 1]);
        assert(q >= 1) by {
            vstd::arithmetic::div_mod::lemma_div_pos_is_pos(n as int, radix as int);
        }
        assert(d[0] == dq[0]);
        assert forall|k: int| a <= k < a + len implies radix_class(radix).contains(#[trigger] s[k]) by {
            if k < a + len - 1 {
            }
        }
        assert(q * radix + r == n) by (nonlinear_arith)
            requires
                n == radix * q + r,
        ;
    }
}

/// The digits of `n`, where a character outside the digits of the radix (or the end of the
/// input) follows them, are read as the maximal digit run, with the value `n`.
proof fn lemma_digits_of_run(s: Seq<char>, a: int, n: nat, radix: nat)
    requires
        is_radix(radix),
        n <= u64::MAX,
        0 <= a,
        a + digits_of(n, radix).len() <= s.len(),
        s.subrange(a, a + digits_of(n, radix).len()) == digits_of(n, radix),
        a + digits_of(n, radix).len() == s.len() || crate::chars::is_multispace(
            s[a + digits_of(n, radix).len()],
        ),
    ensures
        spec_digit_run(s, a, radix_class(radix), radix) == Some((a + digits_of(n, radix).len(), n)),
        s[a] == digits_of(n, radix)[0],
{
    let d = digits_of(n, radix);
    let e = a + d.len();
    lemma_digits_of(n, radix, s, a);
    lemma_span_end_at(s, a, e, radix_class(radix));
    assert(s.subrange(a, e)[0] == s[a]);
}

/// An integer written in radix 2, 8, 10 or 16 reads back as itself, wherever it stands in the
/// input, where whitespace or the end of the input follows it.
#[verifier::spinoff_prover]
pub proof fn lemma_integer_round_trip(s: Seq<char>, i: int, v: int, radix: nat)
    requires
        i64::MIN <= v <= i64::MAX,
        is_radix(radix),
        0 <= i,
        i + integer_text(v, radix).len() <= s.len(),
        s.subrange(i, i + integer_text(v, radix).len()) == integer_text(v, radix),
        i + integer_text(v, radix).len() == s.len() || crate::chars::is_multispace(
            s[i + integer_text(v, radix).len()],
        ),
    ensures
        spec_integer(s, i) == Some((i + integer_text(v, radix).len(), v)),
{
    let t = integer_text(v, radix);
    let n = t.len() as int;
    let sign: int = if v < 0 {
        1
    } else {
        0
    };
    let magnitude: nat = if v < 0 {
        (-v) as nat
    } else {
        v as nat
    };
    let p = radix_prefix(radix).len() as int;
    let d = digits_of(magnitude, radix);
    let a = i + sign + p;
    let e = a + d.len();
    assert(t == (if v < 0 {
        seq!['-']
    } else {
        seq![]
    }) + radix_prefix(radix) + d);
    assert(n == sign + p + d.len());
    assert forall|k: int| 0 <= k < n implies s[i + k] == t[k] by {
        assert(s.subrange(i, i + n)[k] == s[i + k]);
    }
    assert(s.subrange(a, e) =~= d) by {
        assert forall|k: int| 0 <= k < d.len() implies s.subrange(a, e)[k] == d[k] by {
            assert(s[a + k] == t[sign + p + k]);
        }
    }
    lemma_digits_of_run(s, a, magnitude, radix);
    lemma_digits_of(magnitude, radix, s, a);
    let i1 = i + sign;
    assert(s[i] == t[0]);
    if v >= 0 {
        if radix != 10 {
            assert(t[0] == '0');
        } else {
            lemma_digit_char(0, radix);
        }
    }
    if radix != 10 {
        assert(s[i1] == t[sign]);
        assert(s[i1 + 1] == t[sign + 1]);
    } else if magnitude == 0 {
        assert(d.len() == 1);
    }
}

} // verus!
