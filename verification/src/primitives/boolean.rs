//! `true` or `false`, in any case.
use vstd::prelude::*;

use crate::chars::ascii_lower;
use crate::error::{ErrorKind, ParseError};
use crate::primitives::integer::lower;
use crate::text::{skip_chars, to_chars};

verus! {

/// Whether the characters at `i` spell `lit` (which is lowercase), ignoring ASCII case.
pub open spec fn matches_caseless(s: Seq<char>, i: int, lit: Seq<char>) -> bool {
    &&& 0 <= i
    &&& i + lit.len() <= s.len()
    &&& forall|k: int| 0 <= k < lit.len() ==> ascii_lower(#[trigger] s[i + k]) == lit[k]
}

pub open spec fn true_text() -> Seq<char> {
    seq!['t', 'r', 'u', 'e']
}

pub open spec fn false_text() -> Seq<char> {
    seq!['f', 'a', 'l', 's', 'e']
}

/// A boolean at `i`: `true` or `false` in any case; its end and its value.
pub open spec fn spec_boolean(s: Seq<char>, i: int) -> Option<(int, bool)> {
    if matches_caseless(s, i, true_text()) {
        Some((i + 4, true))
    } else if matches_caseless(s, i, false_text()) {
        Some((i + 5, false))
    } else {
        None
    }
}

/// Whether the characters at `i` spell `lit`, ignoring ASCII case (see `matches_caseless`).
pub fn caseless_at(s: &[char], i: usize, lit: &[char]) -> (r: bool)
    requires
        i <= s@.len(),
    ensures
        r == matches_caseless(s@, i as int, lit@),
{
    if lit.len() > s.len() - i {
        return false;
    }
    let mut k: usize = 0;
    while k < lit.len()
        invariant
            i + lit@.len() <= s@.len(),
            s@.len() == s.len(),
            k <= lit@.len(),
            forall|j: int| 0 <= j < k ==> ascii_lower(#[trigger] s@[i + j]) == lit@[j],
        decreases lit@.len() - k,
    {
        if lower(s[i + k]) != lit[k] {
            return false;
        }
        k = k + 1;
    }
    true
}

/// Reads a boolean at `i` (see `spec_boolean`).
pub fn boolean_at(s: &[char], i: usize) -> (r: Option<(usize, bool)>)
    requires
        i <= s@.len(),
    ensures
        r is Some <==> spec_boolean(s@, i as int) is Some,
        r matches Some((e, b)) ==> spec_boolean(s@, i as int) == Some((e as int, b)) && i < e
            <= s@.len(),
{
    let t = ['t', 'r', 'u', 'e'];
    let f = ['f', 'a', 'l', 's', 'e'];
    assert(t@ == true_text());
    assert(f@ == false_text());
    let n = s.len();
    if caseless_at(s, i, &t) {
        Some((i + 4, true))
    } else if caseless_at(s, i, &f) {
        Some((i + 5, false))
    } else {
        None
    }
}

/// Parses `true` or `false`, in any case, at the start of `input`, and advances `input` past it.
///
/// On failure `input` is left as it was.
pub fn parse_boolean<'a>(input: &mut &'a str) -> (r: Result<bool, ParseError>)
    ensures
        match spec_boolean(old(input)@, 0) {
            Some((e, b)) => r == Ok::<bool, ParseError>(b) && final(input)@ == old(input)@.skip(e),
            None => r == Err::<bool, ParseError>(ParseError { offset: 0, kind: ErrorKind::Boolean })
                && final(input)@ == old(input)@,
        },
{
    let text: &'a str = *input;
    let s = to_chars(text);
    match boolean_at(&s, 0) {
        Some((e, b)) => {
            *input = skip_chars(text, e, s.len());
            Ok(b)
        },
        None => Err(ParseError { offset: 0, kind: ErrorKind::Boolean }),
    }
}

} // verus!
