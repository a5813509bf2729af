//! Keys of SKV maps.
use vstd::prelude::*;

use crate::chars::{is_key_char, is_key_start, lemma_span_end, scan, span_end, CharClass};
use crate::error::{ErrorKind, KeyParseError, ParseError};
use crate::text::{skip_chars, string_of, to_chars};

verus! {

/// Whether `t` is a key: key parts separated by `.`, where a key part is a non-empty run of
/// ASCII letters, digits and `_` that does not start with a digit.
pub open spec fn is_valid_key(t: Seq<char>) -> bool {
    &&& t.len() > 0
    &&& is_key_start(t[0])
    &&& forall|k: int| 0 <= k < t.len() ==> is_key_char(#[trigger] t[k]) || t[k] == '.'
    &&& forall|k: int|
        0 <= k < t.len() && #[trigger] t[k] == '.' ==> k + 1 < t.len() && is_key_start(t[k + 1])
}

/// A key at `i`: where it ends (`Ok`), or where a key part was expected and is missing (`Err`).
///
/// A key part at `p` is a character that may start one and then the maximal run of key
/// characters; a `.` after it must be followed by another key part.
pub open spec fn spec_key(s: Seq<char>, i: int) -> Result<int, int>
    decreases s.len() - i,
{
    if 0 <= i < s.len() && is_key_start(s[i]) {
        let e = span_end(s, i + 1, CharClass::KeyChar);
        if i + 1 <= e < s.len() && s[e] == '.' {
            spec_key(s, e + 1)
        } else {
            Ok(e)
        }
    } else {
        Err(i)
    }
}

/// The key characters and dots in `s[i..e]` form a key (see `is_valid_key`).
pub open spec fn is_key_between(s: Seq<char>, i: int, e: int) -> bool {
    &&& 0 <= i < e <= s.len()
    &&& is_key_start(s[i])
    &&& forall|k: int| i <= k < e ==> is_key_char(#[trigger] s[k]) || s[k] == '.'
    &&& forall|k: int| i <= k < e && #[trigger] s[k] == '.' ==> k + 1 < e && is_key_start(s[k + 1])
}

/// What a key scan reads is a key, and it stops where no key character or dot follows.
pub proof fn lemma_spec_key(s: Seq<char>, i: int)
    requires
        0 <= i <= s.len(),
    ensures
        spec_key(s, i) matches Ok(e) ==> is_key_between(s, i, e) && (e == s.len() || !(
        is_key_char(s[e]) || s[e] == '.')),
        spec_key(s, i) matches Err(p) ==> i <= p <= s.len(),
    decreases s.len() - i,
{
    if i < s.len() && is_key_start(s[i]) {
        lemma_span_end(s, i + 1, CharClass::KeyChar);
        let e = span_end(s, i + 1, CharClass::KeyChar);
        if e < s.len() && s[e] == '.' {
            lemma_spec_key(s, e + 1);
            if let Ok(e2) = spec_key(s, e + 1) {
                assert forall|k: int| i <= k < e2 implies is_key_char(#[trigger] s[k]) || s[k]
                    == '.' by {
                    if k > e {
                    } else if k == e {
                    } else if k > i {
                    }
                }
                assert forall|k: int| i <= k < e2 && #[trigger] s[k] == '.' implies k + 1 < e2
                    && is_key_start(s[k + 1]) by {
                    if k < e {
                        if k > i {
                            assert(is_key_char(s[k]));
                        }
                    }
                }
            }
        } else {
            assert forall|k: int| i <= k < e && #[trigger] s[k] == '.' implies k + 1 < e
                && is_key_start(s[k + 1]) by {
                if k > i {
                    assert(is_key_char(s[k]));
                }
            }
        }
    }
}

/// A key scan from the start of a key part of the whole key `t` that stands at `i` reads to the
/// end of `t`.
proof fn lemma_key_scan_from(s: Seq<char>, i: int, t: Seq<char>, p: int)
    requires
        is_valid_key(t),
        0 <= i <= p < i + t.len(),
        i + t.len() <= s.len(),
        s.subrange(i, i + t.len()) == t,
        i + t.len() == s.len() || !(is_key_char(s[i + t.len()]) || s[i + t.len()] == '.'),
        p == i || s[p - 1] == '.',
    ensures
        spec_key(s, p) == Ok::<int, int>(i + t.len()),
    decreases i + t.len() - p,
{
    let n = t.len() as int;
    assert forall|k: int| i <= k < i + n implies s[k] == t[k - i] by {
        assert(s.subrange(i, i + n)[k - i] == s[k]);
    }
    if p > i {
        assert(t[p - 1 - i] == '.');
    }
    assert(is_key_start(s[p]));
    lemma_span_end(s, p + 1, CharClass::KeyChar);
    let e = span_end(s, p + 1, CharClass::KeyChar);
    if e > i + n {
        assert(CharClass::KeyChar.contains(s[i + n]));
    }
    if e < i + n {
        assert(is_key_char(t[e - i]) || t[e - i] == '.');
        assert(s[e] == '.');
        lemma_key_scan_from(s, i, t, e + 1);
    }
}

/// A whole key reads back as itself wherever it stands in the input, where neither a key
/// character nor a dot follows it.
pub proof fn lemma_key_round_trip(s: Seq<char>, i: int, t: Seq<char>)
    requires
        is_valid_key(t),
        0 <= i,
        i + t.len() <= s.len(),
        s.subrange(i, i + t.len()) == t,
        i + t.len() == s.len() || !(is_key_char(s[i + t.len()]) || s[i + t.len()] == '.'),
    ensures
        spec_key(s, i) == Ok::<int, int>(i + t.len()),
{
    lemma_key_scan_from(s, i, t, i);
}

/// A string is a whole key exactly where the key scan reads all of it.
pub proof fn lemma_valid_key_iff_scan(t: Seq<char>)
    ensures
        is_valid_key(t) <==> spec_key(t, 0) == Ok::<int, int>(t.len() as int),
{
    if is_valid_key(t) {
        assert(t.subrange(0, t.len() as int) =~= t);
        lemma_key_round_trip(t, 0, t);
    }
    lemma_spec_key(t, 0);
}

/// A key in an SKV map.
///
/// Keys are made up of key parts, separated by `.`.
/// Key parts are non-empty strings that consist of alphanumeric characters and underscores,
/// except for the first character which is a non-digit.
#[derive(Debug, PartialEq, Eq, Hash)]
pub struct Key {
    text: String,
}

impl View for Key {
    type V = Seq<char>;

    closed spec fn view(&self) -> Seq<char> {
        self.text@
    }
}

impl Key {
    #[verifier::type_invariant]
    closed spec fn inv(self) -> bool {
        is_valid_key(self.text@)
    }

    /// Creates a new `Key` from a string slice; `s` as a whole must be a key.
    pub fn new(s: &str) -> (r: Result<Key, KeyParseError>)
        ensures
            r is Ok <==> is_valid_key(s@),
            r matches Ok(k) ==> k@ == s@,
    {
        let c = to_chars(s);
        proof {
            lemma_valid_key_iff_scan(c@);
        }
        match key_at(&c, 0) {
            Ok((e, k)) => {
                if e == c.len() {
                    Ok(k)
                } else {
                    Err(KeyParseError)
                }
            },
            Err(_) => Err(KeyParseError),
        }
    }

    /// The key parts, in order.
    pub fn parts(&self) -> (r: Vec<String>)
        ensures
            r@.map_values(|p: String| p@) == split_dots(self@),
            forall|i: int| 0 <= i < r@.len() ==> is_key_part(#[trigger] r@[i]@),
    {
        proof {
            use_type_invariant(self);
            lemma_key_parts(self@);
        }
        let c = to_chars(self.as_str());
        let mut r: Vec<String> = Vec::new();
        let mut start: usize = 0;
        let mut i: usize = 0;
        assert(c@.subrange(0, c@.len() as int) =~= c@);
        assert(r@.map_values(|p: String| p@) =~= Seq::<Seq<char>>::empty());
        assert(Seq::<Seq<char>>::empty() + split_dots(c@) =~= split_dots(c@));
        while i < c.len()
            invariant
                start <= i <= c@.len(),
                forall|k: int| start <= k < i ==> c@[k] != '.',
                r@.map_values(|p: String| p@) + split_dots(c@.subrange(start as int, c@.len() as int))
                    == split_dots(c@),
            decreases c@.len() - i,
        {
            if c[i] == '.' {
                let part = string_of(&c, start, i);
                proof {
                    lemma_split_dots_step(c@.subrange(start as int, c@.len() as int), i - start);
                    assert(c@.subrange(start as int, c@.len() as int).take(i - start) =~= c@.subrange(
                        start as int,
                        i as int,
                    ));
                    assert(c@.subrange(start as int, c@.len() as int).skip(i - start + 1) =~= c@.subrange(
                        i + 1,
                        c@.len() as int,
                    ));
                }
                let ghost before = r@.map_values(|p: String| p@);
                r.push(part);
                proof {
                    assert(r@.map_values(|p: String| p@) =~= before.push(part@));
                    let rest = split_dots(c@.subrange(i + 1, c@.len() as int));
                    assert(before + (seq![part@] + rest) =~= before.push(part@) + rest);
                }
                start = i + 1;
            }
            i = i + 1;
        }
        let part = string_of(&c, start, c.len());
        proof {
            lemma_split_dots_no_dot(c@.subrange(start as int, c@.len() as int));
        }
        let ghost before = r@.map_values(|p: String| p@);
        r.push(part);
        proof {
            assert(r@.map_values(|p: String| p@) =~= before.push(part@));
            assert(before + seq![part@] =~= before.push(part@));
            assert forall|i: int| 0 <= i < r@.len() implies is_key_part(#[trigger] r@[i]@) by {
                assert(r@.map_values(|p: String| p@)[i] == r@[i]@);
            }
        }
        r
    }

    /// The text of the key.
    pub fn as_str(&self) -> (r: &str)
        ensures
            r@ == self@,
    {
        self.text.as_str()
    }

    /// The text of the key, as an owned string.
    pub fn into_string(self) -> (r: String)
        ensures
            r@ == self@,
    {
        self.text
    }

    /// Whether two keys have the same text.
    pub fn same(&self, other: &Key) -> (r: bool)
        ensures
            r == (self@ == other@),
    {
        self.text == other.text
    }

    /// A copy of this key.
    pub fn copy(&self) -> (r: Key)
        ensures
            r@ == self@,
    {
        proof {
            use_type_invariant(self);
        }
        Key { text: self.text.clone() }
    }
}

impl Clone for Key {
    fn clone(&self) -> (r: Key)
        ensures
            r@ == self@,
    {
        self.copy()
    }
}

impl std::str::FromStr for Key {
    type Err = KeyParseError;

    fn from_str(s: &str) -> (r: Result<Key, KeyParseError>)
        ensures
            r is Ok <==> is_valid_key(s@),
            r matches Ok(k) ==> k@ == s@,
    {
        Key::new(s)
    }
}

/// The index of the first `.` in `t`, or its length where there is none.
pub open spec fn first_dot(t: Seq<char>) -> int
    decreases t.len(),
{
    if t.len() == 0 {
        0
    } else if t[0] == '.' {
        0
    } else {
        1 + first_dot(t.drop_first())
    }
}

/// The pieces of `t` between its dots.
pub open spec fn split_dots(t: Seq<char>) -> Seq<Seq<char>>
    decreases t.len(),
{
    let d = first_dot(t);
    if 0 <= d < t.len() {
        seq![t.take(d)] + split_dots(t.skip(d + 1))
    } else {
        seq![t]
    }
}

/// `t` joined from `parts` with `.` between them.
pub open spec fn join_dots(parts: Seq<Seq<char>>) -> Seq<char>
    decreases parts.len(),
{
    if parts.len() <= 1 {
        if parts.len() == 0 {
            seq![]
        } else {
            parts[0]
        }
    } else {
        parts[0] + seq!['.'] + join_dots(parts.drop_first())
    }
}

proof fn lemma_first_dot(t: Seq<char>)
    ensures
        0 <= first_dot(t) <= t.len(),
        forall|k: int| 0 <= k < first_dot(t) ==> t[k] != '.',
        first_dot(t) < t.len() ==> t[first_dot(t)] == '.',
    decreases t.len(),
{
    if t.len() > 0 && t[0] != '.' {
        lemma_first_dot(t.drop_first());
        assert forall|k: int| 0 <= k < first_dot(t) implies t[k] != '.' by {
            if k > 0 {
                assert(t[k] == t.drop_first()[k - 1]);
            }
        }
    }
}

/// Where `t[d]` is its first `.`, splitting `t` gives `t[..d]` and then the pieces of the rest.
proof fn lemma_split_dots_step(t: Seq<char>, d: int)
    requires
        0 <= d < t.len(),
        t[d] == '.',
        forall|k: int| 0 <= k < d ==> t[k] != '.',
    ensures
        split_dots(t) == seq![t.take(d)] + split_dots(t.skip(d + 1)),
{
    lemma_first_dot(t);
    if first_dot(t) < d {
        assert(t[first_dot(t)] != '.');
    }
}

proof fn lemma_split_dots_no_dot(t: Seq<char>)
    requires
        forall|k: int| 0 <= k < t.len() ==> t[k] != '.',
    ensures
        split_dots(t) == seq![t],
{
    lemma_first_dot(t);
}

/// Joining the pieces between the dots of a text with dots gives the text back.
pub proof fn lemma_join_split_dots(t: Seq<char>)
    ensures
        join_dots(split_dots(t)) == t,
    decreases t.len(),
{
    lemma_first_dot(t);
    let d = first_dot(t);
    if d < t.len() {
        lemma_join_split_dots(t.skip(d + 1));
        lemma_split_dots_nonempty(t.skip(d + 1));
        let parts = split_dots(t);
        assert(parts.drop_first() =~= split_dots(t.skip(d + 1)));
        assert(t.take(d) + seq!['.'] + t.skip(d + 1) =~= t);
    }
}

/// Whether `p` is a key part: non-empty, of key characters, and not starting with a digit.
pub open spec fn is_key_part(p: Seq<char>) -> bool {
    &&& p.len() > 0
    &&& is_key_start(p[0])
    &&& forall|k: int| 0 <= k < p.len() ==> is_key_char(#[trigger] p[k])
}

/// The pieces of a key between its dots are key parts.
pub proof fn lemma_key_parts(t: Seq<char>)
    requires
        is_valid_key(t),
    ensures
        forall|i: int| 0 <= i < split_dots(t).len() ==> is_key_part(#[trigger] split_dots(t)[i]),
    decreases t.len(),
{
    lemma_first_dot(t);
    let d = first_dot(t);
    assert(t[0] != '.');
    if d < t.len() {
        assert(t[d] == '.');
        let rest = t.skip(d + 1);
        let head = t.take(d);
        assert(is_valid_key(rest)) by {
            assert(rest[0] == t[d + 1]);
            assert forall|k: int| 0 <= k < rest.len() implies is_key_char(#[trigger] rest[k])
                || rest[k] == '.' by {
                assert(rest[k] == t[d + 1 + k]);
            }
            assert forall|k: int| 0 <= k < rest.len() && #[trigger] rest[k] == '.' implies k + 1
                < rest.len() && is_key_start(rest[k + 1]) by {
                assert(rest[k] == t[d + 1 + k]);
                assert(t[d + 1 + k] == '.');
                assert(rest[k + 1] == t[d + 1 + k + 1]);
            }
        }
        lemma_key_parts(rest);
        assert(is_key_part(head)) by {
            assert(head[0] == t[0]);
            assert forall|k: int| 0 <= k < head.len() implies is_key_char(#[trigger] head[k]) by {
                assert(head[k] == t[k]);
            }
        }
        assert forall|i: int| 0 <= i < split_dots(t).len() implies is_key_part(
            #[trigger] split_dots(t)[i],
        ) by {
            if i > 0 {
                assert(split_dots(t)[i] == split_dots(rest)[i - 1]);
            }
        }
    } else {
        assert(split_dots(t) == seq![t]);
        assert(is_key_part(split_dots(t)[0]));
    }
}

proof fn lemma_split_dots_nonempty(t: Seq<char>)
    ensures
        split_dots(t).len() >= 1,
    decreases t.len(),
{
    lemma_first_dot(t);
}

/// Reads a key at `i`; returns its end and the key, or where a key part is missing.
pub fn key_at(s: &[char], i: usize) -> (r: Result<(usize, Key), usize>)
    requires
        i <= s@.len(),
    ensures
        match spec_key(s@, i as int) {
            Ok(e) => r matches Ok((e2, k)) && e2 == e && k@ == s@.subrange(i as int, e) && i < e
                <= s@.len(),
            Err(p) => r == Err::<(usize, Key), usize>(p as usize) && i <= p <= s@.len(),
        },
{
    proof {
        lemma_spec_key(s@, i as int);
    }
    let mut p = i;
    loop
        invariant
            i <= p <= s@.len(),
            spec_key(s@, i as int) == spec_key(s@, p as int),
            p == i || (p > i + 1 && s@[p - 1] == '.'),
        decreases s@.len() - p,
    {
        if p < s.len() && (('a' <= s[p] && s[p] <= 'z') || ('A' <= s[p] && s[p] <= 'Z') || s[p]
            == '_') {
            let e = scan(s, p + 1, CharClass::KeyChar);
            if e < s.len() && s[e] == '.' {
                p = e + 1;
            } else {
                let text = string_of(s, i, e);
                proof {
                    lemma_spec_key(s@, i as int);
                    assert(is_key_between(s@, i as int, e as int));
                    assert forall|k: int| 0 <= k < text@.len() implies is_key_char(
                        #[trigger] text@[k],
                    ) || text@[k] == '.' by {
                        assert(text@[k] == s@[i + k]);
                    }
                    assert forall|k: int|
                        0 <= k < text@.len() && #[trigger] text@[k] == '.' implies k + 1
                        < text@.len() && is_key_start(text@[k + 1]) by {
                        assert(text@[k] == s@[i + k]);
                        assert(text@[k + 1] == s@[i + k + 1]);
                    }
                }
                return Ok((e, Key { text }));
            }
        } else {
            return Err(p);
        }
    }
}

/// Parses a key at the start of `input` and advances `input` past it.
///
/// On failure `input` is left as it was, and the error gives where a key part is missing.
pub fn skv_key<'a>(input: &mut &'a str) -> (r: Result<Key, ParseError>)
    ensures
        match spec_key(old(input)@, 0) {
            Ok(e) => r matches Ok(k) && k@ == old(input)@.subrange(0, e) && final(input)@ == old(
                input,
            )@.skip(e),
            Err(p) => r == Err::<Key, ParseError>(ParseError { offset: p as usize, kind: ErrorKind::Key })
                && final(input)@ == old(input)@,
        },
{
    let text: &'a str = *input;
    let s = to_chars(text);
    match key_at(&s, 0) {
        Ok((e, k)) => {
            *input = skip_chars(text, e, s.len());
            Ok(k)
        },
        Err(p) => Err(ParseError { offset: p, kind: ErrorKind::Key }),
    }
}

/// Parses one key part at the start of `input` and advances `input` past it: an ASCII letter
/// or `_`, then ASCII letters, digits and `_`.
///
/// On failure `input` is left as it was.
pub fn key_part<'a>(input: &mut &'a str) -> (r: Result<String, ParseError>)
    ensures
        ({
            let s = old(input)@;
            if s.len() > 0 && is_key_start(s[0]) {
                let e = span_end(s, 1, CharClass::KeyChar);
                r matches Ok(p) && p@ == s.subrange(0, e) && final(input)@ == s.skip(e)
            } else {
                r == Err::<String, ParseError>(ParseError { offset: 0, kind: ErrorKind::Key })
                    && final(input)@ == s
            }
        }),
{
    let text: &'a str = *input;
    let s = to_chars(text);
    if s.len() > 0 && (('a' <= s[0] && s[0] <= 'z') || ('A' <= s[0] && s[0] <= 'Z') || s[0]
        == '_') {
        let e = scan(&s, 1, CharClass::KeyChar);
        let part = string_of(&s, 0, e);
        *input = skip_chars(text, e, s.len());
        Ok(part)
    } else {
        Err(ParseError { offset: 0, kind: ErrorKind::Key })
    }
}

} // verus!

verus! {

/// Whether `c` is an ASCII letter or `_`.
pub open spec fn letter_or_underscore(c: char) -> bool {
    ('a' <= c && c <= 'z') || ('A' <= c && c <= 'Z') || c == '_'
}

/// A key written as parts joined by dots, each part an ASCII letter or `_` followed by ASCII
/// letters, digits and `_`, reads as a whole wherever it stands in the input, where the end of the
/// input or a character that is none of those nor a dot follows it.
pub proof fn lemma_written_key_reads_whole(s: Seq<char>, i: int, t: Seq<char>)
    requires
        t.len() > 0,
        letter_or_underscore(t[0]),
        forall|k: int|
            0 <= k < t.len() ==> letter_or_underscore(#[trigger] t[k]) || ('0' <= t[k] && t[k]
                <= '9') || t[k] == '.',
        forall|k: int|
            0 <= k < t.len() && #[trigger] t[k] == '.' ==> k + 1 < t.len() && letter_or_underscore(
                t[k + 1],
            ),
        0 <= i,
        i + t.len() <= s.len(),
        s.subrange(i, i + t.len()) == t,
        i + t.len() == s.len() || !(letter_or_underscore(s[i + t.len()]) || ('0' <= s[i + t.len()]
            && s[i + t.len()] <= '9') || s[i + t.len()] == '.'),
    ensures
        spec_key(s, i) == Ok::<int, int>(i + t.len()),
{
    assert(is_valid_key(t));
    lemma_key_round_trip(s, i, t);
}

} // verus!
