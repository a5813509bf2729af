//! Conversions between strings and the character sequences that the parsers read.
use vstd::prelude::*;

verus! {

/// The characters of `s`, in order.
pub fn to_chars(s: &str) -> (v: Vec<char>)
    ensures
        v@ == s@,
{
    let mut v: Vec<char> = Vec::new();
    for c in it: s.chars()
        invariant
            v@ == it.seq().take(it.index() as int),
            it.seq() == s@,
    {
        v.push(c);
    }
    v
}

/// Calls `String::push`, which appends `c` to `s`.
#[verifier::external_body]
pub(crate) fn push_char(s: &mut String, c: char)
    ensures
        final(s)@ == old(s)@.push(c),
{
    s.push(c);
}

/// The string made of the characters `s[from..to]`.
pub fn string_of(s: &[char], from: usize, to: usize) -> (r: String)
    requires
        from <= to <= s@.len(),
    ensures
        r@ == s@.subrange(from as int, to as int),
{
    let mut r = String::new();
    let mut i = from;
    while i < to
        invariant
            from <= i <= to <= s@.len(),
            r@ == s@.subrange(from as int, i as int),
        decreases to - i,
    {
        push_char(&mut r, s[i]);
        i = i + 1;
        assert(r@ =~= s@.subrange(from as int, i as int));
    }
    r
}

/// The suffix of `s` that follows its first `n` characters.
pub fn skip_chars<'a>(s: &'a str, n: usize, len: usize) -> (r: &'a str)
    requires
        len == s@.len(),
        n <= len,
    ensures
        r@ == s@.skip(n as int),
{
    s.substring_char(n, len)
}

} // verus!

verus! {

/// Where the leading whitespace of `s` ends.
pub open spec fn trim_start(s: Seq<char>) -> int {
    crate::chars::span_end(s, 0, crate::chars::CharClass::WhiteSpace)
}

/// Where `s[..j]` ends once its trailing whitespace is removed.
pub open spec fn trim_end(s: Seq<char>, j: int) -> int
    decreases j,
{
    if 0 < j <= s.len() && crate::chars::is_white_space(s[j - 1]) {
        trim_end(s, j - 1)
    } else {
        j
    }
}

/// `s` without its leading and trailing whitespace (the Unicode `White_Space` characters), as
/// `str::trim` gives it.
pub open spec fn trimmed(s: Seq<char>) -> Seq<char> {
    let a = trim_start(s);
    let b = trim_end(s, s.len() as int);
    if a < b {
        s.subrange(a, b)
    } else {
        seq![]
    }
}

pub proof fn lemma_trim_end(s: Seq<char>, j: int)
    requires
        0 <= j <= s.len(),
    ensures
        0 <= trim_end(s, j) <= j,
        forall|k: int| trim_end(s, j) <= k < j ==> crate::chars::is_white_space(#[trigger] s[k]),
        trim_end(s, j) == 0 || !crate::chars::is_white_space(s[trim_end(s, j) - 1]),
    decreases j,
{
    if 0 < j && crate::chars::is_white_space(s[j - 1]) {
        lemma_trim_end(s, j - 1);
    }
}

/// The bounds of `s` without its leading and trailing whitespace (see `trimmed`).
pub fn trim_bounds(s: &[char]) -> (r: (usize, usize))
    ensures
        r.0 <= r.1 <= s@.len(),
        s@.subrange(r.0 as int, r.1 as int) == trimmed(s@),
{
    let a = crate::chars::scan(s, 0, crate::chars::CharClass::WhiteSpace);
    let mut b = s.len();
    while b > 0 && crate::chars::white_space(s[b - 1])
        invariant
            b <= s@.len(),
            trim_end(s@, s@.len() as int) == trim_end(s@, b as int),
        decreases b,
    {
        b = b - 1;
    }
    if a < b {
        (a, b)
    } else {
        assert(s@.subrange(a as int, a as int) =~= Seq::<char>::empty());
        (a, a)
    }
}

/// The number of bytes of the UTF-8 encoding of `c`.
pub open spec fn utf8_width(c: char) -> nat {
    if (c as u32) < 0x80 {
        1
    } else if (c as u32) < 0x800 {
        2
    } else if (c as u32) < 0x10000 {
        3
    } else {
        4
    }
}

proof fn lemma_utf8_width(c: char)
    ensures
        vstd::utf8::encode_scalar(c as u32).len() == utf8_width(c),
{
    vstd::utf8::char_is_scalar(c);
}

/// Encoding a concatenation gives the concatenation of the encodings.
pub proof fn lemma_encode_utf8_concat(x: Seq<char>, y: Seq<char>)
    ensures
        vstd::utf8::encode_utf8(x + y) == vstd::utf8::encode_utf8(x) + vstd::utf8::encode_utf8(y),
    decreases x.len(),
{
    if x.len() > 0 {
        lemma_encode_utf8_concat(x.drop_first(), y);
        assert((x + y).drop_first() =~= x.drop_first() + y);
        assert((x + y)[0] == x[0]);
        assert(vstd::utf8::encode_scalar(x[0] as u32) + (vstd::utf8::encode_utf8(x.drop_first())
            + vstd::utf8::encode_utf8(y)) =~= (vstd::utf8::encode_scalar(x[0] as u32)
            + vstd::utf8::encode_utf8(x.drop_first())) + vstd::utf8::encode_utf8(y));
    }
}

/// A part of a text that stands in the input stands at the matching place of the input.
pub proof fn lemma_subrange_of(s: Seq<char>, i: int, w: Seq<char>, a: int, b: int)
    requires
        0 <= i,
        i + w.len() <= s.len(),
        s.subrange(i, i + w.len()) == w,
        0 <= a <= b <= w.len(),
    ensures
        s.subrange(i + a, i + b) == w.subrange(a, b),
{
    assert forall|k: int| 0 <= k < b - a implies s.subrange(i + a, i + b)[k] == w.subrange(a, b)[k] by {
        assert(s.subrange(i, i + w.len())[a + k] == s[i + a + k]);
    }
    assert(s.subrange(i + a, i + b) =~= w.subrange(a, b));
}

/// Each character takes at least one byte.
pub proof fn lemma_encode_utf8_len(s: Seq<char>)
    ensures
        vstd::utf8::encode_utf8(s).len() >= s.len(),
    decreases s.len(),
{
    if s.len() > 0 {
        lemma_encode_utf8_len(s.drop_first());
        lemma_utf8_width(s[0]);
    }
}

/// The number of bytes of the UTF-8 encoding of `s[..p]`, where the encoding of all of `s` has
/// at most `bound` bytes.
pub fn byte_offset(s: &[char], p: usize, bound: usize) -> (r: usize)
    requires
        p <= s@.len(),
        vstd::utf8::encode_utf8(s@).len() <= bound,
    ensures
        r == vstd::utf8::encode_utf8(s@.take(p as int)).len(),
{
    proof {
        lemma_encode_utf8_concat(s@.take(p as int), s@.skip(p as int));
        assert(s@.take(p as int) + s@.skip(p as int) =~= s@);
    }
    let mut n: usize = 0;
    let mut i: usize = 0;
    while i < p
        invariant
            i <= p <= s@.len(),
            n == vstd::utf8::encode_utf8(s@.take(i as int)).len(),
            vstd::utf8::encode_utf8(s@.take(p as int)).len() <= bound,
        decreases p - i,
    {
        let c = s[i];
        let w: usize = if (c as u32) < 0x80 {
            1
        } else if (c as u32) < 0x800 {
            2
        } else if (c as u32) < 0x10000 {
            3
        } else {
            4
        };
        proof {
            lemma_utf8_width(c);
            lemma_encode_utf8_concat(s@.take(i as int), seq![c]);
            assert(s@.take(i + 1) =~= s@.take(i as int) + seq![c]);
            assert(seq![c].drop_first() =~= Seq::<char>::empty());
            assert(vstd::utf8::encode_utf8(Seq::<char>::empty()) =~= Seq::<u8>::empty());
            assert(vstd::utf8::encode_utf8(seq![c]) =~= vstd::utf8::encode_scalar(c as u32));
            lemma_encode_utf8_concat(s@.take(i + 1), s@.take(p as int).skip(i + 1));
            assert(s@.take(i + 1) + s@.take(p as int).skip(i + 1) =~= s@.take(p as int));
        }
        n = n + w;
        i = i + 1;
    }
    n
}

} // verus!

verus! {

/// The characters `s[from..to]`.
pub fn sub_chars(s: &[char], from: usize, to: usize) -> (r: Vec<char>)
    requires
        from <= to <= s@.len(),
    ensures
        r@ == s@.subrange(from as int, to as int),
{
    let mut r: Vec<char> = Vec::new();
    let mut i = from;
    while i < to
        invariant
            from <= i <= to <= s@.len(),
            r@ == s@.subrange(from as int, i as int),
        decreases to - i,
    {
        r.push(s[i]);
        i = i + 1;
        assert(r@ =~= s@.subrange(from as int, i as int));
    }
    r
}

/// The number of bytes of the UTF-8 encoding of `s`.
pub fn byte_len(s: &str) -> (r: usize)
    ensures
        r == vstd::utf8::encode_utf8(s@).len(),
{
    let b = s.as_bytes();
    b.len()
}

/// A part of a text has no more bytes than the text.
pub proof fn lemma_encode_utf8_subrange(s: Seq<char>, a: int, b: int)
    requires
        0 <= a <= b <= s.len(),
    ensures
        vstd::utf8::encode_utf8(s.subrange(a, b)).len() <= vstd::utf8::encode_utf8(s).len(),
{
    lemma_encode_utf8_concat(s.take(a), s.subrange(a, b));
    lemma_encode_utf8_concat(s.take(a) + s.subrange(a, b), s.skip(b));
    assert(s.take(a) + s.subrange(a, b) + s.skip(b) =~= s);
}

} // verus!
