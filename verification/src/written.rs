//! Maps written out pair by pair, each value in a form that its type reads, and what they parse
//! back to.
use vstd::prelude::*;

use crate::chars::{ascii_lower, is_key_start, is_white_space, lemma_span_end_at, CharClass};
use crate::key::{is_valid_key, lemma_key_round_trip};
use crate::primitives::boolean::{false_text, matches_caseless, true_text};
use crate::primitives::double::{
    inf_text, infinity_text, lemma_double_round_trip, lemma_double_text_ends, nan_text,
    spec_float_or_special_end,
};
use crate::primitives::integer::{digits_of, integer_text, is_radix, lemma_integer_round_trip, radix_class, radix_prefix};
use crate::primitives::string::{
    body_text, char_text, lemma_quoted_string_round_trip, lemma_unquoted_string_round_trip,
    quoted_text, writable, QuoteType,
};
use crate::assoc::{keys_unique, lemma_lookup_index};
use crate::error::ErrorKind;
use crate::key::{spec_key, Key};
use crate::key_value_pair::{after_space, spec_pair};
use crate::properties::{kept_with_key, lemma_with_pairs_last, lemma_with_pairs_untouched};
use crate::schema::{Schema, SchemaValue};
use crate::skv::{
    defaults_of, has_pair_key, missing_required, schema_entries, spec_pairs, spec_parse_map,
    with_pairs, SpecPair,
};
use crate::text::{lemma_subrange_of, trim_end, trim_start, trimmed};
use crate::value::{spec_typed_value, spec_untyped_value, terminated, SpecValue};

verus! {

/// A form in which a value is written.
pub enum Spelling {
    /// An integer in a radix (2, 8, 10 or 16).
    Int(i64, nat),
    /// A boolean, and its text: `true` or `false` in some mix of cases.
    Bool(bool, Seq<char>),
    /// A string between quotes: its contents and the quote.
    Quoted(Seq<char>, char),
    /// A string without quotes: its contents.
    Unquoted(Seq<char>),
    /// A double: a number, NaN or infinity, as its text.
    Double(Seq<char>),
}

impl Spelling {
    /// The text of the value.
    pub open spec fn text(self) -> Seq<char> {
        match self {
            Spelling::Int(n, radix) => integer_text(n as int, radix),
            Spelling::Bool(_, text) => text,
            Spelling::Quoted(t, q) => quoted_text(t, q),
            Spelling::Unquoted(t) => body_text(t, QuoteType::Unquoted),
            Spelling::Double(t) => t,
        }
    }

    /// The value written.
    pub open spec fn value(self) -> SpecValue {
        match self {
            Spelling::Int(n, _) => SpecValue::Int(n),
            Spelling::Bool(b, _) => SpecValue::Bool(b),
            Spelling::Quoted(t, _) => SpecValue::String(t),
            Spelling::Unquoted(t) => SpecValue::String(t),
            Spelling::Double(t) => SpecValue::Double(t),
        }
    }

    /// Whether this spelling is well formed: an integer in radix 2, 8, 10 or 16; `true` or
    /// `false` in any case; a string without null characters between `'` or `"`; a non-empty
    /// string without quotes whose characters are escaped or may stand in an unquoted string; or
    /// a number, NaN or infinity as `f64`'s `FromStr` reads it (without a sign before NaN or
    /// infinity).
    pub open spec fn well_formed(self) -> bool {
        match self {
            Spelling::Int(_, radix) => is_radix(radix),
            Spelling::Bool(b, text) => {
                let lit = if b {
                    true_text()
                } else {
                    false_text()
                };
                text.len() == lit.len() && matches_caseless(text, 0, lit)
            },
            Spelling::Quoted(t, q) => (q == '\'' || q == '"') && forall|k: int|
                0 <= k < t.len() ==> t[k] != '\0',
            Spelling::Unquoted(t) => t.len() > 0 && writable(t, QuoteType::Unquoted),
            Spelling::Double(t) => spec_float_or_special_end(t, 0) == Some(t.len() as int),
        }
    }

    /// Whether this is a well-formed spelling of a value of the type that `sv` expects.
    pub open spec fn fits(self, sv: SchemaValue) -> bool {
        &&& self.well_formed()
        &&& match self {
            Spelling::Int(_, _) => sv is Int,
            Spelling::Bool(_, _) => sv is Bool,
            Spelling::Quoted(_, _) => sv is String,
            Spelling::Unquoted(_) => sv is String,
            Spelling::Double(_) => sv is Double,
        }
    }

    /// Whether this is a well-formed spelling whose type is inferred as the type of the value
    /// written: an integer, a boolean, or a string between quotes (a string without quotes may
    /// read as a boolean or a number, and a double as an integer).
    pub open spec fn fits_inferred(self) -> bool {
        self.well_formed() && !(self is Unquoted) && !(self is Double)
    }
}

/// The first and the last character of the characters `t` written without quotes stand for
/// neither whitespace nor a quote.
proof fn lemma_unquoted_ends(t: Seq<char>)
    requires
        t.len() > 0,
        writable(t, QuoteType::Unquoted),
    ensures
        body_text(t, QuoteType::Unquoted).len() > 0,
        !is_white_space(body_text(t, QuoteType::Unquoted)[0]),
        !is_white_space(body_text(t, QuoteType::Unquoted).last()),
    decreases t.len(),
{
    let b = body_text(t, QuoteType::Unquoted);
    let r = t.drop_first();
    assert(t[0] != '\0');
    assert(b == char_text(t[0], QuoteType::Unquoted) + body_text(r, QuoteType::Unquoted));
    if r.len() > 0 {
        assert(writable(r, QuoteType::Unquoted)) by {
            assert forall|k: int| 0 <= k < r.len() implies #[trigger] r[k] != '\0' && (
            crate::primitives::string::escaped_in(r[k], QuoteType::Unquoted)
                || crate::primitives::string::literal_class(QuoteType::Unquoted).contains(r[k])) by {
                assert(r[k] == t[k + 1]);
            }
        }
        lemma_unquoted_ends(r);
    }
}

/// The text of a spelling is not empty and neither starts nor ends with whitespace.
proof fn lemma_spelling_ends(sp: Spelling)
    requires
        sp.well_formed(),
    ensures
        sp.text().len() > 0,
        !is_white_space(sp.text()[0]),
        !is_white_space(sp.text().last()),
{
    match sp {
        Spelling::Int(n, radix) => {
            let t = sp.text();
            let magnitude: nat = if n < 0 {
                (-n) as nat
            } else {
                n as nat
            };
            let d = digits_of(magnitude, radix);
            let sign: int = if n < 0 {
                1
            } else {
                0
            };
            let a = sign + radix_prefix(radix).len();
            assert(t.subrange(a, a + d.len()) =~= d);
            crate::primitives::integer::lemma_digits_of(magnitude, radix, t, a);
            assert(radix_class(radix).contains(t[a]));
            assert(radix_class(radix).contains(t[a + d.len() - 1]));
            assert(t.len() == a + d.len());
            if n < 0 {
                assert(t[0] == '-');
                assert(!is_white_space(t[0]));
            } else if radix != 10 {
                assert(t[0] == '0');
                assert(!is_white_space(t[0]));
            } else {
                assert(a == 0);
                assert(!is_white_space(t[0]));
            }

        },
        Spelling::Bool(b, text) => {
            let lit = if b {
                true_text()
            } else {
                false_text()
            };
            assert(ascii_lower(text[0int + 0int]) == lit[0]);
            let last = text.len() - 1;
            assert(ascii_lower(text[0 + last]) == if b {
                true_text()
            } else {
                false_text()
            }[last]);
        },
        Spelling::Quoted(t, q) => {
            assert(quoted_text(t, q)[0] == q);
            assert(quoted_text(t, q).last() == q);
        },
        Spelling::Unquoted(t) => {
            lemma_unquoted_ends(t);
        },
        Spelling::Double(t) => {
            lemma_double_text_ends(t);
        },
    }
}

/// A spelling of a value that the schema value `sv` reads, wherever it stands in the input and
/// whitespace or the end of the input follows it, reads back as the value.
pub proof fn lemma_spelling_reads(s: Seq<char>, j: int, sp: Spelling, sv: SchemaValue)
    requires
        sp.fits(sv),
        0 <= j,
        j + sp.text().len() <= s.len(),
        s.subrange(j, j + sp.text().len()) == sp.text(),
        terminated(s, j + sp.text().len()),
    ensures
        spec_typed_value(s, j, sv) == Some((j + sp.text().len(), sp.value())),
{
    let e = j + sp.text().len();
    match sp {
        Spelling::Int(n, radix) => {
            lemma_integer_round_trip(s, j, n as int, radix);
        },
        Spelling::Bool(b, text) => {
            assert forall|k: int| 0 <= k < text.len() implies s[j + k] == text[k] by {
                assert(s.subrange(j, e)[k] == s[j + k]);
            }
            if b {
                assert(matches_caseless(s, j, true_text())) by {
                    assert forall|k: int| 0 <= k < true_text().len() implies ascii_lower(
                        #[trigger] s[j + k],
                    ) == true_text()[k] by {
                        assert(ascii_lower(text[0 + k]) == true_text()[k]);
                    }
                }
            } else {
                assert(ascii_lower(text[0int + 0int]) == false_text()[0]);
                assert(!matches_caseless(s, j, true_text())) by {
                    assert(ascii_lower(s[j + 0]) != true_text()[0]);
                }
                assert(matches_caseless(s, j, false_text())) by {
                    assert forall|k: int| 0 <= k < false_text().len() implies ascii_lower(
                        #[trigger] s[j + k],
                    ) == false_text()[k] by {
                        assert(ascii_lower(text[0 + k]) == false_text()[k]);
                    }
                }
            }
        },
        Spelling::Quoted(t, q) => {
            lemma_quoted_string_round_trip(s, j, t, q);
        },
        Spelling::Unquoted(t) => {
            lemma_unquoted_string_round_trip(s, j, t);
        },
        Spelling::Double(t) => {
            lemma_double_round_trip(s, j, t);
        },
    }
}

/// A pair as written: the key's text, whether a space stands before and after the `=`, and the
/// spelling of the value.
pub struct WrittenPair {
    pub key: Seq<char>,
    pub space_before: bool,
    pub space_after: bool,
    pub spelling: Spelling,
}

impl WrittenPair {
    /// The text of the pair.
    pub open spec fn text(self) -> Seq<char> {
        self.key + (if self.space_before {
            seq![' ']
        } else {
            seq![]
        }) + seq!['='] + (if self.space_after {
            seq![' ']
        } else {
            seq![]
        }) + self.spelling.text()
    }

    /// The pair that the parser reads from this one: its key, its value, and that it is kept.
    pub open spec fn read(self) -> SpecPair {
        (self.key, self.spelling.value(), true)
    }
}

/// The pairs written one after another, separated by single spaces.
pub open spec fn written_map(ps: Seq<WrittenPair>) -> Seq<char>
    decreases ps.len(),
{
    if ps.len() == 0 {
        seq![]
    } else if ps.len() == 1 {
        ps[0].text()
    } else {
        ps[0].text() + seq![' '] + written_map(ps.drop_first())
    }
}

/// Whether a written pair suits `schema`: its key is a whole key; where there is a schema, the
/// schema knows the key and the value is spelled in a form that the schema's expectation for the
/// key reads; without one, the value is spelled in a form whose type is inferred as its own.
pub open spec fn pair_fits(schema: Option<Schema>, p: WrittenPair) -> bool {
    &&& is_valid_key(p.key)
    &&& match schema {
        Some(sch) => sch.expects(p.key) matches Some(sv) && p.spelling.fits(sv),
        None => p.spelling.fits_inferred(),
    }
}

/// Whether each written pair suits `schema`.
pub open spec fn pairs_fit(schema: Option<Schema>, ps: Seq<WrittenPair>) -> bool {
    forall|j: int| 0 <= j < ps.len() ==> pair_fits(schema, #[trigger] ps[j])
}

/// The pairs that the parser reads from the written ones.
pub open spec fn pairs_read(ps: Seq<WrittenPair>) -> Seq<SpecPair> {
    ps.map_values(|p: WrittenPair| p.read())
}

proof fn lemma_pairs_fit_rest(schema: Option<Schema>, ps: Seq<WrittenPair>)
    requires
        ps.len() > 0,
        pairs_fit(schema, ps),
    ensures
        pairs_fit(schema, ps.drop_first()),
        pair_fits(schema, ps[0]),
{
    let r = ps.drop_first();
    assert forall|j: int| 0 <= j < r.len() implies pair_fits(schema, #[trigger] r[j]) by {
        assert(r[j] == ps[j + 1]);
    }
}

/// An integer written in a radix starts with `-` or a digit.
proof fn lemma_integer_text_start(n: int, radix: nat)
    requires
        is_radix(radix),
    ensures
        integer_text(n, radix).len() > 0,
        integer_text(n, radix)[0] == '-' || crate::chars::is_ascii_digit(integer_text(n, radix)[0]),
{
    let t = integer_text(n, radix);
    let magnitude: nat = if n < 0 {
        (-n) as nat
    } else {
        n as nat
    };
    let d = digits_of(magnitude, radix);
    let sign: int = if n < 0 {
        1
    } else {
        0
    };
    let a = sign + radix_prefix(radix).len();
    assert(t.subrange(a, a + d.len()) =~= d);
    crate::primitives::integer::lemma_digits_of(magnitude, radix, t, a);
    if n >= 0 && radix == 10 {
        assert(a == 0);
        assert(radix_class(radix).contains(t[a]));
    }
}

/// A spelling whose type is inferred as its own, wherever it stands in the input and whitespace
/// or the end of the input follows it, reads back as the value without a schema.
pub proof fn lemma_spelling_reads_inferred(s: Seq<char>, j: int, sp: Spelling)
    requires
        sp.fits_inferred(),
        0 <= j,
        j + sp.text().len() <= s.len(),
        s.subrange(j, j + sp.text().len()) == sp.text(),
        terminated(s, j + sp.text().len()),
    ensures
        spec_untyped_value(s, j) == Some((j + sp.text().len(), sp.value())),
{
    let t = sp.text();
    lemma_spelling_ends(sp);
    assert(s.subrange(j, j + t.len())[0] == s[j]);
    match sp {
        Spelling::Int(n, radix) => {
            lemma_integer_text_start(n as int, radix);
            assert(!matches_caseless(s, j, true_text())) by {
                assert(ascii_lower(s[j + 0]) != true_text()[0]);
            }
            assert(!matches_caseless(s, j, false_text())) by {
                assert(ascii_lower(s[j + 0]) != false_text()[0]);
            }
            lemma_integer_round_trip(s, j, n as int, radix);
        },
        Spelling::Bool(b, text) => {
            lemma_spelling_reads(s, j, sp, SchemaValue::Bool(arbitrary()));
        },
        Spelling::Quoted(contents, q) => {
            assert(t[0] == q);
            assert(!matches_caseless(s, j, true_text())) by {
                assert(ascii_lower(s[j + 0]) != true_text()[0]);
            }
            assert(!matches_caseless(s, j, false_text())) by {
                assert(ascii_lower(s[j + 0]) != false_text()[0]);
            }
            assert(!matches_caseless(s, j, nan_text())) by {
                assert(ascii_lower(s[j + 0]) != nan_text()[0]);
            }
            assert(!matches_caseless(s, j, inf_text())) by {
                assert(ascii_lower(s[j + 0]) != inf_text()[0]);
            }
            assert(!matches_caseless(s, j, infinity_text())) by {
                assert(ascii_lower(s[j + 0]) != infinity_text()[0]);
            }
            lemma_span_end_at(s, j, j, CharClass::DecDigit);
            lemma_quoted_string_round_trip(s, j, contents, q);
        },
        Spelling::Unquoted(_) => {},
        Spelling::Double(_) => {},
    }
}

/// Where the value of a written pair starts in the input.
pub open spec fn value_start(p: WrittenPair, i: int) -> int {
    i + p.key.len() + (if p.space_before {
        1int
    } else {
        0
    }) + 1 + (if p.space_after {
        1int
    } else {
        0
    })
}

/// A written pair in the input: its key reads to its end, the `=` stands where the pair reader
/// looks for it, and the value's text starts where it looks for the value.
proof fn lemma_pair_layout(s: Seq<char>, i: int, p: WrittenPair)
    requires
        is_valid_key(p.key),
        p.spelling.well_formed(),
        0 <= i,
        i + p.text().len() <= s.len(),
        s.subrange(i, i + p.text().len()) == p.text(),
    ensures
        ({
            let kend = i + p.key.len();
            let j = value_start(p, i);
            &&& spec_key(s, i) == Ok::<int, int>(kend)
            &&& s.subrange(i, kend) == p.key
            &&& after_space(s, kend) < s.len() && s[after_space(s, kend)] == '='
            &&& after_space(s, after_space(s, kend) + 1) == j
            &&& j + p.spelling.text().len() == i + p.text().len()
            &&& s.subrange(j, j + p.spelling.text().len()) == p.spelling.text()
        }),
{
    let t = p.text();
    let vt = p.spelling.text();
    let kl = p.key.len() as int;
    let b: int = if p.space_before {
        1
    } else {
        0
    };
    let kend = i + kl;
    let eq = kend + b;
    let j = value_start(p, i);
    let e = i + t.len();
    assert(t.len() == kl + b + 1 + (j - eq - 1) + vt.len());
    lemma_spelling_ends(p.spelling);
    lemma_subrange_of(s, i, t, 0, kl);
    assert(t.subrange(0, kl) =~= p.key);
    assert(s.subrange(i, e)[kl] == s[kend]);
    assert(s.subrange(i, e)[kl + b] == s[eq]);
    assert(s.subrange(i, e)[kl + b + 1] == s[eq + 1]);
    lemma_key_round_trip(s, i, p.key);
    if !p.space_after {
        assert(t[kl + b + 1] == vt[0]);
    }
    lemma_subrange_of(s, i, t, j - i, e - i);
    assert(t.subrange(j - i, e - i) =~= vt);
}

/// A pair written for `schema`, wherever it stands in the input and a space or the end of the
/// input follows it, reads back as its key and value.
proof fn lemma_pair_reads(schema: Option<Schema>, s: Seq<char>, i: int, p: WrittenPair)
    requires
        pair_fits(schema, p),
        0 <= i,
        i + p.text().len() <= s.len(),
        s.subrange(i, i + p.text().len()) == p.text(),
        i + p.text().len() == s.len() || s[i + p.text().len()] == ' ',
    ensures
        spec_pair(schema, s, i) == Ok::<(int, Seq<char>, SpecValue, bool), (int, ErrorKind)>(
            (i + p.text().len(), p.key, p.spelling.value(), true),
        ),
{
    lemma_pair_layout(s, i, p);
    let j = value_start(p, i);
    match schema {
        Some(sch) => {
            lemma_spelling_reads(s, j, p.spelling, sch.expects(p.key).unwrap());
        },
        None => {
            lemma_spelling_reads_inferred(s, j, p.spelling);
        },
    }
}

/// The written text of the pairs begins with the first key and ends with the last value.
proof fn lemma_written_map_ends(schema: Option<Schema>, ps: Seq<WrittenPair>)
    requires
        ps.len() > 0,
        pairs_fit(schema, ps),
    ensures
        written_map(ps).len() > 0,
        written_map(ps)[0] == ps[0].key[0],
        written_map(ps).last() == ps.last().spelling.text().last(),
    decreases ps.len(),
{
    lemma_pairs_fit_rest(schema, ps);
    lemma_spelling_ends(ps[0].spelling);
    if ps.len() > 1 {
        let r = ps.drop_first();
        lemma_written_map_ends(schema, r);
        assert(r.last() == ps.last());
    }
}

/// Written pairs that fill the input from `i` to its end read back as themselves.
#[verifier::spinoff_prover]
proof fn lemma_written_pairs_read(schema: Option<Schema>, s: Seq<char>, i: int, ps: Seq<WrittenPair>)
    requires
        ps.len() > 0,
        pairs_fit(schema, ps),
        0 <= i,
        i + written_map(ps).len() == s.len(),
        s.subrange(i, s.len() as int) == written_map(ps),
    ensures
        spec_pairs(schema, s, i) == Ok::<Seq<SpecPair>, (int, ErrorKind)>(pairs_read(ps)),
    decreases ps.len(),
{
    let w = written_map(ps);
    let t0 = ps[0].text();
    let n0 = t0.len() as int;
    let e = i + n0;
    lemma_pairs_fit_rest(schema, ps);
    if ps.len() == 1 {
        assert(w == t0);
        lemma_pair_reads(schema, s, i, ps[0]);
        assert(pairs_read(ps) =~= seq![ps[0].read()]);
    } else {
        let r = ps.drop_first();
        let wr = written_map(r);
        assert(w == t0 + seq![' '] + wr);
        lemma_subrange_of(s, i, w, 0, n0);
        assert(w.subrange(0, n0) =~= t0);
        assert(s.subrange(i, s.len() as int)[n0] == s[e]);
        assert(s.subrange(i, s.len() as int)[n0 + 1] == s[e + 1]);
        lemma_pair_reads(schema, s, i, ps[0]);
        lemma_written_map_ends(schema, r);
        lemma_pairs_fit_rest(schema, r);
        assert(is_key_start(s[e + 1]));
        lemma_span_end_at(s, e, e + 1, CharClass::Multispace);
        lemma_subrange_of(s, i, w, n0 + 1, w.len() as int);
        assert(w.subrange(n0 + 1, w.len() as int) =~= wr);
        lemma_written_pairs_read(schema, s, e + 1, r);
        assert(pairs_read(ps) =~= seq![ps[0].read()] + pairs_read(r));
    }
}

/// A text that neither starts nor ends with whitespace is its own trimmed text.
proof fn lemma_trimmed_whole(s: Seq<char>)
    requires
        s.len() > 0,
        !is_white_space(s[0]),
        !is_white_space(s.last()),
    ensures
        trimmed(s) == s,
{
    crate::chars::lemma_span_end(s, 0, CharClass::WhiteSpace);
    assert(trim_start(s) == 0);
    assert(trim_end(s, s.len() as int) == s.len());
    assert(s.subrange(0, s.len() as int) =~= s);
}

/// The written pairs are read back, from the trimmed text of the whole map.
proof fn lemma_written_map_read(schema: Option<Schema>, ps: Seq<WrittenPair>)
    requires
        ps.len() > 0,
        pairs_fit(schema, ps),
    ensures
        spec_pairs(schema, trimmed(written_map(ps)), 0) == Ok::<Seq<SpecPair>, (int, ErrorKind)>(
            pairs_read(ps),
        ),
{
    let w = written_map(ps);
    lemma_written_map_ends(schema, ps);
    lemma_pairs_fit_rest(schema, ps);
    let last = ps.len() - 1;
    assert(pair_fits(schema, ps[last]));
    assert(ps[last] == ps.last());
    lemma_spelling_ends(ps.last().spelling);
    lemma_trimmed_whole(w);
    assert(w.subrange(0, w.len() as int) =~= w);
    lemma_written_pairs_read(schema, w, 0, ps);
}

/// Where every required entry has a pair, no required entry is missing.
proof fn lemma_none_missing(entries: Seq<(Key, SchemaValue)>, pairs: Seq<SpecPair>)
    requires
        forall|i: int|
            0 <= i < entries.len() && (#[trigger] entries[i]).1.spec_behaviour() is Required
                ==> has_pair_key(pairs, entries[i].0@),
    ensures
        missing_required(entries, pairs).len() == 0,
    decreases entries.len(),
{
    if entries.len() > 0 {
        let d = entries.drop_last();
        assert forall|i: int|
            0 <= i < d.len() && (#[trigger] d[i]).1.spec_behaviour() is Required implies has_pair_key(
            pairs,
            d[i].0@,
        ) by {
            assert(d[i] == entries[i]);
        }
        lemma_none_missing(d, pairs);
        assert(entries[entries.len() - 1] == entries.last());
    }
}

/// Where every key that the schema requires is written, none is missing from what is read.
proof fn lemma_written_none_missing(schema: Schema, ps: Seq<WrittenPair>)
    requires
        keys_unique(schema.entries()),
        forall|k: Seq<char>|
            (#[trigger] schema.expects(k) matches Some(sv) && sv.spec_behaviour() is Required) ==> exists|
                j: int,
            |
                0 <= j < ps.len() && ps[j].key == k,
    ensures
        missing_required(schema.entries(), pairs_read(ps)).len() == 0,
{
    let entries = schema.entries();
    let pairs = pairs_read(ps);
    assert forall|i: int|
        0 <= i < entries.len() && (#[trigger] entries[i]).1.spec_behaviour() is Required implies has_pair_key(
        pairs,
        entries[i].0@,
    ) by {
        lemma_lookup_index(entries, i);
        let k = entries[i].0@;
        assert(schema.expects(k) == Some(entries[i].1));
        let j = choose|j: int| 0 <= j < ps.len() && ps[j].key == k;
        assert(pairs[j].0 == k);
    }
    lemma_none_missing(entries, pairs);
}

/// Where the written keys are distinct, each written pair gives its key its value.
proof fn lemma_written_value(m: Map<Seq<char>, SpecValue>, ps: Seq<WrittenPair>, j: int)
    requires
        0 <= j < ps.len(),
        forall|a: int, b: int| 0 <= a < b < ps.len() ==> ps[a].key != ps[b].key,
    ensures
        with_pairs(m, pairs_read(ps)).dom().contains(ps[j].key),
        with_pairs(m, pairs_read(ps))[ps[j].key] == ps[j].spelling.value(),
{
    let pairs = pairs_read(ps);
    assert(pairs[j] == ps[j].read());
    assert(!kept_with_key(pairs, pairs[j].0, j + 1)) by {
        if kept_with_key(pairs, pairs[j].0, j + 1) {
            let l = choose|l: int| j + 1 <= l < pairs.len() && #[trigger] pairs[l].2 && pairs[l].0
                == pairs[j].0;
            assert(pairs[l] == ps[l].read());
        }
    }
    lemma_with_pairs_last(m, pairs, j);
}

/// A map written as pairs separated by single spaces, with at most one space on either side of
/// each `=`, parses back under `schema` to the values written: where its keys are distinct whole
/// keys that the schema knows, each value is spelled in a form that the schema's expectation for
/// its key reads, and every key that the schema requires is written.
pub proof fn lemma_written_map_parses(schema: Schema, ps: Seq<WrittenPair>)
    requires
        keys_unique(schema.entries()),
        ps.len() > 0,
        pairs_fit(Some(schema), ps),
        forall|a: int, b: int| 0 <= a < b < ps.len() ==> ps[a].key != ps[b].key,
        forall|k: Seq<char>|
            (#[trigger] schema.expects(k) matches Some(sv) && sv.spec_behaviour() is Required) ==> exists|
                j: int,
            |
                0 <= j < ps.len() && ps[j].key == k,
    ensures
        spec_parse_map(Some(schema), written_map(ps)) matches Ok(m) && forall|j: int|
            0 <= j < ps.len() ==> m.dom().contains(#[trigger] ps[j].key) && m[ps[j].key]
                == ps[j].spelling.value(),
{
    let w = written_map(ps);
    let entries = schema.entries();
    lemma_written_map_read(Some(schema), ps);
    lemma_written_none_missing(schema, ps);
    let m = with_pairs(defaults_of(entries), pairs_read(ps));
    assert(spec_parse_map(Some(schema), w) == Ok::<Map<Seq<char>, SpecValue>, crate::skv::MapFailure>(m));
    assert forall|j: int| 0 <= j < ps.len() implies m.dom().contains(#[trigger] ps[j].key) && m[ps[j].key]
        == ps[j].spelling.value() by {
        lemma_written_value(defaults_of(entries), ps, j);
    }
}

/// A map written as pairs separated by single spaces, with at most one space on either side of
/// each `=`, parses back without a schema to exactly the values written: where its keys are
/// distinct whole keys, and each value is an integer, a boolean or a string between quotes.
pub proof fn lemma_written_map_parses_inferred(ps: Seq<WrittenPair>)
    requires
        ps.len() > 0,
        pairs_fit(None, ps),
        forall|a: int, b: int| 0 <= a < b < ps.len() ==> ps[a].key != ps[b].key,
    ensures
        spec_parse_map(None, written_map(ps)) matches Ok(m) && (forall|j: int|
            0 <= j < ps.len() ==> m.dom().contains(#[trigger] ps[j].key) && m[ps[j].key]
                == ps[j].spelling.value()) && (forall|k: Seq<char>|
            #[trigger] m.dom().contains(k) ==> exists|j: int| 0 <= j < ps.len() && ps[j].key == k),
{
    let w = written_map(ps);
    let pairs = pairs_read(ps);
    lemma_written_map_read(None, ps);
    assert(missing_required(schema_entries(None), pairs) =~= Seq::<(Seq<char>, crate::value::ValueType)>::empty());
    let m0 = defaults_of(schema_entries(None));
    assert(m0 =~= Map::<Seq<char>, SpecValue>::empty());
    let m = with_pairs(m0, pairs);
    assert(spec_parse_map(None, w) == Ok::<Map<Seq<char>, SpecValue>, crate::skv::MapFailure>(m));
    assert forall|j: int| 0 <= j < ps.len() implies m.dom().contains(#[trigger] ps[j].key) && m[ps[j].key]
        == ps[j].spelling.value() by {
        lemma_written_value(m0, ps, j);
    }
    assert forall|k: Seq<char>| #[trigger] m.dom().contains(k) implies exists|j: int|
        0 <= j < ps.len() && ps[j].key == k by {
        if kept_with_key(pairs, k, 0) {
            let l = choose|l: int| 0 <= l < pairs.len() && #[trigger] pairs[l].2 && pairs[l].0 == k;
            assert(pairs[l] == ps[l].read());
        } else {
            lemma_with_pairs_untouched(m0, pairs, k);
        }
    }
}

} // verus!
