//! What every parse of a map guarantees, whatever the schema and the input.
use vstd::prelude::*;

use crate::assoc::{assoc_lookup, has_key, keys_unique, lemma_lookup, lemma_lookup_push};
use crate::chars::{is_white_space, span_end, CharClass};
use crate::key::spec_key;
use crate::key_value_pair::{after_space, schema_expects, spec_pair, unknown_with};
use crate::key::Key;
use crate::schema::{
    lemma_default_has_expected_type, same_entries, same_expectations, Schema, SchemaValue,
    UnknownKeyBehaviour, ValueBehaviour,
};
use crate::skv::{
    defaults_of, has_pair_key, missing_required, reports, schema_entries, spec_pairs,
    spec_parse_map, with_pairs, MapFailure, SpecPair,
};
use crate::error::MapParseError;
use crate::text::{trim_end, trim_start, trimmed};
use crate::value::{spec_typed_value, type_of, SpecValue, ValueType};

verus! {

/// What holds of each pair that the parser reads under `schema`: it is kept unless its key is
/// unknown and skipped, its key is not an unknown key that is an error, and its value has the
/// type that the schema expects for its key.
pub open spec fn pair_conforms(schema: Option<Schema>, p: SpecPair) -> bool {
    &&& p.2 == !unknown_with(schema, p.0, UnknownKeyBehaviour::Skip)
    &&& !unknown_with(schema, p.0, UnknownKeyBehaviour::Error)
    &&& (schema_expects(schema, p.0) matches Some(sv) ==> type_of(p.1) == sv.spec_value_type())
}

/// Whether a pair of `pairs` at `from` or later is kept and has the key `k`.
pub open spec fn kept_with_key(pairs: Seq<SpecPair>, k: Seq<char>, from: int) -> bool {
    exists|l: int| from <= l < pairs.len() && #[trigger] pairs[l].2 && pairs[l].0 == k
}

/// A value read as the type that a schema value expects has that type.
proof fn lemma_typed_value_type(s: Seq<char>, i: int, sv: SchemaValue)
    ensures
        spec_typed_value(s, i, sv) matches Some((e, v)) ==> type_of(v) == sv.spec_value_type(),
{
}

/// A pair read under `schema` conforms to it.
proof fn lemma_pair_conforms(schema: Option<Schema>, s: Seq<char>, i: int)
    ensures
        spec_pair(schema, s, i) matches Ok((e, k, v, keep)) ==> pair_conforms(schema, (k, v, keep)),
{
    if let Ok(kend) = spec_key(s, i) {
        let eq = after_space(s, kend);
        let j = after_space(s, eq + 1);
        if let Some(sv) = schema_expects(schema, s.subrange(i, kend)) {
            lemma_typed_value_type(s, j, sv);
        }
    }
}

/// Each pair that the parser reads from `i` on conforms to the schema.
pub proof fn lemma_pairs_conform(schema: Option<Schema>, s: Seq<char>, i: int)
    ensures
        spec_pairs(schema, s, i) matches Ok(ps) ==> forall|j: int|
            0 <= j < ps.len() ==> pair_conforms(schema, #[trigger] ps[j]),
    decreases s.len() - i,
{
    lemma_pair_conforms(schema, s, i);
    if let Ok((e, k, v, keep)) = spec_pair(schema, s, i) {
        let m = span_end(s, e, CharClass::Multispace);
        if i < e && e < m && m <= s.len() {
            lemma_pairs_conform(schema, s, m);
            if let Ok(rest) = spec_pairs(schema, s, m) {
                let ps = seq![(k, v, keep)] + rest;
                assert forall|j: int| 0 <= j < ps.len() implies pair_conforms(
                    schema,
                    #[trigger] ps[j],
                ) by {
                    if j > 0 {
                        assert(ps[j] == rest[j - 1]);
                    }
                }
            }
        }
    }
}

/// Dropping the last pair keeps what the other pairs say of a key.
proof fn lemma_kept_drop_last(pairs: Seq<SpecPair>, k: Seq<char>, from: int)
    requires
        pairs.len() > 0,
        0 <= from,
    ensures
        kept_with_key(pairs, k, from) == (kept_with_key(pairs.drop_last(), k, from) || (from
            <= pairs.len() - 1 && pairs.last().2 && pairs.last().0 == k)),
{
    let d = pairs.drop_last();
    if kept_with_key(pairs, k, from) {
        let l = choose|l: int| from <= l < pairs.len() && #[trigger] pairs[l].2 && pairs[l].0 == k;
        if l < pairs.len() - 1 {
            assert(d[l] == pairs[l]);
        }
    }
    if kept_with_key(d, k, from) {
        let l = choose|l: int| from <= l < d.len() && #[trigger] d[l].2 && d[l].0 == k;
        assert(d[l] == pairs[l]);
    }
    if from <= pairs.len() - 1 && pairs.last().2 && pairs.last().0 == k {
        assert(pairs[pairs.len() - 1] == pairs.last());
    }
}

/// A key that no kept pair has keeps what `m` gives it.
pub proof fn lemma_with_pairs_untouched(m: Map<Seq<char>, SpecValue>, pairs: Seq<SpecPair>, k: Seq<char>)
    requires
        !kept_with_key(pairs, k, 0),
    ensures
        with_pairs(m, pairs).dom().contains(k) == m.dom().contains(k),
        m.dom().contains(k) ==> with_pairs(m, pairs)[k] == m[k],
    decreases pairs.len(),
{
    if pairs.len() > 0 {
        lemma_kept_drop_last(pairs, k, 0);
        lemma_with_pairs_untouched(m, pairs.drop_last(), k);
    }
}

/// The last kept pair with a key gives the key its value.
pub proof fn lemma_with_pairs_last(m: Map<Seq<char>, SpecValue>, pairs: Seq<SpecPair>, j: int)
    requires
        0 <= j < pairs.len(),
        pairs[j].2,
        !kept_with_key(pairs, pairs[j].0, j + 1),
    ensures
        with_pairs(m, pairs).dom().contains(pairs[j].0),
        with_pairs(m, pairs)[pairs[j].0] == pairs[j].1,
    decreases pairs.len(),
{
    let n = pairs.len();
    lemma_kept_drop_last(pairs, pairs[j].0, j + 1);
    if j < n - 1 {
        let d = pairs.drop_last();
        assert(d[j] == pairs[j]);
        lemma_with_pairs_last(m, d, j);
    }
}

/// Where some kept pair has the key `k`, the last one.
proof fn last_kept(pairs: Seq<SpecPair>, k: Seq<char>) -> (j: int)
    requires
        kept_with_key(pairs, k, 0),
    ensures
        0 <= j < pairs.len(),
        pairs[j].2,
        pairs[j].0 == k,
        !kept_with_key(pairs, k, j + 1),
    decreases pairs.len(),
{
    let n = pairs.len();
    lemma_kept_drop_last(pairs, k, 0);
    if pairs.last().2 && pairs.last().0 == k {
        assert(!kept_with_key(pairs, k, n as int));
        n - 1
    } else {
        let d = pairs.drop_last();
        let j = last_kept(d, k);
        assert(d[j] == pairs[j]);
        lemma_kept_drop_last(pairs, k, j + 1);
        j
    }
}

/// The defaults of the entries are given to keys of the entries only.
proof fn lemma_defaults_keys(entries: Seq<(crate::key::Key, SchemaValue)>, k: Seq<char>)
    ensures
        defaults_of(entries).dom().contains(k) ==> has_key(entries, k),
    decreases entries.len(),
{
    if entries.len() > 0 {
        let d = entries.drop_last();
        lemma_defaults_keys(d, k);
        if has_key(d, k) {
            let i = choose|i: int| 0 <= i < d.len() && d[i].0@ == k;
            assert(entries[i] == d[i]);
        }
        assert(entries[entries.len() - 1] == entries.last());
    }
}

/// With unique keys, a key has a default exactly where its entry gives one, and it is that one.
proof fn lemma_defaults_of(entries: Seq<(crate::key::Key, SchemaValue)>, k: Seq<char>)
    requires
        keys_unique(entries),
    ensures
        defaults_of(entries).dom().contains(k) == (assoc_lookup(entries, k) matches Some(sv)
            && sv.spec_behaviour() is Default),
        defaults_of(entries).dom().contains(k) ==> assoc_lookup(entries, k).unwrap().spec_behaviour()
            == ValueBehaviour::Default(defaults_of(entries)[k]),
    decreases entries.len(),
{
    if entries.len() > 0 {
        let d = entries.drop_last();
        let last = entries.last();
        assert(keys_unique(d)) by {
            assert forall|a: int, b: int| 0 <= a < b < d.len() implies d[a].0@ != d[b].0@ by {
                assert(d[a] == entries[a] && d[b] == entries[b]);
            }
        }
        assert(!has_key(d, last.0@)) by {
            if has_key(d, last.0@) {
                let i = choose|i: int| 0 <= i < d.len() && d[i].0@ == last.0@;
                assert(d[i] == entries[i]);
                assert(entries[entries.len() - 1] == last);
            }
        }
        assert(d.push(last) =~= entries);
        lemma_lookup_push(d, last.0, last.1, k);
        lemma_defaults_of(d, k);
        lemma_lookup(d, k);
    }
}

/// Where no required entry is missing, every required key has a pair.
proof fn lemma_required_have_pairs(entries: Seq<(crate::key::Key, SchemaValue)>, pairs: Seq<SpecPair>, i: int)
    requires
        missing_required(entries, pairs).len() == 0,
        0 <= i < entries.len(),
        entries[i].1.spec_behaviour() is Required,
    ensures
        has_pair_key(pairs, entries[i].0@),
    decreases entries.len(),
{
    let d = entries.drop_last();
    if i < entries.len() - 1 {
        assert(d[i] == entries[i]);
        lemma_required_have_pairs(d, pairs, i);
    } else {
        assert(entries.last() == entries[i]);
    }
}

/// A kept pair that no later kept pair with the same key follows gives the parsed map the value
/// of its key: a later pair overrides an earlier one and the schema's default.
pub proof fn lemma_parse_last_pair_wins(
    schema: Option<Schema>,
    input: Seq<char>,
    pairs: Seq<SpecPair>,
    j: int,
)
    requires
        spec_pairs(schema, trimmed(input), 0) == Ok::<Seq<SpecPair>, (int, crate::error::ErrorKind)>(pairs),
        spec_parse_map(schema, input) is Ok,
        0 <= j < pairs.len(),
        pairs[j].2,
        !kept_with_key(pairs, pairs[j].0, j + 1),
    ensures
        spec_parse_map(schema, input) matches Ok(m) && m.dom().contains(pairs[j].0) && m[pairs[j].0]
            == pairs[j].1,
{
    lemma_with_pairs_last(defaults_of(schema_entries(schema)), pairs, j);
}

/// A key that no kept pair has holds the schema's default for it where there is one, and is
/// absent from the parsed map otherwise.
pub proof fn lemma_parse_default_without_pair(
    schema: Schema,
    input: Seq<char>,
    pairs: Seq<SpecPair>,
    k: Seq<char>,
)
    requires
        keys_unique(schema.entries()),
        spec_pairs(Some(schema), trimmed(input), 0) == Ok::<Seq<SpecPair>, (int, crate::error::ErrorKind)>(pairs),
        spec_parse_map(Some(schema), input) is Ok,
        !kept_with_key(pairs, k, 0),
    ensures
        spec_parse_map(Some(schema), input) matches Ok(m) && (m.dom().contains(k) <==> (
        schema.expects(k) matches Some(sv) && sv.spec_behaviour() is Default)) && (schema.expects(
            k,
        ) matches Some(sv) ==> (sv.spec_behaviour() matches ValueBehaviour::Default(d) ==> m[k]
            == d)),
{
    let entries = schema.entries();
    lemma_with_pairs_untouched(defaults_of(entries), pairs, k);
    lemma_defaults_of(entries, k);
}

/// A parse that succeeds holds every key that the schema requires.
pub proof fn lemma_parse_has_required_keys(schema: Schema, input: Seq<char>, k: Seq<char>)
    requires
        spec_parse_map(Some(schema), input) is Ok,
        schema.expects(k) matches Some(sv) && sv.spec_behaviour() is Required,
    ensures
        spec_parse_map(Some(schema), input) matches Ok(m) && m.dom().contains(k),
{
    let t = trimmed(input);
    let entries = schema.entries();
    let pairs = spec_pairs(Some(schema), t, 0)->Ok_0;
    lemma_lookup(entries, k);
    let i = choose|i: int|
        0 <= i < entries.len() && entries[i].0@ == k && entries[i].1 == schema.expects(k).unwrap()
            && forall|m: int| 0 <= m < i ==> entries[m].0@ != k;
    lemma_required_have_pairs(entries, pairs, i);
    let l = choose|l: int| 0 <= l < pairs.len() && pairs[l].0 == k;
    lemma_pairs_conform(Some(schema), t, 0);
    assert(pair_conforms(Some(schema), pairs[l]));
    assert(kept_with_key(pairs, k, 0));
    let j = last_kept(pairs, k);
    lemma_with_pairs_last(defaults_of(entries), pairs, j);
}

/// In a parse that succeeds, the value of a key that the schema knows has the type that the
/// schema expects for it.
pub proof fn lemma_parse_values_have_expected_types(schema: Schema, input: Seq<char>, k: Seq<char>)
    requires
        keys_unique(schema.entries()),
        spec_parse_map(Some(schema), input) matches Ok(m) && m.dom().contains(k),
        schema.expects(k) is Some,
    ensures
        spec_parse_map(Some(schema), input) matches Ok(m) && type_of(m[k]) == schema.expects(
            k,
        ).unwrap().spec_value_type(),
{
    let t = trimmed(input);
    let entries = schema.entries();
    let pairs = spec_pairs(Some(schema), t, 0)->Ok_0;
    let sv = schema.expects(k).unwrap();
    if kept_with_key(pairs, k, 0) {
        let j = last_kept(pairs, k);
        lemma_with_pairs_last(defaults_of(entries), pairs, j);
        lemma_pairs_conform(Some(schema), t, 0);
        assert(pair_conforms(Some(schema), pairs[j]));
    } else {
        lemma_with_pairs_untouched(defaults_of(entries), pairs, k);
        lemma_defaults_of(entries, k);
        lemma_default_has_expected_type(sv);
    }
}

/// Where the schema skips unknown keys, a parse that succeeds holds none of them.
pub proof fn lemma_parse_skips_unknown_keys(schema: Schema, input: Seq<char>, k: Seq<char>)
    requires
        schema.spec_unknown_keys() == UnknownKeyBehaviour::Skip,
        schema.expects(k) is None,
        spec_parse_map(Some(schema), input) is Ok,
    ensures
        spec_parse_map(Some(schema), input) matches Ok(m) && !m.dom().contains(k),
{
    let t = trimmed(input);
    let entries = schema.entries();
    let pairs = spec_pairs(Some(schema), t, 0)->Ok_0;
    lemma_pairs_conform(Some(schema), t, 0);
    if kept_with_key(pairs, k, 0) {
        let l = choose|l: int| 0 <= l < pairs.len() && #[trigger] pairs[l].2 && pairs[l].0 == k;
        assert(pair_conforms(Some(schema), pairs[l]));
    }
    lemma_with_pairs_untouched(defaults_of(entries), pairs, k);
    lemma_defaults_keys(entries, k);
    lemma_lookup(entries, k);
}

/// Where the schema makes unknown keys errors, a parse that succeeds holds known keys only.
pub proof fn lemma_parse_refuses_unknown_keys(schema: Schema, input: Seq<char>, k: Seq<char>)
    requires
        schema.spec_unknown_keys() == UnknownKeyBehaviour::Error,
        spec_parse_map(Some(schema), input) matches Ok(m) && m.dom().contains(k),
    ensures
        schema.expects(k) is Some,
{
    let t = trimmed(input);
    let entries = schema.entries();
    let pairs = spec_pairs(Some(schema), t, 0)->Ok_0;
    lemma_pairs_conform(Some(schema), t, 0);
    if kept_with_key(pairs, k, 0) {
        let l = choose|l: int| 0 <= l < pairs.len() && #[trigger] pairs[l].2 && pairs[l].0 == k;
        assert(pair_conforms(Some(schema), pairs[l]));
    } else {
        lemma_with_pairs_untouched(defaults_of(entries), pairs, k);
        lemma_defaults_keys(entries, k);
        lemma_lookup(entries, k);
    }
}

/// Trimming a trimmed text changes nothing.
pub proof fn lemma_trimmed_idempotent(s: Seq<char>)
    ensures
        trimmed(trimmed(s)) == trimmed(s),
{
    let t = trimmed(s);
    crate::chars::lemma_span_end(s, 0, CharClass::WhiteSpace);
    crate::text::lemma_trim_end(s, s.len() as int);
    crate::text::lemma_trim_end(t, t.len() as int);
    if t.len() > 0 {
        let a = trim_start(s);
        let b = trim_end(s, s.len() as int);
        assert(t[0] == s[a]);
        assert(t[t.len() - 1] == s[b - 1]);
        assert(trim_start(t) == 0);
        assert(t.subrange(0, t.len() as int) =~= t);
    }
}

/// Whitespace around the input changes nothing in the parse: the input parses as its trimmed
/// text does.
pub proof fn lemma_parse_ignores_surrounding_whitespace(schema: Option<Schema>, input: Seq<char>)
    ensures
        spec_parse_map(schema, input) == spec_parse_map(schema, trimmed(input)),
{
    lemma_trimmed_idempotent(input);
}

/// Entries with the same keys and expectations look a key up to the same expectations.
proof fn lemma_same_lookup(a: Seq<(Key, SchemaValue)>, b: Seq<(Key, SchemaValue)>, k: Seq<char>)
    requires
        same_entries(a, b),
    ensures
        assoc_lookup(a, k) is Some == assoc_lookup(b, k) is Some,
        assoc_lookup(a, k) is Some ==> same_expectations(
            assoc_lookup(a, k).unwrap(),
            assoc_lookup(b, k).unwrap(),
        ),
    decreases a.len(),
{
    if a.len() > 0 {
        assert(a[0].0@ == b[0].0@);
        assert(same_entries(a.drop_first(), b.drop_first())) by {
            assert forall|i: int| 0 <= i < a.drop_first().len() implies (#[trigger] a.drop_first()[i]).0@
                == b.drop_first()[i].0@ && same_expectations(a.drop_first()[i].1, b.drop_first()[i].1) by {
                assert(a.drop_first()[i] == a[i + 1]);
                assert(b.drop_first()[i] == b[i + 1]);
            }
        }
        lemma_same_lookup(a.drop_first(), b.drop_first(), k);
    }
}

/// Schema values with the same expectations read the same values.
proof fn lemma_same_typed_value(s: Seq<char>, j: int, a: SchemaValue, b: SchemaValue)
    requires
        same_expectations(a, b),
    ensures
        spec_typed_value(s, j, a) == spec_typed_value(s, j, b),
{
}

/// Schemas with the same entries and the same treatment of unknown keys read the same pairs.
proof fn lemma_same_pairs(a: Schema, b: Schema, s: Seq<char>, i: int)
    requires
        same_entries(a.entries(), b.entries()),
        a.spec_unknown_keys() == b.spec_unknown_keys(),
    ensures
        spec_pairs(Some(a), s, i) == spec_pairs(Some(b), s, i),
    decreases s.len() - i,
{
    if let Ok(kend) = spec_key(s, i) {
        let key = s.subrange(i, kend);
        let eq = after_space(s, kend);
        let j = after_space(s, eq + 1);
        lemma_same_lookup(a.entries(), b.entries(), key);
        if let Some(sv) = a.expects(key) {
            lemma_same_typed_value(s, j, sv, b.expects(key).unwrap());
        }
    }
    assert(spec_pair(Some(a), s, i) == spec_pair(Some(b), s, i));
    if let Ok((e, k, v, keep)) = spec_pair(Some(a), s, i) {
        let m = span_end(s, e, CharClass::Multispace);
        if i < e && e < m && m <= s.len() {
            lemma_same_pairs(a, b, s, m);
        }
    }
}

/// Entries with the same keys and expectations give the same defaults and require the same keys.
proof fn lemma_same_defaults(a: Seq<(Key, SchemaValue)>, b: Seq<(Key, SchemaValue)>, pairs: Seq<SpecPair>)
    requires
        same_entries(a, b),
    ensures
        defaults_of(a) == defaults_of(b),
        missing_required(a, pairs) == missing_required(b, pairs),
    decreases a.len(),
{
    if a.len() > 0 {
        let n = a.len() - 1;
        assert(a.last() == a[n] && b.last() == b[n]);
        assert(same_entries(a.drop_last(), b.drop_last())) by {
            assert forall|i: int| 0 <= i < a.drop_last().len() implies (#[trigger] a.drop_last()[i]).0@
                == b.drop_last()[i].0@ && same_expectations(a.drop_last()[i].1, b.drop_last()[i].1) by {
                assert(a.drop_last()[i] == a[i]);
                assert(b.drop_last()[i] == b[i]);
            }
        }
        lemma_same_defaults(a.drop_last(), b.drop_last(), pairs);
    }
}

/// Schemas with the same entries (the same keys, in order, with the same expectations) and the
/// same treatment of unknown keys parse every input alike; a clone of a schema is such a schema.
pub proof fn lemma_same_schema_same_parse(a: Schema, b: Schema, input: Seq<char>)
    requires
        same_entries(a.entries(), b.entries()),
        a.spec_unknown_keys() == b.spec_unknown_keys(),
    ensures
        spec_parse_map(Some(a), input) == spec_parse_map(Some(b), input),
{
    let t = trimmed(input);
    lemma_same_pairs(a, b, t, 0);
    if let Ok(pairs) = spec_pairs(Some(a), t, 0) {
        lemma_same_defaults(a.entries(), b.entries(), pairs);
    }
}

/// Where `s[e..j]` is whitespace and no whitespace stands just before `e`, trimming the end of
/// `s[..j]` ends at `e`.
proof fn lemma_trim_end_at(s: Seq<char>, e: int, j: int)
    requires
        0 <= e <= j <= s.len(),
        forall|k: int| e <= k < j ==> is_white_space(#[trigger] s[k]),
        e == 0 || !is_white_space(s[e - 1]),
    ensures
        trim_end(s, j) == e,
    decreases j - e,
{
    if j > e {
        lemma_trim_end_at(s, e, j - 1);
    }
}

/// Whitespace put around a text does not change its trimmed text.
pub proof fn lemma_trimmed_padded(pre: Seq<char>, s: Seq<char>, post: Seq<char>)
    requires
        forall|k: int| 0 <= k < pre.len() ==> is_white_space(#[trigger] pre[k]),
        forall|k: int| 0 <= k < post.len() ==> is_white_space(#[trigger] post[k]),
    ensures
        trimmed(pre + s + post) == trimmed(s),
{
    let u = pre + s + post;
    let a = pre.len() as int;
    let n = s.len() as int;
    assert forall|k: int| 0 <= k < n implies u[a + k] == s[k] by {}
    crate::chars::lemma_span_end(s, 0, CharClass::WhiteSpace);
    crate::text::lemma_trim_end(s, n);
    let fs = trim_start(s);
    let ls = trim_end(s, n);
    if fs < n {
        // a character of `s` that is not whitespace starts the trimmed text
        assert forall|k: int| 0 <= k < a + fs implies CharClass::WhiteSpace.contains(#[trigger] u[k]) by {
            if k >= a {
                assert(u[k] == s[k - a]);
            }
        }
        assert(u[a + fs] == s[fs]);
        crate::chars::lemma_span_end_at(u, 0, a + fs, CharClass::WhiteSpace);
        assert(ls > fs) by {
            if ls <= fs {
                assert(is_white_space(s[fs]));
            }
        }
        assert forall|k: int| a + ls <= k < u.len() implies is_white_space(#[trigger] u[k]) by {
            if k < a + n {
                assert(u[k] == s[k - a]);
            } else {
                assert(u[k] == post[k - a - n]);
            }
        }
        assert(u[a + ls - 1] == s[ls - 1]);
        lemma_trim_end_at(u, a + ls, u.len() as int);
        assert(u.subrange(a + fs, a + ls) =~= s.subrange(fs, ls));
    } else {
        // `s` is all whitespace, and so is the padded text
        assert forall|k: int| 0 <= k < u.len() implies CharClass::WhiteSpace.contains(#[trigger] u[k]) by {
            if a <= k < a + n {
                assert(u[k] == s[k - a]);
                assert(CharClass::WhiteSpace.contains(s[k - a]));
            } else if k >= a + n {
                assert(u[k] == post[k - a - n]);
            }
        }
        crate::chars::lemma_span_end_at(u, 0, u.len() as int, CharClass::WhiteSpace);
        crate::text::lemma_trim_end(u, u.len() as int);
    }
}

/// Whitespace put around the input changes nothing in the parse: the same map on success, and
/// on failure the same failure, reported by the same error.
pub proof fn lemma_parse_ignores_padding(
    schema: Option<Schema>,
    pre: Seq<char>,
    input: Seq<char>,
    post: Seq<char>,
)
    requires
        forall|k: int| 0 <= k < pre.len() ==> is_white_space(#[trigger] pre[k]),
        forall|k: int| 0 <= k < post.len() ==> is_white_space(#[trigger] post[k]),
    ensures
        spec_parse_map(schema, pre + input + post) == spec_parse_map(schema, input),
        forall|e: MapParseError, f: MapFailure|
            reports(e, f, pre + input + post) == #[trigger] reports(e, f, input),
{
    lemma_trimmed_padded(pre, input, post);
}

} // verus!

verus! {

/// Whether the schema value `sv` stores `v` as the default of its key: the default held in its
/// expectations, taken as a value of the type it expects.
pub open spec fn stores_default(sv: SchemaValue, v: SpecValue) -> bool {
    ||| sv matches SchemaValue::String(ex) && ex.behaviour matches ValueBehaviour::Default(d) && v
        == SpecValue::String(d@)
    ||| sv matches SchemaValue::Int(ex) && ex.behaviour matches ValueBehaviour::Default(n) && v
        == SpecValue::Int(n)
    ||| sv matches SchemaValue::Double(ex) && ex.behaviour matches ValueBehaviour::Default(d) && v
        == SpecValue::Double(d@)
    ||| sv matches SchemaValue::Bool(ex) && ex.behaviour matches ValueBehaviour::Default(b) && v
        == SpecValue::Bool(b)
    ||| sv matches SchemaValue::Enum(ex) && ex.default_text() matches Some(t) && v
        == SpecValue::Enum(t)
}

/// Whether the schema value `sv` requires its key by what its expectations hold: a value of a
/// base type whose behaviour is `Required`, or an enum value without a default.
pub open spec fn stores_required(sv: SchemaValue) -> bool {
    ||| sv matches SchemaValue::String(ex) && ex.behaviour is Required
    ||| sv matches SchemaValue::Int(ex) && ex.behaviour is Required
    ||| sv matches SchemaValue::Double(ex) && ex.behaviour is Required
    ||| sv matches SchemaValue::Bool(ex) && ex.behaviour is Required
    ||| sv matches SchemaValue::Enum(ex) && ex.default_text() is None
}

/// A key that no pair of the input has, and for which the schema stores a default, holds
/// exactly that default in the parsed map, whatever the type of the value.
pub proof fn lemma_parse_fills_stored_default(
    schema: Schema,
    input: Seq<char>,
    pairs: Seq<SpecPair>,
    k: Seq<char>,
    v: SpecValue,
)
    requires
        keys_unique(schema.entries()),
        spec_pairs(Some(schema), trimmed(input), 0) == Ok::<Seq<SpecPair>, (int, crate::error::ErrorKind)>(pairs),
        spec_parse_map(Some(schema), input) is Ok,
        !has_pair_key(pairs, k),
        schema.expects(k) matches Some(sv) && stores_default(sv, v),
    ensures
        spec_parse_map(Some(schema), input) matches Ok(m) && m.dom().contains(k) && m[k] == v,
{
    if kept_with_key(pairs, k, 0) {
        let l = choose|l: int| 0 <= l < pairs.len() && #[trigger] pairs[l].2 && pairs[l].0 == k;
        assert(has_pair_key(pairs, k));
    }
    lemma_parse_default_without_pair(schema, input, pairs, k);
}

/// A missing required entry is listed among the missing keys, with its type.
proof fn lemma_missing_listed(entries: Seq<(Key, SchemaValue)>, pairs: Seq<SpecPair>, i: int)
    requires
        0 <= i < entries.len(),
        entries[i].1.spec_behaviour() is Required,
        !has_pair_key(pairs, entries[i].0@),
    ensures
        missing_required(entries, pairs).contains((entries[i].0@, entries[i].1.spec_value_type())),
    decreases entries.len(),
{
    let d = entries.drop_last();
    let rest = missing_required(d, pairs);
    if i < entries.len() - 1 {
        assert(d[i] == entries[i]);
        lemma_missing_listed(d, pairs, i);
        let j = choose|j: int| 0 <= j < rest.len() && rest[j] == (entries[i].0@, entries[i].1.spec_value_type());
        if entries.last().1.spec_behaviour() is Required && !has_pair_key(pairs, entries.last().0@) {
            assert(rest.push((entries.last().0@, entries.last().1.spec_value_type()))[j] == rest[j]);
        }
    } else {
        assert(entries.last() == entries[i]);
        let r = rest.push((entries[i].0@, entries[i].1.spec_value_type()));
        assert(r[rest.len() as int] == (entries[i].0@, entries[i].1.spec_value_type()));
    }
}

/// Where the schema requires a key by what its expectations hold (an enum value without a
/// default among them), an input whose pairs lack that key fails to parse, naming the key and
/// its type among the missing ones.
#[verifier::spinoff_prover]
pub proof fn lemma_parse_reports_stored_required(
    schema: Schema,
    input: Seq<char>,
    pairs: Seq<SpecPair>,
    k: Seq<char>,
)
    requires
        spec_pairs(Some(schema), trimmed(input), 0) == Ok::<Seq<SpecPair>, (int, crate::error::ErrorKind)>(pairs),
        !has_pair_key(pairs, k),
        schema.expects(k) matches Some(sv) && stores_required(sv),
    ensures
        spec_parse_map(Some(schema), input) matches Err(MapFailure::Missing(ks)) && ks.contains(
            (k, schema.expects(k).unwrap().spec_value_type()),
        ),
        spec_parse_map(Some(schema), input) matches Err(MapFailure::Missing(ks)) && ks.contains(
            (
                k,
                match schema.expects(k).unwrap() {
                    SchemaValue::String(_) => ValueType::String,
                    SchemaValue::Enum(_) => ValueType::Enum,
                    SchemaValue::Int(_) => ValueType::Int,
                    SchemaValue::Double(_) => ValueType::Double,
                    SchemaValue::Bool(_) => ValueType::Bool,
                },
            ),
        ),
{
    let entries = schema.entries();
    lemma_lookup(entries, k);
    let i = choose|i: int|
        0 <= i < entries.len() && entries[i].0@ == k && entries[i].1 == schema.expects(k).unwrap()
            && forall|m: int| 0 <= m < i ==> entries[m].0@ != k;
    lemma_missing_listed(entries, pairs, i);
    let ks = missing_required(entries, pairs);
    let j = choose|j: int| 0 <= j < ks.len() && ks[j] == (k, entries[i].1.spec_value_type());
    assert(ks.len() > 0);
}

} // verus!
