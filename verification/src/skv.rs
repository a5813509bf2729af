//! Parsing SKV maps, and reading the values of parsed maps.
use vstd::prelude::*;

use crate::assoc::{
    assoc_insert, assoc_lookup, has_key, keys_unique, lemma_lookup, lemma_lookup_index,
};
use crate::chars::{lemma_span_end, scan, span_end, CharClass};
use crate::enum_string::{EnumString, SkvEnum};
use crate::error::{error_message, ErrorKind, MapError, MapParseError, ParseError};
use crate::key::Key;
use crate::key_value_pair::{pair_at, spec_pair, KeyValuePair};
use crate::primitives::double::DoubleLiteral;
use crate::schema::{BaseType, EnumExpectations, Schema, SchemaValue, ValueBehaviour};
use crate::text::{byte_len, lemma_encode_utf8_subrange, sub_chars, to_chars, trim_bounds, trimmed};
use crate::value::{type_of, SpecValue, Value, ValueType};
use vstd::std_specs::cmp::PartialEqSpecImpl;

verus! {

/// A parsed pair: the key's text, the value, and whether the pair is kept in the map.
pub type SpecPair = (Seq<char>, SpecValue, bool);

/// The pairs from `i` on: pairs separated by whitespace, up to the end of the input.
///
/// On failure: where it failed and what was expected there.
pub open spec fn spec_pairs(schema: Option<Schema>, s: Seq<char>, i: int) -> Result<
    Seq<SpecPair>,
    (int, ErrorKind),
>
    decreases s.len() - i,
{
    match spec_pair(schema, s, i) {
        Err(f) => Err(f),
        Ok((e, k, v, keep)) => {
            let m = span_end(s, e, CharClass::Multispace);
            if i < e && e < m && m <= s.len() {
                match spec_pairs(schema, s, m) {
                    Ok(rest) => Ok(seq![(k, v, keep)] + rest),
                    Err(f) => Err(f),
                }
            } else if e == s.len() {
                Ok(seq![(k, v, keep)])
            } else {
                Err((e, ErrorKind::End))
            }
        },
    }
}

/// The values that the schema entries give to keys that are absent.
pub open spec fn defaults_of(entries: Seq<(Key, SchemaValue)>) -> Map<Seq<char>, SpecValue>
    decreases entries.len(),
{
    if entries.len() == 0 {
        Map::empty()
    } else {
        let m = defaults_of(entries.drop_last());
        let last = entries.last();
        match last.1.spec_behaviour() {
            ValueBehaviour::Default(v) => m.insert(last.0@, v),
            _ => m,
        }
    }
}

/// `m` with the kept pairs set in it, in order (a later pair with the same key wins).
pub open spec fn with_pairs(m: Map<Seq<char>, SpecValue>, pairs: Seq<SpecPair>) -> Map<
    Seq<char>,
    SpecValue,
>
    decreases pairs.len(),
{
    if pairs.len() == 0 {
        m
    } else {
        let m2 = with_pairs(m, pairs.drop_last());
        let p = pairs.last();
        if p.2 {
            m2.insert(p.0, p.1)
        } else {
            m2
        }
    }
}

/// Whether some pair has the key `k`.
pub open spec fn has_pair_key(pairs: Seq<SpecPair>, k: Seq<char>) -> bool {
    exists|i: int| 0 <= i < pairs.len() && pairs[i].0 == k
}

/// The keys that the schema entries require and that no pair has, with their types, in the
/// order of the entries.
pub open spec fn missing_required(entries: Seq<(Key, SchemaValue)>, pairs: Seq<SpecPair>) -> Seq<
    (Seq<char>, ValueType),
>
    decreases entries.len(),
{
    if entries.len() == 0 {
        seq![]
    } else {
        let rest = missing_required(entries.drop_last(), pairs);
        let last = entries.last();
        if last.1.spec_behaviour() is Required && !has_pair_key(pairs, last.0@) {
            rest.push((last.0@, last.1.spec_value_type()))
        } else {
            rest
        }
    }
}

/// The entries of the schema, where there is one.
pub open spec fn schema_entries(schema: Option<Schema>) -> Seq<(Key, SchemaValue)> {
    match schema {
        Some(s) => s.entries(),
        None => seq![],
    }
}

/// Why a map does not parse.
pub enum MapFailure {
    /// The trimmed input does not follow the syntax: where it fails, and what was expected.
    Syntax(int, ErrorKind),
    /// The schema requires keys that are absent.
    Missing(Seq<(Seq<char>, ValueType)>),
}

/// The map that `input` stands for under `schema`.
///
/// The input, once trimmed, is a sequence of pairs separated by whitespace. The map holds the
/// defaults of the schema, overridden by the kept pairs in order. Where a key that the schema
/// requires is absent, parsing fails with the missing keys.
pub open spec fn spec_parse_map(schema: Option<Schema>, input: Seq<char>) -> Result<
    Map<Seq<char>, SpecValue>,
    MapFailure,
> {
    let t = trimmed(input);
    match spec_pairs(schema, t, 0) {
        Err((p, kind)) => Err(MapFailure::Syntax(p, kind)),
        Ok(pairs) => {
            let missing = missing_required(schema_entries(schema), pairs);
            if missing.len() > 0 {
                Err(MapFailure::Missing(missing))
            } else {
                Ok(with_pairs(defaults_of(schema_entries(schema)), pairs))
            }
        },
    }
}

/// Whether `r` is the error that reports `f` for `input`.
pub open spec fn reports(r: MapParseError, f: MapFailure, input: Seq<char>) -> bool {
    match f {
        MapFailure::Syntax(p, kind) => r matches MapParseError::Parsing { message, input: i, span }
            && message@ == error_message(kind, trimmed(input), p) && i@ == trimmed(input).push(' ') && span.offset
            == vstd::utf8::encode_utf8(trimmed(input).take(p)).len() && span.length == (if p
            < trimmed(input).len() {
            1usize
        } else {
            0usize
        }),
        MapFailure::Missing(ks) => r matches MapParseError::MissingRequiredKeys(v) && v@.len()
            == ks.len() && forall|i: int|
            0 <= i < ks.len() ==> (#[trigger] v@[i]).0@ == ks[i].0 && v@[i].1 == ks[i].1,
    }
}

/// The map that the entries `s` stand for.
pub open spec fn entries_view(s: Seq<(Key, Value)>) -> Map<Seq<char>, SpecValue> {
    Map::new(|k: Seq<char>| has_key(s, k), |k: Seq<char>| assoc_lookup(s, k).unwrap()@)
}

/// The parsed pairs, as mathematical values.
pub open spec fn pair_views(v: Seq<(KeyValuePair, bool)>) -> Seq<SpecPair> {
    v.map_values(|p: (KeyValuePair, bool)| (p.0.key@, p.0.value@, p.1))
}

proof fn lemma_entries_view_insert(
    old_s: Seq<(Key, Value)>,
    new_s: Seq<(Key, Value)>,
    key: Key,
    value: Value,
)
    requires
        forall|k: Seq<char>|
            #![trigger assoc_lookup(new_s, k)]
            assoc_lookup(new_s, k) == if k == key@ {
                Some(value)
            } else {
                assoc_lookup(old_s, k)
            },
    ensures
        entries_view(new_s) == entries_view(old_s).insert(key@, value@),
{
    assert forall|k: Seq<char>| #[trigger]
        entries_view(new_s).dom().contains(k) == entries_view(old_s).insert(
            key@,
            value@,
        ).dom().contains(k) by {
        lemma_lookup(new_s, k);
        lemma_lookup(old_s, k);
    }
    assert forall|k: Seq<char>| #[trigger]
        entries_view(new_s).dom().contains(k) implies entries_view(new_s)[k] == entries_view(
        old_s,
    ).insert(key@, value@)[k] by {
        lemma_lookup(new_s, k);
        lemma_lookup(old_s, k);
    }
    assert(entries_view(new_s) =~= entries_view(old_s).insert(key@, value@));
}

/// Reads the pairs of `s` (see `spec_pairs`).
fn pairs_at(schema: Option<&Schema>, s: &[char]) -> (r: Result<Vec<(KeyValuePair, bool)>, ParseError>)
    ensures
        ({
            let sch = match schema {
                Some(x) => Some(*x),
                None => None,
            };
            match spec_pairs(sch, s@, 0) {
                Ok(ps) => r matches Ok(v) && pair_views(v@) == ps,
                Err((p, kind)) => r == Err::<Vec<(KeyValuePair, bool)>, ParseError>(
                    ParseError { offset: p as usize, kind },
                ) && 0 <= p <= s@.len(),
            }
        }),
{
    let ghost sch = match schema {
        Some(x) => Some(*x),
        None => None,
    };
    let mut out: Vec<(KeyValuePair, bool)> = Vec::new();
    let mut i: usize = 0;
    assert(pair_views(out@) =~= Seq::<SpecPair>::empty());
    loop
        invariant
            i <= s@.len(),
            sch == match schema {
                Some(x) => Some(*x),
                None => None,
            },
            spec_pairs(sch, s@, 0) == match spec_pairs(sch, s@, i as int) {
                Ok(rest) => Ok(pair_views(out@) + rest),
                Err(f) => Err::<Seq<SpecPair>, (int, ErrorKind)>(f),
            },
        decreases s@.len() - i,
    {
        match pair_at(schema, s, i) {
            Err(e) => {
                return Err(e);
            },
            Ok((e, p, keep)) => {
                let ghost before = pair_views(out@);
                let ghost pv = (p.key@, p.value@, keep);
                out.push((p, keep));
                proof {
                    assert(pair_views(out@) =~= before.push(pv));
                    lemma_span_end(s@, e as int, CharClass::Multispace);
                }
                let m = scan(s, e, CharClass::Multispace);
                if m > e {
                    proof {
                        match spec_pairs(sch, s@, m as int) {
                            Ok(rest) => {
                                assert(before + (seq![pv] + rest) =~= before.push(pv) + rest);
                            },
                            Err(f) => {},
                        }
                    }
                    i = m;
                } else if e == s.len() {
                    assert(before + seq![pv] =~= before.push(pv));
                    return Ok(out);
                } else {
                    return Err(ParseError { offset: e, kind: ErrorKind::End });
                }
            },
        }
    }
}

/// Whether some pair has a key with the text of `k`.
fn has_pair(pairs: &Vec<(KeyValuePair, bool)>, k: &Key) -> (r: bool)
    ensures
        r == has_pair_key(pair_views(pairs@), k@),
{
    let mut i: usize = 0;
    while i < pairs.len()
        invariant
            i <= pairs@.len(),
            forall|j: int| 0 <= j < i ==> pairs@[j].0.key@ != k@,
        decreases pairs@.len() - i,
    {
        if pairs[i].0.key.same(k) {
            assert(pair_views(pairs@)[i as int].0 == k@);
            return true;
        }
        i = i + 1;
    }
    assert forall|j: int| 0 <= j < pair_views(pairs@).len() implies pair_views(pairs@)[j].0 != k@ by {
        assert(pair_views(pairs@)[j].0 == pairs@[j].0.key@);
    }
    false
}

/// The keys with their types, as mathematical values.
pub open spec fn missing_views(v: Seq<(Key, ValueType)>) -> Seq<(Seq<char>, ValueType)> {
    v.map_values(|e: (Key, ValueType)| (e.0@, e.1))
}

/// The keys that `entries` require and no pair has (see `missing_required`).
fn missing_keys(entries: &Vec<(Key, SchemaValue)>, pairs: &Vec<(KeyValuePair, bool)>) -> (r: Vec<
    (Key, ValueType),
>)
    ensures
        missing_views(r@) == missing_required(entries@, pair_views(pairs@)),
{
    let mut r: Vec<(Key, ValueType)> = Vec::new();
    let mut i: usize = 0;
    assert(entries@.take(0) =~= Seq::<(Key, SchemaValue)>::empty());
    assert(missing_views(r@) =~= Seq::<(Seq<char>, ValueType)>::empty());
    while i < entries.len()
        invariant
            i <= entries@.len(),
            missing_views(r@) == missing_required(entries@.take(i as int), pair_views(pairs@)),
        decreases entries@.len() - i,
    {
        let ghost before = missing_views(r@);
        proof {
            assert(entries@.take(i + 1).drop_last() =~= entries@.take(i as int));
            assert(entries@.take(i + 1).last() == entries@[i as int]);
        }
        if entries[i].1.is_required() && !has_pair(pairs, &entries[i].0) {
            let k = entries[i].0.copy();
            let t = entries[i].1.value_type();
            r.push((k, t));
            assert(missing_views(r@) =~= before.push((entries@[i as int].0@, t)));
        }
        i = i + 1;
    }
    assert(entries@.take(entries@.len() as int) =~= entries@);
    r
}

/// The map of the defaults of `entries` (see `defaults_of`).
fn defaults(entries: &Vec<(Key, SchemaValue)>) -> (r: Vec<(Key, Value)>)
    ensures
        keys_unique(r@),
        entries_view(r@) == defaults_of(entries@),
{
    let mut r: Vec<(Key, Value)> = Vec::new();
    let mut i: usize = 0;
    assert(entries@.take(0) =~= Seq::<(Key, SchemaValue)>::empty());
    assert(entries_view(r@) =~= Map::<Seq<char>, SpecValue>::empty());
    while i < entries.len()
        invariant
            i <= entries@.len(),
            keys_unique(r@),
            entries_view(r@) == defaults_of(entries@.take(i as int)),
        decreases entries@.len() - i,
    {
        proof {
            assert(entries@.take(i + 1).drop_last() =~= entries@.take(i as int));
            assert(entries@.take(i + 1).last() == entries@[i as int]);
        }
        match entries[i].1.default_value() {
            Some(v) => {
                let ghost old_r = r@;
                let k = entries[i].0.copy();
                let ghost kv = k;
                let ghost vv = v;
                assoc_insert(&mut r, k, v);
                proof {
                    lemma_entries_view_insert(old_r, r@, kv, vv);
                }
            },
            None => {},
        }
        i = i + 1;
    }
    assert(entries@.take(entries@.len() as int) =~= entries@);
    r
}

/// The kept pairs set in the map `r`, in order (see `with_pairs`).
fn set_pairs(r: &mut Vec<(Key, Value)>, pairs: &Vec<(KeyValuePair, bool)>)
    requires
        keys_unique(old(r)@),
    ensures
        keys_unique(final(r)@),
        entries_view(final(r)@) == with_pairs(entries_view(old(r)@), pair_views(pairs@)),
{
    let ghost m0 = entries_view(r@);
    let mut j: usize = 0;
    assert(pair_views(pairs@).take(0) =~= Seq::<SpecPair>::empty());
    while j < pairs.len()
        invariant
            j <= pairs@.len(),
            keys_unique(r@),
            entries_view(r@) == with_pairs(m0, pair_views(pairs@).take(j as int)),
        decreases pairs@.len() - j,
    {
        proof {
            assert(pair_views(pairs@).take(j + 1).drop_last() =~= pair_views(pairs@).take(j as int));
            assert(pair_views(pairs@).take(j + 1).last() == pair_views(pairs@)[j as int]);
        }
        if pairs[j].1 {
            let ghost old_r = r@;
            let k = pairs[j].0.key.copy();
            let v = pairs[j].0.value.copy();
            let ghost kv = k;
            let ghost vv = v;
            assoc_insert(r, k, v);
            proof {
                lemma_entries_view_insert(old_r, r@, kv, vv);
            }
        }
        j = j + 1;
    }
    assert(pair_views(pairs@).take(pairs@.len() as int) =~= pair_views(pairs@));
}

/// Parses the entries of an SKV map (see `spec_parse_map`).
pub(crate) fn parse_map_entries(schema: Option<&Schema>, input: &str) -> (r: Result<
    Vec<(Key, Value)>,
    MapParseError,
>)
    ensures
        ({
            let sch = match schema {
                Some(x) => Some(*x),
                None => None,
            };
            match spec_parse_map(sch, input@) {
                Ok(m) => r matches Ok(v) && keys_unique(v@) && entries_view(v@) == m,
                Err(f) => r matches Err(e) && reports(e, f, input@),
            }
        }),
            r matches Err(MapParseError::Parsing { input: i, span: sp, .. }) ==> sp.offset + sp.length
                <= vstd::utf8::encode_utf8(i@).len(),
{
    let ghost sch = match schema {
        Some(x) => Some(*x),
        None => None,
    };
    let all = to_chars(input);
    let bound = byte_len(input);
    let (a, b) = trim_bounds(&all);
    let t = sub_chars(&all, a, b);
    proof {
        lemma_encode_utf8_subrange(all@, a as int, b as int);
    }
    let pairs = match pairs_at(schema, &t) {
        Ok(p) => p,
        Err(e) => {
            return Err(MapParseError::from_parse_error(&t, bound, e));
        },
    };
    let empty: Vec<(Key, SchemaValue)> = Vec::new();
    let entries: &Vec<(Key, SchemaValue)> = match schema {
        Some(s) => s.entries_ref(),
        None => &empty,
    };
    assert(entries@ == schema_entries(sch));
    let missing = missing_keys(entries, &pairs);
    if missing.len() > 0 {
        return Err(MapParseError::MissingRequiredKeys(missing));
    }
    let mut map = defaults(entries);
    set_pairs(&mut map, &pairs);
    Ok(map)
}

/// The entries made of the keys and values at the same positions.
pub open spec fn zipped(keys: Seq<Key>, values: Seq<Value>) -> Seq<(Key, Value)> {
    Seq::new(keys.len(), |i: int| (keys[i], values[i]))
}

/// No two of the keys have the same text.
pub open spec fn keys_distinct(keys: Seq<Key>) -> bool {
    forall|i: int, j: int| 0 <= i < j < keys.len() ==> keys[i]@ != keys[j]@
}

proof fn lemma_zipped_unique(keys: Seq<Key>, values: Seq<Value>)
    requires
        keys_distinct(keys),
        keys.len() == values.len(),
    ensures
        keys_unique(zipped(keys, values)),
{
}

/// Entries with the same keys and values, position by position, stand for the same map.
proof fn lemma_entries_view_same(a: Seq<(Key, Value)>, b: Seq<(Key, Value)>)
    requires
        keys_unique(a),
        keys_unique(b),
        a.len() == b.len(),
        forall|j: int| 0 <= j < a.len() ==> (#[trigger] a[j]).0@ == b[j].0@ && a[j].1@ == b[j].1@,
    ensures
        entries_view(a) == entries_view(b),
{
    assert forall|k: Seq<char>| #[trigger] has_key(a, k) == has_key(b, k) by {
        if has_key(a, k) {
            let j = choose|j: int| 0 <= j < a.len() && a[j].0@ == k;
            assert(b[j].0@ == k);
        }
        if has_key(b, k) {
            let j = choose|j: int| 0 <= j < b.len() && b[j].0@ == k;
            assert(a[j].0@ == k);
        }
    }
    assert forall|k: Seq<char>| has_key(a, k) implies #[trigger] assoc_lookup(a, k).unwrap()@
        == assoc_lookup(b, k).unwrap()@ by {
        lemma_lookup(a, k);
        let j = choose|j: int| 0 <= j < a.len() && a[j].0@ == k;
        lemma_lookup_index(a, j);
        lemma_lookup_index(b, j);
    }
    assert(entries_view(a) =~= entries_view(b));
}

/// The index of the key with the text of `k`, if there is one.
fn find_in_keys(keys: &Vec<Key>, k: &Key) -> (r: Option<usize>)
    ensures
        r matches Some(i) ==> i < keys@.len() && keys@[i as int]@ == k@,
        r is None ==> forall|j: int| 0 <= j < keys@.len() ==> keys@[j]@ != k@,
{
    let mut i: usize = 0;
    while i < keys.len()
        invariant
            i <= keys@.len(),
            forall|j: int| 0 <= j < i ==> keys@[j]@ != k@,
        decreases keys@.len() - i,
    {
        if keys[i].same(k) {
            return Some(i);
        }
        i = i + 1;
    }
    None
}

/// A parsed SKV map: a value for each of its keys.
#[derive(Debug)]
pub struct ParsedMap {
    keys: Vec<Key>,
    values: Vec<Value>,
    enums: Vec<(Key, EnumExpectations)>,
}

impl View for ParsedMap {
    type V = Map<Seq<char>, SpecValue>;

    closed spec fn view(&self) -> Map<Seq<char>, SpecValue> {
        entries_view(zipped(self.keys@, self.values@))
    }
}

impl ParsedMap {
    #[verifier::type_invariant]
    closed spec fn inv(self) -> bool {
        &&& self.keys@.len() == self.values@.len()
        &&& keys_distinct(self.keys@)
    }

    /// The map of the entries `map`.
    fn from_entries(map: Vec<(Key, Value)>, enums: Vec<(Key, EnumExpectations)>) -> (r: ParsedMap)
        requires
            keys_unique(map@),
        ensures
            r@ == entries_view(map@),
    {
        let mut keys: Vec<Key> = Vec::new();
        let mut values: Vec<Value> = Vec::new();
        let mut i: usize = 0;
        while i < map.len()
            invariant
                i <= map@.len(),
                keys_unique(map@),
                keys@.len() == i,
                values@.len() == i,
                forall|j: int|
                    0 <= j < i ==> (#[trigger] keys@[j])@ == map@[j].0@ && values@[j]@
                        == map@[j].1@,
            decreases map@.len() - i,
        {
            let ghost old_keys = keys@;
            let ghost old_values = values@;
            keys.push(map[i].0.copy());
            values.push(map[i].1.copy());
            proof {
                assert forall|j: int|
                    0 <= j < i + 1 implies (#[trigger] keys@[j])@ == map@[j].0@ && values@[j]@
                    == map@[j].1@ by {
                    if j < i {
                        assert(keys@[j] == old_keys[j]);
                        assert(values@[j] == old_values[j]);
                    }
                }
            }
            i = i + 1;
        }
        proof {
            assert forall|a: int, b: int| 0 <= a < b < keys@.len() implies keys@[a]@ != keys@[b]@ by {
                assert(map@[a].0@ != map@[b].0@);
            }
            lemma_zipped_unique(keys@, values@);
            lemma_entries_view_same(zipped(keys@, values@), map@);
        }
        ParsedMap { keys, values, enums }
    }

    /// Parses `input` as a map under `schema` (see `spec_parse_map`).
    pub fn parse(schema: &Schema, input: &str) -> (r: Result<ParsedMap, MapParseError>)
        ensures
            match spec_parse_map(Some(*schema), input@) {
                Ok(m) => r matches Ok(pm) && pm@ == m,
                Err(f) => r matches Err(e) && reports(e, f, input@),
            },
            r matches Err(MapParseError::Parsing { input: i, span: sp, .. }) ==> sp.offset
                + sp.length <= vstd::utf8::encode_utf8(i@).len(),
    {
        let map = parse_map_entries(Some(schema), input)?;
        Ok(ParsedMap::from_entries(map, schema.enums()))
    }

    /// The index of `key` among the keys, and what it looks up.
    fn index_of(&self, key: &Key) -> (r: Option<usize>)
        ensures
            r is Some <==> self@.dom().contains(key@),
            r matches Some(i) ==> i < self.values@.len() && i < self.keys@.len()
                && self.values@[i as int]@ == self@[key@] && self.keys@[i as int]@ == key@,
    {
        proof {
            use_type_invariant(self);
            lemma_zipped_unique(self.keys@, self.values@);
            lemma_lookup(zipped(self.keys@, self.values@), key@);
        }
        let r = find_in_keys(&self.keys, key);
        proof {
            let z = zipped(self.keys@, self.values@);
            match r {
                Some(i) => {
                    assert(z[i as int].0@ == key@);
                    lemma_lookup_index(z, i as int);
                },
                None => {
                    if has_key(z, key@) {
                        let j = choose|j: int| 0 <= j < z.len() && z[j].0@ == key@;
                        assert(self.keys@[j]@ == key@);
                    }
                },
            }
        }
        r
    }

    /// The value of `key`, where the map holds one of type `T`.
    pub fn get<T: BaseType>(&self, key: &Key) -> (r: Result<&T, MapError>)
        ensures
            !self@.dom().contains(key@) ==> r == Err::<&T, MapError>(MapError::NotFound),
            self@.dom().contains(key@) && type_of(self@[key@]) != T::spec_value_type() ==> r
                == Err::<&T, MapError>(
                MapError::WrongType { expected: T::spec_value_type(), found: type_of(self@[key@]) },
            ),
            self@.dom().contains(key@) && type_of(self@[key@]) == T::spec_value_type() ==> (
            r matches Ok(x) && T::wrap(*x)@ == self@[key@]),
    {
        match self.index_of(key) {
            None => Err(MapError::NotFound),
            Some(i) => {
                let val = &self.values[i];
                match val.get_ref::<T>() {
                    Some(x) => Ok(x),
                    None => Err(MapError::WrongType { expected: T::value_type(), found: val.discriminant() }),
                }
            },
        }
    }

    /// A mutable reference to the value of `key`, where the map holds one of type `T`; what is
    /// written through it becomes the value of `key`.
    pub fn get_mut<T: BaseType>(&mut self, key: &Key) -> (r: Result<&mut T, MapError>)
        ensures
            !old(self)@.dom().contains(key@) ==> r == Err::<&mut T, MapError>(MapError::NotFound)
                && final(self)@ == old(self)@,
            old(self)@.dom().contains(key@) && type_of(old(self)@[key@]) != T::spec_value_type()
                ==> r == Err::<&mut T, MapError>(
                MapError::WrongType {
                    expected: T::spec_value_type(),
                    found: type_of(old(self)@[key@]),
                },
            ) && final(self)@ == old(self)@,
            old(self)@.dom().contains(key@) && type_of(old(self)@[key@]) == T::spec_value_type()
                ==> (r matches Ok(x) && T::wrap(*x)@ == old(self)@[key@] && final(self)@ == old(
                self,
            )@.insert(key@, T::wrap(*final(x))@)),
    {
        let i = match self.index_of(key) {
            None => {
                return Err(MapError::NotFound);
            },
            Some(i) => i,
        };
        proof {
            use_type_invariant(&*self);
        }
        let found = self.values[i].discriminant();
        if found != T::value_type() {
            return Err(MapError::WrongType { expected: T::value_type(), found });
        }
        let ghost keys = self.keys@;
        let ghost old_values = self.values@;
        let v = &mut self.values[i];
        let r = v.get_mut::<T>();
        proof {
            let z = zipped(keys, old_values);
            lemma_zipped_unique(keys, old_values);
            assert(z[i as int].0@ == key@);
            lemma_lookup_index(z, i as int);
        }
        match r {
            Some(x) => {
                proof {
                    let z = zipped(keys, old_values);
                    let nv = T::wrap(*final(x));
                    let z2 = zipped(keys, old_values.update(i as int, nv));
                    assert(z2 =~= z.update(i as int, (keys[i as int], nv)));
                    assert forall|k: Seq<char>| #[trigger] assoc_lookup(z2, k) == if k == keys[i as int]@ {
                        Some(nv)
                    } else {
                        assoc_lookup(z, k)
                    } by {
                        crate::assoc::lemma_lookup_update(z, i as int, keys[i as int], nv, k);
                    }
                    lemma_entries_view_insert(z, z2, keys[i as int], nv);
                }
                Ok(x)
            },
            None => Err(MapError::WrongType { expected: T::value_type(), found }),
        }
    }

    /// The value of `key`, where the map holds one.
    pub fn get_value(&self, key: &Key) -> (r: Option<&Value>)
        ensures
            r is Some <==> self@.dom().contains(key@),
            r matches Some(v) ==> v@ == self@[key@],
    {
        match self.index_of(key) {
            None => None,
            Some(i) => Some(&self.values[i]),
        }
    }

    /// The entries of the map: each key once, with its value.
    pub fn entries(&self) -> (r: Vec<(Key, Value)>)
        ensures
            keys_unique(r@),
            entries_view(r@) == self@,
    {
        proof {
            use_type_invariant(self);
        }
        let mut r: Vec<(Key, Value)> = Vec::new();
        let mut i: usize = 0;
        while i < self.keys.len()
            invariant
                i <= self.keys@.len(),
                self.keys@.len() == self.values@.len(),
                keys_distinct(self.keys@),
                r@.len() == i,
                forall|j: int|
                    0 <= j < i ==> (#[trigger] r@[j]).0@ == self.keys@[j]@ && r@[j].1@
                        == self.values@[j]@,
            decreases self.keys@.len() - i,
        {
            let ghost old_r = r@;
            r.push((self.keys[i].copy(), self.values[i].copy()));
            proof {
                assert forall|j: int|
                    0 <= j < i + 1 implies (#[trigger] r@[j]).0@ == self.keys@[j]@ && r@[j].1@
                    == self.values@[j]@ by {
                    if j < i {
                        assert(r@[j] == old_r[j]);
                    }
                }
            }
            i = i + 1;
        }
        proof {
            let z = zipped(self.keys@, self.values@);
            lemma_zipped_unique(self.keys@, self.values@);
            assert forall|a: int, b: int| 0 <= a < b < r@.len() implies r@[a].0@ != r@[b].0@ by {
                assert(r@[a].0@ == self.keys@[a]@);
                assert(r@[b].0@ == self.keys@[b]@);
            }
            lemma_entries_view_same(r@, z);
        }
        r
    }

    /// The variant of `T` that the enum value of `key` names: what `T::from_enum_string` gives for
    /// the stored enum string, or `WrongEnum` where it gives none.
    pub fn get_enum<T: SkvEnum>(&self, key: &Key) -> (r: Result<T, MapError>)
        ensures
            !self@.dom().contains(key@) ==> r == Err::<T, MapError>(MapError::NotFound),
            self@.dom().contains(key@) && type_of(self@[key@]) != ValueType::Enum ==> r == Err::<
                T,
                MapError,
            >(MapError::WrongType { expected: ValueType::Enum, found: type_of(self@[key@]) }),
            self@.dom().contains(key@) && self@[key@] is Enum ==> exists|e: EnumString|
                e@ == self@[key@]->Enum_0 && (r matches Ok(t) ==> call_ensures(
                    T::from_enum_string,
                    (&e,),
                    Some(t),
                )) && (r == Err::<T, MapError>(MapError::WrongEnum) ==> call_ensures(
                    T::from_enum_string,
                    (&e,),
                    None::<T>,
                )) && (r is Ok || r == Err::<T, MapError>(MapError::WrongEnum)),
    {
        let val = match self.get_value(key) {
            Some(v) => v,
            None => {
                return Err(MapError::NotFound);
            },
        };
        match val {
            Value::Enum(enum_string) => match T::from_enum_string(enum_string) {
                Some(t) => Ok(t),
                None => Err(MapError::WrongEnum),
            },
            other => Err(MapError::WrongType { expected: ValueType::Enum, found: other.discriminant() }),
        }
    }

    /// The integer value of `key`.
    pub fn get_int(&self, key: &Key) -> (r: Result<i64, MapError>)
        ensures
            !self@.dom().contains(key@) ==> r == Err::<i64, MapError>(MapError::NotFound),
            self@.dom().contains(key@) && type_of(self@[key@]) != ValueType::Int ==> r == Err::<
                i64,
                MapError,
            >(MapError::WrongType { expected: ValueType::Int, found: type_of(self@[key@]) }),
            self@.dom().contains(key@) && type_of(self@[key@]) == ValueType::Int ==> (r matches Ok(n)
                && self@[key@] == SpecValue::Int(n)),
    {
        match self.get::<i64>(key) {
            Ok(n) => Ok(*n),
            Err(e) => Err(e),
        }
    }

    /// The double value of `key`, as its text.
    pub fn get_double(&self, key: &Key) -> (r: Result<DoubleLiteral, MapError>)
        ensures
            !self@.dom().contains(key@) ==> r == Err::<DoubleLiteral, MapError>(MapError::NotFound),
            self@.dom().contains(key@) && type_of(self@[key@]) != ValueType::Double ==> r == Err::<
                DoubleLiteral,
                MapError,
            >(MapError::WrongType { expected: ValueType::Double, found: type_of(self@[key@]) }),
            self@.dom().contains(key@) && type_of(self@[key@]) == ValueType::Double ==> (r matches Ok(d)
                && self@[key@] == SpecValue::Double(d@)),
    {
        match self.get::<DoubleLiteral>(key) {
            Ok(d) => Ok(d.copy()),
            Err(e) => Err(e),
        }
    }

    /// The boolean value of `key`.
    pub fn get_bool(&self, key: &Key) -> (r: Result<bool, MapError>)
        ensures
            !self@.dom().contains(key@) ==> r == Err::<bool, MapError>(MapError::NotFound),
            self@.dom().contains(key@) && type_of(self@[key@]) != ValueType::Bool ==> r == Err::<
                bool,
                MapError,
            >(MapError::WrongType { expected: ValueType::Bool, found: type_of(self@[key@]) }),
            self@.dom().contains(key@) && type_of(self@[key@]) == ValueType::Bool ==> (r matches Ok(b)
                && self@[key@] == SpecValue::Bool(b)),
    {
        match self.get::<bool>(key) {
            Ok(b) => Ok(*b),
            Err(e) => Err(e),
        }
    }

    /// The string value of `key`.
    pub fn get_str(&self, key: &Key) -> (r: Result<&str, MapError>)
        ensures
            !self@.dom().contains(key@) ==> r == Err::<&str, MapError>(MapError::NotFound),
            self@.dom().contains(key@) && type_of(self@[key@]) != ValueType::String ==> r == Err::<
                &str,
                MapError,
            >(MapError::WrongType { expected: ValueType::String, found: type_of(self@[key@]) }),
            self@.dom().contains(key@) && type_of(self@[key@]) == ValueType::String ==> (r matches Ok(s)
                && self@[key@] == SpecValue::String(s@)),
    {
        match self.get::<String>(key) {
            Ok(s) => Ok(s.as_str()),
            Err(e) => Err(e),
        }
    }
}

impl ParsedMap {
    /// Whether every key of this map has the same value in `other`.
    fn included_in(&self, other: &ParsedMap) -> (r: bool)
        ensures
            r == forall|k: Seq<char>|
                #![trigger self@.dom().contains(k)]
                self@.dom().contains(k) ==> other@.dom().contains(k) && other@[k] == self@[k],
    {
        proof {
            use_type_invariant(self);
            lemma_zipped_unique(self.keys@, self.values@);
        }
        let ghost z = zipped(self.keys@, self.values@);
        let mut i: usize = 0;
        while i < self.keys.len()
            invariant
                i <= self.keys@.len(),
                self.keys@.len() == self.values@.len(),
                z == zipped(self.keys@, self.values@),
                keys_unique(z),
                forall|j: int|
                    0 <= j < i ==> other@.dom().contains(#[trigger] z[j].0@) && other@[z[j].0@]
                        == self@[z[j].0@],
            decreases self.keys@.len() - i,
        {
            proof {
                lemma_lookup_index(z, i as int);
                assert(has_key(z, z[i as int].0@));
            }
            proof {
                assert(self@.dom().contains(self.keys@[i as int]@));
                assert(self@[self.keys@[i as int]@] == self.values@[i as int]@);
            }
            match other.index_of(&self.keys[i]) {
                None => {
                    return false;
                },
                Some(j) => {
                    if !other.values[j].same(&self.values[i]) {
                        return false;
                    }
                },
            }
            i = i + 1;
        }
        proof {
            assert forall|k: Seq<char>| #![trigger self@.dom().contains(k)]
                self@.dom().contains(k) implies other@.dom().contains(k) && other@[k] == self@[k] by {
                let j = choose|j: int| 0 <= j < z.len() && z[j].0@ == k;
                assert(other@.dom().contains(z[j].0@));
            }
        }
        true
    }
}

impl PartialEq for ParsedMap {
    fn eq(&self, other: &ParsedMap) -> (r: bool) {
        let r = self.included_in(other) && other.included_in(self);
        proof {
            if r {
                assert(self@ =~= other@);
            }
        }
        r
    }
}

impl PartialEqSpecImpl for ParsedMap {
    open spec fn obeys_eq_spec() -> bool {
        true
    }

    open spec fn eq_spec(&self, other: &ParsedMap) -> bool {
        self@ == other@
    }
}

/// Parses `input` as a map without a schema: every value's type is inferred.
pub fn parse_map(input: &str) -> (r: Result<ParsedMap, MapParseError>)
    ensures
        match spec_parse_map(None, input@) {
            Ok(m) => r matches Ok(pm) && pm@ == m,
            Err(f) => r matches Err(e) && reports(e, f, input@),
        },
        r matches Err(MapParseError::Parsing { input: i, span: sp, .. }) ==> sp.offset + sp.length
            <= vstd::utf8::encode_utf8(i@).len(),
{
    let map = parse_map_entries(None, input)?;
    Ok(ParsedMap::from_entries(map, Vec::new()))
}

} // verus!
