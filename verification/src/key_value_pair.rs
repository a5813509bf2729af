//! Key-value pairs, and the parser that reads one.
use vstd::prelude::*;

use crate::error::{ErrorKind, ParseError};
use crate::key::{key_at, spec_key, Key};
use crate::schema::{Schema, SchemaValue, UnknownKeyBehaviour};
use crate::text::{skip_chars, to_chars};
use crate::value::{spec_value, value_at, SpecValue, Value};

verus! {

/// An SKV key-value pair.
#[derive(Clone, Debug, PartialEq)]
pub struct KeyValuePair {
    pub key: Key,
    pub value: Value,
}

impl KeyValuePair {
    /// Creates a new `KeyValuePair` from a key and a value.
    pub fn new(key: Key, value: Value) -> (r: Self)
        ensures
            r.key@ == key@,
            r.value@ == value@,
    {
        KeyValuePair { key, value }
    }
}

impl From<KeyValuePair> for (Key, Value) {
    fn from(pair: KeyValuePair) -> (Key, Value) {
        (pair.key, pair.value)
    }
}

impl vstd::std_specs::convert::FromSpecImpl<KeyValuePair> for (Key, Value) {
    open spec fn obeys_from_spec() -> bool {
        true
    }

    open spec fn from_spec(pair: KeyValuePair) -> (Key, Value) {
        (pair.key, pair.value)
    }
}

/// What the schema expects of the value of the key with text `k`, where there is a schema.
pub open spec fn schema_expects(schema: Option<Schema>, k: Seq<char>) -> Option<SchemaValue> {
    match schema {
        Some(sch) => sch.expects(k),
        None => None,
    }
}

/// Whether `k` is a key that the schema does not know, and the schema treats such keys with
/// `behaviour`.
pub open spec fn unknown_with(schema: Option<Schema>, k: Seq<char>, behaviour: UnknownKeyBehaviour) -> bool {
    match schema {
        Some(sch) => sch.expects(k) is None && sch.spec_unknown_keys() == behaviour,
        None => false,
    }
}

/// Where the optional single space at `i` ends.
pub open spec fn after_space(s: Seq<char>, i: int) -> int {
    if 0 <= i < s.len() && s[i] == ' ' {
        i + 1
    } else {
        i
    }
}

/// A pair at `i`: a key, `=` with at most one space on either side, and a value of the type that
/// the schema expects for the key (of inferred type where it expects none).
///
/// On success: where the pair ends, the key's text, the value, and whether the pair is kept (it
/// is not where the key is unknown and the schema skips unknown keys). On failure: where it
/// failed and what was expected there; an unknown key fails where the schema has unknown keys be
/// errors.
pub open spec fn spec_pair(schema: Option<Schema>, s: Seq<char>, i: int) -> Result<
    (int, Seq<char>, SpecValue, bool),
    (int, ErrorKind),
> {
    match spec_key(s, i) {
        Err(p) => Err((p, ErrorKind::Key)),
        Ok(k) => {
            let eq = after_space(s, k);
            if !(0 <= eq < s.len() && s[eq] == '=') {
                Err((eq, ErrorKind::Equals))
            } else {
                let j = after_space(s, eq + 1);
                let key = s.subrange(i, k);
                if unknown_with(schema, key, UnknownKeyBehaviour::Error) {
                    Err((i, ErrorKind::UnknownKey))
                } else {
                    match spec_value(s, j, schema_expects(schema, key)) {
                        None => Err((j, ErrorKind::Value)),
                        Some((e, v)) => Ok(
                            (e, key, v, !unknown_with(schema, key, UnknownKeyBehaviour::Skip)),
                        ),
                    }
                }
            }
        },
    }
}

/// Reads a pair at `i` (see `spec_pair`); returns its end, the pair, and whether it is kept.
pub fn pair_at(schema: Option<&Schema>, s: &[char], i: usize) -> (r: Result<
    (usize, KeyValuePair, bool),
    ParseError,
>)
    requires
        i <= s@.len(),
    ensures
        ({
            let sch = match schema {
                Some(x) => Some(*x),
                None => None,
            };
            match spec_pair(sch, s@, i as int) {
                Ok((e, k, v, keep)) => r matches Ok((e2, p, keep2)) && e2 == e && p.key@ == k
                    && p.value@ == v && keep2 == keep && i < e <= s@.len(),
                Err((pos, kind)) => r == Err::<(usize, KeyValuePair, bool), ParseError>(
                    ParseError { offset: pos as usize, kind },
                ) && 0 <= pos <= s@.len(),
            }
        }),
{
    let ghost sch = match schema {
        Some(x) => Some(*x),
        None => None,
    };
    let (k, key) = match key_at(s, i) {
        Ok(r) => r,
        Err(p) => {
            return Err(ParseError { offset: p, kind: ErrorKind::Key });
        },
    };
    let eq = if k < s.len() && s[k] == ' ' {
        k + 1
    } else {
        k
    };
    if !(eq < s.len() && s[eq] == '=') {
        return Err(ParseError { offset: eq, kind: ErrorKind::Equals });
    }
    let j = if eq + 1 < s.len() && s[eq + 1] == ' ' {
        eq + 2
    } else {
        eq + 1
    };
    let (expected, unknown_behaviour) = match schema {
        Some(sch_ref) => (sch_ref.get_value(&key), Some(sch_ref.unknown_keys())),
        None => (None, None),
    };
    let unknown = schema.is_some() && expected.is_none();
    if unknown && unknown_behaviour == Some(UnknownKeyBehaviour::Error) {
        return Err(ParseError { offset: i, kind: ErrorKind::UnknownKey });
    }
    assert(schema_expects(sch, key@) == match expected {
        Some(v) => Some(*v),
        None => None::<SchemaValue>,
    });
    match value_at(s, j, expected) {
        None => Err(ParseError { offset: j, kind: ErrorKind::Value }),
        Some((e, v)) => {
            let keep = !(unknown && unknown_behaviour == Some(UnknownKeyBehaviour::Skip));
            Ok((e, KeyValuePair { key, value: v }, keep))
        },
    }
}

/// Parses a pair at the start of `input` and advances `input` past it; the value has the type
/// that `schema` expects for the key, where it expects one (see `spec_pair`).
///
/// On failure `input` is left as it was.
pub fn skv_pair<'a>(schema: Option<&Schema>, input: &mut &'a str) -> (r: Result<
    KeyValuePair,
    ParseError,
>)
    ensures
        ({
            let sch = match schema {
                Some(x) => Some(*x),
                None => None,
            };
            match spec_pair(sch, old(input)@, 0) {
                Ok((e, k, v, keep)) => r matches Ok(p) && p.key@ == k && p.value@ == v
                    && final(input)@ == old(input)@.skip(e),
                Err((pos, kind)) => r == Err::<KeyValuePair, ParseError>(
                    ParseError { offset: pos as usize, kind },
                ) && final(input)@ == old(input)@,
            }
        }),
{
    let text: &'a str = *input;
    let s = to_chars(text);
    match pair_at(schema, &s, 0) {
        Ok((e, p, _)) => {
            *input = skip_chars(text, e, s.len());
            Ok(p)
        },
        Err(err) => Err(err),
    }
}

} // verus!
