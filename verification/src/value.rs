//! Values of SKV maps, and the parser that reads one.
use vstd::prelude::*;

use crate::chars::{is_multispace, multispace, scan, span_end, CharClass};
use crate::enum_string::{is_enum_text, EnumString};
use crate::error::{ErrorKind, ParseError};
use crate::primitives::boolean::{boolean_at, spec_boolean};
use crate::primitives::double::{double_at, spec_double, DoubleLiteral};
use crate::primitives::integer::{integer_at, spec_integer};
use crate::primitives::string::{spec_string, string_at};
use crate::schema::{BaseType, EnumExpectations, SchemaValue};
use crate::text::{skip_chars, to_chars};

verus! {

/// A value in an SKV map.
#[derive(Debug, PartialEq)]
pub enum Value {
    String(String),
    /// A double, held as the text that `f64`'s `FromStr` reads.
    Double(DoubleLiteral),
    Int(i64),
    Bool(bool),
    Enum(EnumString),
}

/// The type of a [`Value`].
#[derive(Debug, Clone, Copy, PartialEq, Eq, Hash, Structural)]
pub enum ValueType {
    String,
    Double,
    Int,
    Bool,
    Enum,
}

/// What a [`Value`] holds, as mathematical values.
pub enum SpecValue {
    String(Seq<char>),
    Double(Seq<char>),
    Int(i64),
    Bool(bool),
    Enum(Seq<char>),
}

impl View for Value {
    type V = SpecValue;

    open spec fn view(&self) -> SpecValue {
        match self {
            Value::String(s) => SpecValue::String(s@),
            Value::Double(d) => SpecValue::Double(d@),
            Value::Int(i) => SpecValue::Int(*i),
            Value::Bool(b) => SpecValue::Bool(*b),
            Value::Enum(e) => SpecValue::Enum(e@),
        }
    }
}

/// The type of a value.
pub open spec fn type_of(v: SpecValue) -> ValueType {
    match v {
        SpecValue::String(_) => ValueType::String,
        SpecValue::Double(_) => ValueType::Double,
        SpecValue::Int(_) => ValueType::Int,
        SpecValue::Bool(_) => ValueType::Bool,
        SpecValue::Enum(_) => ValueType::Enum,
    }
}

impl Value {
    /// Create a [`Value::String`] with the argument string.
    pub fn string(s: &str) -> (r: Value)
        ensures
            r@ == SpecValue::String(s@),
    {
        Value::String(s.to_owned())
    }

    /// Equivalent to `Value::Int(i)`.
    pub fn integer(i: i64) -> (r: Value)
        ensures
            r@ == SpecValue::Int(i),
    {
        Value::Int(i)
    }

    /// The type of this value.
    pub fn discriminant(&self) -> (r: ValueType)
        ensures
            r == type_of(self@),
    {
        match self {
            Value::String(_) => ValueType::String,
            Value::Double(_) => ValueType::Double,
            Value::Int(_) => ValueType::Int,
            Value::Bool(_) => ValueType::Bool,
            Value::Enum(_) => ValueType::Enum,
        }
    }

    /// A reference to what this value holds, where it is of type `T`.
    pub fn get_ref<T: BaseType>(&self) -> (r: Option<&T>)
        ensures
            r is Some <==> type_of(self@) == T::spec_value_type(),
            r matches Some(x) ==> T::wrap(*x) == *self,
    {
        T::ref_from_value(self)
    }

    /// A mutable reference to what this value holds, where it is of type `T`.
    pub fn get_mut<T: BaseType>(&mut self) -> (r: Option<&mut T>)
        ensures
            r is Some <==> type_of(old(self)@) == T::spec_value_type(),
            r matches Some(x) ==> T::wrap(*x) == *old(self) && *final(self) == T::wrap(*final(x)),
            r is None ==> *final(self) == *old(self),
    {
        T::mut_from_value(self)
    }

    /// What this value holds, where it is of type `T`.
    pub fn get<T: BaseType>(self) -> (r: Option<T>)
        ensures
            r is Some <==> type_of(self@) == T::spec_value_type(),
            r matches Some(x) ==> T::wrap(x) == self,
    {
        T::from_value(self)
    }

    /// Whether two values are equal: of the same type, with the same contents (doubles are
    /// compared by their text).
    pub fn same(&self, other: &Value) -> (r: bool)
        ensures
            r == (self@ == other@),
    {
        match (self, other) {
            (Value::String(a), Value::String(b)) => *a == *b,
            (Value::Double(a), Value::Double(b)) => a.same(b),
            (Value::Int(a), Value::Int(b)) => *a == *b,
            (Value::Bool(a), Value::Bool(b)) => *a == *b,
            (Value::Enum(a), Value::Enum(b)) => a.same(b),
            _ => false,
        }
    }

    /// A copy of this value.
    pub fn copy(&self) -> (r: Value)
        ensures
            r@ == self@,
    {
        match self {
            Value::String(s) => Value::String(s.clone()),
            Value::Double(d) => Value::Double(d.copy()),
            Value::Int(i) => Value::Int(*i),
            Value::Bool(b) => Value::Bool(*b),
            Value::Enum(e) => Value::Enum(e.copy()),
        }
    }
}

impl Clone for Value {
    fn clone(&self) -> (r: Value)
        ensures
            r@ == self@,
    {
        self.copy()
    }
}

/// Whether a value that ends at `e` is terminated there: by the end of the input, or by
/// whitespace (which it does not consume).
pub open spec fn terminated(s: Seq<char>, e: int) -> bool {
    e == s.len() || (0 <= e < s.len() && is_multispace(s[e]))
}

/// A value of inferred type at `i`: a boolean, an integer or a double, each followed by
/// whitespace or the end of the input; or else a string.
pub open spec fn spec_untyped_value(s: Seq<char>, i: int) -> Option<(int, SpecValue)> {
    let b = spec_boolean(s, i);
    let n = spec_integer(s, i);
    let d = spec_double(s, i);
    if b is Some && terminated(s, b.unwrap().0) {
        Some((b.unwrap().0, SpecValue::Bool(b.unwrap().1)))
    } else if n is Some && terminated(s, n.unwrap().0) {
        Some((n.unwrap().0, SpecValue::Int(n.unwrap().1 as i64)))
    } else if d is Some && terminated(s, d.unwrap().0) {
        Some((d.unwrap().0, SpecValue::Double(d.unwrap().1)))
    } else {
        match spec_string(s, i) {
            Some((e, t)) => Some((e, SpecValue::String(t))),
            None => None,
        }
    }
}

/// An enum value at `i`: the maximal run of alphanumeric characters (as `char::is_alphanumeric`
/// decides) and `_`, where it is an enum string that `ex` allows.
pub open spec fn spec_enum_value(s: Seq<char>, i: int, ex: EnumExpectations) -> Option<
    (int, Seq<char>),
> {
    let e = span_end(s, i, CharClass::AlnumOrUnderscore);
    let t = s.subrange(i, e);
    if e > i && is_enum_text(t) && ex.allows(t) {
        Some((e, t))
    } else {
        None
    }
}

/// A value of the type that the schema value `sv` expects, at `i`.
pub open spec fn spec_typed_value(s: Seq<char>, i: int, sv: SchemaValue) -> Option<(int, SpecValue)> {
    match sv {
        SchemaValue::Bool(_) => match spec_boolean(s, i) {
            Some((e, b)) => if terminated(s, e) {
                Some((e, SpecValue::Bool(b)))
            } else {
                None
            },
            None => None,
        },
        SchemaValue::Int(_) => match spec_integer(s, i) {
            Some((e, n)) => if terminated(s, e) {
                Some((e, SpecValue::Int(n as i64)))
            } else {
                None
            },
            None => None,
        },
        SchemaValue::Double(_) => match spec_double(s, i) {
            Some((e, t)) => if terminated(s, e) {
                Some((e, SpecValue::Double(t)))
            } else {
                None
            },
            None => None,
        },
        SchemaValue::String(_) => match spec_string(s, i) {
            Some((e, t)) => Some((e, SpecValue::String(t))),
            None => None,
        },
        SchemaValue::Enum(ex) => match spec_enum_value(s, i, ex) {
            Some((e, t)) => Some((e, SpecValue::Enum(t))),
            None => None,
        },
    }
}

/// A value at `i`: of the type that `sv` expects where there is one, else of inferred type.
pub open spec fn spec_value(s: Seq<char>, i: int, sv: Option<SchemaValue>) -> Option<
    (int, SpecValue),
> {
    match sv {
        Some(v) => spec_typed_value(s, i, v),
        None => spec_untyped_value(s, i),
    }
}

fn terminated_at(s: &[char], e: usize) -> (r: bool)
    requires
        e <= s@.len(),
    ensures
        r == terminated(s@, e as int),
{
    e == s.len() || multispace(s[e])
}

/// Reads a value of inferred type at `i` (see `spec_untyped_value`).
pub fn untyped_value_at(s: &[char], i: usize) -> (r: Option<(usize, Value)>)
    requires
        i <= s@.len(),
    ensures
        r is Some <==> spec_untyped_value(s@, i as int) is Some,
        r matches Some((e, v)) ==> spec_untyped_value(s@, i as int) == Some((e as int, v@)) && i
            < e <= s@.len(),
{
    if let Some((e, b)) = boolean_at(s, i) {
        if terminated_at(s, e) {
            return Some((e, Value::Bool(b)));
        }
    }
    if let Some((e, n)) = integer_at(s, i) {
        if terminated_at(s, e) {
            return Some((e, Value::Int(n)));
        }
    }
    if let Some((e, d)) = double_at(s, i) {
        if terminated_at(s, e) {
            return Some((e, Value::Double(d)));
        }
    }
    match string_at(s, i) {
        Some((e, t)) => Some((e, Value::String(t))),
        None => None,
    }
}

/// Reads an enum value that `ex` allows at `i` (see `spec_enum_value`).
fn enum_value_at(s: &[char], i: usize, ex: &EnumExpectations) -> (r: Option<(usize, EnumString)>)
    requires
        i <= s@.len(),
    ensures
        r is Some <==> spec_enum_value(s@, i as int, *ex) is Some,
        r matches Some((e, t)) ==> spec_enum_value(s@, i as int, *ex) == Some((e as int, t@)) && i
            < e <= s@.len(),
{
    let e = scan(s, i, CharClass::AlnumOrUnderscore);
    if e == i {
        return None;
    }
    match EnumString::from_chars(s, i, e) {
        Ok(t) => {
            if ex.contains(&t) {
                Some((e, t))
            } else {
                None
            }
        },
        Err(_) => None,
    }
}

/// Reads a value of the type that `sv` expects at `i` (see `spec_typed_value`).
pub fn typed_value_at(s: &[char], i: usize, sv: &SchemaValue) -> (r: Option<(usize, Value)>)
    requires
        i <= s@.len(),
    ensures
        r is Some <==> spec_typed_value(s@, i as int, *sv) is Some,
        r matches Some((e, v)) ==> spec_typed_value(s@, i as int, *sv) == Some((e as int, v@)) && i
            < e <= s@.len(),
{
    match sv {
        SchemaValue::Bool(_) => match boolean_at(s, i) {
            Some((e, b)) => if terminated_at(s, e) {
                Some((e, Value::Bool(b)))
            } else {
                None
            },
            None => None,
        },
        SchemaValue::Int(_) => match integer_at(s, i) {
            Some((e, n)) => if terminated_at(s, e) {
                Some((e, Value::Int(n)))
            } else {
                None
            },
            None => None,
        },
        SchemaValue::Double(_) => match double_at(s, i) {
            Some((e, d)) => if terminated_at(s, e) {
                Some((e, Value::Double(d)))
            } else {
                None
            },
            None => None,
        },
        SchemaValue::String(_) => match string_at(s, i) {
            Some((e, t)) => Some((e, Value::String(t))),
            None => None,
        },
        SchemaValue::Enum(ex) => match enum_value_at(s, i, ex) {
            Some((e, t)) => Some((e, Value::Enum(t))),
            None => None,
        },
    }
}

/// Reads a value at `i` (see `spec_value`).
pub fn value_at(s: &[char], i: usize, sv: Option<&SchemaValue>) -> (r: Option<(usize, Value)>)
    requires
        i <= s@.len(),
    ensures
        r is Some <==> spec_value(s@, i as int, match sv {
            Some(v) => Some(*v),
            None => None,
        }) is Some,
        r matches Some((e, v)) ==> spec_value(s@, i as int, match sv {
            Some(v) => Some(*v),
            None => None,
        }) == Some((e as int, v@)) && i < e <= s@.len(),
{
    match sv {
        Some(v) => typed_value_at(s, i, v),
        None => untyped_value_at(s, i),
    }
}

/// Parses a value of inferred type at the start of `input` and advances `input` past it.
///
/// Booleans, integers and doubles must be followed by whitespace or the end of the input, which
/// tells them from strings that start like them (`truestring`, `150test`). On failure `input`
/// is left as it was.
pub fn skv_value<'a>(input: &mut &'a str) -> (r: Result<Value, ParseError>)
    ensures
        match spec_untyped_value(old(input)@, 0) {
            Some((e, v)) => r matches Ok(x) && x@ == v && final(input)@ == old(input)@.skip(e),
            None => r == Err::<Value, ParseError>(ParseError { offset: 0, kind: ErrorKind::Value })
                && final(input)@ == old(input)@,
        },
{
    let text: &'a str = *input;
    let s = to_chars(text);
    match untyped_value_at(&s, 0) {
        Some((e, v)) => {
            *input = skip_chars(text, e, s.len());
            Ok(v)
        },
        None => Err(ParseError { offset: 0, kind: ErrorKind::Value }),
    }
}

} // verus!
