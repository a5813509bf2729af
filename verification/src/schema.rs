//! Schemas: the keys that a map is expected to hold, their types, and what is done without them.
use vstd::prelude::*;

use crate::assoc::{assoc_insert, assoc_lookup, find_key, keys_unique};
use crate::enum_string::{contains_enum_string, enum_texts, EnumString, SkvEnum};
use crate::key::Key;
use crate::primitives::double::DoubleLiteral;
use crate::value::{type_of, SpecValue, Value, ValueType};

verus! {

/// The types of this library that values hold; no other type can be a [`BaseType`].
pub(crate) trait Sealed {}

impl Sealed for String {}

impl Sealed for EnumString {}

impl Sealed for i64 {}

impl Sealed for DoubleLiteral {}

impl Sealed for bool {}

/// Types that a value of an SKV map can hold.
#[allow(private_bounds)]
pub trait BaseType: Sealed + Sized {
    /// The type of the values that hold a `Self`.
    spec fn spec_value_type() -> ValueType;

    /// The type of the values that hold a `Self`.
    fn value_type() -> (r: ValueType)
        ensures
            r == Self::spec_value_type(),
    ;

    /// The value that holds `x`.
    spec fn wrap(x: Self) -> Value;

    fn ref_from_value(val: &Value) -> (r: Option<&Self>)
        ensures
            r is Some <==> type_of(val@) == Self::spec_value_type(),
            r matches Some(x) ==> Self::wrap(*x) == *val,
    ;

    fn mut_from_value(val: &mut Value) -> (r: Option<&mut Self>)
        ensures
            r is Some <==> type_of(old(val)@) == Self::spec_value_type(),
            r matches Some(x) ==> Self::wrap(*x) == *old(val) && *final(val) == Self::wrap(
                *final(x),
            ),
            r is None ==> *final(val) == *old(val),
    ;

    fn from_value(val: Value) -> (r: Option<Self>)
        ensures
            r is Some <==> type_of(val@) == Self::spec_value_type(),
            r matches Some(x) ==> Self::wrap(x) == val,
    ;
}

impl BaseType for String {
    open spec fn spec_value_type() -> ValueType {
        ValueType::String
    }

    fn value_type() -> (r: ValueType) {
        ValueType::String
    }

    open spec fn wrap(x: String) -> Value {
        Value::String(x)
    }

    fn ref_from_value(val: &Value) -> (r: Option<&String>) {
        match val {
            Value::String(inner) => Some(inner),
            _ => None,
        }
    }

    fn mut_from_value(val: &mut Value) -> (r: Option<&mut String>) {
        match val {
            Value::String(inner) => Some(inner),
            _ => None,
        }
    }

    fn from_value(val: Value) -> (r: Option<String>) {
        match val {
            Value::String(inner) => Some(inner),
            _ => None,
        }
    }
}

impl BaseType for EnumString {
    open spec fn spec_value_type() -> ValueType {
        ValueType::Enum
    }

    fn value_type() -> (r: ValueType) {
        ValueType::Enum
    }

    open spec fn wrap(x: EnumString) -> Value {
        Value::Enum(x)
    }

    fn ref_from_value(val: &Value) -> (r: Option<&EnumString>) {
        match val {
            Value::Enum(inner) => Some(inner),
            _ => None,
        }
    }

    fn mut_from_value(val: &mut Value) -> (r: Option<&mut EnumString>) {
        match val {
            Value::Enum(inner) => Some(inner),
            _ => None,
        }
    }

    fn from_value(val: Value) -> (r: Option<EnumString>) {
        match val {
            Value::Enum(inner) => Some(inner),
            _ => None,
        }
    }
}

impl BaseType for i64 {
    open spec fn spec_value_type() -> ValueType {
        ValueType::Int
    }

    fn value_type() -> (r: ValueType) {
        ValueType::Int
    }

    open spec fn wrap(x: i64) -> Value {
        Value::Int(x)
    }

    fn ref_from_value(val: &Value) -> (r: Option<&i64>) {
        match val {
            Value::Int(inner) => Some(inner),
            _ => None,
        }
    }

    fn mut_from_value(val: &mut Value) -> (r: Option<&mut i64>) {
        match val {
            Value::Int(inner) => Some(inner),
            _ => None,
        }
    }

    fn from_value(val: Value) -> (r: Option<i64>) {
        match val {
            Value::Int(inner) => Some(inner),
            _ => None,
        }
    }
}

impl BaseType for DoubleLiteral {
    open spec fn spec_value_type() -> ValueType {
        ValueType::Double
    }

    fn value_type() -> (r: ValueType) {
        ValueType::Double
    }

    open spec fn wrap(x: DoubleLiteral) -> Value {
        Value::Double(x)
    }

    fn ref_from_value(val: &Value) -> (r: Option<&DoubleLiteral>) {
        match val {
            Value::Double(inner) => Some(inner),
            _ => None,
        }
    }

    fn mut_from_value(val: &mut Value) -> (r: Option<&mut DoubleLiteral>) {
        match val {
            Value::Double(inner) => Some(inner),
            _ => None,
        }
    }

    fn from_value(val: Value) -> (r: Option<DoubleLiteral>) {
        match val {
            Value::Double(inner) => Some(inner),
            _ => None,
        }
    }
}

impl BaseType for bool {
    open spec fn spec_value_type() -> ValueType {
        ValueType::Bool
    }

    fn value_type() -> (r: ValueType) {
        ValueType::Bool
    }

    open spec fn wrap(x: bool) -> Value {
        Value::Bool(x)
    }

    fn ref_from_value(val: &Value) -> (r: Option<&bool>) {
        match val {
            Value::Bool(inner) => Some(inner),
            _ => None,
        }
    }

    fn mut_from_value(val: &mut Value) -> (r: Option<&mut bool>) {
        match val {
            Value::Bool(inner) => Some(inner),
            _ => None,
        }
    }

    fn from_value(val: Value) -> (r: Option<bool>) {
        match val {
            Value::Bool(inner) => Some(inner),
            _ => None,
        }
    }
}

/// How a schema handles unknown keys when parsing (i.e. keys not in the schema).
///
/// The default behaviour is to parse the keys: [`UnknownKeyBehaviour::Parse`].
#[derive(Debug, Copy, Clone, PartialEq, Eq, Hash, Default, Structural)]
pub enum UnknownKeyBehaviour {
    /// Skip the keys, don't include them and their values in the output.
    Skip,
    /// Parse the keys, inferring their types, and include them in the output.
    #[default]
    Parse,
    /// Fail when unknown keys are encountered.
    Error,
}

/// What is done where a key of the schema is absent from the input.
#[derive(Clone, Default, Debug, PartialEq)]
pub enum ValueBehaviour<T> {
    /// The key must be present.
    #[default]
    Required,
    /// The key may be absent; then the map holds no value for it.
    Optional,
    /// The key may be absent; then the map holds this value for it.
    Default(T),
}

/// Another name for [`ValueBehaviour`]: what is done where a key of the schema is absent from
/// the input.
pub type SchemaValueBehaviour<T> = ValueBehaviour<T>;

impl<T> ValueBehaviour<T> {
    /// Maps the default value.
    pub fn map_default<O, F: FnOnce(T) -> O>(self, f: F) -> (r: ValueBehaviour<O>)
        requires
            self matches ValueBehaviour::Default(t) ==> f.requires((t,)),
        ensures
            default_mapped_by(self, f, r),
    {
        match self {
            ValueBehaviour::Required => ValueBehaviour::Required,
            ValueBehaviour::Optional => ValueBehaviour::Optional,
            ValueBehaviour::Default(t) => ValueBehaviour::Default(f(t)),
        }
    }
}

/// Whether `r` is `b` with its default value mapped by `f`: the same variant, and a default
/// that `f` may return for `b`'s default.
pub open spec fn default_mapped_by<T, U, F: FnOnce(T) -> U>(
    b: ValueBehaviour<T>,
    f: F,
    r: ValueBehaviour<U>,
) -> bool {
    &&& (b matches ValueBehaviour::Required ==> r matches ValueBehaviour::Required)
    &&& (b matches ValueBehaviour::Optional ==> r matches ValueBehaviour::Optional)
    &&& (b matches ValueBehaviour::Default(t) ==> r matches ValueBehaviour::Default(o) && f.ensures(
        (t,),
        o,
    ))
}

/// Mapping the default by a function that gives back its argument changes nothing.
pub proof fn lemma_map_default_identity<T, F: FnOnce(T) -> T>(
    b: ValueBehaviour<T>,
    f: F,
    r: ValueBehaviour<T>,
)
    requires
        default_mapped_by(b, f, r),
        forall|x: T, y: T| f.ensures((x,), y) ==> y == x,
    ensures
        r == b,
{
}

/// Mapping the default by `f` and then by `g` gives what mapping it by `h` gives, where `h`
/// computes `g` after `f`.
pub proof fn lemma_map_default_composition<T, U, V, F: FnOnce(T) -> U, G: FnOnce(U) -> V, H: FnOnce(T) -> V>(
    b: ValueBehaviour<T>,
    f: F,
    g: G,
    h: H,
    sf: spec_fn(T) -> U,
    sg: spec_fn(U) -> V,
    r1: ValueBehaviour<U>,
    r2: ValueBehaviour<V>,
    r3: ValueBehaviour<V>,
)
    requires
        forall|x: T, y: U| f.ensures((x,), y) ==> y == sf(x),
        forall|x: U, y: V| g.ensures((x,), y) ==> y == sg(x),
        forall|x: T, y: V| h.ensures((x,), y) ==> y == sg(sf(x)),
        default_mapped_by(b, f, r1),
        default_mapped_by(r1, g, r2),
        default_mapped_by(b, h, r3),
    ensures
        r2 == r3,
{
}

/// The expectations of a schema on a value of type `T`.
#[derive(Clone, Debug)]
pub struct ValueExpectations<T: BaseType> {
    /// Values to suggest for the key.
    pub suggestions: Vec<T>,
    /// What is done where the key is absent.
    pub behaviour: ValueBehaviour<T>,
}

impl<T: BaseType> Default for ValueExpectations<T> {
    fn default() -> (r: Self)
        ensures
            r.suggestions@.len() == 0,
            r.behaviour matches ValueBehaviour::Required,
    {
        ValueExpectations { suggestions: Vec::new(), behaviour: ValueBehaviour::Required }
    }
}

impl<T: BaseType> ValueExpectations<T> {
    /// Expectations with the given behaviour and no suggestions.
    pub fn with_behaviour(behaviour: ValueBehaviour<T>) -> (r: Self)
        ensures
            r.suggestions@.len() == 0,
            r.behaviour == behaviour,
    {
        ValueExpectations { suggestions: Vec::new(), behaviour }
    }
}

impl<T: BaseType> From<ValueBehaviour<T>> for ValueExpectations<T> {
    fn from(behaviour: ValueBehaviour<T>) -> (r: Self)
        ensures
            r.suggestions@.len() == 0,
            r.behaviour == behaviour,
    {
        Self::with_behaviour(behaviour)
    }
}

impl<T: BaseType> vstd::std_specs::convert::FromSpecImpl<ValueBehaviour<T>> for ValueExpectations<T> {
    open spec fn obeys_from_spec() -> bool {
        false
    }

    open spec fn from_spec(v: ValueBehaviour<T>) -> Self {
        arbitrary()
    }
}

/// The expectations of a schema on an enum value: the enum strings it allows, and its default.
#[derive(Debug)]
pub struct EnumExpectations {
    default: Option<EnumString>,
    values: Vec<EnumString>,
}

impl EnumExpectations {
    #[verifier::type_invariant]
    closed spec fn inv(self) -> bool {
        enum_texts(self.values@).no_duplicates()
    }

    /// The texts of the allowed enum strings.
    pub closed spec fn allowed(self) -> Seq<Seq<char>> {
        enum_texts(self.values@)
    }

    /// Whether the enum string with text `t` is allowed.
    pub open spec fn allows(self, t: Seq<char>) -> bool {
        self.allowed().contains(t)
    }

    /// The text of the default enum string, if there is one.
    pub closed spec fn default_text(self) -> Option<Seq<char>> {
        match self.default {
            Some(d) => Some(d@),
            None => None,
        }
    }

    /// Whether `enum_string` is allowed.
    pub fn contains(&self, enum_string: &EnumString) -> (r: bool)
        ensures
            r == self.allows(enum_string@),
    {
        let r = contains_enum_string(&self.values, enum_string);
        proof {
            if r {
                let i = choose|i: int|
                    0 <= i < self.values@.len() && self.values@[i]@ == enum_string@;
                assert(self.allowed()[i] == enum_string@);
            }
            if self.allows(enum_string@) {
                let i = choose|i: int| 0 <= i < self.allowed().len() && self.allowed()[i] == enum_string@;
                assert(self.values@[i]@ == enum_string@);
            }
        }
        r
    }

    /// The default enum string, if there is one.
    pub fn get_default(&self) -> (r: Option<&EnumString>)
        ensures
            r matches Some(d) ==> self.default_text() == Some(d@),
            r is None ==> self.default_text() is None,
    {
        self.default.as_ref()
    }

    /// The expectations of an enum value of type `T`: its variants, and no default.
    pub fn from_enum<T: SkvEnum>() -> (r: Self)
        ensures
            r.default_text() is None,
            forall|t: Seq<char>| r.allows(t) <==> is_valid_enum_name::<T>(t),
    {
        let values = T::enum_strings();
        let r = EnumExpectations { default: None, values };
        proof {
            lemma_enum_strings_of::<T>(r.values@);
        }
        r
    }

    /// The expectations of an enum value of type `T`: its variants, with `default` as default
    /// (which is one of them).
    pub fn from_enum_default<T: SkvEnum>(default: T) -> (r: Self)
        ensures
            exists|e: EnumString|
                call_ensures(T::to_enum_string, (&default,), e) && r.default_text() == Some(e@),
            r.default_text() matches Some(t) && r.allows(t),
            forall|t: Seq<char>| r.allows(t) <==> is_valid_enum_name::<T>(t),
    {
        let values = T::enum_strings();
        let d = default.to_enum_string();
        proof {
            use_type_invariant(&d);
        }
        assert(call_ensures(T::to_enum_string, (&default,), d));
        let ghost dv = d;
        let r = EnumExpectations { default: Some(d), values };
        assert(r.default_text() == Some(dv@));
        proof {
            lemma_enum_strings_of::<T>(r.values@);
        }
        r
    }

    /// A copy of these expectations.
    pub fn copy(&self) -> (r: Self)
        ensures
            r.allowed() == self.allowed(),
            r.default_text() == self.default_text(),
    {
        proof {
            use_type_invariant(self);
        }
        let default = match &self.default {
            Some(d) => Some(d.copy()),
            None => None,
        };
        let mut values: Vec<EnumString> = Vec::new();
        let mut i: usize = 0;
        while i < self.values.len()
            invariant
                i <= self.values@.len(),
                values@.len() == i,
                forall|j: int| 0 <= j < i ==> (#[trigger] values@[j])@ == self.values@[j]@,
            decreases self.values@.len() - i,
        {
            values.push(self.values[i].copy());
            i = i + 1;
        }
        assert(enum_texts(values@) =~= enum_texts(self.values@));
        EnumExpectations { default, values }
    }
}

impl Clone for EnumExpectations {
    fn clone(&self) -> (r: Self)
        ensures
            r.allowed() == self.allowed(),
            r.default_text() == self.default_text(),
    {
        self.copy()
    }
}

/// Whether `t` is the text of one of the enum strings that `T` lists, and a valid one.
pub open spec fn is_valid_enum_name<T: SkvEnum>(t: Seq<char>) -> bool {
    crate::enum_string::is_enum_text(t) && crate::enum_string::texts_of(T::ENUM_STRINGS@).contains(
        t,
    )
}

proof fn lemma_enum_strings_of<T: SkvEnum>(v: Seq<EnumString>)
    requires
        forall|i: int| 0 <= i < v.len() ==> crate::enum_string::texts_of(T::ENUM_STRINGS@).contains(
            #[trigger] v[i]@,
        ),
        forall|k: int|
            0 <= k < T::ENUM_STRINGS@.len() && crate::enum_string::is_enum_text(
                #[trigger] T::ENUM_STRINGS@[k]@,
            ) ==> enum_texts(v).contains(T::ENUM_STRINGS@[k]@),
        forall|i: int| 0 <= i < v.len() ==> crate::enum_string::is_enum_text(#[trigger] v[i]@),
    ensures
        forall|t: Seq<char>| enum_texts(v).contains(t) <==> is_valid_enum_name::<T>(t),
{
    assert forall|t: Seq<char>| enum_texts(v).contains(t) <==> is_valid_enum_name::<T>(t) by {
        if enum_texts(v).contains(t) {
            let i = choose|i: int| 0 <= i < enum_texts(v).len() && enum_texts(v)[i] == t;
            assert(v[i]@ == t);
        }
        if is_valid_enum_name::<T>(t) {
            let k = choose|k: int|
                0 <= k < crate::enum_string::texts_of(T::ENUM_STRINGS@).len()
                    && crate::enum_string::texts_of(T::ENUM_STRINGS@)[k] == t;
            assert(T::ENUM_STRINGS@[k]@ == t);
        }
    }
}

/// What a schema expects of the value of one key.
#[derive(Debug, Clone)]
pub enum SchemaValue {
    String(ValueExpectations<String>),
    Enum(EnumExpectations),
    Int(ValueExpectations<i64>),
    Double(ValueExpectations<DoubleLiteral>),
    Bool(ValueExpectations<bool>),
}

impl From<EnumExpectations> for SchemaValue {
    fn from(ex: EnumExpectations) -> SchemaValue {
        SchemaValue::Enum(ex)
    }
}

impl vstd::std_specs::convert::FromSpecImpl<EnumExpectations> for SchemaValue {
    open spec fn obeys_from_spec() -> bool {
        true
    }

    open spec fn from_spec(ex: EnumExpectations) -> SchemaValue {
        SchemaValue::Enum(ex)
    }
}

impl From<ValueExpectations<String>> for SchemaValue {
    fn from(ex: ValueExpectations<String>) -> SchemaValue {
        SchemaValue::String(ex)
    }
}

impl vstd::std_specs::convert::FromSpecImpl<ValueExpectations<String>> for SchemaValue {
    open spec fn obeys_from_spec() -> bool {
        true
    }

    open spec fn from_spec(ex: ValueExpectations<String>) -> SchemaValue {
        SchemaValue::String(ex)
    }
}

impl From<ValueExpectations<i64>> for SchemaValue {
    fn from(ex: ValueExpectations<i64>) -> SchemaValue {
        SchemaValue::Int(ex)
    }
}

impl vstd::std_specs::convert::FromSpecImpl<ValueExpectations<i64>> for SchemaValue {
    open spec fn obeys_from_spec() -> bool {
        true
    }

    open spec fn from_spec(ex: ValueExpectations<i64>) -> SchemaValue {
        SchemaValue::Int(ex)
    }
}

impl From<ValueExpectations<DoubleLiteral>> for SchemaValue {
    fn from(ex: ValueExpectations<DoubleLiteral>) -> SchemaValue {
        SchemaValue::Double(ex)
    }
}

impl vstd::std_specs::convert::FromSpecImpl<ValueExpectations<DoubleLiteral>> for SchemaValue {
    open spec fn obeys_from_spec() -> bool {
        true
    }

    open spec fn from_spec(ex: ValueExpectations<DoubleLiteral>) -> SchemaValue {
        SchemaValue::Double(ex)
    }
}

impl From<ValueExpectations<bool>> for SchemaValue {
    fn from(ex: ValueExpectations<bool>) -> SchemaValue {
        SchemaValue::Bool(ex)
    }
}

impl vstd::std_specs::convert::FromSpecImpl<ValueExpectations<bool>> for SchemaValue {
    open spec fn obeys_from_spec() -> bool {
        true
    }

    open spec fn from_spec(ex: ValueExpectations<bool>) -> SchemaValue {
        SchemaValue::Bool(ex)
    }
}

impl From<ValueBehaviour<String>> for SchemaValue {
    fn from(behaviour: ValueBehaviour<String>) -> (r: SchemaValue)
        ensures
            r matches SchemaValue::String(ex) && ex.behaviour == behaviour && ex.suggestions@.len()
                == 0,
    {
        SchemaValue::String(ValueExpectations::with_behaviour(behaviour))
    }
}

impl vstd::std_specs::convert::FromSpecImpl<ValueBehaviour<String>> for SchemaValue {
    open spec fn obeys_from_spec() -> bool {
        false
    }

    open spec fn from_spec(behaviour: ValueBehaviour<String>) -> SchemaValue {
        arbitrary()
    }
}

impl From<ValueBehaviour<i64>> for SchemaValue {
    fn from(behaviour: ValueBehaviour<i64>) -> (r: SchemaValue)
        ensures
            r matches SchemaValue::Int(ex) && ex.behaviour == behaviour && ex.suggestions@.len()
                == 0,
    {
        SchemaValue::Int(ValueExpectations::with_behaviour(behaviour))
    }
}

impl vstd::std_specs::convert::FromSpecImpl<ValueBehaviour<i64>> for SchemaValue {
    open spec fn obeys_from_spec() -> bool {
        false
    }

    open spec fn from_spec(behaviour: ValueBehaviour<i64>) -> SchemaValue {
        arbitrary()
    }
}

impl From<ValueBehaviour<DoubleLiteral>> for SchemaValue {
    fn from(behaviour: ValueBehaviour<DoubleLiteral>) -> (r: SchemaValue)
        ensures
            r matches SchemaValue::Double(ex) && ex.behaviour == behaviour && ex.suggestions@.len()
                == 0,
    {
        SchemaValue::Double(ValueExpectations::with_behaviour(behaviour))
    }
}

impl vstd::std_specs::convert::FromSpecImpl<ValueBehaviour<DoubleLiteral>> for SchemaValue {
    open spec fn obeys_from_spec() -> bool {
        false
    }

    open spec fn from_spec(behaviour: ValueBehaviour<DoubleLiteral>) -> SchemaValue {
        arbitrary()
    }
}

impl From<ValueBehaviour<bool>> for SchemaValue {
    fn from(behaviour: ValueBehaviour<bool>) -> (r: SchemaValue)
        ensures
            r matches SchemaValue::Bool(ex) && ex.behaviour == behaviour && ex.suggestions@.len()
                == 0,
    {
        SchemaValue::Bool(ValueExpectations::with_behaviour(behaviour))
    }
}

impl vstd::std_specs::convert::FromSpecImpl<ValueBehaviour<bool>> for SchemaValue {
    open spec fn obeys_from_spec() -> bool {
        false
    }

    open spec fn from_spec(behaviour: ValueBehaviour<bool>) -> SchemaValue {
        arbitrary()
    }
}

/// The behaviour with its default value taken by its view.
pub open spec fn behaviour_view(b: ValueBehaviour<Value>) -> ValueBehaviour<SpecValue> {
    match b {
        ValueBehaviour::Required => ValueBehaviour::Required,
        ValueBehaviour::Optional => ValueBehaviour::Optional,
        ValueBehaviour::Default(v) => ValueBehaviour::Default(v@),
    }
}

/// Whether two schema values expect the same of a value: the same type, the same behaviour where
/// the key is absent, and for enum values the same enum strings.
pub open spec fn same_expectations(a: SchemaValue, b: SchemaValue) -> bool {
    &&& a.spec_value_type() == b.spec_value_type()
    &&& a.spec_behaviour() == b.spec_behaviour()
    &&& (a matches SchemaValue::Enum(x) ==> (b matches SchemaValue::Enum(y) && x.allowed()
        == y.allowed()))
}

/// Whether two lists of schema entries have the same keys, in order, with the same
/// expectations.
pub open spec fn same_entries(a: Seq<(Key, SchemaValue)>, b: Seq<(Key, SchemaValue)>) -> bool {
    &&& a.len() == b.len()
    &&& forall|i: int|
        0 <= i < a.len() ==> (#[trigger] a[i]).0@ == b[i].0@ && same_expectations(a[i].1, b[i].1)
}

/// A copy of a behaviour whose default the function `f` copies.
fn copy_behaviour<T>(b: &ValueBehaviour<T>, f: impl Fn(&T) -> T) -> (r: ValueBehaviour<T>)
    requires
        b matches ValueBehaviour::Default(t) ==> f.requires((t,)),
    ensures
        b matches ValueBehaviour::Required ==> r matches ValueBehaviour::Required,
        b matches ValueBehaviour::Optional ==> r matches ValueBehaviour::Optional,
        b matches ValueBehaviour::Default(t) ==> r matches ValueBehaviour::Default(c) && f.ensures(
            (t,),
            c,
        ),
{
    match b {
        ValueBehaviour::Required => ValueBehaviour::Required,
        ValueBehaviour::Optional => ValueBehaviour::Optional,
        ValueBehaviour::Default(t) => ValueBehaviour::Default(f(t)),
    }
}

fn copy_string(s: &String) -> (r: String)
    ensures
        r@ == s@,
{
    s.clone()
}

fn copy_double(d: &DoubleLiteral) -> (r: DoubleLiteral)
    ensures
        r@ == d@,
{
    d.copy()
}

fn copy_int(n: &i64) -> (r: i64)
    ensures
        r == *n,
{
    *n
}

fn copy_bool(b: &bool) -> (r: bool)
    ensures
        r == *b,
{
    *b
}

impl SchemaValue {
    /// The type of the value that this schema value expects.
    pub open spec fn spec_value_type(self) -> ValueType {
        match self {
            SchemaValue::String(_) => ValueType::String,
            SchemaValue::Enum(_) => ValueType::Enum,
            SchemaValue::Int(_) => ValueType::Int,
            SchemaValue::Double(_) => ValueType::Double,
            SchemaValue::Bool(_) => ValueType::Bool,
        }
    }

    /// What is done where the key is absent, with the default value as a value; an enum value
    /// without a default is required.
    pub open spec fn spec_behaviour(self) -> ValueBehaviour<SpecValue> {
        match self {
            SchemaValue::Bool(ex) => match ex.behaviour {
                ValueBehaviour::Required => ValueBehaviour::Required,
                ValueBehaviour::Optional => ValueBehaviour::Optional,
                ValueBehaviour::Default(b) => ValueBehaviour::Default(SpecValue::Bool(b)),
            },
            SchemaValue::Int(ex) => match ex.behaviour {
                ValueBehaviour::Required => ValueBehaviour::Required,
                ValueBehaviour::Optional => ValueBehaviour::Optional,
                ValueBehaviour::Default(n) => ValueBehaviour::Default(SpecValue::Int(n)),
            },
            SchemaValue::Double(ex) => match ex.behaviour {
                ValueBehaviour::Required => ValueBehaviour::Required,
                ValueBehaviour::Optional => ValueBehaviour::Optional,
                ValueBehaviour::Default(d) => ValueBehaviour::Default(SpecValue::Double(d@)),
            },
            SchemaValue::String(ex) => match ex.behaviour {
                ValueBehaviour::Required => ValueBehaviour::Required,
                ValueBehaviour::Optional => ValueBehaviour::Optional,
                ValueBehaviour::Default(s) => ValueBehaviour::Default(SpecValue::String(s@)),
            },
            SchemaValue::Enum(ex) => match ex.default_text() {
                Some(d) => ValueBehaviour::Default(SpecValue::Enum(d)),
                None => ValueBehaviour::Required,
            },
        }
    }

    /// A copy of this schema value: it expects the same (its suggestions are cloned).
    pub fn copy(&self) -> (r: SchemaValue)
        ensures
            same_expectations(r, *self),
    {
        match self {
            SchemaValue::Bool(ex) => SchemaValue::Bool(
                ValueExpectations {
                    suggestions: ex.suggestions.clone(),
                    behaviour: copy_behaviour(&ex.behaviour, copy_bool),
                },
            ),
            SchemaValue::Int(ex) => SchemaValue::Int(
                ValueExpectations {
                    suggestions: ex.suggestions.clone(),
                    behaviour: copy_behaviour(&ex.behaviour, copy_int),
                },
            ),
            SchemaValue::Double(ex) => SchemaValue::Double(
                ValueExpectations {
                    suggestions: ex.suggestions.clone(),
                    behaviour: copy_behaviour(&ex.behaviour, copy_double),
                },
            ),
            SchemaValue::String(ex) => SchemaValue::String(
                ValueExpectations {
                    suggestions: ex.suggestions.clone(),
                    behaviour: copy_behaviour(&ex.behaviour, copy_string),
                },
            ),
            SchemaValue::Enum(ex) => SchemaValue::Enum(ex.copy()),
        }
    }

    /// The type of the value that this schema value expects.
    pub fn value_type(&self) -> (r: ValueType)
        ensures
            r == self.spec_value_type(),
    {
        match self {
            SchemaValue::String(_) => ValueType::String,
            SchemaValue::Enum(_) => ValueType::Enum,
            SchemaValue::Int(_) => ValueType::Int,
            SchemaValue::Double(_) => ValueType::Double,
            SchemaValue::Bool(_) => ValueType::Bool,
        }
    }

    /// Whether the key must be present.
    pub fn is_required(&self) -> (r: bool)
        ensures
            r == (self.spec_behaviour() is Required),
    {
        match self {
            SchemaValue::Bool(ex) => matches!(ex.behaviour, ValueBehaviour::Required),
            SchemaValue::Int(ex) => matches!(ex.behaviour, ValueBehaviour::Required),
            SchemaValue::Double(ex) => matches!(ex.behaviour, ValueBehaviour::Required),
            SchemaValue::String(ex) => matches!(ex.behaviour, ValueBehaviour::Required),
            SchemaValue::Enum(ex) => ex.get_default().is_none(),
        }
    }

    /// The value that the map holds where the key is absent, if there is one.
    pub fn default_value(&self) -> (r: Option<Value>)
        ensures
            self.spec_behaviour() matches ValueBehaviour::Default(v) ==> r matches Some(x) && x@ == v,
            !(self.spec_behaviour() is Default) ==> r is None,
    {
        match self {
            SchemaValue::Bool(ex) => match &ex.behaviour {
                ValueBehaviour::Default(b) => Some(Value::Bool(*b)),
                _ => None,
            },
            SchemaValue::Int(ex) => match &ex.behaviour {
                ValueBehaviour::Default(n) => Some(Value::Int(*n)),
                _ => None,
            },
            SchemaValue::Double(ex) => match &ex.behaviour {
                ValueBehaviour::Default(d) => Some(Value::Double(d.copy())),
                _ => None,
            },
            SchemaValue::String(ex) => match &ex.behaviour {
                ValueBehaviour::Default(s) => Some(Value::String(s.clone())),
                _ => None,
            },
            SchemaValue::Enum(ex) => match ex.get_default() {
                Some(d) => Some(Value::Enum(d.copy())),
                None => None,
            },
        }
    }

    /// What is done where the key is absent, with the default value as a [`Value`].
    pub fn behaviour(self) -> (r: ValueBehaviour<Value>)
        ensures
            behaviour_view(r) == self.spec_behaviour(),
    {
        match self {
            SchemaValue::Bool(ex) => ex.behaviour.map_default(bool_value),
            SchemaValue::Int(ex) => ex.behaviour.map_default(int_value),
            SchemaValue::Double(ex) => ex.behaviour.map_default(double_value),
            SchemaValue::String(ex) => ex.behaviour.map_default(string_value),
            SchemaValue::Enum(ex) => match ex.get_default() {
                Some(d) => ValueBehaviour::Default(Value::Enum(d.copy())),
                None => ValueBehaviour::Required,
            },
        }
    }
}

fn bool_value(b: bool) -> (v: Value)
    ensures
        v@ == SpecValue::Bool(b),
{
    Value::Bool(b)
}

fn int_value(n: i64) -> (v: Value)
    ensures
        v@ == SpecValue::Int(n),
{
    Value::Int(n)
}

fn double_value(d: DoubleLiteral) -> (v: Value)
    ensures
        v@ == SpecValue::Double(d@),
{
    Value::Double(d)
}

fn string_value(s: String) -> (v: Value)
    ensures
        v@ == SpecValue::String(s@),
{
    Value::String(s)
}

/// The default value that a schema value gives has the type that it expects.
pub proof fn lemma_default_has_expected_type(sv: SchemaValue)
    ensures
        sv.spec_behaviour() matches ValueBehaviour::Default(v) ==> type_of(v)
            == sv.spec_value_type(),
{
}

/// A schema: the keys it knows, what it expects of their values, and what is done with keys it
/// does not know.
pub struct Schema {
    name: Option<String>,
    values: Vec<(Key, SchemaValue)>,
    unknown_keys: UnknownKeyBehaviour,
}

impl Schema {
    #[verifier::type_invariant]
    closed spec fn inv(self) -> bool {
        keys_unique(self.values@)
    }

    /// The entries of the schema, one per key.
    pub closed spec fn entries(self) -> Seq<(Key, SchemaValue)> {
        self.values@
    }

    /// What the schema expects of the value of the key with text `k`.
    pub open spec fn expects(self, k: Seq<char>) -> Option<SchemaValue> {
        assoc_lookup(self.entries(), k)
    }

    /// What the schema does with keys it does not know.
    pub closed spec fn spec_unknown_keys(self) -> UnknownKeyBehaviour {
        self.unknown_keys
    }

    /// The name of the schema, if it has one.
    pub closed spec fn spec_name(self) -> Option<Seq<char>> {
        match self.name {
            Some(n) => Some(n@),
            None => None,
        }
    }

    /// A schema with the given name, no keys, and unknown keys parsed.
    pub fn new(name: &str) -> (r: Self)
        ensures
            r.spec_name() == Some(name@),
            r.entries().len() == 0,
            r.spec_unknown_keys() == UnknownKeyBehaviour::Parse,
    {
        Schema { name: Some(name.to_owned()), values: Vec::new(), unknown_keys: UnknownKeyBehaviour::Parse }
    }

    /// Sets what is done with keys the schema does not know.
    pub fn unknown_key_behaviour(&mut self, behaviour: UnknownKeyBehaviour) -> (r: &mut Self)
        ensures
            r.spec_unknown_keys() == behaviour,
            r.entries() == old(self).entries(),
            r.spec_name() == old(self).spec_name(),
            *final(self) == *final(r),
    {
        proof {
            use_type_invariant(&*self);
        }
        self.unknown_keys = behaviour;
        self
    }

    /// Sets the name of the schema.
    pub fn name(&mut self, name: &str) -> (r: &mut Self)
        ensures
            r.spec_name() == Some(name@),
            r.entries() == old(self).entries(),
            r.spec_unknown_keys() == old(self).spec_unknown_keys(),
            *final(self) == *final(r),
    {
        proof {
            use_type_invariant(&*self);
        }
        self.name = Some(name.to_owned());
        self
    }

    /// Sets what the schema expects of the value of `key`, in place of what it expected before.
    pub fn value(&mut self, key: Key, val: SchemaValue) -> (r: &mut Self)
        ensures
            forall|k: Seq<char>|
                #![trigger r.expects(k)]
                r.expects(k) == if k == key@ {
                    Some(val)
                } else {
                    old(self).expects(k)
                },
            r.spec_name() == old(self).spec_name(),
            r.spec_unknown_keys() == old(self).spec_unknown_keys(),
            *final(self) == *final(r),
    {
        proof {
            use_type_invariant(&*self);
        }
        let mut values: Vec<(Key, SchemaValue)> = Vec::new();
        std::mem::swap(&mut values, &mut self.values);
        assoc_insert(&mut values, key, val);
        self.values = values;
        self
    }

    /// The entries of the schema, one per key.
    pub fn entries_ref(&self) -> (r: &Vec<(Key, SchemaValue)>)
        ensures
            r@ == self.entries(),
            keys_unique(r@),
    {
        proof {
            use_type_invariant(self);
        }
        &self.values
    }

    /// The name of the schema, if it has one.
    pub fn schema_name(&self) -> (r: Option<&str>)
        ensures
            match r {
                Some(n) => self.spec_name() == Some(n@),
                None => self.spec_name() is None,
            },
    {
        match &self.name {
            Some(n) => Some(n.as_str()),
            None => None,
        }
    }

    /// What the schema does with keys it does not know.
    pub fn unknown_keys(&self) -> (r: UnknownKeyBehaviour)
        ensures
            r == self.spec_unknown_keys(),
    {
        self.unknown_keys
    }

    /// What the schema expects of the value of `key`, if it knows the key.
    pub fn get_value(&self, key: &Key) -> (r: Option<&SchemaValue>)
        ensures
            r matches Some(v) ==> self.expects(key@) == Some(*v),
            r is None ==> self.expects(key@) is None,
    {
        proof {
            use_type_invariant(self);
            crate::assoc::lemma_lookup(self.values@, key@);
        }
        match find_key(&self.values, key) {
            Some(i) => {
                proof {
                    crate::assoc::lemma_lookup_index(self.values@, i as int);
                }
                Some(&self.values[i].1)
            },
            None => None,
        }
    }

    /// The expectations of the enum values of the schema, by key.
    pub(crate) fn enums(&self) -> (r: Vec<(Key, EnumExpectations)>)
        ensures
            r@.len() <= self.entries().len(),
            forall|i: int|
                0 <= i < r@.len() ==> ((#[trigger] self.expects(r@[i].0@)) matches Some(
                    SchemaValue::Enum(ex),
                ) && ex.allowed() == r@[i].1.allowed() && ex.default_text()
                    == r@[i].1.default_text()),
            forall|k: Seq<char>|
                (#[trigger] self.expects(k) matches Some(SchemaValue::Enum(_))) ==> exists|i: int|
                    0 <= i < r@.len() && r@[i].0@ == k,
            keys_unique(r@),
    {
        proof {
            use_type_invariant(self);
        }
        let mut r: Vec<(Key, EnumExpectations)> = Vec::new();
        let ghost mut idx: Seq<int> = seq![];
        let mut i: usize = 0;
        while i < self.values.len()
            invariant
                i <= self.values@.len(),
                keys_unique(self.values@),
                r@.len() <= i,
                forall|j: int|
                    0 <= j < r@.len() ==> ((#[trigger] self.expects(r@[j].0@)) matches Some(
                        SchemaValue::Enum(ex),
                    ) && ex.allowed() == r@[j].1.allowed() && ex.default_text()
                        == r@[j].1.default_text()),
                forall|m: int|
                    0 <= m < i && (#[trigger] self.values@[m]).1 is Enum ==> exists|j: int|
                        0 <= j < r@.len() && r@[j].0@ == self.values@[m].0@,
                idx.len() == r@.len(),
                forall|j: int|
                    0 <= j < r@.len() ==> 0 <= #[trigger] idx[j] < i && r@[j].0@
                        == self.values@[idx[j]].0@,
                forall|a: int, b: int| 0 <= a < b < idx.len() ==> idx[a] < idx[b],
            decreases self.values@.len() - i,
        {
            let ghost old_r = r@;
            let ghost old_idx = idx;
            if let SchemaValue::Enum(ex) = &self.values[i].1 {
                proof {
                    crate::assoc::lemma_lookup_index(self.values@, i as int);
                }
                let k = self.values[i].0.copy();
                r.push((k, ex.copy()));
                proof {
                    assert(r@[r@.len() - 1].0@ == self.values@[i as int].0@);
                    idx = idx.push(i as int);
                }
            }
            proof {
                assert forall|j: int| 0 <= j < r@.len() implies 0 <= #[trigger] idx[j] < i + 1
                    && r@[j].0@ == self.values@[idx[j]].0@ by {
                    if j < old_r.len() {
                        assert(r@[j] == old_r[j]);
                        assert(idx[j] == old_idx[j]);
                    }
                }
                assert forall|m: int|
                    0 <= m < i + 1 && (#[trigger] self.values@[m]).1 is Enum implies exists|j: int|
                    0 <= j < r@.len() && r@[j].0@ == self.values@[m].0@ by {
                    if m < i {
                        let j = choose|j: int| 0 <= j < old_r.len() && old_r[j].0@ == self.values@[m].0@;
                        assert(r@[j] == old_r[j]);
                    } else {
                        assert(r@[r@.len() - 1].0@ == self.values@[i as int].0@);
                    }
                }
            }
            i = i + 1;
        }
        proof {
            assert forall|k: Seq<char>|
                (#[trigger] self.expects(k) matches Some(SchemaValue::Enum(_))) implies exists|i: int|
                0 <= i < r@.len() && r@[i].0@ == k by {
                crate::assoc::lemma_lookup(self.values@, k);
                let m = choose|m: int|
                    0 <= m < self.values@.len() && self.values@[m].0@ == k && self.values@[m].1
                        == self.expects(k).unwrap() && forall|j: int|
                        0 <= j < m ==> self.values@[j].0@ != k;
                assert(self.values@[m].1 is Enum);
            }
            assert forall|a: int, b: int| 0 <= a < b < r@.len() implies r@[a].0@ != r@[b].0@ by {
                assert(idx[a] < idx[b]);
                assert(self.values@[idx[a]].0@ != self.values@[idx[b]].0@);
            }
        }
        r
    }
}

impl Clone for Schema {
    fn clone(&self) -> (r: Self)
        ensures
            r.spec_name() == self.spec_name(),
            r.spec_unknown_keys() == self.spec_unknown_keys(),
            same_entries(r.entries(), self.entries()),
    {
        proof {
            use_type_invariant(self);
        }
        let mut values: Vec<(Key, SchemaValue)> = Vec::new();
        let mut i: usize = 0;
        while i < self.values.len()
            invariant
                i <= self.values@.len(),
                keys_unique(self.values@),
                values@.len() == i,
                forall|j: int|
                    0 <= j < i ==> (#[trigger] values@[j]).0@ == self.values@[j].0@
                        && same_expectations(values@[j].1, self.values@[j].1),
            decreases self.values@.len() - i,
        {
            values.push((self.values[i].0.copy(), self.values[i].1.copy()));
            i = i + 1;
        }
        let name = match &self.name {
            Some(n) => Some(n.clone()),
            None => None,
        };
        Schema { name, values, unknown_keys: self.unknown_keys }
    }
}

impl Default for Schema {
    fn default() -> (r: Self)
        ensures
            r.spec_name() is None,
            r.entries().len() == 0,
            r.spec_unknown_keys() == UnknownKeyBehaviour::Parse,
    {
        Schema { name: None, values: Vec::new(), unknown_keys: UnknownKeyBehaviour::Parse }
    }
}

} // verus!
