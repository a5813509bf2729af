use skv::enum_string::{EnumString, SkvEnum};
use skv::error::{MapError, MapParseError, Span};
use skv::key::Key;
use skv::primitives::double::DoubleLiteral;
use skv::schema::{EnumExpectations, Schema, SchemaValue, UnknownKeyBehaviour, ValueBehaviour};
use skv::skv::{parse_map, ParsedMap};
use skv::value::{Value, ValueType};

fn key(s: &str) -> Key {
    Key::new(s).unwrap()
}

fn int_schema(k: &str, behaviour: ValueBehaviour<i64>) -> Schema {
    let mut schema = Schema::default();
    schema.value(key(k), behaviour.into());
    schema
}

#[test]
fn skv_required_value() {
    let schema = int_schema("key.test", ValueBehaviour::<i64>::Required);

    let map = ParsedMap::parse(&schema, "key.test=42").unwrap();
    assert_eq!(map.get_int(&key("key.test")).unwrap(), 42);

    // missing key
    assert_eq!(
        ParsedMap::parse(&schema, "not.key.test=42"),
        Err(MapParseError::MissingRequiredKeys(vec![(
            key("key.test"),
            ValueType::Int
        )]))
    );
    // wrong type
    assert!(ParsedMap::parse(&schema, "key.test=42.0").is_err());
}

#[test]
fn skv_default_value() {
    let schema = int_schema("key.test", ValueBehaviour::<i64>::Default(42));

    let map = ParsedMap::parse(&schema, "something_else=13").unwrap();
    assert_eq!(map.get_int(&key("key.test")).unwrap(), 42);
    assert_eq!(map.get_int(&key("something_else")).unwrap(), 13);

    let map = ParsedMap::parse(&schema, "something_else=13 key.test=24").unwrap();
    assert_eq!(map.get_int(&key("key.test")).unwrap(), 24);
    assert_eq!(map.get_int(&key("something_else")).unwrap(), 13);

    // wrong type
    assert!(ParsedMap::parse(&schema, "key.test=true").is_err());
}

#[test]
fn skv_optional_value() {
    let schema = int_schema("key.test", ValueBehaviour::<i64>::Optional);

    let map = ParsedMap::parse(&schema, "something_else=13").unwrap();
    assert!(map.get_int(&key("key.test")).is_err());
    assert_eq!(map.get_int(&key("something_else")).unwrap(), 13);

    let map = ParsedMap::parse(&schema, "something_else=13 key.test=24").unwrap();
    assert_eq!(map.get_int(&key("key.test")).unwrap(), 24);
    assert_eq!(map.get_int(&key("something_else")).unwrap(), 13);

    // wrong type
    assert!(ParsedMap::parse(&schema, "key.test=true").is_err());
}

#[derive(Debug, Clone, Copy, PartialEq, Eq)]
enum TestEnum {
    Variant1,
    Variant2,
    Variant3,
    #[allow(non_camel_case_types)]
    Variant3_X,
}

impl SkvEnum for TestEnum {
    const ENUM_STRINGS: &'static [&'static str] = &["variant1", "variant2", "variant3", "variant3_x"];

    fn to_enum_string(&self) -> EnumString {
        let name = match self {
            TestEnum::Variant1 => "variant1",
            TestEnum::Variant2 => "variant2",
            TestEnum::Variant3 => "variant3",
            TestEnum::Variant3_X => "variant3_x",
        };
        EnumString::new(name).unwrap()
    }

    fn from_enum_string(s: &EnumString) -> Option<Self> {
        match s.as_str() {
            "variant1" => Some(TestEnum::Variant1),
            "variant2" => Some(TestEnum::Variant2),
            "variant3" => Some(TestEnum::Variant3),
            "variant3_x" => Some(TestEnum::Variant3_X),
            _ => None,
        }
    }
}

#[test]
fn enum_value() {
    let mut schema = Schema::default();
    schema.value(key("key.test"), EnumExpectations::from_enum::<TestEnum>().into());

    let map = ParsedMap::parse(&schema, "key.test=variant1").unwrap();
    assert_eq!(
        map.get_enum::<TestEnum>(&key("key.test")).unwrap(),
        TestEnum::Variant1
    );
}

#[test]
fn enum_values_outside_the_schema_are_refused() {
    let mut schema = Schema::default();
    schema.value(key("key.test"), EnumExpectations::from_enum::<TestEnum>().into());

    assert!(ParsedMap::parse(&schema, "key.test=variant4").is_err());
    assert!(ParsedMap::parse(&schema, "key.test=Variant1").is_err());
    let map = ParsedMap::parse(&schema, "key.test=variant3_x").unwrap();
    assert_eq!(map.get_enum::<TestEnum>(&key("key.test")), Ok(TestEnum::Variant3_X));
    assert_eq!(map.get_enum::<TestEnum>(&key("absent")), Err(MapError::NotFound));
}

#[test]
fn enum_default_value() {
    let mut schema = Schema::default();
    schema.value(
        key("mode"),
        EnumExpectations::from_enum_default(TestEnum::Variant2).into(),
    );
    let map = ParsedMap::parse(&schema, "other=1").unwrap();
    assert_eq!(map.get_enum::<TestEnum>(&key("mode")), Ok(TestEnum::Variant2));
}

#[test]
fn typed_values_follow_the_schema() {
    let mut schema = Schema::default();
    schema.value(key("name"), ValueBehaviour::<String>::Required.into());
    schema.value(key("flag"), ValueBehaviour::<bool>::Optional.into());
    schema.value(
        key("ratio"),
        ValueBehaviour::Default(DoubleLiteral::new("0.5").unwrap()).into(),
    );

    // "true" is read as a string where the schema expects one
    let map = ParsedMap::parse(&schema, "name=true flag=false").unwrap();
    assert_eq!(map.get_str(&key("name")), Ok("true"));
    assert_eq!(map.get_bool(&key("flag")), Ok(false));
    assert_eq!(map.get_double(&key("ratio")).unwrap().as_str(), "0.5");
    assert_eq!(
        map.get_int(&key("name")),
        Err(MapError::WrongType { expected: ValueType::Int, found: ValueType::String })
    );
}

#[test]
fn unknown_keys_are_skipped_or_refused() {
    let mut schema = int_schema("known", ValueBehaviour::<i64>::Optional);

    let map = ParsedMap::parse(&schema, "known=1 other=2").unwrap();
    assert_eq!(map.get_int(&key("other")), Ok(2));

    schema.unknown_key_behaviour(UnknownKeyBehaviour::Skip);
    let map = ParsedMap::parse(&schema, "known=1 other=2").unwrap();
    assert_eq!(map.get_int(&key("known")), Ok(1));
    assert_eq!(map.get_int(&key("other")), Err(MapError::NotFound));

    schema.unknown_key_behaviour(UnknownKeyBehaviour::Error);
    match ParsedMap::parse(&schema, "known=1 other=2") {
        Err(MapParseError::Parsing { span, .. }) => {
            assert_eq!(span, Span { offset: 8, length: 1 })
        }
        other => panic!("{other:?}"),
    }
    assert!(ParsedMap::parse(&schema, "known=1").is_ok());
}

#[test]
fn later_pairs_override_earlier_ones() {
    let map = parse_map("a=1 b=2 a=3").unwrap();
    assert_eq!(map.get_int(&key("a")), Ok(3));
    assert_eq!(map.get_int(&key("b")), Ok(2));
}

#[test]
fn syntax_errors_point_at_the_failure() {
    match parse_map("  a=1 b") {
        Err(MapParseError::Parsing { input, span, .. }) => {
            assert_eq!(input, "a=1 b ");
            assert_eq!(span, Span { offset: 5, length: 0 });
        }
        other => panic!("{other:?}"),
    }
    match parse_map("é=1") {
        Err(MapParseError::Parsing { span, .. }) => {
            assert_eq!(span, Span { offset: 0, length: 1 })
        }
        other => panic!("{other:?}"),
    }
    match parse_map("ab=\"é\" 1=2") {
        Err(MapParseError::Parsing { span, .. }) => {
            assert_eq!(span, Span { offset: 8, length: 1 })
        }
        other => panic!("{other:?}"),
    }
    assert!(parse_map("").is_err());
    assert!(parse_map("   ").is_err());
    assert!(parse_map("a=1b=2").is_ok());
    assert!(parse_map("a=1,b=2").is_ok());
}

#[test]
fn map_values_by_type() {
    let map = parse_map("i=-7 d=2.5 b=TRUE s='x y' n=\\$nan").unwrap();
    assert_eq!(map.get_int(&key("i")), Ok(-7));
    assert_eq!(map.get_double(&key("d")).unwrap().as_str(), "2.5");
    assert_eq!(map.get_bool(&key("b")), Ok(true));
    assert_eq!(map.get_str(&key("s")), Ok("x y"));
    assert!(map.get_double(&key("n")).unwrap().as_str().parse::<f64>().unwrap().is_nan());
    assert_eq!(map.get_value(&key("i")), Some(&Value::integer(-7)));
    assert_eq!(map.get_value(&key("absent")), None);
    assert_eq!(map.get::<i64>(&key("i")), Ok(&-7));
    assert_eq!(
        map.get::<bool>(&key("i")),
        Err(MapError::WrongType { expected: ValueType::Bool, found: ValueType::Int })
    );
}

#[test]
fn written_values_are_read_back() {
    let mut map = parse_map("count=1 name=x").unwrap();
    *map.get_mut::<i64>(&key("count")).unwrap() = 5;
    assert_eq!(map.get_int(&key("count")), Ok(5));
    assert_eq!(map.get_str(&key("name")), Ok("x"));
    assert_eq!(map.get_mut::<i64>(&key("absent")).err(), Some(MapError::NotFound));
    assert_eq!(
        map.get_mut::<bool>(&key("name")).err(),
        Some(MapError::WrongType { expected: ValueType::Bool, found: ValueType::String })
    );
}

#[test]
fn maps_with_the_same_entries_are_equal() {
    assert_eq!(parse_map("a=1 b=x").unwrap(), parse_map("b=x a=1").unwrap());
    assert_eq!(parse_map("a=2 a=1").unwrap(), parse_map("a=1").unwrap());
    assert_ne!(parse_map("a=1").unwrap(), parse_map("a=2").unwrap());
    assert_ne!(parse_map("a=1").unwrap(), parse_map("a=1 b=1").unwrap());
}

#[test]
fn schema_values_are_replaced() {
    let mut schema = Schema::new("test");
    schema.value(key("a"), ValueBehaviour::<i64>::Required.into());
    schema.value(key("a"), ValueBehaviour::<bool>::Default(true).into());
    assert_eq!(schema.entries_ref().len(), 1);
    let v: &SchemaValue = schema.get_value(&key("a")).unwrap();
    assert_eq!(v.value_type(), ValueType::Bool);
    assert!(!v.is_required());
    assert_eq!(v.default_value(), Some(Value::Bool(true)));
    assert!(schema.get_value(&key("b")).is_none());
    let map = ParsedMap::parse(&schema, "c=1").unwrap();
    assert_eq!(map.get_bool(&key("a")), Ok(true));
}

#[test]
fn map_default_keeps_the_behaviour() {
    assert_eq!(
        ValueBehaviour::Default(2i64).map_default(|x| x * 10),
        ValueBehaviour::Default(20i64)
    );
    assert_eq!(
        ValueBehaviour::<i64>::Required.map_default(|x| x * 10),
        ValueBehaviour::<i64>::Required
    );
    assert_eq!(
        ValueBehaviour::<i64>::Optional.map_default(|x| x * 10),
        ValueBehaviour::<i64>::Optional
    );
}

#[test]
fn enum_strings() {
    assert!(EnumString::new("variant_1").is_ok());
    assert!(EnumString::new("Variant").is_err());
    assert!(EnumString::new("var-iant").is_err());
    assert!(EnumString::new("").is_err());
    assert!(EnumString::new("välue").is_err());
    assert_eq!(EnumString::new("abc").unwrap().as_str(), "abc");
    let s: String = EnumString::new("abc").unwrap().into();
    assert_eq!(s, "abc");
    assert!(EnumString::is_valid_char('a'));
    assert!(EnumString::is_valid_char('_'));
    assert!(EnumString::is_valid_char('7'));
    assert!(!EnumString::is_valid_char('A'));
    assert_eq!(TestEnum::enum_strings().len(), 4);
    let ex = EnumExpectations::from_enum::<TestEnum>();
    assert!(ex.contains(&EnumString::new("variant2").unwrap()));
    assert!(!ex.contains(&EnumString::new("variant9").unwrap()));
    assert!(ex.get_default().is_none());
    let ex = EnumExpectations::from_enum_default(TestEnum::Variant3);
    assert_eq!(ex.get_default().unwrap().as_str(), "variant3");
}

#[test]
fn entries_list_each_key_once() {
    let map = parse_map("a=1 b=x a=2").unwrap();
    let mut entries = map.entries();
    entries.sort_by(|x, y| x.0.as_str().cmp(y.0.as_str()));
    assert_eq!(
        entries,
        vec![(key("a"), Value::integer(2)), (key("b"), Value::string("x"))]
    );
}

#[test]
fn schema_settings_are_kept() {
    let mut schema = Schema::new("first");
    assert_eq!(schema.schema_name(), Some("first"));
    assert_eq!(schema.unknown_keys(), UnknownKeyBehaviour::Parse);
    schema.name("second").unknown_key_behaviour(UnknownKeyBehaviour::Error);
    assert_eq!(schema.schema_name(), Some("second"));
    assert_eq!(schema.unknown_keys(), UnknownKeyBehaviour::Error);
    assert_eq!(Schema::default().schema_name(), None);
    let copy = schema.clone();
    assert_eq!(copy.schema_name(), Some("second"));
    assert_eq!(copy.unknown_keys(), UnknownKeyBehaviour::Error);
}

#[test]
fn required_value() {
    let schema = int_schema("key.test", ValueBehaviour::<i64>::Required);

    let map = ParsedMap::parse(&schema, "key.test=42").unwrap();
    assert_eq!(map.get_int(&key("key.test")).unwrap(), 42);

    // missing key
    assert_eq!(
        ParsedMap::parse(&schema, "not.key.test=42"),
        Err(MapParseError::MissingRequiredKeys(vec![(
            key("key.test"),
            ValueType::Int
        )]))
    );
    // wrong type
    assert!(ParsedMap::parse(&schema, "key.test=42.0").is_err());
}

#[test]
fn default_value() {
    let schema = int_schema("key.test", ValueBehaviour::<i64>::Default(42));

    let map = ParsedMap::parse(&schema, "something_else=13").unwrap();
    assert_eq!(map.get_int(&key("key.test")).unwrap(), 42);
    assert_eq!(map.get_int(&key("something_else")).unwrap(), 13);

    let map = ParsedMap::parse(&schema, "something_else=13 key.test=24").unwrap();
    assert_eq!(map.get_int(&key("key.test")).unwrap(), 24);
    assert_eq!(map.get_int(&key("something_else")).unwrap(), 13);

    // wrong type
    assert!(ParsedMap::parse(&schema, "key.test=true").is_err());
}

#[test]
fn optional_value() {
    let schema = int_schema("key.test", ValueBehaviour::<i64>::Optional);

    let map = ParsedMap::parse(&schema, "something_else=13").unwrap();
    assert!(map.get_int(&key("key.test")).is_err());
    assert_eq!(map.get_int(&key("something_else")).unwrap(), 13);

    let map = ParsedMap::parse(&schema, "something_else=13 key.test=24").unwrap();
    assert_eq!(map.get_int(&key("key.test")).unwrap(), 24);
    assert_eq!(map.get_int(&key("something_else")).unwrap(), 13);

    // wrong type
    assert!(ParsedMap::parse(&schema, "key.test=true").is_err());
}

#[test]
fn cloned_schema_parses_alike() {
    let mut schema = Schema::new("s");
    schema.value(key("n"), ValueBehaviour::<i64>::Default(7).into());
    schema.value(key("mode"), EnumExpectations::from_enum::<TestEnum>().into());
    schema.unknown_key_behaviour(UnknownKeyBehaviour::Skip);
    let copy = schema.clone();
    for input in ["mode=variant2", "mode=variant2 other=1 n=3", "n=x mode=variant1", ""] {
        assert_eq!(ParsedMap::parse(&copy, input), ParsedMap::parse(&schema, input), "input: {input}");
    }
}

#[test]
fn enum_default_is_the_variants_enum_string() {
    let ex = EnumExpectations::from_enum_default(TestEnum::Variant3_X);
    assert_eq!(ex.get_default().unwrap(), &TestEnum::Variant3_X.to_enum_string());
    assert!(ex.contains(&TestEnum::Variant3_X.to_enum_string()));
    let s: String = TestEnum::Variant1.to_enum_string().into();
    assert_eq!(s, "variant1");
}

fn parsing_message(input: &str) -> (String, Span) {
    match parse_map(input) {
        Err(MapParseError::Parsing { message, span, .. }) => (message, span),
        other => panic!("{other:?}"),
    }
}

#[test]
fn syntax_errors_say_what_was_expected() {
    assert_eq!(
        parsing_message("1a=2"),
        (
            "invalid key part\nexpected a non-digit character".to_string(),
            Span { offset: 0, length: 1 }
        )
    );
    assert_eq!(
        parsing_message("a.=1"),
        (
            "invalid key part\nexpected a non-empty alphanumeric string".to_string(),
            Span { offset: 2, length: 1 }
        )
    );
    assert_eq!(
        parsing_message("a=1 b.9=2").0,
        "invalid key part\nexpected a non-digit character"
    );
    assert_eq!(
        parsing_message("").0,
        "invalid key part\nexpected a non-empty alphanumeric string"
    );
    assert_eq!(parsing_message("a=1 b"), ("error".to_string(), Span { offset: 5, length: 0 }));
    assert_eq!(parsing_message("a=\"x\"b").0, "error");
}

#[test]
fn unknown_keys_refused_by_the_schema_are_named_in_the_message() {
    let mut schema = int_schema("known", ValueBehaviour::<i64>::Optional);
    schema.unknown_key_behaviour(UnknownKeyBehaviour::Error);
    match ParsedMap::parse(&schema, "other=2") {
        Err(MapParseError::Parsing { message, span, .. }) => {
            assert_eq!(message, "invalid key\nthe schema does not know this key");
            assert_eq!(span, Span { offset: 0, length: 1 });
        }
        other => panic!("{other:?}"),
    }
}

#[test]
fn padding_around_the_input_changes_nothing() {
    for s in ["a=1 b=x", "x.y=true", "n=-0x1f s='q'", "a=1 b"] {
        let padded = format!(" \n{s}\t ");
        assert_eq!(parse_map(&padded), parse_map(s));
    }
}
