use skv::key::Key;
use skv::key_value_pair::{skv_pair, KeyValuePair};
use skv::value::Value;

const KEYS: [&str; 5] = [
    "test",
    "test.parts",
    "test.parts2",
    "test1.parts2",
    "test1.parts2.part3",
];

const REMAINDERS: [&str; 7] = ["", " ", " rest", " 123", "\n", "\nrest", "\twhitespace"];

fn key(s: &str) -> Key {
    Key::new(s).unwrap()
}

/// The four spellings of `key=value` that a pair may take.
fn spellings(key: &str, value: &str) -> [String; 4] {
    [
        format!("{key}={value}"),
        format!("{key} = {value}"),
        format!("{key} ={value}"),
        format!("{key}= {value}"),
    ]
}

/// Parses `input` followed by each remainder; checks the pair with `check` and that exactly
/// the remainder is left.
fn for_each_pair(value: &str, check: &dyn Fn(&KeyValuePair, &str)) {
    for k in KEYS {
        for spelled in spellings(k, value) {
            for rest in REMAINDERS {
                let text = format!("{spelled}{rest}");
                let mut input = text.as_str();
                let pair = skv_pair(None, &mut input).unwrap();
                assert_eq!(pair.key, key(k), "(pair key eq test) input: {text}");
                check(&pair, &text);
                assert_eq!(input, rest, "(remaining input test) input: {text}");
            }
        }
    }
}

fn assert_pairs(value: &str, expected: Value) {
    for_each_pair(value, &|pair, text| {
        assert_eq!(pair.value, expected, "(pair value eq test) input: {text}")
    });
}

fn assert_double_pairs(value: &str, expected: f64) {
    for_each_pair(value, &|pair, text| match &pair.value {
        Value::Double(d) => {
            let got: f64 = d.as_str().parse().unwrap();
            if expected.is_nan() || expected.is_infinite() {
                assert_eq!(got.is_nan(), expected.is_nan(), "input: {text}");
                assert_eq!(got.is_infinite(), expected.is_infinite(), "input: {text}");
                assert_eq!(got.is_sign_negative(), expected.is_sign_negative(), "input: {text}");
            } else {
                assert_eq!(got, expected, "input: {text}");
            }
        }
        other => panic!("not a double: {other:?}, input: {text}"),
    });
}

#[test]
fn boolean() {
    assert_pairs("true", Value::Bool(true));
    assert_pairs("True", Value::Bool(true));
    assert_pairs("TRUE", Value::Bool(true));
    assert_pairs("false", Value::Bool(false));
    assert_pairs("False", Value::Bool(false));
    assert_pairs("FALSE", Value::Bool(false));
}

#[test]
fn double() {
    assert_double_pairs("1.5", 1.5);
    assert_double_pairs("-1.5", -1.5);
    assert_double_pairs("1.5e10", 1.5e10);
    assert_double_pairs("1.5e-10", 1.5e-10);
    assert_double_pairs("2e10", 2e10);
    assert_double_pairs("2e-10", 2e-10);
    assert_double_pairs("-2e-10", -2e-10);
    assert_double_pairs("2E-10", 2e-10);
}

#[test]
fn integer_pairs() {
    assert_pairs("123", Value::integer(123));
    assert_pairs("0xffaa12", Value::integer(0xffaa12));
    assert_pairs("0o660", Value::integer(0o660));
    assert_pairs("0b1010", Value::integer(0b1010));
}

#[test]
fn string_pairs() {
    assert_pairs("hello", Value::string("hello"));
    assert_pairs(r#"unicode\u{ffa0}"#, Value::string("unicode\u{ffa0}"));
    assert_pairs(r#"hello\nworld"#, Value::string("hello\nworld"));
    assert_pairs(r#"hello\tworld"#, Value::string("hello\tworld"));
    assert_pairs(r#""hello world""#, Value::string("hello world"));
    assert_pairs(
        r#""hello unicode: \u{ffff}""#,
        Value::string("hello unicode: \u{ffff}"),
    );
    assert_pairs(
        r#""hello world\ngood day!""#,
        Value::string("hello world\ngood day!"),
    );
    assert_pairs(r#""hello \t tab \t !""#, Value::string("hello \t tab \t !"));
}

#[test]
fn special_double_pairs() {
    assert_double_pairs(r#"\$nan"#, f64::NAN);
    assert_double_pairs(r#"\$inf"#, f64::INFINITY);
    assert_double_pairs(r#"\$infinity"#, f64::INFINITY);
    assert_double_pairs(r#"-\$inf"#, f64::NEG_INFINITY);
    assert_double_pairs(r#"-\$infinity"#, f64::NEG_INFINITY);
}

#[test]
fn pair_errors_leave_input_alone() {
    let mut input = "1key=3";
    assert!(skv_pair(None, &mut input).is_err());
    assert_eq!(input, "1key=3");

    let mut input = "key 3";
    assert!(skv_pair(None, &mut input).is_err());
    assert_eq!(input, "key 3");

    let mut input = "key= ";
    assert!(skv_pair(None, &mut input).is_err());
    assert_eq!(input, "key= ");
}

#[test]
fn pair_into_tuple() {
    let pair = KeyValuePair::new(key("a.b"), Value::integer(1));
    let (k, v): (Key, Value) = pair.into();
    assert_eq!(k, key("a.b"));
    assert_eq!(v, Value::integer(1));
}
