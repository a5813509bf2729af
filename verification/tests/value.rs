use skv::value::{skv_value, Value};

fn double_of(v: &Value) -> f64 {
    match v {
        Value::Double(d) => d.as_str().parse::<f64>().unwrap(),
        other => panic!("not a double: {other:?}"),
    }
}

fn parsed_double(text: &str) -> f64 {
    let mut input = text;
    double_of(&skv_value(&mut input).unwrap())
}

#[test]
fn string_boolean_disambiguation() {
    // whitespace acts as a terminator for the boolean
    assert_eq!(skv_value(&mut "true "), Ok(Value::Bool(true)));
    assert_eq!(skv_value(&mut "true\n"), Ok(Value::Bool(true)));
    // the newline here comes from an escape, so the value is a string
    assert_eq!(skv_value(&mut r#""true\n""#), Ok(Value::string("true\n")));
    // these start with boolean values, but have no whitespace to end them
    assert_eq!(
        skv_value(&mut "truestring"),
        Ok(Value::string("truestring"))
    );
    assert_eq!(
        skv_value(&mut "falsestring"),
        Ok(Value::string("falsestring"))
    );
}

#[test]
fn string_int_disambiguation() {
    assert_eq!(skv_value(&mut "150 test"), Ok(Value::integer(150)));
    assert_eq!(skv_value(&mut "150test"), Ok(Value::string("150test")));
    assert_eq!(skv_value(&mut "150test next"), Ok(Value::string("150test")));
    assert_eq!(skv_value(&mut "0xff test"), Ok(Value::integer(0xff)));
    assert_eq!(skv_value(&mut "0xfftest"), Ok(Value::string("0xfftest")));
}

#[test]
fn string_double_disambiguation() {
    assert_eq!(parsed_double("1.5 "), 1.5);
    assert_eq!(parsed_double("1.5"), 1.5);
    assert_eq!(skv_value(&mut "1.5test"), Ok(Value::string("1.5test")));
    assert_eq!(parsed_double("1.5 test"), 1.5);

    // scientific notation
    assert_eq!(parsed_double("1.5e10"), 1.5e10);
    assert_eq!(skv_value(&mut "1.5e"), Ok(Value::string("1.5e")));
    assert_eq!(skv_value(&mut "1.5E"), Ok(Value::string("1.5E")));
}

#[test]
fn valid_boolean_values() {
    assert_eq!(skv_value(&mut "true"), Ok(Value::Bool(true)));
    assert_eq!(skv_value(&mut "True"), Ok(Value::Bool(true)));
    assert_eq!(skv_value(&mut "false"), Ok(Value::Bool(false)));
    assert_eq!(skv_value(&mut "False"), Ok(Value::Bool(false)));
}

#[test]
fn valid_string_values() {
    assert_eq!(skv_value(&mut "string!"), Ok(Value::string("string!")));
    assert_eq!(skv_value(&mut "space! "), Ok(Value::string("space!")));
    assert_eq!(
        skv_value(&mut r#""quoted string""#),
        Ok(Value::string("quoted string"))
    );
    assert_eq!(
        skv_value(&mut r#"'single quoted string'"#),
        Ok(Value::string("single quoted string"))
    );
    assert_eq!(
        skv_value(&mut r#""\u{af0f}""#),
        Ok(Value::string("\u{af0f}"))
    );
}

#[test]
fn valid_integer_values() {
    assert_eq!(skv_value(&mut "150"), Ok(Value::integer(150)));
    assert_eq!(skv_value(&mut "150 "), Ok(Value::integer(150)));
    assert_eq!(skv_value(&mut "-66"), Ok(Value::integer(-66)));
    assert_eq!(skv_value(&mut "0b11001100"), Ok(Value::integer(0b11001100)));
}

#[test]
fn valid_double_values() {
    assert_eq!(parsed_double("1.5"), 1.5);
    assert_eq!(parsed_double("1.0"), 1.0);
    assert_eq!(parsed_double("-1.5"), -1.5);
    assert_eq!(parsed_double("-1.0"), -1.0);

    assert_eq!(parsed_double("1e1"), 1e1);
    assert_eq!(parsed_double("2e10"), 2e10);
    assert_eq!(parsed_double("1e-2"), 1e-2);
    assert_eq!(parsed_double("1.5e10"), 1.5e10);
    assert_eq!(parsed_double("1.5e-10"), 1.5e-10);
    assert_eq!(parsed_double("2E-10"), 2e-10);

    assert!(parsed_double("\\$nan").is_nan());
    assert!(parsed_double("\\$inf").is_infinite());
    assert!(parsed_double("\\$infinity").is_infinite());
}

#[test]
fn invalid_value() {
    // a value can't be empty or whitespace
    assert!(skv_value(&mut "").is_err());
    assert!(skv_value(&mut " ").is_err());
    assert!(skv_value(&mut "\n").is_err());
    assert!(skv_value(&mut "\t").is_err());
}

#[test]
fn value_advances_input_past_the_value() {
    let mut input = "150 rest";
    assert_eq!(skv_value(&mut input), Ok(Value::integer(150)));
    assert_eq!(input, " rest");

    let mut input = "\t";
    assert!(skv_value(&mut input).is_err());
    assert_eq!(input, "\t");
}

#[test]
fn value_discriminant() {
    assert_eq!(Value::integer(3).discriminant(), skv::value::ValueType::Int);
    assert_eq!(Value::string("x").discriminant(), skv::value::ValueType::String);
    assert_eq!(Value::Bool(true).discriminant(), skv::value::ValueType::Bool);
}
