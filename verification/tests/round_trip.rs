use skv::key::Key;
use skv::primitives::string::parse_string;
use skv::schema::{Schema, ValueBehaviour};
use skv::skv::{parse_map, ParsedMap};

fn key(s: &str) -> Key {
    Key::new(s).unwrap()
}

/// Writes `t` between the quote `q`, escaping as the parser reads it back.
fn quoted(t: &str, q: char) -> String {
    let mut out = String::new();
    out.push(q);
    for c in t.chars() {
        match c {
            '\n' => out.push_str("\\n"),
            '\r' => out.push_str("\\r"),
            '\t' => out.push_str("\\t"),
            '\\' => out.push_str("\\\\"),
            c if c == q => {
                out.push('\\');
                out.push(c);
            }
            c => out.push(c),
        }
    }
    out.push(q);
    out
}

#[test]
fn quoted_strings_read_back() {
    let samples = [
        "",
        "plain",
        "two words",
        "quote ' and \" both",
        "tab\tline\nreturn\r",
        "back\\slash",
        "\u{85}\u{1f}\u{200b}",
        "שלום עולם",
    ];
    for t in samples {
        for q in ['\'', '"'] {
            let text = format!("{} rest", quoted(t, q));
            let mut input = text.as_str();
            assert_eq!(parse_string(&mut input), Ok(t.to_string()), "text: {text}");
            assert_eq!(input, " rest");
        }
    }
}

#[test]
fn written_map_reads_back() {
    let mut schema = Schema::default();
    schema.value(key("count"), ValueBehaviour::<i64>::Required.into());
    schema.value(key("hex.value"), ValueBehaviour::<i64>::Optional.into());
    schema.value(key("flag"), ValueBehaviour::<bool>::Default(false).into());
    schema.value(key("name"), ValueBehaviour::<String>::Required.into());
    schema.value(key("note"), ValueBehaviour::<String>::Optional.into());
    schema.value(
        key("ratio"),
        ValueBehaviour::<skv::primitives::double::DoubleLiteral>::Optional.into(),
    );
    schema.value(
        key("limit"),
        ValueBehaviour::<skv::primitives::double::DoubleLiteral>::Optional.into(),
    );

    let input = format!(
        "count = -9223372036854775808 hex.value= -0x7fffffffffffffff flag =TrUe name={} note=a\\tb ratio=-.5E+3 limit=Infinity",
        quoted("it's \"here\"", '"')
    );
    let map = ParsedMap::parse(&schema, &input).unwrap();
    assert_eq!(map.get_int(&key("count")), Ok(i64::MIN));
    assert_eq!(map.get_int(&key("hex.value")), Ok(-i64::MAX));
    assert_eq!(map.get_bool(&key("flag")), Ok(true));
    assert_eq!(map.get_str(&key("name")), Ok("it's \"here\""));
    assert_eq!(map.get_str(&key("note")), Ok("a\tb"));
    assert_eq!(map.get_double(&key("ratio")).unwrap().as_str(), "-.5E+3");
    assert_eq!(map.get_double(&key("limit")).unwrap().as_str(), "Infinity");
}

#[test]
fn integers_in_every_radix_read_back() {
    for v in [0i64, 1, -1, 42, -42, i64::MAX, i64::MIN, 0x1234_5678] {
        let m = v.unsigned_abs();
        let sign = if v < 0 { "-" } else { "" };
        for text in [
            format!("{sign}{m}"),
            format!("{sign}{m:#x}"),
            format!("{sign}{m:#o}"),
            format!("{sign}{m:#b}"),
        ] {
            let map = parse_map(&format!("k={text}")).unwrap();
            assert_eq!(map.get_int(&key("k")), Ok(v), "text: {text}");
        }
    }
}

#[test]
fn surrounding_whitespace_is_ignored() {
    assert_eq!(parse_map(" \t a=1 b=x \n").unwrap(), parse_map("a=1 b=x").unwrap());
    assert_eq!(parse_map("\u{3000}a=1\u{a0}").unwrap(), parse_map("a=1").unwrap());
}

#[test]
fn parsed_keys_follow_the_schema() {
    let mut schema = Schema::default();
    schema.value(key("n"), ValueBehaviour::<i64>::Default(5).into());
    schema.value(key("s"), ValueBehaviour::<String>::Optional.into());
    // a number where the schema expects a string is read as a string
    let map = ParsedMap::parse(&schema, "s=12").unwrap();
    assert_eq!(map.get_str(&key("s")), Ok("12"));
    assert_eq!(map.get_int(&key("n")), Ok(5));
    // a string where the schema expects a number is refused
    assert!(ParsedMap::parse(&schema, "n=twelve").is_err());
}

#[test]
fn written_map_without_schema_reads_back() {
    let input = format!(
        "a=-0b101 b = FaLsE c= {} d =0o17 e={}",
        quoted("x = 'y'", '"'),
        quoted("true", '\'')
    );
    let map = parse_map(&input).unwrap();
    assert_eq!(map.get_int(&key("a")), Ok(-5));
    assert_eq!(map.get_bool(&key("b")), Ok(false));
    assert_eq!(map.get_str(&key("c")), Ok("x = 'y'"));
    assert_eq!(map.get_int(&key("d")), Ok(15));
    // a quoted `true` is a string
    assert_eq!(map.get_str(&key("e")), Ok("true"));
    assert_eq!(map.entries().len(), 5);
}
