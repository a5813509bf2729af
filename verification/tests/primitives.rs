use skv::primitives::boolean::parse_boolean;
use skv::primitives::double::parse_double;
use skv::primitives::integer::parse_integer;
use skv::primitives::string::{parse_quoted_string, parse_string, parse_unquoted_string};

#[test]
fn valid_boolean() {
    assert_eq!(parse_boolean(&mut "true"), Ok(true));
    assert_eq!(parse_boolean(&mut "false"), Ok(false));
    assert_eq!(parse_boolean(&mut "True"), Ok(true));
    assert_eq!(parse_boolean(&mut "False"), Ok(false));
    assert_eq!(parse_boolean(&mut "TRUE"), Ok(true));
    assert_eq!(parse_boolean(&mut "FALSE"), Ok(false));
    assert_eq!(parse_boolean(&mut "true "), Ok(true));
    assert_eq!(parse_boolean(&mut "truest"), Ok(true));
    assert_eq!(parse_boolean(&mut "false "), Ok(false));
    assert_eq!(parse_boolean(&mut "falsest"), Ok(false));
}

#[test]
fn invalid_boolean() {
    assert!(parse_boolean(&mut "").is_err());
    assert!(parse_boolean(&mut " true").is_err());
    assert!(parse_boolean(&mut " false").is_err());
    assert!(parse_boolean(&mut "tru").is_err());
    assert!(parse_boolean(&mut "fals").is_err());
}

#[test]
fn boolean_consumes_only_the_word() {
    let mut input = "tRuEst";
    assert_eq!(parse_boolean(&mut input), Ok(true));
    assert_eq!(input, "st");
}

#[test]
fn invalid_integer() {
    assert!(parse_integer(&mut "").is_err());
    assert!(parse_integer(&mut "-").is_err());
    assert!(parse_integer(&mut " ").is_err());
    assert!(parse_integer(&mut "meow").is_err());
    assert!(parse_integer(&mut "").is_err());
}

#[test]
fn valid_hex_integer() {
    assert_eq!(parse_integer(&mut "0X1"), Ok(0x1));
    assert_eq!(parse_integer(&mut "0x1"), Ok(0x1));
    assert_eq!(parse_integer(&mut "0x01"), Ok(0x01));
    assert_eq!(parse_integer(&mut "0xff"), Ok(0xff));
    assert_eq!(parse_integer(&mut "0X3a"), Ok(0x3a));
    assert_eq!(parse_integer(&mut "-0X1"), Ok(-0x1));
    assert_eq!(parse_integer(&mut "-0x1"), Ok(-0x1));
    assert_eq!(parse_integer(&mut "-0x01"), Ok(-0x01));
    assert_eq!(parse_integer(&mut "-0xff"), Ok(-0xff));
    assert_eq!(parse_integer(&mut "-0X3a"), Ok(-0x3a));
    assert_eq!(parse_integer(&mut "0xff "), Ok(0xff));
    assert_eq!(parse_integer(&mut "0xffq"), Ok(0xff));
    assert_eq!(parse_integer(&mut "0xffa"), Ok(0xffa));
    assert_eq!(parse_integer(&mut "0xffx"), Ok(0xff));
    assert_eq!(parse_integer(&mut "0xff-"), Ok(0xff));
    assert_eq!(parse_integer(&mut "-0xff-"), Ok(-0xff));
}

#[test]
fn valid_oct_integer() {
    assert_eq!(parse_integer(&mut "0o1"), Ok(0o1));
    assert_eq!(parse_integer(&mut "0O1"), Ok(0o1));
    assert_eq!(parse_integer(&mut "0o01"), Ok(0o01));
    assert_eq!(parse_integer(&mut "0o77"), Ok(0o77));
    assert_eq!(parse_integer(&mut "0o70"), Ok(0o70));
    assert_eq!(parse_integer(&mut "-0o1"), Ok(-0o1));
    assert_eq!(parse_integer(&mut "-0O1"), Ok(-0o1));
    assert_eq!(parse_integer(&mut "-0o01"), Ok(-0o01));
    assert_eq!(parse_integer(&mut "-0o77"), Ok(-0o77));
    assert_eq!(parse_integer(&mut "-0o70"), Ok(-0o70));
    assert_eq!(parse_integer(&mut "0o77 "), Ok(0o77));
    assert_eq!(parse_integer(&mut "0o77q"), Ok(0o77));
    assert_eq!(parse_integer(&mut "0o778"), Ok(0o77));
    assert_eq!(parse_integer(&mut "0o77o"), Ok(0o77));
    assert_eq!(parse_integer(&mut "0o77-"), Ok(0o77));
    assert_eq!(parse_integer(&mut "-0o77-"), Ok(-0o77));
}

#[test]
fn valid_bin_integer() {
    assert_eq!(parse_integer(&mut "0b1"), Ok(0b1));
    assert_eq!(parse_integer(&mut "0B1"), Ok(0b1));
    assert_eq!(parse_integer(&mut "0b01"), Ok(0b01));
    assert_eq!(parse_integer(&mut "0b11111111"), Ok(0b11111111));
    assert_eq!(parse_integer(&mut "0b10"), Ok(0b10));
    assert_eq!(parse_integer(&mut "-0b1"), Ok(-0b1));
    assert_eq!(parse_integer(&mut "-0B1"), Ok(-0b1));
    assert_eq!(parse_integer(&mut "-0b01"), Ok(-0b01));
    assert_eq!(parse_integer(&mut "-0b11111111"), Ok(-0b11111111));
    assert_eq!(parse_integer(&mut "-0b10"), Ok(-0b10));
    assert_eq!(parse_integer(&mut "0b11 "), Ok(0b11));
    assert_eq!(parse_integer(&mut "0b11q"), Ok(0b11));
    assert_eq!(parse_integer(&mut "0b112"), Ok(0b11));
    assert_eq!(parse_integer(&mut "0b11b"), Ok(0b11));
    assert_eq!(parse_integer(&mut "0b11-"), Ok(0b11));
    assert_eq!(parse_integer(&mut "-0b11-"), Ok(-0b11));
}

#[test]
fn valid_decimal_integer() {
    assert_eq!(parse_integer(&mut "1"), Ok(1));
    assert_eq!(parse_integer(&mut "01"), Ok(1));
    assert_eq!(parse_integer(&mut "9999"), Ok(9999));
    assert_eq!(parse_integer(&mut "90"), Ok(90));
    assert_eq!(parse_integer(&mut "-1"), Ok(-1));
    assert_eq!(parse_integer(&mut "-01"), Ok(-1));
    assert_eq!(parse_integer(&mut "-9999"), Ok(-9999));
    assert_eq!(parse_integer(&mut "-90"), Ok(-90));
    assert_eq!(parse_integer(&mut "99 "), Ok(99));
    assert_eq!(parse_integer(&mut "99q"), Ok(99));
    assert_eq!(parse_integer(&mut "99a"), Ok(99));
    assert_eq!(parse_integer(&mut "99-"), Ok(99));
    assert_eq!(parse_integer(&mut "-99-"), Ok(-99));
}

#[test]
fn hex_integer_limits() {
    assert_eq!(parse_integer(&mut "0x7fffffffffffffff"), Ok(i64::MAX));
    assert!(parse_integer(&mut "0x8000000000000000").is_err());
    assert_eq!(parse_integer(&mut "-0x8000000000000000"), Ok(i64::MIN));
    assert!(parse_integer(&mut "-0x8000000000000001").is_err());
}

#[test]
fn oct_integer_limits() {
    assert_eq!(parse_integer(&mut "0o777777777777777777777"), Ok(i64::MAX));
    assert!(parse_integer(&mut "0o1000000000000000000000").is_err());
    assert_eq!(
        parse_integer(&mut "-0o1000000000000000000000"),
        Ok(i64::MIN)
    );
    assert!(parse_integer(&mut "-0o1000000000000000000001").is_err());
}

#[test]
fn bin_integer_limits() {
    let mut max = "0b111111111111111111111111111111111111111111111111111111111111111";
    let mut max_p1 = "0b1000000000000000000000000000000000000000000000000000000000000000";
    let mut min = "-0b1000000000000000000000000000000000000000000000000000000000000000";
    let mut min_m1 = "-0b1000000000000000000000000000000000000000000000000000000000000001";

    assert_eq!(parse_integer(&mut max), Ok(i64::MAX));
    assert!(parse_integer(&mut max_p1).is_err());
    assert_eq!(parse_integer(&mut min), Ok(i64::MIN));
    assert!(parse_integer(&mut min_m1).is_err());
}

#[test]
fn decimal_integer_limits() {
    assert_eq!(parse_integer(&mut "9223372036854775807"), Ok(i64::MAX));
    assert!(parse_integer(&mut "9223372036854775808").is_err());
    assert_eq!(parse_integer(&mut "-9223372036854775808"), Ok(i64::MIN));
    assert!(parse_integer(&mut "-9223372036854775809").is_err());
}

#[test]
fn invalid_hex_integer() {
    assert_eq!(parse_integer(&mut "0x"), Ok(0));
    assert_eq!(parse_integer(&mut "0X"), Ok(0));
    assert_eq!(parse_integer(&mut "0xq"), Ok(0));
    assert_eq!(parse_integer(&mut "-0x"), Ok(0));
    assert_eq!(parse_integer(&mut "-0X"), Ok(0));
    assert_eq!(parse_integer(&mut "-0xq"), Ok(0));
}

#[test]
fn invalid_oct_integer() {
    assert_eq!(parse_integer(&mut "0o"), Ok(0));
    assert_eq!(parse_integer(&mut "0O"), Ok(0));
    assert_eq!(parse_integer(&mut "0oq"), Ok(0));
    assert_eq!(parse_integer(&mut "-0o"), Ok(0));
    assert_eq!(parse_integer(&mut "-0O"), Ok(0));
    assert_eq!(parse_integer(&mut "-0oq"), Ok(0));
}

#[test]
fn invalid_bin_integer() {
    assert_eq!(parse_integer(&mut "0b"), Ok(0));
    assert_eq!(parse_integer(&mut "0B"), Ok(0));
    assert_eq!(parse_integer(&mut "0bq"), Ok(0));
    assert_eq!(parse_integer(&mut "-0b"), Ok(0));
    assert_eq!(parse_integer(&mut "-0B"), Ok(0));
    assert_eq!(parse_integer(&mut "-0bq"), Ok(0));
}

#[test]
fn integer_overflow_falls_back_to_decimal_zero() {
    // an out-of-range hexadecimal number is no hexadecimal number; `0` is read as decimal
    let mut input = "0x10000000000000000";
    assert_eq!(parse_integer(&mut input), Ok(0));
    assert_eq!(input, "x10000000000000000");
}

#[test]
fn integer_radix_round_trip() {
    for n in [0i64, 1, -1, 42, -42, 255, i64::MAX, i64::MIN, 0x1234_5678, -987_654_321] {
        let abs = n.unsigned_abs();
        let sign = if n < 0 { "-" } else { "" };
        for text in [
            format!("{sign}{abs}"),
            format!("{sign}{abs:#x}"),
            format!("{sign}{abs:#X}"),
            format!("{sign}{abs:#o}"),
            format!("{sign}{abs:#b}"),
        ] {
            let mut input = text.as_str();
            assert_eq!(parse_integer(&mut input), Ok(n), "{text}");
            assert_eq!(input, "");
        }
    }
}

#[test]
fn double_texts() {
    let mut input = "1.5e";
    assert_eq!(parse_double(&mut input).unwrap().as_str(), "1.5");
    assert_eq!(input, "e");
    let mut input = "-2E-10x";
    assert_eq!(parse_double(&mut input).unwrap().as_str(), "-2E-10");
    assert_eq!(input, "x");
    let mut input = ".5";
    assert_eq!(parse_double(&mut input).unwrap().as_str(), ".5");
    let mut input = "InFiNiTy";
    assert_eq!(parse_double(&mut input).unwrap().as_str(), "InFiNiTy");
    let mut input = "info";
    assert_eq!(parse_double(&mut input).unwrap().as_str(), "inf");
    assert_eq!(input, "o");
    assert!(parse_double(&mut ".").is_err());
    assert!(parse_double(&mut "-").is_err());
    assert!(parse_double(&mut "e5").is_err());
}

#[test]
fn string() {
    assert_eq!(
        parse_string(&mut r#""hello world""#),
        Ok("hello world".to_string())
    );
    assert_eq!(
        parse_string(&mut "'hello world'"),
        Ok("hello world".to_string())
    );
    assert_eq!(parse_string(&mut "hello world"), Ok("hello".to_string()));
}

#[test]
fn empty_string() {
    assert!(parse_string(&mut "").is_err());
    assert!(parse_string(&mut "   ").is_err());
    assert_eq!(parse_string(&mut "''"), Ok("".to_string()));
    assert_eq!(parse_string(&mut r#""""#), Ok("".to_string()));
}

#[test]
fn invalid_string() {
    assert!(parse_string(&mut "'").is_err());
    assert!(parse_string(&mut r#"""#).is_err());
    assert!(parse_string(&mut "'hello world").is_err());
    assert!(parse_string(&mut r#""hello world"#).is_err());

    assert!(parse_string(&mut r#"\$nan"#).is_err());
    assert!(parse_string(&mut r#"\$inf"#).is_err());
    assert!(parse_string(&mut r#"\$infinity"#).is_err());
    assert!(parse_string(&mut r#"\$blahblah"#).is_err());
}

#[test]
fn escape_characters() {
    assert_eq!(
        parse_string(&mut r#"hello \ø world"#),
        Ok("hello".to_string())
    );

    assert!(parse_string(&mut r#"\ø"#).is_err());
    assert!(parse_string(&mut r#"\u"#).is_err());
    assert!(parse_string(&mut r#"\u1234"#).is_err());
    assert!(parse_string(&mut r#"\u{1234"#).is_err());
    assert!(parse_string(&mut r#"\umeow"#).is_err());
    assert!(parse_string(&mut r#"\u{00}"#).is_err());

    assert_eq!(parse_unquoted_string(&mut r#"\u{03A3}"#), Ok("Σ".to_string()));
    assert_eq!(parse_unquoted_string(&mut r#"\u{6C34}"#), Ok("水".to_string()));
}

#[test]
fn empty_quoted_string() {
    assert_eq!(parse_quoted_string(&mut r#""""#), Ok("".to_string()));
    assert_eq!(parse_quoted_string(&mut "''"), Ok("".to_string()));
    assert_eq!(parse_quoted_string(&mut r#""""#), Ok("".to_string()));
    assert_eq!(parse_quoted_string(&mut "''"), Ok("".to_string()));
}

#[test]
fn empty_unquoted_string() {
    assert!(parse_unquoted_string(&mut "").is_err());
    assert!(parse_unquoted_string(&mut "   ").is_err());
}

#[test]
fn invalid_quoted_string() {
    assert!(parse_quoted_string(&mut "").is_err());
    assert!(parse_quoted_string(&mut "   ").is_err());
    assert!(parse_quoted_string(&mut "hello").is_err());
    assert!(parse_quoted_string(&mut "hello world").is_err());

    assert!(parse_quoted_string(&mut r#"""#).is_err());
    assert!(parse_quoted_string(&mut r#""hello world"#).is_err());
    assert!(parse_quoted_string(&mut r#"hello world""#).is_err());
    assert!(parse_quoted_string(&mut "'").is_err());
    assert!(parse_quoted_string(&mut "'hello world").is_err());
    assert!(parse_quoted_string(&mut "hello world'").is_err());

    assert!(parse_quoted_string(&mut r#"'hello world""#).is_err());
    assert!(parse_quoted_string(&mut r#""hello world'"#).is_err());
    assert!(parse_quoted_string(&mut r#"'""#).is_err());
    assert!(parse_quoted_string(&mut r#""'"#).is_err());
}

#[test]
fn invalid_unquoted_string() {
    assert!(parse_unquoted_string(&mut "''").is_err());
    assert!(parse_unquoted_string(&mut r#""""#).is_err());
    assert!(parse_unquoted_string(&mut "'hello world'").is_err());
    assert!(parse_unquoted_string(&mut r#""hello world""#).is_err());

    assert!(parse_unquoted_string(&mut r#"\$nan"#).is_err());
    assert!(parse_unquoted_string(&mut r#"\$inf"#).is_err());
    assert!(parse_unquoted_string(&mut r#"\$infinity"#).is_err());
    assert!(parse_unquoted_string(&mut r#"\$blahblah"#).is_err());
}

#[test]
fn null_characters() {
    assert!(parse_string(&mut "\0").is_err());

    assert!(parse_unquoted_string(&mut "\0").is_err());
    assert!(parse_unquoted_string(&mut "\0hello").is_err());
    assert!(parse_unquoted_string(&mut "\0hello world").is_err());

    assert!(parse_quoted_string(&mut "\"\0\"").is_err());
    assert!(parse_quoted_string(&mut "'\0'").is_err());
    assert!(parse_quoted_string(&mut "'\0hello world'").is_err());
}

#[test]
fn double_quoted_string() {
    assert_eq!(parse_quoted_string(&mut r#""hello world""#), Ok("hello world".to_string()));
    assert_eq!(parse_quoted_string(&mut r#""hello" world""#), Ok("hello".to_string()));
    assert_eq!(parse_quoted_string(&mut r#""hello world" blah..."#), Ok("hello world".to_string()));
    assert_eq!(parse_quoted_string(&mut r#""hello world"""#), Ok("hello world".to_string()));
    assert_eq!(parse_quoted_string(&mut r#""hello\" world""#), Ok(r#"hello" world"#.to_string()));
    assert_eq!(parse_quoted_string(&mut r#""hello' world""#), Ok("hello' world".to_string()));
}

#[test]
fn single_quoted_string() {
    assert_eq!(parse_quoted_string(&mut "'hello world'"), Ok("hello world".to_string()));
    assert_eq!(parse_quoted_string(&mut "'hello' world'"), Ok("hello".to_string()));
    assert_eq!(parse_quoted_string(&mut "'hello world' blah..."), Ok("hello world".to_string()));
    assert_eq!(parse_quoted_string(&mut "'hello world''"), Ok("hello world".to_string()));
    assert_eq!(parse_quoted_string(&mut r#"'hello\' world'"#), Ok(r#"hello' world"#.to_string()));
    assert_eq!(parse_quoted_string(&mut r#"'hello" world'"#), Ok(r#"hello" world"#.to_string()));
}

#[test]
fn unquoted_string() {
    assert_eq!(parse_unquoted_string(&mut "hello"), Ok("hello".to_string()));
    assert_eq!(parse_unquoted_string(&mut "hello world"), Ok("hello".to_string()));
    assert_eq!(parse_unquoted_string(&mut "hello'world"), Ok("hello".to_string()));
    assert_eq!(parse_unquoted_string(&mut r#"hello"world"#), Ok("hello".to_string()));

    assert_eq!(parse_unquoted_string(&mut "hello\tworld"), Ok("hello".to_string()));
    assert_eq!(parse_unquoted_string(&mut "hello\nworld"), Ok("hello".to_string()));

    assert_eq!(parse_unquoted_string(&mut r#"hello\nworld"#), Ok("hello\nworld".to_string()));
    assert_eq!(parse_unquoted_string(&mut r#"hello\tworld"#), Ok("hello\tworld".to_string()));
    assert_eq!(parse_unquoted_string(&mut r#"\n"#), Ok("\n".to_string()));
    assert_eq!(parse_unquoted_string(&mut r#"\t"#), Ok("\t".to_string()));

    assert_eq!(parse_unquoted_string(&mut "שלום"), Ok("שלום".to_string()));
    assert_eq!(parse_unquoted_string(&mut "שלום עולם"), Ok("שלום".to_string()));
    assert_eq!(parse_unquoted_string(&mut "håndter dette!"), Ok("håndter".to_string()));
}

#[test]
fn string_escapes_all_letters() {
    assert_eq!(
        parse_string(&mut r#""\n\r\t\b\f\\\/\"\'""#),
        Ok("\n\r\t\u{8}\u{c}\\/\"'".to_string())
    );
    assert_eq!(parse_string(&mut r#"\u{10FFFF}"#), Ok("\u{10FFFF}".to_string()));
    assert!(parse_string(&mut r#"\u{110000}"#).is_err());
    assert!(parse_string(&mut r#"\u{D800}"#).is_err());
    assert!(parse_string(&mut r#"\u{0000041}"#).is_err());
    let mut input = "a\u{2003}b";
    assert_eq!(parse_unquoted_string(&mut input), Ok("a".to_string()));
    assert_eq!(input, "\u{2003}b");
}
