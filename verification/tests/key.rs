use skv::key::{key_part, skv_key, Key};

fn key(s: &str) -> Key {
    Key::new(s).unwrap()
}

#[test]
fn valid_key() {
    assert_eq!(skv_key(&mut "test"), Ok(key("test")));
    assert_eq!(skv_key(&mut "test "), Ok(key("test")));
    assert_eq!(skv_key(&mut "test.sep"), Ok(key("test.sep")));
    assert_eq!(skv_key(&mut "test_1.sep2"), Ok(key("test_1.sep2")));
    assert_eq!(
        skv_key(&mut "test_1.test2._test_3"),
        Ok(key("test_1.test2._test_3"))
    );
    assert_eq!(skv_key(&mut "test.sep2"), Ok(key("test.sep2")));
    assert_eq!(skv_key(&mut "test_1.sep"), Ok(key("test_1.sep")));
    assert_eq!(skv_key(&mut "t3st1 .sep2"), Ok(key("t3st1")));
    assert_eq!(skv_key(&mut "t3st1 100"), Ok(key("t3st1")));
    assert_eq!(skv_key(&mut "test1="), Ok(key("test1")));

    assert_eq!(skv_key(&mut "_="), Ok(key("_")));
    assert_eq!(skv_key(&mut "___.___="), Ok(key("___.___")));
    assert_eq!(skv_key(&mut "___="), Ok(key("___")));
    assert_eq!(skv_key(&mut "___"), Ok(key("___")));
}

#[test]
fn invalid_key() {
    assert!(skv_key(&mut "").is_err());
    assert!(skv_key(&mut ".").is_err());
    assert!(skv_key(&mut "..").is_err());
    assert!(skv_key(&mut "1").is_err());
    assert!(skv_key(&mut ".preceding").is_err());
    assert!(skv_key(&mut ".preceding.two").is_err());
    assert!(skv_key(&mut "terminated.").is_err());
    assert!(skv_key(&mut "terminated.two.").is_err());
    assert!(skv_key(&mut "1number").is_err());
    assert!(skv_key(&mut "parts.1number").is_err());
    assert!(skv_key(&mut "parts.1").is_err());
    assert!(skv_key(&mut "parts..").is_err());
}

#[test]
fn valid_key_part() {
    assert_eq!(key_part(&mut "test"), Ok("test".to_string()));
    assert_eq!(key_part(&mut "t1"), Ok("t1".to_string()));
    assert_eq!(key_part(&mut "test text"), Ok("test".to_string()));
    assert_eq!(key_part(&mut "t1 "), Ok("t1".to_string()));
    assert_eq!(key_part(&mut "t1_a t1_b"), Ok("t1_a".to_string()));
    assert_eq!(key_part(&mut "t1_a.t1_b"), Ok("t1_a".to_string()));
}

#[test]
fn invalid_key_part() {
    assert!(key_part(&mut "").is_err());
    assert!(key_part(&mut "1").is_err());
    assert!(key_part(&mut ".").is_err());
    assert!(key_part(&mut " ").is_err());
    assert!(key_part(&mut "1key").is_err());
}

#[test]
fn key_new_requires_whole_key() {
    assert!(Key::new("test.sep").is_ok());
    assert!(Key::new("test ").is_err());
    assert!(Key::new("test=").is_err());
    assert!(Key::new("").is_err());
    assert!("a.b_c".parse::<Key>().is_ok());
}

#[test]
fn key_parts_join_back() {
    let k = key("test_1.test2._test_3");
    assert_eq!(
        k.parts(),
        vec!["test_1".to_string(), "test2".to_string(), "_test_3".to_string()]
    );
    assert_eq!(k.parts().join("."), k.as_str());
    assert_eq!(key("single").parts(), vec!["single".to_string()]);
}

#[test]
fn key_error_offsets() {
    let mut input = "parts..";
    let err = skv_key(&mut input).unwrap_err();
    assert_eq!(err.offset, 6);
    assert_eq!(input, "parts..");
    let mut rest = "a.b rest";
    assert_eq!(skv_key(&mut rest), Ok(key("a.b")));
    assert_eq!(rest, " rest");
}

#[test]
fn key_parts_are_key_parts() {
    for text in ["a", "a1.b_2._c.D9", "x.y.z"] {
        let k = key(text);
        let parts = k.parts();
        assert_eq!(parts, text.split('.').map(|p| p.to_string()).collect::<Vec<_>>());
        for p in parts {
            let first = p.chars().next().unwrap();
            assert!(!first.is_ascii_digit());
            assert!(p.chars().all(|c| c.is_ascii_alphanumeric() || c == '_'));
        }
    }
}
