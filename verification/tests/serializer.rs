use tracing_logfmt::{Serializer, SerializerError};

#[test]
fn test_serialize_entries() {
    let mut s = Serializer::new();
    assert!(s.serialize_entry("key", "value").is_ok());
    assert!(s.serialize_entry("key2", "value2").is_ok());

    assert_eq!(s.output, "key=value key2=value2");
}

#[test]
fn test_serialize_entry() {
    let tests = vec![
        (("key", "value"), "key=value"),
        (("ke=y", "value="), "key=\"value=\""),
        (("key ", "value "), "key=\"value \""),
        (("ke\"y", "valu\"e"), "key=\"valu\\\"e\""),
        (("ke\ny", "valu\ne"), "key=\"valu\\ne\""),
    ];

    for ((k, v), expected_output) in tests {
        let mut s = Serializer::new();
        assert!(s.serialize_entry(k, v).is_ok());
        assert_eq!(s.output, expected_output,);
    }
}

#[test]
fn test_serialize_key() {
    let tests = vec![
        ("key", "key"),
        ("k ey", "key"),
        ("k\"ey", "key"),
        ("k=ey", "key"),
        ("k\ney", "key"),
    ];
    for (input, expected_output) in tests {
        let mut s = Serializer::new();
        assert!(s.serialize_key(input).is_ok());

        assert_eq!(s.output, expected_output);
    }
}

#[test]
fn test_serialize_key_invalid() {
    let tests = vec![
        ("", SerializerError::InvalidKey),
        (" ", SerializerError::InvalidKey),
        ("=", SerializerError::InvalidKey),
        ("\"", SerializerError::InvalidKey),
    ];

    for (input, expected_error) in tests {
        let mut s = Serializer::new();
        assert_eq!(s.serialize_key(input), Err(expected_error));
    }
}

#[test]
fn test_serialize_value() {
    let tests = vec![
        ("", ""),
        ("v", "v"),
        (" ", r#"" ""#),
        ("=", r#""=""#),
        (r#"\"#, r#"\"#),
        (r#"""#, r#""\"""#),
        (r#"\""#, r#""\\\"""#),
        ("\n", r#""\n""#),
        ("\x00", r#""\0""#),
        ("\x10", r#""\u{10}""#),
        ("\x1F", r#""\u{1f}""#),
        ("µ", r#"µ"#),
        ("åäö", r#"åäö"#),
    ];

    for (input, expected_output) in tests {
        let mut s = Serializer::new();
        assert!(s.serialize_value(input).is_ok());

        assert_eq!(s.output, expected_output);
    }
}

#[test]
fn test_serialize_value_more_escapes() {
    let tests = vec![
        ("\r", r#""\r""#),
        ("\t", r#""\t""#),
        ("a\x7fb c", "\"a\\u{7f}b c\""),
        ("tab\there", r#""tab\there""#),
        ("åä ö", "\"åä ö\""),
    ];

    for (input, expected_output) in tests {
        let mut s = Serializer::new();
        assert!(s.serialize_value(input).is_ok());
        assert_eq!(s.output, expected_output);
    }
}

#[test]
fn test_serialize_key_keeps_separator_state() {
    let mut s = Serializer::new();
    assert!(s.serialize_key("first").is_ok());
    assert!(s.serialize_key("second").is_ok());
    assert_eq!(s.output, "first second");
}

#[test]
fn test_serialize_entry_invalid_key_writes_nothing() {
    let mut s = Serializer::new();
    assert!(s.serialize_entry("ok", "fine").is_ok());
    let before = s.output.clone();
    assert_eq!(
        s.serialize_entry("\n\t ", "dropped"),
        Err(SerializerError::InvalidKey)
    );
    assert_eq!(s.output, before);
}

#[test]
fn test_serialize_same_value_twice() {
    let mut s = Serializer::new();
    assert!(s.serialize_entry("v", "printable").is_ok());
    assert!(s.serialize_entry("v", "printable").is_ok());
    assert_eq!(s.output, "v=printable v=printable");
}

#[test]
fn test_serialize_scalar_entries() {
    let mut s = Serializer::new();
    assert!(s.serialize_entry_u64("n", 0).is_ok());
    assert!(s.serialize_entry_u64("n", 18446744073709551615).is_ok());
    assert!(s.serialize_entry_i64("n", -42).is_ok());
    assert!(s.serialize_entry_i64("n", i64::MIN).is_ok());
    assert!(s.serialize_entry_bool("n", true).is_ok());
    assert!(s.serialize_entry_bool("n", false).is_ok());
    assert_eq!(
        s.output,
        "n=0 n=18446744073709551615 n=-42 n=-9223372036854775808 n=true n=false"
    );
}
