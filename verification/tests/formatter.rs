use tracing_logfmt::{
    builder, EventsFormatter, FieldValue, FieldsFormatter, Level, LogEvent, LogField,
    SerializerError,
};

fn message_event(level: Level, target: &str) -> LogEvent {
    LogEvent {
        level,
        target: String::from(target),
        file: None,
        line: None,
        mod_path: None,
        fields: vec![LogField {
            name: String::from("message"),
            value: FieldValue::Text(String::from("message")),
        }],
    }
}

fn names(list: &[&str]) -> Vec<String> {
    list.iter().map(|s| String::from(*s)).collect()
}

const TS: &str = "2023-01-01T00:00:00Z";

#[test]
fn test_span_and_span_path_with_quoting() {
    let event = message_event(Level::Info, "tracing_logfmt::formatter");
    let spans = names(&["top", "mid dle", "bottom"]);
    let formatter = EventsFormatter::default();

    let content = formatter
        .format_event_now(&event, &spans, &Vec::new())
        .unwrap();

    println!("{:?}", content);
    assert!(content.contains("span=bottom"));
    assert!(content.contains("span_path=\"top>mid dle>bottom\""));
    assert!(content.contains("info"));
    assert!(content.contains("ts=20"));
}

#[test]
fn test_span_and_span_path_without_quoting() {
    let event = message_event(Level::Info, "tracing_logfmt::formatter");
    let spans = names(&["top", "middle", "bottom"]);
    let formatter = EventsFormatter::default();

    let content = formatter
        .format_event_now(&event, &spans, &Vec::new())
        .unwrap();

    println!("{:?}", content);
    assert!(content.contains("span=bottom"));
    assert!(content.contains("span_path=top>middle>bottom"));
    assert!(content.contains("info"));
    assert!(content.contains("ts=20"));
}

#[test]
fn test_full_line_default_config() {
    let event = message_event(Level::Info, "pkg::mod");
    let spans = names(&["top", "middle", "bottom"]);
    let formatter = EventsFormatter::default();

    let line = formatter
        .format_event(TS, &event, &spans, &Vec::new())
        .unwrap();

    assert_eq!(
        line,
        "ts=2023-01-01T00:00:00Z level=info target=pkg::mod span=bottom \
         span_path=top>middle>bottom message=message\n"
    );
}

#[test]
fn test_span_path_quoting_decision() {
    let formatter = EventsFormatter::default();
    let event = message_event(Level::Info, "pkg::mod");

    let quoted = formatter
        .format_event(TS, &event, &names(&["top", "mid dle", "bottom"]), &Vec::new())
        .unwrap();
    assert!(quoted.contains("span_path=\"top>mid dle>bottom\""));

    let bare = formatter
        .format_event(TS, &event, &names(&["top", "middle", "bottom"]), &Vec::new())
        .unwrap();
    assert!(bare.contains("span_path=top>middle>bottom"));
}

#[test]
fn test_disabling_span_flags() {
    let event = message_event(Level::Info, "pkg::mod");
    let spans = names(&["top", "middle", "bottom"]);
    let b = builder().with_span_name(false).with_span_path(false);
    let (formatter, _fields) = b.build();

    let line = formatter
        .format_event(TS, &event, &spans, &Vec::new())
        .unwrap();

    assert!(!line.contains("span="));
    assert!(!line.contains("span_path="));
    assert!(line.contains("level="));
    assert!(line.contains("ts="));
}

#[test]
fn test_scalar_fields_render_unquoted() {
    let mut event = message_event(Level::Info, "pkg::mod");
    event.fields = vec![
        LogField {
            name: String::from("ok"),
            value: FieldValue::Bool(true),
        },
        LogField {
            name: String::from("count"),
            value: FieldValue::U64(3),
        },
    ];
    let formatter = EventsFormatter::default();

    let line = formatter
        .format_event(TS, &event, &Vec::new(), &Vec::new())
        .unwrap();

    assert!(line.contains("ok=true count=3"));
    assert!(!line.contains("ok=\""));
    assert!(!line.contains("count=\""));
}

#[test]
fn test_signed_and_negative_fields() {
    let mut event = message_event(Level::Info, "pkg::mod");
    event.fields = vec![
        LogField {
            name: String::from("delta"),
            value: FieldValue::I64(-7),
        },
        LogField {
            name: String::from("min"),
            value: FieldValue::I64(i64::MIN),
        },
    ];
    let formatter = EventsFormatter::default();

    let line = formatter
        .format_event(TS, &event, &Vec::new(), &Vec::new())
        .unwrap();

    assert!(line.contains("delta=-7 min=-9223372036854775808"));
}

#[test]
fn test_level_names() {
    let formatter = EventsFormatter::default();
    let cases = vec![
        (Level::Error, "level=error"),
        (Level::Warn, "level=warn"),
        (Level::Info, "level=info"),
        (Level::Debug, "level=debug"),
        (Level::Trace, "level=trace"),
    ];
    for (level, expected) in cases {
        let event = message_event(level, "pkg::mod");
        let line = formatter
            .format_event(TS, &event, &Vec::new(), &Vec::new())
            .unwrap();
        assert!(line.contains(expected));
    }
}

#[test]
fn test_invalid_field_key_fails_line() {
    let mut event = message_event(Level::Info, "pkg::mod");
    event.fields = vec![LogField {
        name: String::from("= \""),
        value: FieldValue::Text(String::from("oops")),
    }];
    let formatter = EventsFormatter::default();

    let r = formatter.format_event(TS, &event, &Vec::new(), &Vec::new());
    assert_eq!(r, Err(SerializerError::InvalidKey));
}

#[test]
fn test_location_and_code_module_tokens() {
    let mut event = message_event(Level::Info, "pkg::mod");
    event.file = Some(String::from("src/main.rs"));
    event.line = Some(17);
    event.mod_path = Some(String::from("pkg::mod"));
    let b = builder().with_location(true).with_mod_path(true);
    let (formatter, _fields) = b.build();

    let line = formatter
        .format_event(TS, &event, &Vec::new(), &Vec::new())
        .unwrap();

    assert!(line.contains("location=src/main.rs:17"));
    let mod_key = ["module", "_path"].concat();
    assert!(line.contains(&format!("{}=pkg::mod", mod_key)));
}

#[test]
fn test_location_needs_both_file_and_line() {
    let mut event = message_event(Level::Info, "pkg::mod");
    event.file = Some(String::from("src/main.rs"));
    event.line = None;
    let b = builder().with_location(true);
    let (formatter, _fields) = b.build();

    let line = formatter
        .format_event(TS, &event, &Vec::new(), &Vec::new())
        .unwrap();

    assert!(!line.contains("location="));
}

#[test]
fn test_span_fields_appended() {
    let event = message_event(Level::Info, "pkg::mod");
    let spans = names(&["top", "middle"]);
    let texts = names(&["region=eu", "", "user=42"]);
    let formatter = EventsFormatter::default();

    let line = formatter.format_event(TS, &event, &spans, &texts).unwrap();

    assert!(line.ends_with("message=message region=eu user=42\n"));
}

#[test]
fn test_line_ends_with_newline() {
    let event = message_event(Level::Info, "pkg::mod");
    let formatter = EventsFormatter::default();

    let line = formatter
        .format_event(TS, &event, &Vec::new(), &Vec::new())
        .unwrap();

    assert!(line.ends_with('\n'));
    assert_eq!(line.matches('\n').count(), 1);
}

#[test]
fn test_format_fields() {
    let formatter = FieldsFormatter::default();
    let fields = vec![
        LogField {
            name: String::from("a"),
            value: FieldValue::Text(String::from("x y")),
        },
        LogField {
            name: String::from("b"),
            value: FieldValue::U64(2),
        },
    ];

    let out = formatter.format_fields(&fields);
    assert_eq!(out, "a=\"x y\" b=2");
}

#[test]
fn test_format_fields_stops_at_invalid_key() {
    let formatter = FieldsFormatter::default();
    let fields = vec![
        LogField {
            name: String::from("kept"),
            value: FieldValue::Bool(false),
        },
        LogField {
            name: String::from("  "),
            value: FieldValue::Text(String::from("dropped")),
        },
        LogField {
            name: String::from("later"),
            value: FieldValue::U64(1),
        },
    ];

    let out = formatter.format_fields(&fields);
    assert_eq!(out, "kept=false");
}

#[test]
fn test_builder_toggles_are_independent() {
    let b = builder()
        .with_level(false)
        .with_target(false)
        .with_span_name(true)
        .with_span_path(false);
    let (formatter, _fields) = b.build();
    let event = message_event(Level::Info, "pkg::mod");
    let spans = names(&["root"]);

    let line = formatter
        .format_event(TS, &event, &spans, &Vec::new())
        .unwrap();

    assert!(!line.contains("level="));
    assert!(!line.contains("target="));
    assert!(line.contains("span=root"));
    assert!(!line.contains("span_path="));
}

#[test]
fn test_timestamp_from_clock_is_bare() {
    let event = message_event(Level::Info, "pkg::mod");
    let formatter = EventsFormatter::default();

    let line = formatter
        .format_event_now(&event, &Vec::new(), &Vec::new())
        .unwrap();

    assert!(line.starts_with("ts=2"));
    let ts_token: &str = line.split(' ').next().unwrap();
    assert!(!ts_token.contains('"'));
    assert!(!ts_token[3..].contains('='));
}
