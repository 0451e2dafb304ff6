use ts_server_query::protocol::{parse_event, parse_field_entry, parse_fields, split_whitespace};
use ts_server_query::{ConnectionError, EscapeError, Fields};

#[test]
fn parses_notification_event() {
    let event =
        parse_event(r"notifycliententerview clid=7 client_nickname=Alice\sSmith").unwrap();

    assert_eq!(event.name, "notifycliententerview");
    assert_eq!(event.fields.get("clid").unwrap(), "7");
    assert_eq!(event.fields.get("client_nickname").unwrap(), "Alice Smith");
}

#[test]
fn rejects_malformed_notification_event() {
    assert!(matches!(
        parse_event(r"notifycliententerview client_nickname=Alice\xSmith"),
        Err(ConnectionError::Escape(_))
    ));
}

#[test]
fn rejects_lines_that_are_not_notifications() {
    match parse_event("notify clid=1") {
        Err(ConnectionError::Protocol(message)) => {
            assert_eq!(message, "invalid notification line: `notify clid=1`")
        }
        other => panic!("unexpected result: {other:?}"),
    }
    assert!(matches!(parse_event("error id=0"), Err(ConnectionError::Protocol(_))));
    assert!(matches!(parse_event(""), Err(ConnectionError::Protocol(_))));
}

#[test]
fn notification_without_fields_has_none() {
    let event = parse_event("notifyserveredited").unwrap();
    assert_eq!(event.name, "notifyserveredited");
    assert!(event.fields.get("anything").is_none());
}

#[test]
fn splits_on_any_whitespace() {
    assert_eq!(split_whitespace("  a\tbc \u{a0}d\n"), vec!["a", "bc", "d"]);
    assert!(split_whitespace(" \t ").is_empty());
}

#[test]
fn fields_without_value_are_empty() {
    let fields = parse_fields(r"-away key=a=b flag\s1").unwrap();
    assert_eq!(fields.get("-away").unwrap(), "");
    assert_eq!(fields.get("key").unwrap(), "a=b");
    assert_eq!(fields.get("flag 1").unwrap(), "");
    assert!(fields.get("missing").is_none());
}

#[test]
fn later_fields_override_earlier_ones() {
    let fields = parse_fields("id=1 id=2").unwrap();
    assert_eq!(fields.get("id").unwrap(), "2");
}

#[test]
fn field_errors_name_the_first_bad_sequence() {
    assert_eq!(parse_field_entry(r"k\q=v\x").unwrap_err(), EscapeError::UnknownSequence('q'));
    assert_eq!(parse_field_entry(r"k=v\x").unwrap_err(), EscapeError::UnknownSequence('x'));
    assert_eq!(parse_fields(r"a=\ b=\y").unwrap_err(), EscapeError::UnterminatedSequence);
}

#[test]
fn fields_insert_and_get() {
    let mut fields = Fields::new();
    assert!(fields.get("a").is_none());
    fields.insert("a".to_owned(), "1".to_owned());
    fields.insert("b".to_owned(), "2".to_owned());
    fields.insert("a".to_owned(), "3".to_owned());
    assert_eq!(fields.get("a").unwrap(), "3");
    assert_eq!(fields.get("b").unwrap(), "2");
}

#[test]
fn fields_compare_as_maps() {
    let a = parse_fields("x=1 y=2").unwrap();
    let b = parse_fields("y=2 x=1").unwrap();
    let c = parse_fields("x=1 x=3 y=2").unwrap();
    assert_eq!(a, b);
    assert_ne!(a, c);
    assert_ne!(a, parse_fields("x=1").unwrap());
    assert_ne!(parse_fields("x=1").unwrap(), a);
    assert_eq!(
        parse_event("notifyx a=1 b=2").unwrap(),
        parse_event("notifyx b=2 a=1").unwrap()
    );
}

#[test]
fn escaped_arguments_read_back() {
    for value in ["Query Bot | Admin", "a=b", "line\nbreak\r", "tab\tx\u{b}\u{c}", "", "\\/"] {
        let fields = parse_fields(&format!("msg={}", ts_server_query::escape(value))).unwrap();
        assert_eq!(fields.get("msg").unwrap(), value);
    }
}
