use ts_server_query::{parse_channel_list, Fields, QueryError, Response};

#[test]
fn parses_channel_list() {
    let response = Response::new(
        vec![
            "cid=1 pid=0 channel_order=0 channel_name=Default\\sChannel channel_topic=Root channel_flag_default=1 channel_flag_password=0 channel_flag_permanent=1 channel_flag_semi_permanent=0|cid=2 pid=1 channel_order=1 channel_name=Support channel_flag_default=0 channel_flag_password=1 channel_flag_permanent=0 channel_flag_semi_permanent=1".to_owned(),
        ],
        Fields::new(),
    );

    let channels = parse_channel_list(&response).unwrap();

    assert_eq!(channels.len(), 2);
    assert_eq!(channels[0].cid, 1);
    assert_eq!(channels[0].channel_name, "Default Channel");
    assert_eq!(channels[0].topic.as_deref(), Some("Root"));
    assert!(channels[0].flags.default);
    assert!(channels[1].flags.password);
    assert!(channels[1].flags.semi_permanent);
}

#[test]
fn channel_list_skips_empty_lines_and_keeps_all_fields() {
    let response = Response::new(
        vec![String::new(), "cid=5 pid=2 channel_order=9 channel_name=A extra=x".to_owned()],
        Fields::new(),
    );
    let channels = parse_channel_list(&response).unwrap();
    assert_eq!(channels.len(), 1);
    assert_eq!((channels[0].cid, channels[0].pid, channels[0].channel_order), (5, 2, 9));
    assert!(channels[0].topic.is_none());
    assert!(!channels[0].flags.default && !channels[0].flags.permanent);
    assert_eq!(channels[0].fields.get("extra").unwrap(), "x");
}

#[test]
fn channel_list_reports_missing_and_invalid_fields() {
    let missing = Response::new(vec!["cid=1 channel_order=0 channel_name=A".to_owned()], Fields::new());
    assert_eq!(parse_channel_list(&missing).unwrap_err(), QueryError::MissingField("pid"));

    let invalid = Response::new(
        vec!["cid=1 pid=x channel_order=0 channel_name=A".to_owned()],
        Fields::new(),
    );
    assert_eq!(
        parse_channel_list(&invalid).unwrap_err(),
        QueryError::InvalidNumber { field: "pid", value: "x".to_owned() }
    );

    let no_name = Response::new(vec!["cid=1 pid=0 channel_order=0".to_owned()], Fields::new());
    assert_eq!(parse_channel_list(&no_name).unwrap_err(), QueryError::MissingField("channel_name"));

    let escape = Response::new(vec![r"cid=1\z".to_owned()], Fields::new());
    assert!(matches!(parse_channel_list(&escape), Err(QueryError::Escape(_))));

    let empty_item = Response::new(
        vec!["cid=1 pid=0 channel_order=0 channel_name=A|".to_owned()],
        Fields::new(),
    );
    assert_eq!(parse_channel_list(&empty_item).unwrap_err(), QueryError::MissingField("cid"));
}

#[test]
fn empty_response_has_no_channels() {
    let response = Response::new(Vec::new(), Fields::new());
    assert!(parse_channel_list(&response).unwrap().is_empty());
}
