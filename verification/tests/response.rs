use ts_server_query::number::{decimal, parse_unsigned};
use ts_server_query::protocol::parse_fields;
use ts_server_query::Response;

fn status(line: &str) -> Response {
    Response::new(Vec::new(), parse_fields(line).unwrap())
}

#[test]
fn reads_status_id_and_message() {
    let ok = status(r"id=0 msg=ok");
    assert_eq!(ok.id(), Some(0));
    assert_eq!(ok.message(), Some("ok"));
    assert!(ok.is_ok());

    let failed = status(r"id=768 msg=invalid\schannelID");
    assert_eq!(failed.id(), Some(768));
    assert_eq!(failed.message(), Some("invalid channelID"));
    assert!(!failed.is_ok());
}

#[test]
fn status_id_follows_integer_parsing() {
    assert_eq!(status("id=+7").id(), Some(7));
    assert_eq!(status("id=4294967295").id(), Some(4294967295));
    assert_eq!(status("id=4294967296").id(), None);
    assert_eq!(status("id=-1").id(), None);
    assert_eq!(status("id=").id(), None);
    assert_eq!(status("id=+").id(), None);
    assert_eq!(status("id=1x").id(), None);
    assert_eq!(status("msg=ok").id(), None);
    assert_eq!(status("id=0").message(), None);
    assert!(!status("msg=ok").is_ok());
    assert!(status("id=000").is_ok());
}

#[test]
fn parses_and_writes_unsigned_numbers() {
    assert_eq!(parse_unsigned("18446744073709551615", u64::MAX), Some(u64::MAX));
    assert_eq!(parse_unsigned("18446744073709551616", u64::MAX), None);
    assert_eq!(parse_unsigned("99999999999999999999999", u64::MAX), None);
    assert_eq!(parse_unsigned("10", 9), None);
    assert_eq!(parse_unsigned("9", 9), Some(9));
    assert_eq!(decimal(0), "0");
    assert_eq!(decimal(1), "1");
    assert_eq!(decimal(1234567890), "1234567890");
    assert_eq!(decimal(u64::MAX), "18446744073709551615");
}
