use ts_server_query::{Command, ConnectionError, ConnectionState, LineOutcome, STARTUP_LINE_COUNT};

fn running() -> ConnectionState {
    let mut state = ConnectionState::new();
    for _ in 0..STARTUP_LINE_COUNT {
        assert!(!state.startup_complete());
        state.startup_line(10).unwrap();
    }
    assert!(state.startup_complete());
    state
}

#[test]
fn answers_a_command_with_its_response() {
    let mut state = running();
    let (id, bytes) = state.send_command(&Command::new("version").unwrap());
    assert_eq!(id, 0);
    assert_eq!(bytes, b"version\n");
    assert_eq!(state.pending(), 1);

    match state.handle_line(b"version=3.13.7 build=1655727713\n\r").unwrap() {
        LineOutcome::Buffered => {}
        other => panic!("unexpected outcome: {other:?}"),
    }
    match state.handle_line(b"error id=0 msg=ok\n\r").unwrap() {
        LineOutcome::Response(_, response) => {
            assert!(response.is_ok());
            assert_eq!(response.lines, vec!["version=3.13.7 build=1655727713".to_owned()]);
        }
        other => panic!("unexpected outcome: {other:?}"),
    }
    assert_eq!(state.pending(), 0);
}

#[test]
fn responses_go_to_commands_in_order() {
    let mut state = running();
    let (first, _) = state.send_command(&Command::raw("whoami").unwrap());
    let (second, _) = state.send_command(&Command::raw("version").unwrap());
    assert!(first < second);
    assert_eq!(state.pending(), 2);
    assert_eq!(state.next_request(), 2);
    match state.handle_line(b"error id=0 msg=ok\n\r").unwrap() {
        LineOutcome::Response(id, response) => {
            assert_eq!(id, first);
            assert!(response.lines.is_empty());
        }
        other => panic!("unexpected outcome: {other:?}"),
    }
    assert_eq!(state.pending(), 1);
    state.handle_line(b"line\n\r").unwrap();
    match state.handle_line(b"error id=1 msg=x\n\r").unwrap() {
        LineOutcome::Response(id, response) => {
            assert_eq!(id, second);
            assert_eq!(response.lines, vec!["line".to_owned()]);
            assert_eq!(response.id(), Some(1));
        }
        other => panic!("unexpected outcome: {other:?}"),
    }
}

#[test]
fn broadcasts_notifications() {
    let mut state = running();
    match state.handle_line(b"notifytextmessage targetmode=1 msg=hi\\sthere\n\r").unwrap() {
        LineOutcome::Event(event) => {
            assert_eq!(event.name, "notifytextmessage");
            assert_eq!(event.fields.get("msg").unwrap(), "hi there");
        }
        other => panic!("unexpected outcome: {other:?}"),
    }
    assert_eq!(state.pending(), 0);
}

#[test]
fn rejects_lines_it_cannot_place() {
    let mut state = running();
    match state.handle_line(b"stray\n\r") {
        Err(ConnectionError::Protocol(message)) => {
            assert_eq!(message, "received response line without a pending request: `stray`")
        }
        other => panic!("unexpected result: {other:?}"),
    }
    match state.handle_line(b"error id=0 msg=ok\n\r") {
        Err(ConnectionError::Protocol(message)) => {
            assert_eq!(message, "received response without a pending request")
        }
        other => panic!("unexpected result: {other:?}"),
    }
    match state.handle_line(b"notifyonly\n\r") {
        Err(ConnectionError::Protocol(message)) => assert_eq!(message, "received event without fields"),
        other => panic!("unexpected result: {other:?}"),
    }
    match state.handle_line(b"\xff\xfe\n\r") {
        Err(ConnectionError::Protocol(message)) => assert_eq!(message, "received non-UTF-8 line"),
        other => panic!("unexpected result: {other:?}"),
    }
    assert!(matches!(
        state.handle_line(b"notifyx a=\\q\n\r"),
        Err(ConnectionError::Escape(_))
    ));
}

#[test]
fn startup_errors() {
    let mut state = ConnectionState::new();
    assert!(matches!(state.startup_line(0), Err(ConnectionError::Closed)));
    match state.startup_timeout() {
        ConnectionError::Protocol(message) => {
            assert_eq!(message, "timed out waiting for startup line 1")
        }
        other => panic!("unexpected error: {other:?}"),
    }
    state.startup_line(5).unwrap();
    match state.startup_timeout() {
        ConnectionError::Protocol(message) => {
            assert_eq!(message, "timed out waiting for startup line 2")
        }
        other => panic!("unexpected error: {other:?}"),
    }
}

#[test]
fn finishes_when_both_directions_end() {
    let mut state = running();
    assert!(state.accepts_commands() && state.accepts_lines());
    state.close_reader();
    assert!(!state.accepts_lines() && !state.is_finished());
    state.close_commands();
    assert!(!state.accepts_commands() && state.is_finished());
}

#[test]
fn trims_only_line_terminators() {
    let mut state = running();
    state.send_command(&Command::raw("x").unwrap());
    state.handle_line(b"a b\n\r\n\r").unwrap();
    state.handle_line(b"tail").unwrap();
    state.handle_line(b"\r").unwrap();
    match state.handle_line(b"error id=0\n\r").unwrap() {
        LineOutcome::Response(_, response) => {
            assert_eq!(response.lines, vec!["a b".to_owned(), "tail".to_owned(), "\r".to_owned()]);
            assert_eq!(response.message(), None);
        }
        other => panic!("unexpected outcome: {other:?}"),
    }
}

#[test]
fn each_command_is_sent_as_one_line() {
    let mut state = running();
    let command = Command::new("sendtextmessage")
        .unwrap()
        .arg("msg", "first\nsecond\r\nthird ünï")
        .unwrap();
    let (_, bytes) = state.send_command(&command);
    assert_eq!(bytes.last(), Some(&b'\n'));
    assert_eq!(bytes.iter().filter(|b| **b == b'\n').count(), 1);
    assert_eq!(&bytes[..bytes.len() - 1], command.as_str().as_bytes());
}
