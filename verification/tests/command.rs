use ts_server_query::{Command, CommandError};

#[test]
fn raw_accepts_single_line_command() {
    let command = Command::raw("channellist -topic").unwrap();

    assert_eq!(command.as_str(), "channellist -topic");
}

#[test]
fn raw_allows_empty_command() {
    let command = Command::raw("").unwrap();

    assert_eq!(command.as_str(), "");
}

#[test]
fn raw_rejects_multiline_command() {
    assert!(matches!(
        Command::raw("whoami\nquit"),
        Err(CommandError::ContainsLineBreak)
    ));
}

#[test]
fn structured_command_escapes_arg_values() {
    let command = Command::new("clientupdate")
        .unwrap()
        .arg("client_nickname", "Query Bot | Admin")
        .unwrap()
        .option("away")
        .unwrap();

    assert_eq!(
        command.as_str(),
        r"clientupdate client_nickname=Query\sBot\s\p\sAdmin -away"
    );
}

#[test]
fn structured_command_rejects_special_chars_in_names() {
    assert!(matches!(
        Command::new("client update"),
        Err(CommandError::SpecialCharacter { .. })
    ));
    assert!(matches!(
        Command::new("clientupdate").unwrap().arg("bad name", "value"),
        Err(CommandError::SpecialCharacter { .. })
    ));
    assert!(matches!(
        Command::new("clientupdate").unwrap().option("bad|option"),
        Err(CommandError::SpecialCharacter { .. })
    ));
}

#[test]
fn raw_rejects_carriage_return() {
    assert_eq!(Command::raw("whoami\r"), Err(CommandError::ContainsLineBreak));
}

#[test]
fn names_report_their_kind() {
    assert_eq!(Command::new(""), Err(CommandError::EmptyName { kind: "command name" }));
    assert_eq!(
        Command::new("use").unwrap().arg("", "1"),
        Err(CommandError::EmptyName { kind: "argument name" })
    );
    assert_eq!(
        Command::new("use").unwrap().option(""),
        Err(CommandError::EmptyName { kind: "option name" })
    );
    assert_eq!(
        Command::new("use").unwrap().arg("sid\n", "1"),
        Err(CommandError::SpecialCharacter { kind: "argument name", name: "sid\n".to_owned() })
    );
    assert_eq!(
        Command::new("a/b"),
        Err(CommandError::SpecialCharacter { kind: "command name", name: "a/b".to_owned() })
    );
}

#[test]
fn argument_values_with_line_breaks_stay_on_one_line() {
    let command = Command::new("sendtextmessage")
        .unwrap()
        .arg("msg", "line one\nline two\r")
        .unwrap();
    assert_eq!(command.as_str(), r"sendtextmessage msg=line\sone\nline\stwo\r");
    assert!(!command.as_str().contains('\n'));
}

#[test]
fn cloned_command_has_the_same_text() {
    let command = Command::new("version").unwrap().arg("a", "").unwrap();
    let copy = command.clone();
    assert_eq!(copy.as_str(), "version a=");
    assert_eq!(copy, command);
}
