use ts_server_query::escaping::EscapeError as EscapeErrorByPath;
use ts_server_query::{escape, is_special_character, unescape, EscapeError, ESCAPE_CHARACTER};

#[test]
fn escapes_and_unescapes_server_query_values() {
    let value = "Lobby / Alpha | beta\nnext";
    let escaped = escape(value);

    assert_eq!(escaped, r"Lobby\s\/\sAlpha\s\p\sbeta\nnext");
    assert_eq!(unescape(&escaped).unwrap(), value);
}

#[test]
fn exposes_special_character_list() {
    assert!(is_special_character(' '));
    assert!(is_special_character('|'));
    assert!(!is_special_character('A'));
}

#[test]
fn rejects_unknown_escape_sequence() {
    assert_eq!(
        unescape(r"Alice\xSmith"),
        Err(EscapeError::UnknownSequence('x'))
    );
}

#[test]
fn rejects_unterminated_escape_sequence() {
    assert_eq!(unescape("trailing\\"), Err(EscapeErrorByPath::UnterminatedSequence));
}

#[test]
fn escapes_every_table_entry() {
    let plain = "\\/ |\u{7}\u{8}\u{c}\n\r\t\u{b}";
    assert_eq!(escape(plain), r"\\\/\s\p\a\b\f\n\r\t\v");
    assert_eq!(unescape(r"\\\/\s\p\a\b\f\n\r\t\v").unwrap(), plain);
    for ch in plain.chars() {
        assert!(is_special_character(ch));
    }
    assert_eq!(ESCAPE_CHARACTER, '\\');
}

#[test]
fn leaves_plain_text_alone() {
    assert_eq!(escape(""), "");
    assert_eq!(escape("plain-text_äö"), "plain-text_äö");
    assert_eq!(unescape("plain-text_äö").unwrap(), "plain-text_äö");
    assert!(!is_special_character('s'));
    assert!(!is_special_character('\u{a0}'));
}

#[test]
fn unescape_of_escape_gives_the_text_back() {
    for value in ["", "a b", "x|y\\z/", "tab\there\r\n", "ünï cödé \u{7}\u{b}"] {
        assert_eq!(unescape(&escape(value)).unwrap(), value);
    }
}

#[test]
fn escaped_text_has_no_separators() {
    let escaped = escape("a b|c\nd\re\tf");
    assert!(!escaped.contains(' '));
    assert!(!escaped.contains('|'));
    assert!(!escaped.contains('\n'));
    assert!(!escaped.contains('\r'));
}

#[test]
fn unescape_stops_at_the_first_bad_sequence() {
    assert_eq!(unescape(r"\q\s\"), Err(EscapeError::UnknownSequence('q')));
    assert_eq!(unescape(r"\s\"), Err(EscapeError::UnterminatedSequence));
}
