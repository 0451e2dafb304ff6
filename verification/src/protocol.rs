//! Parsing of ServerQuery field lists and notification lines.
use vstd::prelude::*;

use crate::error::ConnectionError;
use crate::command::is_valid_name;
use crate::escaping::{
    escape_char, lemma_unescape_escape, spec_escape, spec_is_special,
    spec_unescape, unescape, EscapeError, ESCAPE_CHARACTER,
};
use crate::fields::Fields;
use crate::text::{
    find_char, first_index_of, lemma_first_index_of, push_char, starts_with, str_starts_with, views,
};

verus! {

/// A character with the Unicode `White_Space` property.
pub open spec fn spec_is_whitespace(c: char) -> bool {
    ||| ('\u{9}' <= c && c <= '\u{d}')
    ||| c == ' '
    ||| c == '\u{85}'
    ||| c == '\u{a0}'
    ||| c == '\u{1680}'
    ||| ('\u{2000}' <= c && c <= '\u{200a}')
    ||| c == '\u{2028}'
    ||| c == '\u{2029}'
    ||| c == '\u{202f}'
    ||| c == '\u{205f}'
    ||| c == '\u{3000}'
}

/// The maximal runs of non-whitespace characters of `s`, the first one
/// continuing the run `current` that was read before `s`.
pub open spec fn split_whitespace_from(s: Seq<char>, current: Seq<char>) -> Seq<Seq<char>>
    decreases s.len(),
{
    let done = if current.len() == 0 {
        Seq::<Seq<char>>::empty()
    } else {
        seq![current]
    };
    if s.len() == 0 {
        done
    } else if spec_is_whitespace(s[0]) {
        done + split_whitespace_from(s.drop_first(), seq![])
    } else {
        split_whitespace_from(s.drop_first(), current.push(s[0]))
    }
}

/// The whitespace-separated words of `s`.
pub open spec fn spec_split_whitespace(s: Seq<char>) -> Seq<Seq<char>> {
    split_whitespace_from(s, seq![])
}

/// One `key=value` word, both sides unescaped (the key first); a word
/// without `=` is a key with an empty value.
pub open spec fn spec_field_entry(word: Seq<char>) -> Result<(Seq<char>, Seq<char>), EscapeError> {
    match first_index_of(word, '=') {
        Some(p) => match spec_unescape(word.take(p)) {
            Ok(k) => match spec_unescape(word.skip(p + 1)) {
                Ok(v) => Ok((k, v)),
                Err(e) => Err(e),
            },
            Err(e) => Err(e),
        },
        None => match spec_unescape(word) {
            Ok(k) => Ok((k, seq![])),
            Err(e) => Err(e),
        },
    }
}

/// The fields of a list of words, inserted left to right; the first word
/// that fails to unescape gives the error.
pub open spec fn spec_fields_of(words: Seq<Seq<char>>) -> Result<Map<Seq<char>, Seq<char>>, EscapeError>
    decreases words.len(),
{
    if words.len() == 0 {
        Ok(Map::empty())
    } else {
        match spec_fields_of(words.drop_last()) {
            Ok(m) => match spec_field_entry(words.last()) {
                Ok((k, v)) => Ok(m.insert(k, v)),
                Err(e) => Err(e),
            },
            Err(e) => Err(e),
        }
    }
}

/// The fields of a whitespace-separated `key=value` list.
pub open spec fn spec_parse_fields(s: Seq<char>) -> Result<Map<Seq<char>, Seq<char>>, EscapeError> {
    spec_fields_of(spec_split_whitespace(s))
}

/// The text before the first space and, if there is a space, the text after it.
pub open spec fn split_first_space(s: Seq<char>) -> (Seq<char>, Option<Seq<char>>) {
    match first_index_of(s, ' ') {
        Some(p) => (s.take(p), Some(s.skip(p + 1))),
        None => (s, None),
    }
}

/// A notification name: starts with `notify` and has more after it.
pub open spec fn is_notification_name(name: Seq<char>) -> bool {
    starts_with(name, "notify"@) && name != "notify"@
}

/// A ServerQuery notification.
#[derive(Clone, Debug, PartialEq, Eq)]
pub struct Event {
    pub name: String,
    pub fields: Fields,
}

/// Returns whether `c` is whitespace, as `char::is_whitespace` decides it.
pub fn is_whitespace(c: char) -> (res: bool)
    ensures
        res == spec_is_whitespace(c),
{
    match c {
        '\u{9}'..='\u{d}' | ' ' | '\u{85}' | '\u{a0}' | '\u{1680}' | '\u{2000}'..='\u{200a}'
        | '\u{2028}' | '\u{2029}' | '\u{202f}' | '\u{205f}' | '\u{3000}' => true,
        _ => false,
    }
}

/// Splits `input` into its whitespace-separated words.
pub fn split_whitespace(input: &str) -> (res: Vec<String>)
    ensures
        views(res@) == spec_split_whitespace(input@),
{
    let mut words: Vec<String> = Vec::new();
    let mut current = String::new();
    proof {
        assert(input@.skip(0) =~= input@);
        assert(views(words@) =~= Seq::<Seq<char>>::empty());
        assert(current@ =~= Seq::<char>::empty());
        assert(Seq::<Seq<char>>::empty() + spec_split_whitespace(input@) =~= spec_split_whitespace(
            input@,
        ));
    }
    for ch in it: input.chars()
        invariant
            it.seq() == input@,
            views(words@) + split_whitespace_from(input@.skip(it.index()), current@)
                == spec_split_whitespace(input@),
    {
        let ghost i = it.index();
        let ghost rest = input@.skip(i);
        proof {
            assert(rest[0] == ch);
            assert(rest.drop_first() =~= input@.skip(i + 1));
        }
        if is_whitespace(ch) {
            if current.unicode_len() > 0 {
                let ghost before = words@;
                let word = current;
                current = String::new();
                words.push(word);
                proof {
                    assert(views(words@) =~= views(before) + seq![word@]);
                    assert(views(words@) + split_whitespace_from(input@.skip(i + 1), current@)
                        =~= views(before) + (seq![word@] + split_whitespace_from(input@.skip(i + 1), seq![])));
                }
            } else {
                proof {
                    assert(current@ =~= Seq::<char>::empty());
                    assert(Seq::<Seq<char>>::empty() + split_whitespace_from(input@.skip(i + 1), seq![])
                        =~= split_whitespace_from(input@.skip(i + 1), seq![]));
                }
            }
        } else {
            push_char(&mut current, ch);
        }
    }
    proof {
        assert(input@.skip(input@.len() as int) =~= Seq::<char>::empty());
    }
    if current.unicode_len() > 0 {
        let ghost before = words@;
        words.push(current);
        proof {
            assert(views(words@) =~= views(before) + seq![words@.last()@]);
        }
    } else {
        proof {
            assert(views(words@) + Seq::<Seq<char>>::empty() =~= views(words@));
        }
    }
    words
}

/// Parses one `key=value` word.
pub fn parse_field_entry(word: &str) -> (res: Result<(String, String), EscapeError>)
    ensures
        match res {
            Ok((k, v)) => spec_field_entry(word@) == Ok::<(Seq<char>, Seq<char>), EscapeError>((k@, v@)),
            Err(e) => spec_field_entry(word@) == Err::<(Seq<char>, Seq<char>), EscapeError>(e),
        },
{
    match find_char(word, '=') {
        Some(p) => {
            let len = word.unicode_len();
            let key = unescape(word.substring_char(0, p))?;
            let value = unescape(word.substring_char(p + 1, len))?;
            Ok((key, value))
        },
        None => {
            let key = unescape(word)?;
            Ok((key, String::new()))
        },
    }
}

/// Parses a whitespace-separated list of `key=value` words.
pub fn parse_fields(input: &str) -> (res: Result<Fields, EscapeError>)
    ensures
        match res {
            Ok(f) => spec_parse_fields(input@) == Ok::<Map<Seq<char>, Seq<char>>, EscapeError>(f@),
            Err(e) => spec_parse_fields(input@) == Err::<Map<Seq<char>, Seq<char>>, EscapeError>(e),
        },
{
    let words = split_whitespace(input);
    let ghost ws = views(words@);
    let mut fields = Fields::new();
    let mut i: usize = 0;
    while i < words.len()
        invariant
            i <= words@.len(),
            ws == views(words@),
            ws == spec_split_whitespace(input@),
            spec_fields_of(ws.take(i as int)) == Ok::<Map<Seq<char>, Seq<char>>, EscapeError>(fields@),
        decreases words@.len() - i,
    {
        proof {
            assert(ws.take(i + 1).drop_last() =~= ws.take(i as int));
            assert(ws.take(i + 1).last() == words@[i as int]@);
        }
        let entry = parse_field_entry(words[i].as_str());
        match entry {
            Ok((key, value)) => {
                fields.insert(key, value);
            },
            Err(e) => {
                proof {
                    lemma_fields_error_sticks(ws, i as int + 1);
                }
                return Err(e);
            },
        }
        i = i + 1;
    }
    proof {
        assert(ws.take(words@.len() as int) =~= ws);
    }
    Ok(fields)
}

/// Once a word fails, the whole list fails with its error.
proof fn lemma_fields_error_sticks(words: Seq<Seq<char>>, i: int)
    requires
        0 <= i <= words.len(),
        spec_fields_of(words.take(i)) is Err,
    ensures
        spec_fields_of(words) == spec_fields_of(words.take(i)),
    decreases words.len() - i,
{
    if i < words.len() {
        assert(words.take(i + 1).drop_last() =~= words.take(i));
        lemma_fields_error_sticks(words, i + 1);
    } else {
        assert(words.take(i) =~= words);
    }
}

/// Text without whitespace is one word, unless it is empty.
proof fn lemma_split_without_whitespace(s: Seq<char>, current: Seq<char>)
    requires
        forall|i: int| 0 <= i < s.len() ==> !spec_is_whitespace(#[trigger] s[i]),
    ensures
        split_whitespace_from(s, current) == if current.len() + s.len() == 0 {
            Seq::<Seq<char>>::empty()
        } else {
            seq![current + s]
        },
    decreases s.len(),
{
    if s.len() == 0 {
        assert(current + s =~= current);
    } else {
        assert(!spec_is_whitespace(s[0]));
        lemma_split_without_whitespace(s.drop_first(), current.push(s[0]));
        assert(current.push(s[0]) + s.drop_first() =~= current + s);
    }
}

/// Escaping leaves no whitespace in a text whose whitespace is all escaped.
proof fn lemma_escape_without_whitespace(s: Seq<char>)
    requires
        forall|i: int| 0 <= i < s.len() ==> spec_is_whitespace(#[trigger] s[i]) ==> spec_is_special(s[i]),
    ensures
        forall|i: int| 0 <= i < spec_escape(s).len() ==> !spec_is_whitespace(#[trigger] spec_escape(s)[i]),
    decreases s.len(),
{
    if s.len() > 0 {
        let rest = s.drop_first();
        assert forall|i: int| 0 <= i < rest.len() implies spec_is_whitespace(#[trigger] rest[i])
            ==> spec_is_special(rest[i]) by {
            assert(rest[i] == s[i + 1]);
        }
        lemma_escape_without_whitespace(rest);
        let head = escape_char(s[0]);
        let tail = spec_escape(rest);
        assert(spec_escape(s) == head + tail);
        assert(spec_is_whitespace(s[0]) ==> spec_is_special(s[0]));
        assert forall|i: int| 0 <= i < spec_escape(s).len() implies !spec_is_whitespace(
            #[trigger] spec_escape(s)[i],
        ) by {
            if i >= head.len() {
                assert(spec_escape(s)[i] == tail[i - head.len()]);
            }
        }
    }
}

/// Text without the escape character unescapes to itself.
proof fn lemma_unescape_plain(s: Seq<char>)
    requires
        forall|i: int| 0 <= i < s.len() ==> #[trigger] s[i] != ESCAPE_CHARACTER,
    ensures
        spec_unescape(s) == Ok::<Seq<char>, EscapeError>(s),
    decreases s.len(),
{
    if s.len() == 0 {
        assert(s =~= Seq::<char>::empty());
    } else {
        let rest = s.drop_first();
        assert forall|i: int| 0 <= i < rest.len() implies #[trigger] rest[i] != ESCAPE_CHARACTER by {
            assert(rest[i] == s[i + 1]);
        }
        lemma_unescape_plain(rest);
        assert(s[0] != ESCAPE_CHARACTER);
        assert(seq![s[0]] + rest =~= s);
    }
}

/// An argument as a command writes it, `name=` and the escaped value, reads
/// back as the field `name` with the value itself, when the name holds no `=`
/// and no whitespace and every whitespace character of the value is one that
/// escaping replaces.
pub proof fn lemma_argument_reads_back(name: Seq<char>, value: Seq<char>)
    requires
        is_valid_name(name),
        forall|i: int| 0 <= i < name.len() ==> #[trigger] name[i] != '=' && !spec_is_whitespace(name[i]),
        forall|i: int|
            0 <= i < value.len() ==> spec_is_whitespace(#[trigger] value[i]) ==> spec_is_special(value[i]),
    ensures
        spec_parse_fields(name + seq!['='] + spec_escape(value)) == Ok::<
            Map<Seq<char>, Seq<char>>,
            EscapeError,
        >(Map::empty().insert(name, value)),
{
    let escaped = spec_escape(value);
    let word = name + seq!['='] + escaped;
    lemma_escape_without_whitespace(value);
    assert forall|i: int| 0 <= i < word.len() implies !spec_is_whitespace(#[trigger] word[i]) by {
        if i > name.len() {
            assert(word[i] == escaped[i - name.len() - 1]);
        } else if i < name.len() {
            assert(word[i] == name[i]);
        }
    }
    lemma_split_without_whitespace(word, seq![]);
    assert(Seq::<char>::empty() + word =~= word);
    let words = spec_split_whitespace(word);
    assert(words == seq![word]);
    assert forall|j: int| 0 <= j < name.len() implies word[j] != '=' by {
        assert(word[j] == name[j]);
    }
    lemma_first_index_of(word, '=', name.len() as int);
    assert(word.take(name.len() as int) =~= name);
    assert(word.skip(name.len() as int + 1) =~= escaped);
    assert forall|i: int| 0 <= i < name.len() implies #[trigger] name[i] != ESCAPE_CHARACTER by {
        assert(!spec_is_special(name[i]));
    }
    lemma_unescape_plain(name);
    lemma_unescape_escape(value);
    assert(word[name.len() as int] == '=');
    assert(first_index_of(word, '=') == Some(name.len() as int));
    assert(spec_field_entry(word) == Ok::<(Seq<char>, Seq<char>), EscapeError>((name, value)));
    assert(words.drop_last() =~= Seq::<Seq<char>>::empty());
    assert(spec_fields_of(Seq::<Seq<char>>::empty()) == Ok::<Map<Seq<char>, Seq<char>>, EscapeError>(
        Map::empty(),
    ));
    assert(words.last() == word);
}

/// Among ASCII characters, the separators are exactly space and the control
/// characters TAB, LF, VT, FF and CR; no ASCII letter, digit or punctuation
/// separates words.
pub proof fn lemma_ascii_whitespace(c: char)
    requires
        (c as u32) < 128,
    ensures
        spec_is_whitespace(c) <==> (c == ' ' || c == '\t' || c == '\n' || c == '\u{b}' || c
            == '\u{c}' || c == '\r'),
{
}

/// A word of printable ASCII characters (`!` to `~`) is never split.
pub proof fn lemma_printable_word(s: Seq<char>)
    requires
        s.len() > 0,
        forall|i: int| 0 <= i < s.len() ==> '!' <= #[trigger] s[i] && s[i] <= '~',
    ensures
        spec_split_whitespace(s) == seq![s],
{
    assert forall|i: int| 0 <= i < s.len() implies !spec_is_whitespace(#[trigger] s[i]) by {
        assert('!' <= s[i] && s[i] <= '~');
    }
    lemma_split_without_whitespace(s, seq![]);
    assert(Seq::<char>::empty() + s =~= s);
}

/// A printable `key=value` word without escape sequences is the one field
/// `key` with value `value`; later `=` signs belong to the value.
pub proof fn lemma_printable_field(key: Seq<char>, value: Seq<char>)
    requires
        key.len() > 0,
        forall|i: int|
            0 <= i < key.len() ==> '!' <= #[trigger] key[i] && key[i] <= '~' && key[i] != '='
                && key[i] != '\\',
        forall|i: int|
            0 <= i < value.len() ==> '!' <= #[trigger] value[i] && value[i] <= '~' && value[i]
                != '\\',
    ensures
        spec_parse_fields(key + seq!['='] + value) == Ok::<Map<Seq<char>, Seq<char>>, EscapeError>(
            Map::empty().insert(key, value),
        ),
{
    let word = key + seq!['='] + value;
    assert forall|i: int| 0 <= i < word.len() implies '!' <= #[trigger] word[i] && word[i] <= '~' by {
        if i < key.len() {
            assert(word[i] == key[i]);
        } else if i > key.len() {
            assert(word[i] == value[i - key.len() - 1]);
        }
    }
    lemma_printable_word(word);
    let words = spec_split_whitespace(word);
    assert forall|j: int| 0 <= j < key.len() implies word[j] != '=' by {
        assert(word[j] == key[j]);
    }
    lemma_first_index_of(word, '=', key.len() as int);
    assert(word.take(key.len() as int) =~= key);
    assert(word.skip(key.len() as int + 1) =~= value);
    lemma_unescape_plain(key);
    lemma_unescape_plain(value);
    assert(spec_field_entry(word) == Ok::<(Seq<char>, Seq<char>), EscapeError>((key, value)));
    assert(words.drop_last() =~= Seq::<Seq<char>>::empty());
    assert(spec_fields_of(Seq::<Seq<char>>::empty()) == Ok::<Map<Seq<char>, Seq<char>>, EscapeError>(
        Map::empty(),
    ));
}

/// Parses a notification line: its name, then its fields.
pub fn parse_event(line: &str) -> (res: Result<Event, ConnectionError>)
    ensures
        ({
            let (name, rest) = split_first_space(line@);
            match res {
                Ok(event) => {
                    &&& is_notification_name(name)
                    &&& event.name@ == name
                    &&& match rest {
                        Some(r) => spec_parse_fields(r) == Ok::<Map<Seq<char>, Seq<char>>, EscapeError>(event.fields@),
                        None => event.fields@ == Map::<Seq<char>, Seq<char>>::empty(),
                    }
                },
                Err(ConnectionError::Protocol(msg)) => {
                    &&& !is_notification_name(name)
                    &&& msg@ == "invalid notification line: `"@ + line@ + "`"@
                },
                Err(ConnectionError::Escape(e)) => {
                    &&& is_notification_name(name)
                    &&& rest matches Some(r)
                    &&& spec_parse_fields(r) == Err::<Map<Seq<char>, Seq<char>>, EscapeError>(e)
                },
                Err(_) => false,
            }
        }),
{
    let len = line.unicode_len();
    let space = find_char(line, ' ');
    let name = match space {
        Some(p) => line.substring_char(0, p),
        None => line,
    };
    let name_string = name.to_owned();
    if name_string == "notify".to_owned() || !str_starts_with(name, "notify") {
        let mut message = "invalid notification line: `".to_owned();
        message.append(line);
        message.append("`");
        return Err(ConnectionError::Protocol(message));
    }
    let fields = match space {
        Some(p) => match parse_fields(line.substring_char(p + 1, len)) {
            Ok(fields) => fields,
            Err(e) => return Err(ConnectionError::Escape(e)),
        },
        None => Fields::new(),
    };
    Ok(Event { name: name_string, fields })
}

} // verus!
