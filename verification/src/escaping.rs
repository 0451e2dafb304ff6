//! ServerQuery escaping of argument values and response fields.
use vstd::prelude::*;

use crate::text::push_char;

verus! {

/// The character that starts every escape sequence.
pub const ESCAPE_CHARACTER: char = '\\';

/// Error returned by [`unescape`].
#[derive(Clone, Debug, PartialEq, Eq, Structural)]
pub enum EscapeError {
    /// The input ends right after an escape character.
    UnterminatedSequence,
    /// The escape character is followed by a character that names no escape.
    UnknownSequence(char),
}

/// The escape table: the character written after `\` for each plain character
/// that has to be escaped, or `None` when the character stands for itself.
pub open spec fn spec_escaped_for_plain(ch: char) -> Option<char> {
    if ch == '\\' {
        Some('\\')
    } else if ch == '/' {
        Some('/')
    } else if ch == ' ' {
        Some('s')
    } else if ch == '|' {
        Some('p')
    } else if ch == '\u{7}' {
        Some('a')
    } else if ch == '\u{8}' {
        Some('b')
    } else if ch == '\u{c}' {
        Some('f')
    } else if ch == '\n' {
        Some('n')
    } else if ch == '\r' {
        Some('r')
    } else if ch == '\t' {
        Some('t')
    } else if ch == '\u{b}' {
        Some('v')
    } else {
        None
    }
}

/// The escape table read backwards: the plain character that `\` followed by
/// `ch` stands for, if any.
pub open spec fn spec_plain_for_escaped(ch: char) -> Option<char> {
    if ch == '\\' {
        Some('\\')
    } else if ch == '/' {
        Some('/')
    } else if ch == 's' {
        Some(' ')
    } else if ch == 'p' {
        Some('|')
    } else if ch == 'a' {
        Some('\u{7}')
    } else if ch == 'b' {
        Some('\u{8}')
    } else if ch == 'f' {
        Some('\u{c}')
    } else if ch == 'n' {
        Some('\n')
    } else if ch == 'r' {
        Some('\r')
    } else if ch == 't' {
        Some('\t')
    } else if ch == 'v' {
        Some('\u{b}')
    } else {
        None
    }
}

/// The two readings of the escape table are inverse: `\` followed by `e`
/// stands for `c` exactly when `c` is escaped as `\` followed by `e`.
pub proof fn lemma_escape_table_inverse(c: char, e: char)
    ensures
        spec_plain_for_escaped(e) == Some(c) <==> spec_escaped_for_plain(c) == Some(e),
{
}

/// A character that has to be escaped in ServerQuery values.
pub open spec fn spec_is_special(ch: char) -> bool {
    spec_escaped_for_plain(ch) is Some
}

/// The escaped form of one character.
pub open spec fn escape_char(ch: char) -> Seq<char> {
    match spec_escaped_for_plain(ch) {
        Some(e) => seq![ESCAPE_CHARACTER, e],
        None => seq![ch],
    }
}

/// The escaped form of a text: each character replaced by its escaped form.
pub open spec fn spec_escape(s: Seq<char>) -> Seq<char>
    decreases s.len(),
{
    if s.len() == 0 {
        seq![]
    } else {
        escape_char(s[0]) + spec_escape(s.drop_first())
    }
}

/// `Ok(prefix + r)` for `Ok(r)`, the error otherwise.
pub open spec fn prepend_ok(prefix: Seq<char>, r: Result<Seq<char>, EscapeError>) -> Result<
    Seq<char>,
    EscapeError,
> {
    match r {
        Ok(rest) => Ok(prefix + rest),
        Err(e) => Err(e),
    }
}

/// The decoded form of an escaped text, read from the left; the first
/// malformed escape sequence gives the error.
pub open spec fn spec_unescape(s: Seq<char>) -> Result<Seq<char>, EscapeError>
    decreases s.len(),
{
    if s.len() == 0 {
        Ok(seq![])
    } else if s[0] != ESCAPE_CHARACTER {
        prepend_ok(seq![s[0]], spec_unescape(s.drop_first()))
    } else if s.len() == 1 {
        Err(EscapeError::UnterminatedSequence)
    } else {
        match spec_plain_for_escaped(s[1]) {
            Some(plain) => prepend_ok(seq![plain], spec_unescape(s.skip(2))),
            None => Err(EscapeError::UnknownSequence(s[1])),
        }
    }
}

/// Returns whether `ch` has to be escaped in ServerQuery values.
pub fn is_special_character(ch: char) -> (res: bool)
    ensures
        res == spec_is_special(ch),
{
    escaped_for_plain(ch).is_some()
}

fn escaped_for_plain(ch: char) -> (res: Option<char>)
    ensures
        res == spec_escaped_for_plain(ch),
{
    match ch {
        '\\' => Some('\\'),
        '/' => Some('/'),
        ' ' => Some('s'),
        '|' => Some('p'),
        '\u{7}' => Some('a'),
        '\u{8}' => Some('b'),
        '\u{c}' => Some('f'),
        '\n' => Some('n'),
        '\r' => Some('r'),
        '\t' => Some('t'),
        '\u{b}' => Some('v'),
        _ => None,
    }
}

fn plain_for_escaped(ch: char) -> (res: Option<char>)
    ensures
        res == spec_plain_for_escaped(ch),
{
    match ch {
        '\\' => Some('\\'),
        '/' => Some('/'),
        's' => Some(' '),
        'p' => Some('|'),
        'a' => Some('\u{7}'),
        'b' => Some('\u{8}'),
        'f' => Some('\u{c}'),
        'n' => Some('\n'),
        'r' => Some('\r'),
        't' => Some('\t'),
        'v' => Some('\u{b}'),
        _ => None,
    }
}

/// Escaping distributes over concatenation.
pub proof fn lemma_escape_append(a: Seq<char>, b: Seq<char>)
    ensures
        spec_escape(a + b) == spec_escape(a) + spec_escape(b),
    decreases a.len(),
{
    if a.len() == 0 {
        assert(a + b =~= b);
    } else {
        lemma_escape_append(a.drop_first(), b);
        assert((a + b).drop_first() =~= a.drop_first() + b);
        assert(spec_escape(a + b) =~= escape_char(a[0]) + spec_escape(a.drop_first() + b));
    }
}

/// Decoding the escaped form of a text gives the text back.
pub proof fn lemma_unescape_escape(s: Seq<char>)
    ensures
        spec_unescape(spec_escape(s)) == Ok::<Seq<char>, EscapeError>(s),
    decreases s.len(),
{
    if s.len() == 0 {
        assert(spec_escape(s) =~= Seq::<char>::empty());
        assert(s =~= Seq::<char>::empty());
    } else {
        let rest = s.drop_first();
        lemma_unescape_escape(rest);
        let e = spec_escape(s);
        assert(e == escape_char(s[0]) + spec_escape(rest));
        match spec_escaped_for_plain(s[0]) {
            Some(c) => {
                assert(e[0] == ESCAPE_CHARACTER && e[1] == c);
                assert(e.skip(2) =~= spec_escape(rest));
                assert(spec_plain_for_escaped(c) == Some(s[0]));
                assert(e.len() >= 2);
                assert(spec_unescape(e) == prepend_ok(seq![s[0]], spec_unescape(e.skip(2))));
            },
            None => {
                assert(e[0] == s[0]);
                assert(e.drop_first() =~= spec_escape(rest));
                assert(s[0] != ESCAPE_CHARACTER);
                assert(spec_unescape(e) == prepend_ok(seq![s[0]], spec_unescape(e.drop_first())));
            },
        }
        assert(seq![s[0]] + rest =~= s);
    }
}

/// The escaped form of a text holds no special character but the escape
/// character itself and `/`: in particular no space, no `|` and no line break.
pub proof fn lemma_escape_has_no_separators(s: Seq<char>)
    ensures
        forall|i: int|
            0 <= i < spec_escape(s).len() ==> {
                let c = #[trigger] spec_escape(s)[i];
                !spec_is_special(c) || c == ESCAPE_CHARACTER || c == '/'
            },
    decreases s.len(),
{
    if s.len() > 0 {
        lemma_escape_has_no_separators(s.drop_first());
        let head = escape_char(s[0]);
        let tail = spec_escape(s.drop_first());
        assert(spec_escape(s) == head + tail);
        assert forall|i: int| 0 <= i < spec_escape(s).len() implies {
            let c = #[trigger] spec_escape(s)[i];
            !spec_is_special(c) || c == ESCAPE_CHARACTER || c == '/'
        } by {
            if i >= head.len() {
                assert(spec_escape(s)[i] == tail[i - head.len()]);
            }
        }
    }
}

/// The special characters are exactly the eleven of the ServerQuery table:
/// `\\`, `/`, space, `|`, BEL, BS, FF, LF, CR, TAB and VT.
pub proof fn lemma_special_characters(c: char)
    ensures
        spec_is_special(c) <==> (c == '\\' || c == '/' || c == ' ' || c == '|' || c == '\u{7}' || c
            == '\u{8}' || c == '\u{c}' || c == '\n' || c == '\r' || c == '\t' || c == '\u{b}'),
{
}

/// Escaping leaves a text unchanged when it holds none of the eleven
/// characters of the ServerQuery table.
pub proof fn lemma_escape_leaves_plain_text(s: Seq<char>)
    requires
        forall|i: int|
            0 <= i < s.len() ==> {
                let c = #[trigger] s[i];
                !(c == '\\' || c == '/' || c == ' ' || c == '|' || c == '\u{7}' || c == '\u{8}' || c
                    == '\u{c}' || c == '\n' || c == '\r' || c == '\t' || c == '\u{b}')
            },
    ensures
        spec_escape(s) == s,
    decreases s.len(),
{
    if s.len() == 0 {
        assert(spec_escape(s) =~= s);
    } else {
        let rest = s.drop_first();
        assert forall|i: int| 0 <= i < rest.len() implies {
            let c = #[trigger] rest[i];
            !(c == '\\' || c == '/' || c == ' ' || c == '|' || c == '\u{7}' || c == '\u{8}' || c
                == '\u{c}' || c == '\n' || c == '\r' || c == '\t' || c == '\u{b}')
        } by {
            assert(rest[i] == s[i + 1]);
        }
        lemma_escape_leaves_plain_text(rest);
        let c = s[0];
        assert(spec_escaped_for_plain(c) is None);
        assert(seq![c] + rest =~= s);
    }
}

/// Escapes every special character in `input`.
pub fn escape(input: &str) -> (res: String)
    ensures
        res@ == spec_escape(input@),
{
    let mut escaped = String::new();
    for ch in it: input.chars()
        invariant
            it.seq() == input@,
            escaped@ == spec_escape(input@.take(it.index())),
    {
        proof {
            let i = it.index();
            let t = input@.take(i);
            assert(input@.take(i + 1) =~= t + seq![ch]);
            lemma_escape_append(t, seq![ch]);
            assert(spec_escape(seq![ch]) =~= escape_char(ch)) by {
                assert(seq![ch].drop_first() =~= Seq::<char>::empty());
                assert(spec_escape(Seq::<char>::empty()) == Seq::<char>::empty());
                assert(escape_char(ch) + Seq::<char>::empty() =~= escape_char(ch));
            }
        }
        match escaped_for_plain(ch) {
            Some(escaped_ch) => {
                push_char(&mut escaped, ESCAPE_CHARACTER);
                push_char(&mut escaped, escaped_ch);
            },
            None => {
                push_char(&mut escaped, ch);
            },
        }
    }
    proof {
        assert(input@.take(input@.len() as int) =~= input@);
    }
    escaped
}

/// Decodes every escape sequence in `input`.
pub fn unescape(input: &str) -> (res: Result<String, EscapeError>)
    ensures
        match res {
            Ok(s) => spec_unescape(input@) == Ok::<Seq<char>, EscapeError>(s@),
            Err(e) => spec_unescape(input@) == Err::<Seq<char>, EscapeError>(e),
        },
{
    let mut unescaped = String::new();
    let mut in_sequence = false;
    proof {
        assert(input@.skip(0) =~= input@);
        match spec_unescape(input@) {
            Ok(x) => {
                assert(Seq::<char>::empty() + x =~= x);
            },
            Err(_) => {},
        }
    }
    for ch in it: input.chars()
        invariant
            it.seq() == input@,
            !in_sequence ==> prepend_ok(unescaped@, spec_unescape(input@.skip(it.index())))
                == spec_unescape(input@),
            in_sequence ==> {
                &&& it.index() >= 1
                &&& input@[it.index() - 1] == ESCAPE_CHARACTER
                &&& prepend_ok(unescaped@, spec_unescape(input@.skip(it.index() - 1)))
                    == spec_unescape(input@)
            },
    {
        let ghost i = it.index();
        if !in_sequence {
            if ch != ESCAPE_CHARACTER {
                proof {
                    let r = input@.skip(i);
                    assert(r[0] == ch);
                    assert(r.drop_first() =~= input@.skip(i + 1));
                    assert(unescaped@.push(ch) =~= unescaped@ + seq![ch]);
                    match spec_unescape(input@.skip(i + 1)) {
                        Ok(x) => {
                            assert(unescaped@ + (seq![ch] + x) =~= unescaped@.push(ch) + x);
                        },
                        Err(_) => {},
                    }
                }
                push_char(&mut unescaped, ch);
            } else {
                in_sequence = true;
            }
        } else {
            let ghost r = input@.skip(i - 1);
            assert(r[0] == ESCAPE_CHARACTER && r[1] == ch);
            match plain_for_escaped(ch) {
                Some(plain_ch) => {
                    proof {
                        assert(r.skip(2) =~= input@.skip(i + 1));
                        match spec_unescape(input@.skip(i + 1)) {
                            Ok(x) => {
                                assert(unescaped@ + (seq![plain_ch] + x) =~= unescaped@.push(
                                    plain_ch,
                                ) + x);
                            },
                            Err(_) => {},
                        }
                    }
                    push_char(&mut unescaped, plain_ch);
                    in_sequence = false;
                },
                None => {
                    return Err(EscapeError::UnknownSequence(ch));
                },
            }
        }
    }
    if in_sequence {
        proof {
            assert(input@.skip(input@.len() - 1).len() == 1);
        }
        return Err(EscapeError::UnterminatedSequence);
    }
    proof {
        assert(input@.skip(input@.len() as int) =~= Seq::<char>::empty());
        assert(unescaped@ + Seq::<char>::empty() =~= unescaped@);
    }
    Ok(unescaped)
}

} // verus!
