//! ServerQuery command text and its construction.
use vstd::prelude::*;

use crate::escaping::{escape, is_special_character, lemma_escape_has_no_separators, spec_escape, spec_is_special};
use crate::text::push_char;

verus! {

/// Whether a text holds a carriage return or a line feed.
pub open spec fn has_line_break(s: Seq<char>) -> bool {
    s.contains('\r') || s.contains('\n')
}

/// Whether a text holds a character that has to be escaped.
pub open spec fn has_special_character(s: Seq<char>) -> bool {
    exists|i: int| 0 <= i < s.len() && spec_is_special(#[trigger] s[i])
}

/// A command, argument or option name: not empty, and nothing to escape.
pub open spec fn is_valid_name(s: Seq<char>) -> bool {
    s.len() > 0 && !has_special_character(s)
}

/// The outcome of checking `name` as a name of the given kind: `Ok` for a
/// valid name, else the error for the first rule it breaks.
pub open spec fn name_check<T>(name: Seq<char>, kind: &'static str, res: Result<T, CommandError>) -> bool {
    match res {
        Ok(_) => is_valid_name(name),
        Err(CommandError::EmptyName { kind: k }) => name.len() == 0 && k == kind,
        Err(CommandError::SpecialCharacter { kind: k, name: n }) => {
            &&& name.len() > 0
            &&& has_special_character(name)
            &&& k == kind
            &&& n@ == name
        },
        Err(CommandError::ContainsLineBreak) => false,
    }
}

/// ServerQuery command text.
///
/// Use [`Command::new`] for structured commands with escaped argument values,
/// or [`Command::raw`] when you already have a complete single-line command.
#[derive(Debug, PartialEq, Eq)]
pub struct Command {
    raw: String,
}

/// Error returned when command construction would produce invalid ServerQuery
/// command text.
#[derive(Clone, Debug, PartialEq, Eq)]
pub enum CommandError {
    /// Raw command text contains `\r` or `\n`.
    ContainsLineBreak,
    /// A command, argument, or option name is empty.
    EmptyName { kind: &'static str },
    /// A command, argument, or option name contains a character that must be
    /// escaped in ServerQuery values.
    SpecialCharacter { kind: &'static str, name: String },
}

impl View for Command {
    type V = Seq<char>;

    closed spec fn view(&self) -> Seq<char> {
        self.raw@
    }
}

impl Clone for Command {
    fn clone(&self) -> (res: Self)
        ensures
            res@ == self@,
    {
        proof {
            use_type_invariant(self);
        }
        Command { raw: self.raw.clone() }
    }
}

impl Command {
    /// Every command is a single line.
    #[verifier::type_invariant]
    spec fn single_line(self) -> bool {
        !has_line_break(self.raw@)
    }

    /// Creates a command from complete raw ServerQuery text.
    ///
    /// This does not escape or validate command syntax beyond rejecting line
    /// breaks. Prefer [`Command::new`] unless callers provide the entire command
    /// text themselves.
    pub fn raw(command: &str) -> (res: Result<Self, CommandError>)
        ensures
            match res {
                Ok(c) => !has_line_break(command@) && c@ == command@,
                Err(e) => has_line_break(command@) && e == CommandError::ContainsLineBreak,
            },
            res is Ok <==> forall|i: int|
                0 <= i < command@.len() ==> command@[i] != '\r' && command@[i] != '\n',
    {
        proof {
            lemma_line_breaks(command@);
        }
        validate_raw(command)?;
        Ok(Command { raw: command.to_owned() })
    }

    /// Starts a structured command with the given command name.
    ///
    /// The name must not be empty and must not contain ServerQuery special
    /// characters such as spaces or `|`.
    pub fn new(name: &str) -> (res: Result<Self, CommandError>)
        ensures
            name_check(name@, "command name", res),
            res matches Ok(c) ==> c@ == name@,
    {
        let checked = validate_name(name, "command name");
        match checked {
            Ok(()) => {
                proof {
                    lemma_valid_name_single_line(name@);
                }
                Ok(Command { raw: name.to_owned() })
            },
            Err(e) => Err(e),
        }
    }

    /// Adds an escaped `name=value` argument.
    ///
    /// The argument name is validated as plain ServerQuery identifier text. The
    /// value is escaped with [`crate::escape`].
    pub fn arg(self, name: &str, value: &str) -> (res: Result<Self, CommandError>)
        ensures
            name_check(name@, "argument name", res),
            res matches Ok(c) ==> c@ == self@ + seq![' '] + name@ + seq!['='] + spec_escape(value@),
    {
        proof {
            use_type_invariant(&self);
        }
        validate_name(name, "argument name")?;
        let escaped = escape(value);
        let Command { raw: mut raw } = self;
        let ghost start = raw@;
        push_char(&mut raw, ' ');
        raw.append(name);
        push_char(&mut raw, '=');
        raw.append(escaped.as_str());
        proof {
            lemma_valid_name_single_line(name@);
            lemma_escaped_single_line(value@);
            lemma_concat_single_line(start, seq![' ']);
            lemma_concat_single_line(start + seq![' '], name@);
            lemma_concat_single_line(start + seq![' '] + name@, seq!['=']);
            lemma_concat_single_line(start + seq![' '] + name@ + seq!['='], spec_escape(value@));
        }
        Ok(Command { raw })
    }

    /// Adds an option in `-name` form.
    ///
    /// The option name must not include the leading `-`.
    pub fn option(self, name: &str) -> (res: Result<Self, CommandError>)
        ensures
            name_check(name@, "option name", res),
            res matches Ok(c) ==> c@ == self@ + seq![' ', '-'] + name@,
    {
        proof {
            use_type_invariant(&self);
        }
        validate_name(name, "option name")?;
        let Command { raw: mut raw } = self;
        let ghost start = raw@;
        push_char(&mut raw, ' ');
        push_char(&mut raw, '-');
        raw.append(name);
        proof {
            lemma_valid_name_single_line(name@);
            assert(start.push(' ').push('-') =~= start + seq![' ', '-']);
            lemma_concat_single_line(start, seq![' ', '-']);
            lemma_concat_single_line(start + seq![' ', '-'], name@);
        }
        Ok(Command { raw })
    }

    /// Returns the encoded command line without a trailing newline.
    ///
    /// The text never holds a line break, so one command is one line.
    pub fn as_str(&self) -> (res: &str)
        ensures
            res@ == self@,
            !has_line_break(res@),
    {
        proof {
            use_type_invariant(self);
        }
        self.raw.as_str()
    }
}

/// A text has a line break exactly when one of its characters is a carriage
/// return or a line feed; no other character counts.
pub proof fn lemma_line_breaks(s: Seq<char>)
    ensures
        has_line_break(s) <==> exists|i: int| 0 <= i < s.len() && (s[i] == '\r' || s[i] == '\n'),
{
    if exists|i: int| 0 <= i < s.len() && (s[i] == '\r' || s[i] == '\n') {
        let i = choose|i: int| 0 <= i < s.len() && (s[i] == '\r' || s[i] == '\n');
        if s[i] == '\r' {
            assert(s.contains('\r'));
        } else {
            assert(s.contains('\n'));
        }
    }
}

/// A text made of two single-line texts is single-line.
proof fn lemma_concat_single_line(a: Seq<char>, b: Seq<char>)
    requires
        !has_line_break(a),
        !has_line_break(b),
    ensures
        !has_line_break(a + b),
{
    assert forall|i: int| 0 <= i < (a + b).len() implies (a + b)[i] != '\r' && (a + b)[i] != '\n' by {
        if i < a.len() {
            assert((a + b)[i] == a[i]);
        } else {
            assert((a + b)[i] == b[i - a.len()]);
        }
    }
}

/// A valid name holds no line break: both are special characters.
proof fn lemma_valid_name_single_line(name: Seq<char>)
    requires
        is_valid_name(name),
    ensures
        !has_line_break(name),
{
    assert forall|i: int| 0 <= i < name.len() implies name[i] != '\r' && name[i] != '\n' by {
        assert(!spec_is_special(name[i]));
    }
}

/// The escaped form of any text holds no line break.
proof fn lemma_escaped_single_line(value: Seq<char>)
    ensures
        !has_line_break(spec_escape(value)),
{
    lemma_escape_has_no_separators(value);
    let e = spec_escape(value);
    assert forall|i: int| 0 <= i < e.len() implies e[i] != '\r' && e[i] != '\n' by {
        assert(spec_is_special('\r') && spec_is_special('\n'));
    }
}

fn validate_raw(command: &str) -> (res: Result<(), CommandError>)
    ensures
        match res {
            Ok(()) => !has_line_break(command@),
            Err(e) => has_line_break(command@) && e == CommandError::ContainsLineBreak,
        },
{
    for ch in it: command.chars()
        invariant
            it.seq() == command@,
            forall|j: int| 0 <= j < it.index() ==> command@[j] != '\r' && command@[j] != '\n',
    {
        if ch == '\r' || ch == '\n' {
            return Err(CommandError::ContainsLineBreak);
        }
    }
    Ok(())
}

fn validate_name(name: &str, kind: &'static str) -> (res: Result<(), CommandError>)
    ensures
        name_check(name@, kind, res),
{
    if name.is_empty() {
        return Err(CommandError::EmptyName { kind });
    }
    for ch in it: name.chars()
        invariant
            it.seq() == name@,
            name@.len() > 0,
            forall|j: int| 0 <= j < it.index() ==> !spec_is_special(#[trigger] name@[j]),
    {
        if is_special_character(ch) {
            return Err(CommandError::SpecialCharacter { kind, name: name.to_owned() });
        }
    }
    Ok(())
}

} // verus!
