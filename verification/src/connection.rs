//! The decisions of a ServerQuery connection, apart from its I/O.
//!
//! The connection reads lines from the server and writes commands to it. The
//! driver that owns the stream reports each thing that happened to a
//! [`ConnectionState`] and performs what the state answers.
use vstd::prelude::*;
use vstd::utf8::*;

use crate::command::Command;
use crate::error::ConnectionError;
use crate::escaping::EscapeError;
use crate::number::{decimal, spec_decimal};
use crate::protocol::{parse_fields, spec_parse_fields, Event};
use crate::response::Response;
use crate::text::{
    find_char, first_index_of, lemma_first_index_of_cases, starts_with, str_starts_with, views,
};

verus! {

/// The number of greeting lines the server sends before it takes commands.
pub const STARTUP_LINE_COUNT: usize = 2;

/// Decodes UTF-8 text: `std::str::from_utf8`.
///
/// Trusted: the contract claims what the standard library documents, that
/// the bytes are accepted exactly when they are valid UTF-8, and that the
/// text then has those bytes as its encoding.
#[verifier::external_body]
fn utf8_text(bytes: &[u8]) -> (res: Option<&str>)
    ensures
        res is Some <==> valid_utf8(bytes@),
        res matches Some(s) ==> encode_utf8(s@) == bytes@,
{
    std::str::from_utf8(bytes).ok()
}

/// `s` without any number of trailing `"\n\r"` pairs.
pub open spec fn trim_line_end(s: Seq<char>) -> Seq<char>
    decreases s.len(),
{
    if s.len() >= 2 && s[s.len() - 2] == '\n' && s[s.len() - 1] == '\r' {
        trim_line_end(s.take(s.len() - 2))
    } else {
        s
    }
}

/// The text of a line read from the server: its decoded characters up to the
/// line terminator.
pub open spec fn line_text(bytes: Seq<u8>) -> Seq<char> {
    trim_line_end(decode_utf8(bytes))
}

/// The bytes that send one command: its text, then a line feed.
pub open spec fn command_line_bytes(command: Seq<char>) -> Seq<u8> {
    encode_utf8(command).push(10u8)
}

/// No byte of the UTF-8 encoding of a character other than a line feed is a
/// line feed.
proof fn lemma_scalar_has_no_line_feed(c: char)
    requires
        c != '\n',
    ensures
        forall|k: int| 0 <= k < encode_scalar(c as u32).len() ==> #[trigger] encode_scalar(c as u32)[k] != 10u8,
{
    let x = c as u32;
    if has_width_1_encoding(x) {
        assert(x <= 0x7f && x != 10 ==> (x & 0x7f) as u8 != 10u8) by (bit_vector);
    } else {
        assert(0x80u8 | (x & 0x3f) as u8 != 10u8) by (bit_vector);
        assert(0xc0u8 | ((x >> 6) & 0x1f) as u8 != 10u8) by (bit_vector);
        assert(0xe0u8 | ((x >> 12) & 0x0f) as u8 != 10u8) by (bit_vector);
        assert(0xf0u8 | ((x >> 18) & 0x7) as u8 != 10u8) by (bit_vector);
        assert(0x80u8 | ((x >> 12) & 0x3f) as u8 != 10u8) by (bit_vector);
        assert(0x80u8 | ((x >> 6) & 0x3f) as u8 != 10u8) by (bit_vector);
    }
}

/// The UTF-8 encoding of a text without line feeds holds no line feed byte.
proof fn lemma_encoding_has_no_line_feed(s: Seq<char>)
    requires
        !s.contains('\n'),
    ensures
        forall|k: int| 0 <= k < encode_utf8(s).len() ==> #[trigger] encode_utf8(s)[k] != 10u8,
    decreases s.len(),
{
    if s.len() > 0 {
        assert(s[0] != '\n');
        lemma_scalar_has_no_line_feed(s[0]);
        let rest = s.drop_first();
        assert(!rest.contains('\n')) by {
            if rest.contains('\n') {
                let j = choose|j: int| 0 <= j < rest.len() && rest[j] == '\n';
                assert(s[j + 1] == '\n');
            }
        }
        lemma_encoding_has_no_line_feed(rest);
        let head = encode_scalar(s[0] as u32);
        let tail = encode_utf8(rest);
        assert(encode_utf8(s) == head + tail);
        assert forall|k: int| 0 <= k < encode_utf8(s).len() implies encode_utf8(s)[k] != 10u8 by {
            if k >= head.len() {
                assert(encode_utf8(s)[k] == tail[k - head.len()]);
            }
        }
    }
}

/// What a line from the server amounts to.
#[derive(Debug)]
pub enum LineOutcome {
    /// A notification, to broadcast to the subscribers.
    Event(Event),
    /// The complete response to the oldest pending command, with that
    /// command's request id.
    Response(u64, Response),
    /// A line of the response to the oldest pending command; more follows.
    Buffered,
}

/// The model of a connection's state: greeting lines read, the request ids of
/// the commands waiting for their response in the order they were sent, the
/// response lines received so far for the oldest of them, whether the commands
/// ended, whether the reader ended, and the id the next command gets.
pub type StateView = (nat, Seq<u64>, Seq<Seq<char>>, bool, bool, nat);

/// The state of a connection: the greeting lines read so far, the commands
/// still waiting for their response, the response lines received so far for
/// the oldest of them, which of the two directions has ended, and the id the
/// next command gets.
pub struct ConnectionState {
    startup_lines_read: usize,
    pending: Vec<u64>,
    current_response: Vec<String>,
    commands_closed: bool,
    reader_closed: bool,
    next_request: u64,
}

impl View for ConnectionState {
    type V = StateView;

    closed spec fn view(&self) -> StateView {
        (
            self.startup_lines_read as nat,
            self.pending@,
            views(self.current_response@),
            self.commands_closed,
            self.reader_closed,
            self.next_request as nat,
        )
    }
}

/// No more greeting lines are read than the server sends, every buffered
/// response line belongs to a pending command, and the pending request ids
/// rise in the order the commands were sent and stay below the next id.
pub open spec fn state_invariant(v: StateView) -> bool {
    &&& v.0 <= STARTUP_LINE_COUNT
    &&& v.2.len() > 0 ==> v.1.len() > 0
    &&& forall|i: int, j: int| 0 <= i < j < v.1.len() ==> v.1[i] < v.1[j]
    &&& forall|i: int| 0 <= i < v.1.len() ==> v.1[i] < v.5
}

/// The outcome of a status line (`error ...`) whose fields are `rest`.
pub open spec fn status_line_step(
    s0: StateView,
    s1: StateView,
    rest: Seq<char>,
    res: Result<LineOutcome, ConnectionError>,
) -> bool {
    match spec_parse_fields(rest) {
        Err(e) => s1 == s0 && (res matches Err(ConnectionError::Escape(x)) && x == e),
        Ok(m) => if s0.1.len() == 0 {
            &&& s1 == s0
            &&& res matches Err(ConnectionError::Protocol(msg))
            &&& msg@ == "received response without a pending request"@
        } else {
            &&& s1 == (s0.0, s0.1.drop_first(), Seq::<Seq<char>>::empty(), s0.3, s0.4, s0.5)
            &&& res matches Ok(LineOutcome::Response(id, r))
            &&& id == s0.1[0]
            &&& views(r.lines@) == s0.2
            &&& r.fields@ == m
        },
    }
}

/// The outcome of a notification line.
pub open spec fn notification_line_step(text: Seq<char>, res: Result<LineOutcome, ConnectionError>) -> bool {
    match first_index_of(text, ' ') {
        None => res matches Err(ConnectionError::Protocol(msg)) && msg@
            == "received event without fields"@,
        Some(p) => match spec_parse_fields(text.skip(p + 1)) {
            Err(e) => res matches Err(ConnectionError::Escape(x)) && x == e,
            Ok(m) => {
                &&& res matches Ok(LineOutcome::Event(event))
                &&& event.name@ == text.take(p)
                &&& event.fields@ == m
            },
        },
    }
}

/// The outcome of any other line: a response line of the oldest pending
/// command.
pub open spec fn data_line_step(
    s0: StateView,
    s1: StateView,
    text: Seq<char>,
    res: Result<LineOutcome, ConnectionError>,
) -> bool {
    if s0.1.len() == 0 {
        &&& s1 == s0
        &&& res matches Err(ConnectionError::Protocol(msg))
        &&& msg@ == "received response line without a pending request: `"@ + text + "`"@
    } else {
        &&& s1 == (s0.0, s0.1, s0.2.push(text), s0.3, s0.4, s0.5)
        &&& res matches Ok(LineOutcome::Buffered)
    }
}

/// The outcome of a line read from the server.
pub open spec fn line_step(
    s0: StateView,
    s1: StateView,
    bytes: Seq<u8>,
    res: Result<LineOutcome, ConnectionError>,
) -> bool {
    if !valid_utf8(bytes) {
        &&& s1 == s0
        &&& res matches Err(ConnectionError::Protocol(msg))
        &&& msg@ == "received non-UTF-8 line"@
    } else {
        let text = line_text(bytes);
        if starts_with(text, "notify"@) {
            s1 == s0 && notification_line_step(text, res)
        } else if starts_with(text, "error "@) {
            status_line_step(s0, s1, text.skip("error "@.len() as int), res)
        } else {
            data_line_step(s0, s1, text, res)
        }
    }
}

/// A notification line, whose text begins with `notify` and has a space, is
/// broadcast as an event whatever commands are pending: the state does not
/// change, the line is never buffered as part of a response and answers no
/// command. The event's name is the text before the first space and its
/// fields are those after it; a line whose fields fail to unescape gives that
/// error.
pub proof fn lemma_notifications_are_broadcast(
    s0: StateView,
    s1: StateView,
    bytes: Seq<u8>,
    res: Result<LineOutcome, ConnectionError>,
)
    requires
        line_step(s0, s1, bytes, res),
        valid_utf8(bytes),
        line_text(bytes).len() >= 6,
        line_text(bytes).take(6) == seq!['n', 'o', 't', 'i', 'f', 'y'],
        line_text(bytes).contains(' '),
    ensures
        s1 == s0,
        !(res matches Ok(LineOutcome::Buffered)),
        !(res matches Ok(LineOutcome::Response(_, _))),
        res matches Ok(LineOutcome::Event(event)) ==> {
            let text = line_text(bytes);
            let n = event.name@.len() as int;
            &&& n < text.len()
            &&& event.name@ == text.take(n)
            &&& text[n] == ' '
            &&& !event.name@.contains(' ')
            &&& spec_parse_fields(text.skip(n + 1)) == Ok::<Map<Seq<char>, Seq<char>>, EscapeError>(
                event.fields@,
            )
        },
        res is Err ==> res matches Err(ConnectionError::Escape(_)),
{
    reveal_strlit("notify");
    let text = line_text(bytes);
    assert("notify"@.len() == 6);
    assert("notify"@ =~= seq!['n', 'o', 't', 'i', 'f', 'y']);
    assert(starts_with(text, "notify"@));
    lemma_first_index_of_cases(text, ' ');
    match first_index_of(text, ' ') {
        Some(p) => {
            if let Ok(LineOutcome::Event(event)) = res {
                assert(event.name@ == text.take(p));
                assert(event.name@.len() == p);
                if event.name@.contains(' ') {
                    let j = choose|j: int| 0 <= j < event.name@.len() && event.name@[j] == ' ';
                    assert(text[j] == ' ');
                }
            }
        },
        None => {
            let j = choose|j: int| 0 <= j < text.len() && text[j] == ' ';
            assert(text[j] != ' ');
        },
    }
}

/// Removes trailing `"\n\r"` pairs.
fn trim_line_end_str(s: &str) -> (res: &str)
    ensures
        res@ == trim_line_end(s@),
{
    let mut end = s.unicode_len();
    proof {
        assert(s@.take(end as int) =~= s@);
    }
    while end >= 2 && s.get_char(end - 2) == '\n' && s.get_char(end - 1) == '\r'
        invariant
            end <= s@.len(),
            trim_line_end(s@.take(end as int)) == trim_line_end(s@),
        decreases end,
    {
        proof {
            let t = s@.take(end as int);
            assert(t.take(end - 2) =~= s@.take(end - 2));
        }
        end = end - 2;
    }
    proof {
        let t = s@.take(end as int);
        assert(t.len() >= 2 ==> t[t.len() - 2] == s@[end - 2] && t[t.len() - 1] == s@[end - 1]);
    }
    s.substring_char(0, end)
}

impl ConnectionState {
    #[verifier::type_invariant]
    spec fn well_formed(self) -> bool {
        state_invariant(self@)
    }

    /// The state of a connection that has read nothing yet.
    pub fn new() -> (res: Self)
        ensures
            res@ == (0nat, Seq::<u64>::empty(), Seq::<Seq<char>>::empty(), false, false, 0nat),
            state_invariant(res@),
    {
        let res = ConnectionState {
            startup_lines_read: 0,
            pending: Vec::new(),
            current_response: Vec::new(),
            commands_closed: false,
            reader_closed: false,
            next_request: 0,
        };
        proof {
            assert(views(res.current_response@) =~= Seq::<Seq<char>>::empty());
        }
        res
    }

    /// Whether every greeting line has been read.
    pub fn startup_complete(&self) -> (res: bool)
        ensures
            res == (self@.0 == STARTUP_LINE_COUNT),
    {
        self.startup_lines_read == STARTUP_LINE_COUNT
    }

    /// A greeting line of `bytes_read` bytes was read; none means that the
    /// server closed the connection.
    pub fn startup_line(&mut self, bytes_read: usize) -> (res: Result<(), ConnectionError>)
        requires
            old(self)@.0 < STARTUP_LINE_COUNT,
        ensures
            bytes_read == 0 ==> final(self)@ == old(self)@ && res matches Err(ConnectionError::Closed),
            bytes_read > 0 ==> final(self)@ == (old(self)@.0 + 1, old(self)@.1, old(self)@.2, old(
                self,
            )@.3, old(self)@.4, old(self)@.5) && res is Ok,
            state_invariant(final(self)@),
    {
        proof {
            use_type_invariant(&*self);
        }
        if bytes_read == 0 {
            return Err(ConnectionError::Closed);
        }
        self.startup_lines_read = self.startup_lines_read + 1;
        Ok(())
    }

    /// The error for a greeting line that did not come in time.
    pub fn startup_timeout(&self) -> (res: ConnectionError)
        requires
            self@.0 < STARTUP_LINE_COUNT,
        ensures
            res matches ConnectionError::Protocol(msg) && msg@ == "timed out waiting for startup line "@
                + spec_decimal(self@.0 + 1),
    {
        let mut message = "timed out waiting for startup line ".to_owned();
        let number = decimal(self.startup_lines_read as u64 + 1);
        message.append(number.as_str());
        ConnectionError::Protocol(message)
    }

    /// Whether commands are still taken from the client handles.
    pub fn accepts_commands(&self) -> (res: bool)
        ensures
            res == !self@.3,
    {
        !self.commands_closed
    }

    /// Whether lines are still read from the server.
    pub fn accepts_lines(&self) -> (res: bool)
        ensures
            res == !self@.4,
    {
        !self.reader_closed
    }

    /// Whether the connection has ended: no more commands and no more lines.
    pub fn is_finished(&self) -> (res: bool)
        ensures
            res == (self@.3 && self@.4),
    {
        self.commands_closed && self.reader_closed
    }

    /// The number of commands waiting for their response.
    pub fn pending(&self) -> (res: usize)
        ensures
            res == self@.1.len(),
    {
        self.pending.len()
    }

    /// The request id that the next command gets.
    pub fn next_request(&self) -> (res: u64)
        ensures
            res == self@.5,
    {
        self.next_request
    }

    /// Every client handle is gone: the writer is to be shut down.
    pub fn close_commands(&mut self)
        ensures
            final(self)@ == (old(self)@.0, old(self)@.1, old(self)@.2, true, old(self)@.4, old(
                self,
            )@.5),
            state_invariant(final(self)@),
    {
        proof {
            use_type_invariant(&*self);
        }
        self.commands_closed = true;
    }

    /// The server closed its side: no more lines are to be read. (The driver
    /// then closes its command channel; the commands already in it are still
    /// taken until it reports that it is empty.)
    pub fn close_reader(&mut self)
        ensures
            final(self)@ == (old(self)@.0, old(self)@.1, old(self)@.2, old(self)@.3, true, old(
                self,
            )@.5),
            state_invariant(final(self)@),
    {
        proof {
            use_type_invariant(&*self);
        }
        self.reader_closed = true;
    }

    /// A command is sent: returns its request id and the bytes to write, the
    /// command's text and a line feed, and puts the command last among those
    /// waiting for their response.
    pub fn send_command(&mut self, command: &Command) -> (res: (u64, Vec<u8>))
        requires
            old(self)@.5 < u64::MAX,
        ensures
            res.0 == old(self)@.5,
            res.1@ == command_line_bytes(command@),
            res.1@.last() == 10u8,
            forall|k: int| 0 <= k < res.1@.len() - 1 ==> res.1@[k] != 10u8,
            final(self)@ == (old(self)@.0, old(self)@.1.push(res.0), old(self)@.2, old(self)@.3, old(
                self,
            )@.4, old(self)@.5 + 1),
            state_invariant(final(self)@),
    {
        proof {
            use_type_invariant(&*self);
        }
        let text = command.as_str();
        proof {
            lemma_encoding_has_no_line_feed(text@);
        }
        let mut bytes = text.as_bytes_vec();
        bytes.push(10u8);
        let id = self.next_request;
        let mut pending = self.pending.clone();
        pending.push(id);
        self.next_request = id + 1;
        proof {
            assert(pending@ == old(self)@.1.push(id));
            assert forall|i: int, j: int| 0 <= i < j < pending@.len() implies pending@[i] < pending@[j] by {
                if j == pending@.len() - 1 {
                    assert(pending@[i] == old(self)@.1[i]);
                } else {
                    assert(pending@[i] == old(self)@.1[i] && pending@[j] == old(self)@.1[j]);
                }
            }
            assert forall|i: int| 0 <= i < pending@.len() implies pending@[i] < id + 1 by {
                if i < pending@.len() - 1 {
                    assert(pending@[i] == old(self)@.1[i]);
                }
            }
        }
        self.pending = pending;
        (id, bytes)
    }

    /// A line was read from the server, its terminator included: decides what
    /// it is and what the connection does with it.
    pub fn handle_line(&mut self, bytes: &[u8]) -> (res: Result<LineOutcome, ConnectionError>)
        ensures
            line_step(old(self)@, final(self)@, bytes@, res),
            state_invariant(final(self)@),
            res matches Ok(LineOutcome::Response(id, _)) ==> forall|i: int|
                0 <= i < old(self)@.1.len() ==> id <= old(self)@.1[i],
    {
        proof {
            use_type_invariant(&*self);
        }
        let decoded = match utf8_text(bytes) {
            Some(text) => text,
            None => {
                return Err(ConnectionError::Protocol("received non-UTF-8 line".to_owned()));
            },
        };
        proof {
            encode_utf8_decode_utf8(decoded@);
        }
        let text = trim_line_end_str(decoded);
        let len = text.unicode_len();
        if str_starts_with(text, "notify") {
            return match find_char(text, ' ') {
                None => Err(ConnectionError::Protocol("received event without fields".to_owned())),
                Some(p) => match parse_fields(text.substring_char(p + 1, len)) {
                    Err(e) => Err(ConnectionError::Escape(e)),
                    Ok(fields) => Ok(
                        LineOutcome::Event(Event { name: text.substring_char(0, p).to_owned(), fields }),
                    ),
                },
            };
        }
        if str_starts_with(text, "error ") {
            let prefix_len = "error ".unicode_len();
            let fields = match parse_fields(text.substring_char(prefix_len, len)) {
                Ok(fields) => fields,
                Err(e) => return Err(ConnectionError::Escape(e)),
            };
            if self.pending.len() == 0 {
                return Err(
                    ConnectionError::Protocol(
                        "received response without a pending request".to_owned(),
                    ),
                );
            }
            let mut lines: Vec<String> = Vec::new();
            proof {
                assert(self.pending@ == old(self)@.1);
                assert(self.next_request == old(self)@.5);
            }
            std::mem::swap(&mut lines, &mut self.current_response);
            let mut pending: Vec<u64> = Vec::new();
            std::mem::swap(&mut pending, &mut self.pending);
            let id = pending.remove(0);
            proof {
                assert(pending@ =~= old(self)@.1.drop_first());
                assert forall|i: int, j: int| 0 <= i < j < pending@.len() implies pending@[i] < pending@[j] by {
                    assert(pending@[i] == old(self)@.1[i + 1] && pending@[j] == old(self)@.1[j + 1]);
                }
                assert forall|i: int| 0 <= i < pending@.len() implies pending@[i] < self.next_request by {
                    assert(pending@[i] == old(self)@.1[i + 1]);
                }
                assert forall|i: int| 0 <= i < old(self)@.1.len() implies id <= old(self)@.1[i] by {
                    if i > 0 {
                        assert(old(self)@.1[0] < old(self)@.1[i]);
                    }
                }
            }
            std::mem::swap(&mut pending, &mut self.pending);
            proof {
                assert(views(self.current_response@) =~= Seq::<Seq<char>>::empty());
                assert(self.pending@ =~= old(self)@.1.drop_first());
            }
            return Ok(LineOutcome::Response(id, Response { lines, fields }));
        }
        if self.pending.len() == 0 {
            let mut message = "received response line without a pending request: `".to_owned();
            message.append(text);
            message.append("`");
            return Err(ConnectionError::Protocol(message));
        }
        let ghost before = self.current_response@;
        let mut buffer: Vec<String> = Vec::new();
        std::mem::swap(&mut buffer, &mut self.current_response);
        buffer.push(text.to_owned());
        std::mem::swap(&mut buffer, &mut self.current_response);
        proof {
            assert(views(self.current_response@) =~= views(before).push(text@));
        }
        Ok(LineOutcome::Buffered)
    }
}

} // verus!
