# ts-server-query

TeamSpeak ServerQuery client: command building, escaping of values, parsing
of field lists, notifications and channel lists, and the connection logic that
matches response lines to the commands that are waiting for them.

- `src/` is the library, written in Verus. Every function carries a contract
  over a mathematical model (texts as `Seq<char>`, fields as
  `Map<Seq<char>, Seq<char>>`) that Verus proves. The connection's decisions
  are a state machine, `ConnectionState`: it is told what was read or received
  and answers what to send, broadcast or deliver.
- `app/` drives a connection over Tokio I/O with that state machine, and holds
  the client handle and error types that implement `std::error::Error`.
- `tests/` runs the library on concrete inputs.
