//! TeamSpeak ServerQuery protocol: command building, escaping, field and
//! notification parsing, channel lists, and the decisions of a connection,
//! each with a verified contract.
mod text;

pub mod channel;
pub mod command;
pub mod connection;
pub mod error;
pub mod escaping;
pub mod fields;
pub mod number;
pub mod protocol;
pub mod response;

pub use channel::{parse_channel_list, Channel, ChannelFlags, QueryError};
pub use command::{Command, CommandError};
pub use connection::{ConnectionState, LineOutcome, STARTUP_LINE_COUNT};
pub use error::{ConnectionClosed, ConnectionError};
pub use escaping::{escape, is_special_character, unescape, EscapeError, ESCAPE_CHARACTER};
pub use fields::Fields;
pub use protocol::Event;
pub use response::Response;
