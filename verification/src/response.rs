//! Responses to ServerQuery commands.
use vstd::prelude::*;

use crate::fields::Fields;
use crate::number::{parse_unsigned, spec_parse_unsigned};

verus! {

/// The status id of a status line's fields: the `id` field read as a `u32`.
pub open spec fn spec_status_id(fields: Map<Seq<char>, Seq<char>>) -> Option<u32> {
    if fields.contains_key("id"@) {
        match spec_parse_unsigned(fields["id"@], u32::MAX as int) {
            Some(n) => Some(n as u32),
            None => None,
        }
    } else {
        None
    }
}

/// Response returned for a ServerQuery command.
#[derive(Clone, Debug, PartialEq, Eq)]
pub struct Response {
    /// Non-status response lines received before the final `error` status line.
    pub lines: Vec<String>,
    /// Parsed key-value fields from the final `error` status line.
    pub fields: Fields,
}

impl Response {
    /// A response made of the given lines and status fields.
    pub fn new(lines: Vec<String>, fields: Fields) -> (res: Self)
        ensures
            res.lines == lines,
            res.fields == fields,
    {
        Response { lines, fields }
    }

    /// Returns the numeric ServerQuery status id from the final status line.
    pub fn id(&self) -> (res: Option<u32>)
        ensures
            res == spec_status_id(self.fields@),
    {
        match self.fields.get("id") {
            Some(text) => match parse_unsigned(text.as_str(), u32::MAX as u64) {
                Some(n) => Some(n as u32),
                None => None,
            },
            None => None,
        }
    }

    /// Returns the ServerQuery status message from the final status line.
    pub fn message(&self) -> (res: Option<&str>)
        ensures
            match res {
                Some(m) => self.fields@.contains_key("msg"@) && m@ == self.fields@["msg"@],
                None => !self.fields@.contains_key("msg"@),
            },
    {
        match self.fields.get("msg") {
            Some(text) => Some(text.as_str()),
            None => None,
        }
    }

    /// Returns whether the ServerQuery status id is `0`.
    pub fn is_ok(&self) -> (res: bool)
        ensures
            res == (spec_status_id(self.fields@) == Some(0u32)),
    {
        match self.id() {
            Some(id) => id == 0,
            None => false,
        }
    }
}

} // verus!
