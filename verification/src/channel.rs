//! Channel lists returned by the `channellist` command.
use vstd::prelude::*;

use crate::escaping::EscapeError;
use crate::fields::Fields;
use crate::number::{parse_unsigned, spec_parse_unsigned};
use crate::protocol::{parse_fields, spec_parse_fields};
use crate::response::Response;
use crate::text::{spec_split, split_char, views};

verus! {

/// A channel of a channel list.
#[derive(Clone, Debug, PartialEq, Eq)]
pub struct Channel {
    pub cid: u64,
    pub pid: u64,
    pub channel_order: u64,
    pub channel_name: String,
    pub topic: Option<String>,
    pub flags: ChannelFlags,
    pub fields: Fields,
}

/// The flags of a channel.
#[derive(Clone, Copy, Debug, Default, PartialEq, Eq)]
pub struct ChannelFlags {
    pub default: bool,
    pub password: bool,
    pub permanent: bool,
    pub semi_permanent: bool,
}

/// Error returned when a channel list cannot be read.
#[derive(Clone, Debug, PartialEq, Eq)]
pub enum QueryError {
    /// A field could not be unescaped.
    Escape(EscapeError),
    /// A required field is absent.
    MissingField(&'static str),
    /// A numeric field does not hold an unsigned 64-bit number.
    InvalidNumber { field: &'static str, value: String },
}

/// A field that holds an unsigned 64-bit number.
pub open spec fn number_ok(m: Map<Seq<char>, Seq<char>>, key: Seq<char>) -> bool {
    m.contains_key(key) && spec_parse_unsigned(m[key], u64::MAX as int) is Some
}

/// The value of such a field.
pub open spec fn number_of(m: Map<Seq<char>, Seq<char>>, key: Seq<char>) -> int {
    spec_parse_unsigned(m[key], u64::MAX as int)->0
}

/// `e` is the error for a required numeric field `key` that fails.
pub open spec fn number_error(m: Map<Seq<char>, Seq<char>>, key: &'static str, e: QueryError) -> bool {
    match e {
        QueryError::MissingField(k) => !m.contains_key(key@) && k == key,
        QueryError::InvalidNumber { field, value } => {
            &&& m.contains_key(key@)
            &&& spec_parse_unsigned(m[key@], u64::MAX as int) is None
            &&& field == key
            &&& value@ == m[key@]
        },
        QueryError::Escape(_) => false,
    }
}

/// A flag field: set when it holds `1`.
pub open spec fn flag(m: Map<Seq<char>, Seq<char>>, key: Seq<char>) -> bool {
    m.contains_key(key) && m[key] == "1"@
}

/// The fields hold every field that a channel requires.
pub open spec fn channel_fields_ok(m: Map<Seq<char>, Seq<char>>) -> bool {
    &&& number_ok(m, "cid"@)
    &&& number_ok(m, "pid"@)
    &&& number_ok(m, "channel_order"@)
    &&& m.contains_key("channel_name"@)
}

/// `e` is the error for the first required field, in the order `cid`, `pid`,
/// `channel_order`, `channel_name`, that the fields lack or hold badly.
pub open spec fn channel_fields_error(m: Map<Seq<char>, Seq<char>>, e: QueryError) -> bool {
    ||| number_error(m, "cid", e)
    ||| number_ok(m, "cid"@) && number_error(m, "pid", e)
    ||| number_ok(m, "cid"@) && number_ok(m, "pid"@) && number_error(m, "channel_order", e)
    ||| number_ok(m, "cid"@) && number_ok(m, "pid"@) && number_ok(m, "channel_order"@)
        && !m.contains_key("channel_name"@) && e == QueryError::MissingField("channel_name")
}

/// `ch` is the channel that the fields describe.
pub open spec fn channel_from(ch: Channel, m: Map<Seq<char>, Seq<char>>) -> bool {
    &&& channel_fields_ok(m)
    &&& ch.cid == number_of(m, "cid"@)
    &&& ch.pid == number_of(m, "pid"@)
    &&& ch.channel_order == number_of(m, "channel_order"@)
    &&& ch.channel_name@ == m["channel_name"@]
    &&& match ch.topic {
        Some(t) => m.contains_key("channel_topic"@) && t@ == m["channel_topic"@],
        None => !m.contains_key("channel_topic"@),
    }
    &&& ch.flags.default == flag(m, "channel_flag_default"@)
    &&& ch.flags.password == flag(m, "channel_flag_password"@)
    &&& ch.flags.permanent == flag(m, "channel_flag_permanent"@)
    &&& ch.flags.semi_permanent == flag(m, "channel_flag_semi_permanent"@)
    &&& ch.fields@ == m
}

/// The `|`-separated items of the non-empty lines, in order.
pub open spec fn channel_items(lines: Seq<Seq<char>>) -> Seq<Seq<char>>
    decreases lines.len(),
{
    if lines.len() == 0 {
        seq![]
    } else {
        channel_items(lines.drop_last()) + if lines.last().len() == 0 {
            Seq::<Seq<char>>::empty()
        } else {
            spec_split(lines.last(), '|')
        }
    }
}

/// The item describes a channel.
pub open spec fn item_ok(item: Seq<char>) -> bool {
    spec_parse_fields(item) matches Ok(m) && channel_fields_ok(m)
}

/// `ch` is the channel that the item describes.
pub open spec fn item_channel(item: Seq<char>, ch: Channel) -> bool {
    spec_parse_fields(item) matches Ok(m) && channel_from(ch, m)
}

/// `e` is the error that reading the item gives.
pub open spec fn item_error(item: Seq<char>, e: QueryError) -> bool {
    match spec_parse_fields(item) {
        Ok(m) => channel_fields_error(m, e),
        Err(x) => e == QueryError::Escape(x),
    }
}

/// Every flag of a channel is read from its own field and is set exactly when
/// that field holds `1`: `default` from `channel_flag_default`, `password`
/// from `channel_flag_password`, `permanent` from `channel_flag_permanent`,
/// `semi_permanent` from `channel_flag_semi_permanent`. The name and topic
/// are the `channel_name` and `channel_topic` fields, and the channel keeps
/// all the item's fields.
pub proof fn lemma_channel_reads_its_fields(item: Seq<char>, ch: Channel)
    requires
        item_channel(item, ch),
    ensures
        spec_parse_fields(item) matches Ok(m) && {
            &&& ch.flags.default == (m.contains_key("channel_flag_default"@)
                && m["channel_flag_default"@] == seq!['1'])
            &&& ch.flags.password == (m.contains_key("channel_flag_password"@)
                && m["channel_flag_password"@] == seq!['1'])
            &&& ch.flags.permanent == (m.contains_key("channel_flag_permanent"@)
                && m["channel_flag_permanent"@] == seq!['1'])
            &&& ch.flags.semi_permanent == (m.contains_key("channel_flag_semi_permanent"@)
                && m["channel_flag_semi_permanent"@] == seq!['1'])
            &&& m.contains_key("channel_name"@) && ch.channel_name@ == m["channel_name"@]
            &&& (ch.topic is Some <==> m.contains_key("channel_topic"@))
            &&& ch.topic matches Some(t) ==> t@ == m["channel_topic"@]
            &&& ch.fields@ == m
        },
{
    reveal_strlit("1");
    assert("1"@ =~= seq!['1']);
}

fn required_u64(fields: &Fields, key: &'static str) -> (res: Result<u64, QueryError>)
    ensures
        match res {
            Ok(n) => number_ok(fields@, key@) && n == number_of(fields@, key@),
            Err(e) => !number_ok(fields@, key@) && number_error(fields@, key, e),
        },
{
    match fields.get(key) {
        Some(text) => match parse_unsigned(text.as_str(), u64::MAX) {
            Some(n) => Ok(n),
            None => Err(QueryError::InvalidNumber { field: key, value: text.clone() }),
        },
        None => Err(QueryError::MissingField(key)),
    }
}

fn required_string(fields: &Fields, key: &'static str) -> (res: Result<String, QueryError>)
    ensures
        match res {
            Ok(s) => fields@.contains_key(key@) && s@ == fields@[key@],
            Err(e) => !fields@.contains_key(key@) && e == QueryError::MissingField(key),
        },
{
    match fields.get(key) {
        Some(text) => Ok(text.clone()),
        None => Err(QueryError::MissingField(key)),
    }
}

fn bool_field(fields: &Fields, key: &str) -> (res: bool)
    ensures
        res == flag(fields@, key@),
{
    match fields.get(key) {
        Some(text) => *text == "1".to_owned(),
        None => false,
    }
}

fn optional_string(fields: &Fields, key: &str) -> (res: Option<String>)
    ensures
        match res {
            Some(s) => fields@.contains_key(key@) && s@ == fields@[key@],
            None => !fields@.contains_key(key@),
        },
{
    match fields.get(key) {
        Some(text) => Some(text.clone()),
        None => None,
    }
}

/// Reads one `|`-separated item of a channel list.
fn parse_channel(item: &str) -> (res: Result<Channel, QueryError>)
    ensures
        match res {
            Ok(ch) => item_channel(item@, ch),
            Err(e) => !item_ok(item@) && item_error(item@, e),
        },
{
    let fields = match parse_fields(item) {
        Ok(fields) => fields,
        Err(e) => return Err(QueryError::Escape(e)),
    };
    let cid = required_u64(&fields, "cid")?;
    let pid = required_u64(&fields, "pid")?;
    let channel_order = required_u64(&fields, "channel_order")?;
    let channel_name = required_string(&fields, "channel_name")?;
    let topic = optional_string(&fields, "channel_topic");
    let flags = ChannelFlags {
        default: bool_field(&fields, "channel_flag_default"),
        password: bool_field(&fields, "channel_flag_password"),
        permanent: bool_field(&fields, "channel_flag_permanent"),
        semi_permanent: bool_field(&fields, "channel_flag_semi_permanent"),
    };
    Ok(Channel { cid, pid, channel_order, channel_name, topic, flags, fields })
}

/// Collects the `|`-separated items of the non-empty lines.
fn channel_list_items(lines: &Vec<String>) -> (res: Vec<String>)
    ensures
        views(res@) == channel_items(views(lines@)),
{
    let ghost all = views(lines@);
    let mut items: Vec<String> = Vec::new();
    let mut i: usize = 0;
    proof {
        assert(all.take(0) =~= Seq::<Seq<char>>::empty());
        assert(views(items@) =~= Seq::<Seq<char>>::empty());
    }
    while i < lines.len()
        invariant
            i <= lines@.len(),
            all == views(lines@),
            views(items@) == channel_items(all.take(i as int)),
        decreases lines@.len() - i,
    {
        proof {
            assert(all.take(i + 1).drop_last() =~= all.take(i as int));
            assert(all.take(i + 1).last() == lines@[i as int]@);
        }
        let line = lines[i].as_str();
        if line.is_empty() {
            proof {
                assert(views(items@) + Seq::<Seq<char>>::empty() =~= views(items@));
            }
        } else {
            let pieces = split_char(line, '|');
            let ghost before = views(items@);
            let mut j: usize = 0;
            while j < pieces.len()
                invariant
                    j <= pieces@.len(),
                    views(items@) == before + views(pieces@).take(j as int),
                decreases pieces@.len() - j,
            {
                let ghost prev = items@;
                let piece = pieces[j].clone();
                items.push(piece);
                proof {
                    assert(views(items@) =~= views(prev).push(pieces@[j as int]@));
                    assert(views(pieces@).take(j + 1) =~= views(pieces@).take(j as int) + seq![
                        pieces@[j as int]@,
                    ]);
                    assert(views(items@) =~= before + views(pieces@).take(j + 1));
                }
                j = j + 1;
            }
            proof {
                assert(views(pieces@).take(pieces@.len() as int) =~= views(pieces@));
            }
        }
        i = i + 1;
    }
    proof {
        assert(all.take(lines@.len() as int) =~= all);
    }
    items
}

/// Reads the channels of a `channellist` response: every `|`-separated item of
/// every non-empty response line describes one channel.
pub fn parse_channel_list(response: &Response) -> (res: Result<Vec<Channel>, QueryError>)
    ensures
        ({
            let items = channel_items(views(response.lines@));
            match res {
                Ok(channels) => {
                    &&& channels@.len() == items.len()
                    &&& forall|i: int| 0 <= i < items.len() ==> item_channel(items[i], #[trigger] channels@[i])
                },
                Err(e) => exists|i: int|
                    0 <= i < items.len() && (forall|j: int| 0 <= j < i ==> item_ok(#[trigger] items[j]))
                        && item_error(#[trigger] items[i], e),
            }
        }),
{
    let items = channel_list_items(&response.lines);
    let ghost all = views(items@);
    let mut channels: Vec<Channel> = Vec::new();
    let mut i: usize = 0;
    while i < items.len()
        invariant
            i <= items@.len(),
            all == views(items@),
            all == channel_items(views(response.lines@)),
            channels@.len() == i,
            forall|q: int| 0 <= q < i ==> item_channel(all[q], #[trigger] channels@[q]),
        decreases items@.len() - i,
    {
        match parse_channel(items[i].as_str()) {
            Ok(channel) => {
                channels.push(channel);
            },
            Err(e) => {
                proof {
                    assert forall|j: int| 0 <= j < i implies item_ok(#[trigger] all[j]) by {
                        assert(item_channel(all[j], channels@[j]));
                    }
                    assert(item_error(all[i as int], e));
                }
                return Err(e);
            },
        }
        i = i + 1;
    }
    Ok(channels)
}

} // verus!
