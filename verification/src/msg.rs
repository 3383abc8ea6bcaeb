//! Messages: one posted payload each, with the identifier and the time it was
//! given when it was posted.

use vstd::prelude::*;

verus! {

/// A point in time: whole seconds since the Unix epoch and the nanoseconds
/// past that second.
#[derive(Clone, Copy, Debug, PartialEq, Eq, Structural)]
pub struct Timestamp {
    pub seconds: i64,
    pub nanos: u32,
}

/// What a message is, as plain values.
pub struct MsgView {
    pub id: Seq<char>,
    pub payload: Seq<char>,
    pub pipe_name: Seq<char>,
    pub timestamp: Timestamp,
}

/// One posted payload. Nothing changes a message once it exists.
#[derive(Debug)]
pub struct Msg {
    pub id: String,
    pub payload: String,
    pub pipe_name: String,
    pub timestamp: Timestamp,
}

impl View for Msg {
    type V = MsgView;

    open spec fn view(&self) -> MsgView {
        MsgView {
            id: self.id@,
            payload: self.payload@,
            pipe_name: self.pipe_name@,
            timestamp: self.timestamp,
        }
    }
}

/// The views of a sequence of messages, in the same order.
pub open spec fn msg_views(msgs: Seq<Msg>) -> Seq<MsgView> {
    msgs.map_values(|m: Msg| m@)
}

/// A digit of lower-case hexadecimal.
pub open spec fn is_lower_hex(c: char) -> bool {
    ('0' <= c && c <= '9') || ('a' <= c && c <= 'f')
}

/// The text of a random identifier: 36 characters, groups of lower-case
/// hexadecimal digits parted by hyphens after the 8th, 12th, 16th and 20th
/// digit, with the digit `4` opening the third group and one of `8`, `9`,
/// `a`, `b` opening the fourth.
pub open spec fn is_random_id(s: Seq<char>) -> bool {
    &&& s.len() == 36
    &&& s[8] == '-' && s[13] == '-' && s[18] == '-' && s[23] == '-'
    &&& forall|i: int|
        0 <= i < 36 && i != 8 && i != 13 && i != 18 && i != 23 ==> is_lower_hex(#[trigger] s[i])
    &&& s[14] == '4'
    &&& (s[19] == '8' || s[19] == '9' || s[19] == 'a' || s[19] == 'b')
}

/// Draws a fresh identifier with `uuid::Uuid::new_v4` and renders it with the
/// `Display` of `uuid::Uuid`. Trusted: the result has the shape of a
/// version-4 identifier in hyphenated lower-case text. Which identifier comes
/// out is left open, and so is whether it was ever drawn before. The call
/// panics where the system hands out no random bytes.
#[verifier::external_body]
fn fresh_id() -> (id: String)
    ensures
        is_random_id(id@),
{
    uuid::Uuid::new_v4().to_string()
}

/// Reads the clock with `chrono::Utc::now` and takes the result apart with
/// `DateTime::timestamp` and `DateTime::timestamp_subsec_nanos`. Trusted: the
/// nanoseconds of a clock reading stay below one second. Which time comes
/// out is left open. The call panics where the clock stands before the
/// epoch, or so far behind it that the time is beyond what `chrono` can
/// hold.
#[verifier::external_body]
fn now() -> (t: Timestamp)
    ensures
        t.nanos < 1_000_000_000,
{
    let t = chrono::Utc::now();
    Timestamp { seconds: t.timestamp(), nanos: t.timestamp_subsec_nanos() }
}

impl Clone for Msg {
    fn clone(&self) -> (r: Self)
        ensures
            r@ == self@,
    {
        Msg {
            id: self.id.clone(),
            payload: self.payload.clone(),
            pipe_name: self.pipe_name.clone(),
            timestamp: self.timestamp,
        }
    }
}

impl Msg {
    /// A message for `pipe_name` that carries `payload`, with a fresh
    /// identifier and the current time.
    pub fn new(payload: &str, pipe_name: &str) -> (m: Self)
        ensures
            m@.payload == payload@,
            m@.pipe_name == pipe_name@,
            is_random_id(m@.id),
            m@.timestamp.nanos < 1_000_000_000,
    {
        let id = fresh_id();
        let at = now();
        Msg::from_parts(id, payload, pipe_name, at)
    }

    /// The message made of exactly these parts.
    pub fn from_parts(id: String, payload: &str, pipe_name: &str, timestamp: Timestamp) -> (m: Self)
        ensures
            m@ == (MsgView {
                id: id@,
                payload: payload@,
                pipe_name: pipe_name@,
                timestamp: timestamp,
            }),
    {
        Msg { id, payload: payload.to_owned(), pipe_name: pipe_name.to_owned(), timestamp }
    }

    /// The message's identifier.
    pub fn id(&self) -> (r: &str)
        ensures
            r@ == self@.id,
    {
        self.id.as_str()
    }

    /// The payload, as it was posted.
    pub fn payload(&self) -> (r: &str)
        ensures
            r@ == self@.payload,
    {
        self.payload.as_str()
    }

    /// The name of the pipe the message was posted to.
    pub fn pipe_name(&self) -> (r: &str)
        ensures
            r@ == self@.pipe_name,
    {
        self.pipe_name.as_str()
    }

    /// When the message was posted.
    pub fn timestamp(&self) -> (r: Timestamp)
        ensures
            r == self@.timestamp,
    {
        self.timestamp
    }
}

} // verus!
