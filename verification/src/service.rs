//! The remote-call service, without its transport: for each of the five
//! calls, what is done to the broker and what is answered.

use vstd::prelude::*;
use crate::broker::Broker;
use crate::error::{error_text, BrokerError};
use crate::msg::{is_random_id, Msg, MsgView, Timestamp};

verus! {

/// A point in time as it goes over the wire: the nanoseconds are signed
/// there.
#[derive(Clone, Copy, Debug, PartialEq, Eq, Structural)]
pub struct WireTimestamp {
    pub seconds: i64,
    pub nanos: i32,
}

/// A message as it goes over the wire: identifier, payload and time.
#[derive(Debug)]
pub struct WireMsg {
    pub id: String,
    pub payload: String,
    pub timestamp: Option<WireTimestamp>,
}

/// What a wire message is, as plain values.
pub struct WireMsgView {
    pub id: Seq<char>,
    pub payload: Seq<char>,
    pub timestamp: Option<WireTimestamp>,
}

impl View for WireMsg {
    type V = WireMsgView;

    open spec fn view(&self) -> WireMsgView {
        WireMsgView { id: self.id@, payload: self.payload@, timestamp: self.timestamp }
    }
}

/// The wire form of a point in time.
pub open spec fn wire_timestamp_of(t: Timestamp) -> WireTimestamp {
    WireTimestamp { seconds: t.seconds, nanos: t.nanos as i32 }
}

/// The wire form of a message.
pub open spec fn wire_msg_of(m: MsgView) -> WireMsgView {
    WireMsgView { id: m.id, payload: m.payload, timestamp: Some(wire_timestamp_of(m.timestamp)) }
}

/// The wire forms of a sequence of messages, in the same order.
pub open spec fn wire_msgs(msgs: Seq<WireMsg>) -> Seq<WireMsgView> {
    msgs.map_values(|m: WireMsg| m@)
}

/// The client that a front-end acts for where a request names none.
pub const FIXED_CLIENT: &'static str = "client1";

/// The client that the service subscribes: that call carries no client of
/// its own.
pub open spec fn service_client() -> Seq<char> {
    FIXED_CLIENT@
}

/// The wire form of `t`. The nanoseconds are kept where they fit the signed
/// field, as those of every clock reading do.
pub fn wire_timestamp(t: Timestamp) -> (w: WireTimestamp)
    ensures
        w == wire_timestamp_of(t),
        t.nanos <= i32::MAX ==> w.nanos == t.nanos,
{
    WireTimestamp { seconds: t.seconds, nanos: #[verifier::truncate] (t.nanos as i32) }
}

/// The wire form of `msg`.
pub fn wire_msg(msg: Msg) -> (w: WireMsg)
    ensures
        w@ == wire_msg_of(msg@),
{
    WireMsg { id: msg.id, payload: msg.payload, timestamp: Some(wire_timestamp(msg.timestamp)) }
}

/// Subscribes the service's client to `pipe_name` and says how it went.
pub fn subscribe(broker: &mut Broker, pipe_name: &str) -> (reply: String)
    requires
        old(broker).wf(),
    ensures
        final(broker).wf(),
        old(broker)@.has_pipe(pipe_name@) ==> ({
            &&& reply@ == "Subscription successful"@
            &&& final(broker)@ == old(broker)@.sub(pipe_name@, service_client())
        }),
        !old(broker)@.has_pipe(pipe_name@) ==> ({
            &&& reply@ == error_text(BrokerError::NotFound)
            &&& final(broker)@ == old(broker)@
        }),
{
    match broker.sub(pipe_name, FIXED_CLIENT) {
        Ok(_) => "Subscription successful".to_owned(),
        Err(e) => e.message(),
    }
}

/// Takes `client_id` out of the subscribers of `pipe_name` and says how it
/// went. No other client's subscription is touched.
pub fn unsubscribe(broker: &mut Broker, pipe_name: &str, client_id: &str) -> (reply: String)
    requires
        old(broker).wf(),
    ensures
        final(broker).wf(),
        old(broker)@.has_pipe(pipe_name@) ==> ({
            &&& reply@ == "Unsubscription successful"@
            &&& final(broker)@ == old(broker)@.unsub(pipe_name@, client_id@)
        }),
        !old(broker)@.has_pipe(pipe_name@) ==> ({
            &&& reply@ == error_text(BrokerError::NotFound)
            &&& final(broker)@ == old(broker)@
        }),
{
    match broker.unsub(pipe_name, client_id) {
        Ok(_) => "Unsubscription successful".to_owned(),
        Err(e) => e.message(),
    }
}

/// Posts `payload` to `pipe_name` and answers the new message's identifier,
/// or the text of the failure. An identifier has the shape of a random
/// identifier, which no text of a failure has.
pub fn post(broker: &mut Broker, pipe_name: &str, payload: &str) -> (reply: String)
    requires
        old(broker).wf(),
    ensures
        final(broker).wf(),
        !old(broker)@.has_pipe(pipe_name@) ==> ({
            &&& reply@ == error_text(BrokerError::NotFound)
            &&& final(broker)@ == old(broker)@
        }),
        old(broker)@.has_pipe(pipe_name@) ==> ({
            let m = final(broker)@.pipe(pipe_name@).msgs.last();
            &&& final(broker)@ == old(broker)@.post(m)
            &&& m.id == reply@
            &&& m.payload == payload@
            &&& m.pipe_name == pipe_name@
            &&& is_random_id(reply@)
            &&& m.timestamp.nanos < 1_000_000_000
        }),
{
    match broker.post(pipe_name, payload) {
        Ok(id) => id,
        Err(e) => e.message(),
    }
}

/// Records that `client_id` has consumed `msg_id` and says so.
pub fn ack(broker: &mut Broker, msg_id: &str, client_id: &str) -> (reply: String)
    requires
        old(broker).wf(),
    ensures
        final(broker).wf(),
        reply@ == "Ack successful"@,
        final(broker)@ == old(broker)@.ack(msg_id@, client_id@),
{
    match broker.consumed_ack(msg_id, client_id) {
        Ok(_) => "Ack successful".to_owned(),
        Err(e) => e.message(),
    }
}

/// What `client_id` is to receive, in wire form, on every input: where
/// there is nothing to receive, the answer is the empty list and no refusal.
/// A refusal is for the caller to give where it cannot reach the broker.
pub fn fetch(broker: &Broker, client_id: &str) -> (reply: Result<Vec<WireMsg>, String>)
    ensures
        reply is Ok,
        wire_msgs(reply->Ok_0@) == broker@.fetch(client_id@).map_values(
            |m: MsgView| wire_msg_of(m),
        ),
{
    let mut out: Vec<WireMsg> = Vec::new();
    match broker.fetch(client_id) {
        Some(msgs) => {
            let mut i: usize = 0;
            while i < msgs.len()
                invariant
                    i <= msgs.len(),
                    out.len() == i,
                    forall|j: int| 0 <= j < i ==> out[j]@ == wire_msg_of(msgs[j]@),
                decreases msgs.len() - i,
            {
                out.push(wire_msg(msgs[i].clone()));
                i += 1;
            }
        },
        None => {},
    }
    assert(wire_msgs(out@) =~= broker@.fetch(client_id@).map_values(
        |m: MsgView| wire_msg_of(m),
    ));
    Ok(out)
}

} // verus!
