use pipes_broker::broker::Broker;
use pipes_broker::msg::{Msg, Timestamp};
use pipes_broker::service;

#[test]
fn subscribe_replies() {
    let mut broker = Broker::new();
    broker.new_pipe("pipe.name");
    assert_eq!(service::subscribe(&mut broker, "pipe.name"), "Subscription successful");
    assert_eq!(service::subscribe(&mut broker, "pipe.name"), "Subscription successful");
    assert_eq!(service::subscribe(&mut broker, "other"), "Pipe not found");
}

#[test]
fn subscribe_acts_for_the_fixed_client() {
    let mut broker = Broker::new();
    broker.new_pipe("pipe.name");
    service::subscribe(&mut broker, "pipe.name");
    let id = service::post(&mut broker, "pipe.name", "hello");
    let got = broker.fetch("client1").unwrap();
    assert_eq!(got.len(), 1);
    assert_eq!(got[0].id, id);
    assert!(broker.fetch("client2").is_none());
    let left = service::unsubscribe(&mut broker, "pipe.name", "client1");
    assert_eq!(left, "Unsubscription successful");
    assert!(broker.fetch("client1").is_none());
}

#[test]
fn the_fixed_client() {
    assert_eq!(service::FIXED_CLIENT, "client1");
}

#[test]
fn unsubscribe_replies() {
    let mut broker = Broker::new();
    broker.new_pipe("pipe.name");
    assert_eq!(service::unsubscribe(&mut broker, "pipe.name", "c1"), "Unsubscription successful");
    assert_eq!(service::unsubscribe(&mut broker, "pipe.name", "c1"), "Unsubscription successful");
    assert_eq!(service::unsubscribe(&mut broker, "other", "c1"), "Pipe not found");
}

#[test]
fn unsubscribe_removes_the_client_of_the_request() {
    let mut broker = Broker::new();
    broker.new_pipe("pipe.name");
    service::subscribe(&mut broker, "pipe.name");
    broker.sub("pipe.name", "c2").unwrap();
    broker.sub("pipe.name", "c3").unwrap();
    let id = service::post(&mut broker, "pipe.name", "hello");

    let left = service::unsubscribe(&mut broker, "pipe.name", "c2");
    assert_eq!(left, "Unsubscription successful");
    assert!(broker.fetch("c2").is_none());
    assert_eq!(broker.fetch("client1").unwrap()[0].id, id);
    assert_eq!(broker.fetch("c3").unwrap()[0].id, id);

    let left = service::unsubscribe(&mut broker, "pipe.name", "client1");
    assert_eq!(left, "Unsubscription successful");
    assert!(broker.fetch("client1").is_none());
    assert_eq!(broker.fetch("c3").unwrap()[0].id, id);
}

#[test]
fn unsubscribe_from_unknown_pipe_changes_nothing() {
    let mut broker = Broker::new();
    broker.new_pipe("pipe.name");
    broker.sub("pipe.name", "c1").unwrap();
    let id = service::post(&mut broker, "pipe.name", "hello");
    assert_eq!(service::unsubscribe(&mut broker, "other", "c1"), "Pipe not found");
    assert_eq!(broker.fetch("c1").unwrap()[0].id, id);
}

#[test]
fn post_replies_with_the_identifier() {
    let mut broker = Broker::new();
    broker.new_pipe("pipe.name");
    broker.sub("pipe.name", "c1").unwrap();
    let id = service::post(&mut broker, "pipe.name", "hello");
    assert_eq!(id.len(), 36);
    assert_eq!(id.matches('-').count(), 4);
    assert_ne!(id, "Pipe not found");
    let got = broker.fetch("c1").unwrap();
    assert_eq!(got[0].id, id);
    assert_eq!(got[0].payload, "hello");
    assert_eq!(service::post(&mut broker, "other", "hello"), "Pipe not found");
}

#[test]
fn ack_replies() {
    let mut broker = Broker::new();
    assert_eq!(service::ack(&mut broker, "M", "c1"), "Ack successful");
    assert_eq!(service::ack(&mut broker, "M", "c1"), "Ack successful");
    assert!(broker.was_consumed("M", "c1"));
}

#[test]
fn fetch_replies_in_wire_form() {
    let mut broker = Broker::new();
    broker.new_pipe("p1");
    broker.sub("p1", "c1").unwrap();
    let t = Timestamp { seconds: 1_700_000_000, nanos: 123_456_789 };
    broker.post_msg(Msg::from_parts("a".to_string(), "one", "p1", t)).unwrap();
    broker.post_msg(Msg::from_parts("b".to_string(), "two", "p1", t)).unwrap();
    let got = service::fetch(&broker, "c1").unwrap();
    assert_eq!(got.len(), 2);
    assert_eq!(got[0].id, "a");
    assert_eq!(got[0].payload, "one");
    let w = got[0].timestamp.unwrap();
    assert_eq!(w.seconds, 1_700_000_000);
    assert_eq!(w.nanos, 123_456_789);
    assert_eq!(got[1].id, "b");
    assert_eq!(got[1].payload, "two");
}

#[test]
fn fetch_answers_the_empty_list_when_there_is_nothing() {
    let mut broker = Broker::new();
    assert!(service::fetch(&broker, "c1").unwrap().is_empty());
    broker.new_pipe("p1");
    assert!(service::fetch(&broker, "c1").unwrap().is_empty());
    broker.sub("p1", "c1").unwrap();
    assert!(service::fetch(&broker, "c1").unwrap().is_empty());
    let id = service::post(&mut broker, "p1", "hello");
    assert_eq!(service::fetch(&broker, "c1").unwrap().len(), 1);
    assert!(service::fetch(&broker, "c2").unwrap().is_empty());
    service::ack(&mut broker, &id, "c1");
    assert!(service::fetch(&broker, "c1").unwrap().is_empty());
    assert!(service::fetch(&broker, "c1").is_ok());
}

#[test]
fn wire_timestamp_keeps_seconds_and_nanos() {
    let w = service::wire_timestamp(Timestamp { seconds: -1, nanos: 0 });
    assert_eq!((w.seconds, w.nanos), (-1, 0));
    let w = service::wire_timestamp(Timestamp { seconds: i64::MAX, nanos: 1_999_999_999 });
    assert_eq!((w.seconds, w.nanos), (i64::MAX, 1_999_999_999));
    let w = service::wire_timestamp(Timestamp { seconds: 0, nanos: 2_147_483_647 });
    assert_eq!(w.nanos, i32::MAX);
    let w = service::wire_timestamp(Timestamp { seconds: 0, nanos: u32::MAX });
    assert_eq!(w.nanos, -1);
}

#[test]
fn wire_msg_keeps_identifier_and_payload() {
    let t = Timestamp { seconds: 5, nanos: 6 };
    let w = service::wire_msg(Msg::from_parts("i".to_string(), "p", "n", t));
    assert_eq!(w.id, "i");
    assert_eq!(w.payload, "p");
    assert_eq!(w.timestamp, Some(service::WireTimestamp { seconds: 5, nanos: 6 }));
}
