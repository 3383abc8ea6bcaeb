use pipes_broker::broker::Broker;
use pipes_broker::error::BrokerError;
use pipes_broker::msg::{Msg, Timestamp};

fn ids(msgs: &Option<Vec<Msg>>) -> Vec<String> {
    match msgs {
        Some(v) => v.iter().map(|m| m.id.clone()).collect(),
        None => vec![],
    }
}

fn payloads(msgs: &Option<Vec<Msg>>) -> Vec<String> {
    match msgs {
        Some(v) => v.iter().map(|m| m.payload.clone()).collect(),
        None => vec![],
    }
}

fn at(seconds: i64) -> Timestamp {
    Timestamp { seconds, nanos: 0 }
}

#[test]
fn test_broker_creation() {
    let broker = Broker::new();
    assert!(broker.pipe_count() == 0);
}

#[test]
fn default_broker_is_empty() {
    let broker = Broker::default();
    assert_eq!(broker.pipe_count(), 0);
    assert!(!broker.has_pipe("p1"));
    assert!(broker.fetch("c1").is_none());
}

#[test]
fn unknown_pipe_is_refused_and_nothing_changes() {
    let mut broker = Broker::new();
    broker.new_pipe("p1");
    broker.sub("p1", "c1").unwrap();
    let id = broker.post("p1", "kept").unwrap();

    assert_eq!(broker.post("nope", "x"), Err(BrokerError::NotFound));
    assert_eq!(broker.sub("nope", "c1"), Err(BrokerError::NotFound));
    assert_eq!(broker.unsub("nope", "c1"), Err(BrokerError::NotFound));

    assert_eq!(broker.pipe_count(), 1);
    assert!(!broker.has_pipe("nope"));
    assert_eq!(ids(&broker.fetch("c1")), vec![id]);
}

#[test]
fn unknown_pipe_on_empty_broker() {
    let mut broker = Broker::new();
    assert_eq!(broker.post("p1", "x"), Err(BrokerError::NotFound));
    assert_eq!(broker.sub("p1", "c1"), Err(BrokerError::NotFound));
    assert_eq!(broker.unsub("p1", "c1"), Err(BrokerError::NotFound));
    assert_eq!(broker.pipe_count(), 0);
}

#[test]
fn basic_delivery() {
    let mut broker = Broker::new();
    broker.new_pipe("p1");
    assert_eq!(broker.sub("p1", "c1"), Ok(()));
    let m = broker.post("p1", "hello").unwrap();
    let got = broker.fetch("c1").unwrap();
    assert_eq!(got.len(), 1);
    assert_eq!(got[0].id, m);
    assert_eq!(got[0].payload, "hello");
    assert_eq!(got[0].pipe_name, "p1");
    assert_eq!(got[0].id(), m.as_str());
    assert_eq!(got[0].payload(), "hello");
    assert_eq!(got[0].pipe_name(), "p1");
}

#[test]
fn ack_suppresses_redelivery() {
    let mut broker = Broker::new();
    broker.new_pipe("p1");
    broker.sub("p1", "c1").unwrap();
    let m = broker.post("p1", "hello").unwrap();
    assert!(!broker.was_consumed(&m, "c1"));
    assert_eq!(broker.consumed_ack(&m, "c1"), Ok(()));
    assert!(broker.was_consumed(&m, "c1"));
    assert!(broker.fetch("c1").is_none());
}

#[test]
fn ack_is_idempotent() {
    let mut broker = Broker::new();
    broker.new_pipe("p1");
    broker.sub("p1", "c1").unwrap();
    let first = broker.post("p1", "one").unwrap();
    let second = broker.post("p1", "two").unwrap();
    assert_eq!(broker.consumed_ack(&first, "c1"), Ok(()));
    assert_eq!(broker.consumed_ack(&first, "c1"), Ok(()));
    assert!(broker.was_consumed(&first, "c1"));
    assert_eq!(ids(&broker.fetch("c1")), vec![second.clone()]);
    assert_eq!(ids(&broker.fetch("c1")), vec![second]);
}

#[test]
fn ack_of_one_client_spares_the_other() {
    let mut broker = Broker::new();
    broker.new_pipe("p1");
    broker.sub("p1", "c1").unwrap();
    broker.sub("p1", "c2").unwrap();
    let m = broker.post("p1", "hello").unwrap();
    broker.consumed_ack(&m, "c1").unwrap();
    assert!(broker.fetch("c1").is_none());
    assert_eq!(ids(&broker.fetch("c2")), vec![m.clone()]);
    assert!(!broker.was_consumed(&m, "c2"));
}

#[test]
fn ack_takes_any_pair() {
    let mut broker = Broker::new();
    assert_eq!(broker.consumed_ack("no-such-message", "nobody"), Ok(()));
    assert!(broker.was_consumed("no-such-message", "nobody"));
    assert!(!broker.was_consumed("no-such-message", "somebody"));
    assert!(!broker.was_consumed("nobody", "no-such-message"));
    assert_eq!(broker.pipe_count(), 0);
}

#[test]
fn ack_before_post_hides_the_message() {
    let mut broker = Broker::new();
    broker.new_pipe("p1");
    broker.sub("p1", "c1").unwrap();
    broker.consumed_ack("M", "c1").unwrap();
    let r = broker.post_msg(Msg::from_parts("M".to_string(), "hello", "p1", at(1)));
    assert_eq!(r, Ok("M".to_string()));
    assert!(broker.fetch("c1").is_none());
}

#[test]
fn subscribing_again_changes_nothing() {
    let mut broker = Broker::new();
    broker.new_pipe("p1");
    for _ in 0..5 {
        assert_eq!(broker.sub("p1", "c1"), Ok(()));
    }
    let m = broker.post("p1", "hello").unwrap();
    assert_eq!(ids(&broker.fetch("c1")), vec![m]);
    assert_eq!(broker.unsub("p1", "c1"), Ok(()));
    assert!(broker.fetch("c1").is_none());
}

#[test]
fn unsubscribing_when_not_subscribed_is_no_error() {
    let mut broker = Broker::new();
    broker.new_pipe("p1");
    broker.sub("p1", "c2").unwrap();
    let m = broker.post("p1", "hello").unwrap();
    for _ in 0..5 {
        assert_eq!(broker.unsub("p1", "c1"), Ok(()));
    }
    assert!(broker.fetch("c1").is_none());
    assert_eq!(ids(&broker.fetch("c2")), vec![m]);
}

#[test]
fn unsubscribe_stops_future_delivery() {
    let mut broker = Broker::new();
    broker.new_pipe("p1");
    broker.sub("p1", "c1").unwrap();
    broker.post("p1", "before").unwrap();
    broker.unsub("p1", "c1").unwrap();
    broker.post("p1", "after").unwrap();
    assert!(broker.fetch("c1").is_none());
}

#[test]
fn unsubscribe_from_one_pipe_keeps_the_other() {
    let mut broker = Broker::new();
    broker.new_pipe("p1");
    broker.new_pipe("p2");
    broker.sub("p1", "c1").unwrap();
    broker.sub("p2", "c1").unwrap();
    broker.unsub("p1", "c1").unwrap();
    let hidden = broker.post("p1", "one").unwrap();
    let shown = broker.post("p2", "two").unwrap();
    let got = ids(&broker.fetch("c1"));
    assert_eq!(got, vec![shown]);
    assert!(!got.contains(&hidden));
}

#[test]
fn resubscribing_shows_the_whole_log_again() {
    let mut broker = Broker::new();
    broker.new_pipe("p1");
    broker.sub("p1", "c1").unwrap();
    let a = broker.post("p1", "a").unwrap();
    broker.unsub("p1", "c1").unwrap();
    let b = broker.post("p1", "b").unwrap();
    broker.sub("p1", "c1").unwrap();
    assert_eq!(ids(&broker.fetch("c1")), vec![a, b]);
}

#[test]
fn cross_channel_aggregation() {
    let mut broker = Broker::new();
    broker.new_pipe("p1");
    broker.new_pipe("p2");
    broker.sub("p1", "c1").unwrap();
    broker.sub("p2", "c1").unwrap();
    let m1 = broker.post("p1", "one").unwrap();
    let m2 = broker.post("p2", "two").unwrap();
    let first = broker.fetch("c1");
    assert_eq!(ids(&first), vec![m1.clone(), m2.clone()]);
    assert_eq!(payloads(&first), vec!["one".to_string(), "two".to_string()]);
    let again = broker.fetch("c1");
    assert_eq!(ids(&again), vec![m1, m2]);
    assert_eq!(payloads(&again), vec!["one".to_string(), "two".to_string()]);
}

#[test]
fn pipes_are_fetched_in_the_order_of_their_names() {
    let mut broker = Broker::new();
    for name in ["m", "b", "z", "a", "ab", "B", ""] {
        broker.new_pipe(name);
        broker.sub(name, "c1").unwrap();
    }
    for name in ["z", "m", "", "ab", "a", "B", "b"] {
        broker.post(name, name).unwrap();
    }
    let got = payloads(&broker.fetch("c1"));
    assert_eq!(got, vec!["", "B", "a", "ab", "b", "m", "z"]);
}

#[test]
fn names_are_ordered_by_their_bytes() {
    let mut broker = Broker::new();
    for name in ["é", "z", "日本", "a\u{10000}", "a\u{ffff}", "a"] {
        broker.new_pipe(name);
        broker.sub(name, "c1").unwrap();
        broker.post(name, name).unwrap();
    }
    let mut expected = vec!["é", "z", "日本", "a\u{10000}", "a\u{ffff}", "a"];
    expected.sort();
    assert_eq!(payloads(&broker.fetch("c1")), expected);
    assert_eq!(expected, vec!["a", "a\u{ffff}", "a\u{10000}", "z", "é", "日本"]);
}

#[test]
fn a_pipe_keeps_the_order_of_posting() {
    let mut broker = Broker::new();
    broker.new_pipe("p1");
    broker.sub("p1", "c1").unwrap();
    let mut posted = vec![];
    for text in ["3", "1", "2", "1"] {
        posted.push(broker.post("p1", text).unwrap());
    }
    let got = broker.fetch("c1");
    assert_eq!(ids(&got), posted);
    assert_eq!(payloads(&got), vec!["3", "1", "2", "1"]);
    broker.consumed_ack(&posted[1], "c1").unwrap();
    assert_eq!(payloads(&broker.fetch("c1")), vec!["3", "2", "1"]);
}

#[test]
fn posting_without_subscribers_reaches_nobody() {
    let mut broker = Broker::new();
    broker.new_pipe("p1");
    broker.new_pipe("p2");
    broker.sub("p2", "c2").unwrap();
    assert!(broker.post("p1", "lost").is_ok());
    assert!(broker.fetch("c1").is_none());
    assert!(broker.fetch("c2").is_none());
    assert!(broker.fetch("").is_none());
}

#[test]
fn empty_fetch_is_a_signal_not_an_error() {
    let mut broker = Broker::new();
    assert!(broker.fetch("c1").is_none());
    broker.new_pipe("p1");
    assert!(broker.fetch("c1").is_none());
    broker.sub("p1", "c1").unwrap();
    assert!(broker.fetch("c1").is_none());
    let m = broker.post("p1", "hello").unwrap();
    assert!(broker.fetch("c1").is_some());
    broker.consumed_ack(&m, "c1").unwrap();
    assert!(broker.fetch("c1").is_none());
}

#[test]
fn new_pipe_replaces_a_pipe_of_the_same_name() {
    let mut broker = Broker::new();
    broker.new_pipe("p1");
    broker.new_pipe("p2");
    broker.sub("p1", "c1").unwrap();
    broker.sub("p2", "c1").unwrap();
    broker.post("p1", "old").unwrap();
    let kept = broker.post("p2", "kept").unwrap();

    broker.new_pipe("p1");
    assert_eq!(broker.pipe_count(), 2);
    assert!(broker.has_pipe("p1"));
    assert_eq!(ids(&broker.fetch("c1")), vec![kept.clone()]);

    let fresh = broker.post("p1", "new").unwrap();
    assert_eq!(ids(&broker.fetch("c1")), vec![kept.clone()]);
    broker.sub("p1", "c1").unwrap();
    assert_eq!(ids(&broker.fetch("c1")), vec![fresh, kept]);
}

#[test]
fn new_pipe_keeps_acknowledgments() {
    let mut broker = Broker::new();
    broker.new_pipe("p1");
    broker.consumed_ack("M", "c1").unwrap();
    broker.new_pipe("p1");
    broker.new_pipe("p0");
    assert!(broker.was_consumed("M", "c1"));
    assert_eq!(broker.pipe_count(), 2);
}

#[test]
fn has_pipe_tells_names_apart() {
    let mut broker = Broker::new();
    broker.new_pipe("pipe.name");
    assert!(broker.has_pipe("pipe.name"));
    assert!(!broker.has_pipe("pipe.nam"));
    assert!(!broker.has_pipe("pipe.name "));
    assert!(!broker.has_pipe("Pipe.name"));
    assert!(!broker.has_pipe(""));
}

#[test]
fn post_msg_appends_the_given_message() {
    let mut broker = Broker::new();
    broker.new_pipe("p1");
    broker.sub("p1", "c1").unwrap();
    let t = Timestamp { seconds: 1_700_000_000, nanos: 999_999_999 };
    let r = broker.post_msg(Msg::from_parts("id-1".to_string(), "hello", "p1", t));
    assert_eq!(r, Ok("id-1".to_string()));
    let got = broker.fetch("c1").unwrap();
    assert_eq!(got.len(), 1);
    assert_eq!(got[0].id, "id-1");
    assert_eq!(got[0].payload, "hello");
    assert_eq!(got[0].pipe_name, "p1");
    assert_eq!(got[0].timestamp, t);
    assert_eq!(got[0].timestamp(), t);
}

#[test]
fn post_msg_to_unknown_pipe_is_refused() {
    let mut broker = Broker::new();
    broker.new_pipe("p1");
    broker.sub("p1", "c1").unwrap();
    let r = broker.post_msg(Msg::from_parts("id-1".to_string(), "hello", "p2", at(0)));
    assert_eq!(r, Err(BrokerError::NotFound));
    assert!(broker.fetch("c1").is_none());
}

#[test]
fn messages_with_one_identifier_are_hidden_together() {
    let mut broker = Broker::new();
    broker.new_pipe("p1");
    broker.new_pipe("p2");
    broker.sub("p1", "c1").unwrap();
    broker.sub("p2", "c1").unwrap();
    broker.post_msg(Msg::from_parts("same".to_string(), "one", "p1", at(1))).unwrap();
    broker.post_msg(Msg::from_parts("same".to_string(), "two", "p2", at(2))).unwrap();
    broker.post_msg(Msg::from_parts("other".to_string(), "three", "p2", at(3))).unwrap();
    assert_eq!(payloads(&broker.fetch("c1")), vec!["one", "two", "three"]);
    broker.consumed_ack("same", "c1").unwrap();
    assert_eq!(payloads(&broker.fetch("c1")), vec!["three"]);
}

#[test]
fn posted_identifiers_differ() {
    let mut broker = Broker::new();
    broker.new_pipe("p1");
    let a = broker.post("p1", "same").unwrap();
    let b = broker.post("p1", "same").unwrap();
    assert_ne!(a, b);
}

#[test]
fn payload_is_stored_verbatim() {
    let mut broker = Broker::new();
    broker.new_pipe("p1");
    broker.sub("p1", "c1").unwrap();
    let text = "  a|b\n\u{0}\té日本  ";
    broker.post("p1", text).unwrap();
    broker.post("p1", "").unwrap();
    assert_eq!(payloads(&broker.fetch("c1")), vec![text, ""]);
}

#[test]
fn error_texts() {
    assert_eq!(BrokerError::NotFound.message(), "Pipe not found");
    assert_eq!(BrokerError::InvalidInput.message(), "Unknown command");
    assert_eq!(BrokerError::CoordinationFailure.message(), "Failed to acquire lock");
}
