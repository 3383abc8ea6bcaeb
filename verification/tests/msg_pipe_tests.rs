use pipes_broker::msg::{Msg, Timestamp};
use pipes_broker::order::{name_before, same_text};
use pipes_broker::pipe::Pipe;

fn is_lower_hex(c: char) -> bool {
    c.is_ascii_digit() || ('a'..='f').contains(&c)
}

#[test]
fn new_message_has_a_random_identifier() {
    let m = Msg::new("hello", "p1");
    assert_eq!(m.payload, "hello");
    assert_eq!(m.pipe_name, "p1");
    let id: Vec<char> = m.id.chars().collect();
    assert_eq!(id.len(), 36);
    for (i, c) in id.iter().enumerate() {
        if i == 8 || i == 13 || i == 18 || i == 23 {
            assert_eq!(*c, '-');
        } else {
            assert!(is_lower_hex(*c));
        }
    }
    assert_eq!(id[14], '4');
    assert!(matches!(id[19], '8' | '9' | 'a' | 'b'));
}

#[test]
fn new_message_has_the_time_of_the_clock() {
    let m = Msg::new("hello", "p1");
    assert!(m.timestamp.seconds > 1_600_000_000);
    assert!(m.timestamp.nanos < 1_000_000_000);
    let later = Msg::new("hello", "p1");
    assert!(later.timestamp.seconds >= m.timestamp.seconds);
}

#[test]
fn new_messages_differ_in_identifier() {
    let a = Msg::new("hello", "p1");
    let b = Msg::new("hello", "p1");
    assert_ne!(a.id, b.id);
}

#[test]
fn from_parts_keeps_every_part() {
    let t = Timestamp { seconds: -5, nanos: 7 };
    let m = Msg::from_parts("the id".to_string(), "the payload", "the pipe", t);
    assert_eq!(m.id(), "the id");
    assert_eq!(m.payload(), "the payload");
    assert_eq!(m.pipe_name(), "the pipe");
    assert_eq!(m.timestamp(), t);
}

#[test]
fn clone_keeps_every_part() {
    let t = Timestamp { seconds: 11, nanos: 13 };
    let m = Msg::from_parts("i".to_string(), "p", "n", t);
    let c = m.clone();
    assert_eq!(c.id, "i");
    assert_eq!(c.payload, "p");
    assert_eq!(c.pipe_name, "n");
    assert_eq!(c.timestamp, t);
}

#[test]
fn new_pipe_is_empty() {
    let p = Pipe::new("p1");
    assert_eq!(p.name(), "p1");
    assert_eq!(p.msg_count(), 0);
    assert_eq!(p.sub_count(), 0);
    assert!(!p.has_sub(&"c1".to_string()));
    assert!(p.fetch(&"c1".to_string()).is_none());
}

#[test]
fn pipe_post_returns_the_identifier() {
    let mut p = Pipe::new("p1");
    let t = Timestamp { seconds: 0, nanos: 0 };
    let id = p.post(Msg::from_parts("M".to_string(), "hello", "p1", t));
    assert_eq!(id, "M");
    assert_eq!(p.msg_count(), 1);
}

#[test]
fn pipe_subscription_is_a_toggle() {
    let mut p = Pipe::new("p1");
    let c1 = "c1".to_string();
    let c2 = "c2".to_string();
    for _ in 0..4 {
        p.sub("c1");
    }
    assert_eq!(p.sub_count(), 1);
    assert!(p.has_sub(&c1));
    assert!(!p.has_sub(&c2));
    p.sub("c2");
    assert_eq!(p.sub_count(), 2);
    p.unsub("c1");
    assert_eq!(p.sub_count(), 1);
    assert!(!p.has_sub(&c1));
    assert!(p.has_sub(&c2));
    for _ in 0..4 {
        p.unsub("c1");
    }
    assert_eq!(p.sub_count(), 1);
    p.unsub("c2");
    assert_eq!(p.sub_count(), 0);
}

#[test]
fn pipe_fetch_gives_the_whole_log_to_subscribers() {
    let mut p = Pipe::new("p1");
    let c1 = "c1".to_string();
    let t = Timestamp { seconds: 0, nanos: 0 };
    p.sub("c1");
    assert!(p.fetch(&c1).is_none());
    p.post(Msg::from_parts("a".to_string(), "1", "p1", t));
    p.post(Msg::from_parts("b".to_string(), "2", "p1", t));
    let got = p.fetch(&c1).unwrap();
    assert_eq!(got.len(), 2);
    assert_eq!(got[0].id, "a");
    assert_eq!(got[0].payload, "1");
    assert_eq!(got[1].id, "b");
    assert_eq!(got[1].payload, "2");
    assert!(p.fetch(&"c2".to_string()).is_none());
    p.unsub("c1");
    assert!(p.fetch(&c1).is_none());
}

#[test]
fn name_order_is_the_order_of_str() {
    let names = ["", "a", "A", "ab", "b", "a\u{ffff}", "a\u{10000}", "é", "z", "日本", "zz", "a "];
    for a in names {
        for b in names {
            assert_eq!(name_before(a, b), a < b);
            assert_eq!(same_text(a, b), a == b);
        }
    }
}

#[test]
fn name_order_examples() {
    assert!(name_before("", "a"));
    assert!(!name_before("a", ""));
    assert!(!name_before("a", "a"));
    assert!(name_before("a", "ab"));
    assert!(name_before("ab", "b"));
    assert!(name_before("B", "a"));
    assert!(name_before("p1", "p2"));
    assert!(name_before("p10", "p2"));
    assert!(same_text("", ""));
    assert!(same_text("pipe", "pipe"));
    assert!(!same_text("pipe", "pipe "));
    assert!(!same_text("pipe", "pipf"));
}
