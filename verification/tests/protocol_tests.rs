use pipes_broker::broker::Broker;
use pipes_broker::error::BrokerError;
use pipes_broker::protocol::{handle_line, parse_command, Command};

fn parsed(line: &str) -> Option<(String, String, String)> {
    match parse_command(line) {
        Ok(Command::Sub(name)) => Some(("sub".to_string(), name, String::new())),
        Ok(Command::Unsub(name)) => Some(("unsub".to_string(), name, String::new())),
        Ok(Command::Post(name, payload)) => Some(("post".to_string(), name, payload)),
        Err(e) => {
            assert_eq!(e, BrokerError::InvalidInput);
            None
        }
    }
}

fn cmd(word: &str, name: &str, payload: &str) -> Option<(String, String, String)> {
    Some((word.to_string(), name.to_string(), payload.to_string()))
}

#[test]
fn parses_sub() {
    assert_eq!(parsed("sub|p1"), cmd("sub", "p1", ""));
    assert_eq!(parsed("sub|p1\n"), cmd("sub", "p1", ""));
    assert_eq!(parsed("sub|p1\r\n"), cmd("sub", "p1", ""));
    assert_eq!(parsed("sub|"), cmd("sub", "", ""));
    assert_eq!(parsed("sub| p 1 "), cmd("sub", " p 1 ", ""));
    assert_eq!(parsed("sub|日本"), cmd("sub", "日本", ""));
}

#[test]
fn parses_unsub() {
    assert_eq!(parsed("unsub|p1"), cmd("unsub", "p1", ""));
    assert_eq!(parsed("unsub|pipe.name\n"), cmd("unsub", "pipe.name", ""));
}

#[test]
fn parses_post() {
    assert_eq!(parsed("post|p1|hello"), cmd("post", "p1", "hello"));
    assert_eq!(parsed("post|p1|hello\n"), cmd("post", "p1", "hello"));
    assert_eq!(parsed("post|p1|"), cmd("post", "p1", ""));
    assert_eq!(parsed("post||x"), cmd("post", "", "x"));
    assert_eq!(parsed("post|p1|a|b||c"), cmd("post", "p1", "a|b||c"));
    assert_eq!(parsed("post|p1|é日本\r\n"), cmd("post", "p1", "é日本"));
}

#[test]
fn only_the_end_of_the_line_is_stripped() {
    assert_eq!(parsed("post|p1|a\n\n"), cmd("post", "p1", "a\n"));
    assert_eq!(parsed("post|p1|a\r"), cmd("post", "p1", "a\r"));
    assert_eq!(parsed("post|p1|a\n\r\n"), cmd("post", "p1", "a\n"));
    assert_eq!(parsed("sub|p1\r\r\n"), cmd("sub", "p1\r", ""));
}

#[test]
fn refuses_what_is_no_command() {
    for line in [
        "", "\n", "\r\n", "sub", "unsub", "post", "sub\n", "post|p1", "post|p1\n", "sub|a|b",
        "unsub|a|", "SUB|p1", " sub|p1", "sub |p1", "subs|p1", "fetch|c1", "ack|m|c", "|", "||",
        "|sub|p1", "hello world",
    ] {
        assert_eq!(parsed(line), None);
    }
}

#[test]
fn handles_commands() {
    let mut broker = Broker::new();
    broker.new_pipe("p1");
    assert_eq!(handle_line(&mut broker, "c1", "sub|p1\n"), "OK");
    assert_eq!(handle_line(&mut broker, "c1", "post|p1|hello|there\n"), "OK");
    let got = broker.fetch("c1").unwrap();
    assert_eq!(got.len(), 1);
    assert_eq!(got[0].payload, "hello|there");
    assert_eq!(got[0].pipe_name, "p1");
    assert!(broker.fetch("c2").is_none());
    assert_eq!(handle_line(&mut broker, "c1", "unsub|p1\n"), "OK");
    assert!(broker.fetch("c1").is_none());
    assert_eq!(handle_line(&mut broker, "c1", "unsub|p1\n"), "OK");
}

#[test]
fn answers_failures_with_their_text() {
    let mut broker = Broker::new();
    broker.new_pipe("p1");
    assert_eq!(handle_line(&mut broker, "c1", "sub|p2\n"), "Pipe not found");
    assert_eq!(handle_line(&mut broker, "c1", "unsub|p2\n"), "Pipe not found");
    assert_eq!(handle_line(&mut broker, "c1", "post|p2|x\n"), "Pipe not found");
    assert_eq!(handle_line(&mut broker, "c1", "post|p1\n"), "Unknown command");
    assert_eq!(handle_line(&mut broker, "c1", "hello\n"), "Unknown command");
    assert_eq!(handle_line(&mut broker, "c1", ""), "Unknown command");
    assert_eq!(broker.pipe_count(), 1);
    broker.sub("p1", "c1").unwrap();
    assert!(broker.fetch("c1").is_none());
}
