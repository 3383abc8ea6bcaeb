//! The line-oriented text protocol: one command per line, its fields parted
//! by bars. `sub|<pipe>` and `unsub|<pipe>` take the rest of the line as the
//! pipe's name, which holds no bar; `post|<pipe>|<payload>` takes whatever
//! follows the second bar as the payload, bars and all. Anything else is no
//! command.

use vstd::prelude::*;
use vstd::std_specs::iter::IteratorSpec;
use vstd::string::StrSliceExecFns;
use crate::broker::Broker;
use crate::error::{error_text, BrokerError};
use crate::msg::is_random_id;
use crate::order::same_text;

verus! {

/// A command of the protocol.
#[derive(Debug)]
pub enum Command {
    /// Subscribe to the pipe of this name.
    Sub(String),
    /// Leave the pipe of this name.
    Unsub(String),
    /// Post to the pipe of this name the payload that follows.
    Post(String, String),
}

/// What a command is, as plain values.
pub enum CommandView {
    Sub(Seq<char>),
    Unsub(Seq<char>),
    Post(Seq<char>, Seq<char>),
}

impl View for Command {
    type V = CommandView;

    open spec fn view(&self) -> CommandView {
        match self {
            Command::Sub(name) => CommandView::Sub(name@),
            Command::Unsub(name) => CommandView::Unsub(name@),
            Command::Post(name, payload) => CommandView::Post(name@, payload@),
        }
    }
}

/// `at` is the place of the first bar in `s`, or the length of `s` if it
/// holds none.
pub open spec fn is_first_bar(s: Seq<char>, at: int) -> bool {
    &&& 0 <= at <= s.len()
    &&& at < s.len() ==> s[at] == '|'
    &&& forall|j: int| 0 <= j < at ==> s[j] != '|'
}

/// The place of the first bar in `s`, or the length of `s` if it holds none.
pub open spec fn first_bar(s: Seq<char>) -> int {
    choose|at: int| is_first_bar(s, at)
}

/// There is one such place.
pub proof fn lemma_first_bar(s: Seq<char>, at: int)
    requires
        is_first_bar(s, at),
    ensures
        first_bar(s) == at,
{
    let other = first_bar(s);
    assert(is_first_bar(s, other));
    if other < at {
        assert(s[other] != '|');
    }
    if at < other {
        assert(s[at] != '|');
    }
}

/// The line without what ends it: a final line feed, and a carriage return
/// in front of that line feed.
pub open spec fn line_body(line: Seq<char>) -> Seq<char> {
    let n = line.len() as int;
    if n >= 2 && line[n - 1] == '\n' && line[n - 2] == '\r' {
        line.take(n - 2)
    } else if n >= 1 && line[n - 1] == '\n' {
        line.take(n - 1)
    } else {
        line
    }
}

/// The command that a line holds, if it holds one.
pub open spec fn parse(line: Seq<char>) -> Option<CommandView> {
    let s = line_body(line);
    let i = first_bar(s);
    let word = s.take(i);
    let rest = s.skip(i + 1);
    let j = first_bar(rest);
    if i >= s.len() {
        None
    } else if word == "sub"@ && j == rest.len() {
        Some(CommandView::Sub(rest))
    } else if word == "unsub"@ && j == rest.len() {
        Some(CommandView::Unsub(rest))
    } else if word == "post"@ && j < rest.len() {
        Some(CommandView::Post(rest.take(j), rest.skip(j + 1)))
    } else {
        None
    }
}

/// How many characters `s` holds, and the place of its first bar.
fn find_bar(s: &str) -> (r: (usize, usize))
    ensures
        r.0 == s@.len(),
        r.1 == first_bar(s@),
        is_first_bar(s@, r.1 as int),
{
    let n = s.unicode_len();
    let mut it = s.chars();
    let mut i: usize = 0;
    loop
        invariant
            n == s@.len(),
            i <= n,
            it.remaining() == s@.skip(i as int),
            forall|j: int| 0 <= j < i ==> s@[j] != '|',
        decreases n - i,
    {
        match it.next() {
            None => {
                proof {
                    lemma_first_bar(s@, n as int);
                }
                return (n, n);
            },
            Some(c) => {
                if c == '|' {
                    proof {
                        lemma_first_bar(s@, i as int);
                    }
                    return (n, i);
                }
                assert(s@.skip(i as int).drop_first() =~= s@.skip(i + 1));
            },
        }
        i += 1;
    }
}

/// The line without what ends it.
fn strip_line_end(line: &str) -> (body: &str)
    ensures
        body@ == line_body(line@),
{
    let n = line.unicode_len();
    if n >= 1 && line.get_char(n - 1) == '\n' {
        if n >= 2 && line.get_char(n - 2) == '\r' {
            line.substring_char(0, n - 2)
        } else {
            line.substring_char(0, n - 1)
        }
    } else {
        assert(line@.take(n as int) =~= line@);
        line
    }
}

/// Reads a line as a command. A line that holds none is refused as
/// malformed input.
pub fn parse_command(line: &str) -> (r: Result<Command, BrokerError>)
    ensures
        match parse(line@) {
            Some(c) => r is Ok && r->Ok_0@ == c,
            None => r == Err::<Command, BrokerError>(BrokerError::InvalidInput),
        },
{
    let body = strip_line_end(line);
    let (n, i) = find_bar(body);
    if i >= n {
        return Err(BrokerError::InvalidInput);
    }
    let word = body.substring_char(0, i);
    let rest = body.substring_char(i + 1, n);
    assert(word@ == body@.take(i as int));
    assert(rest@ == body@.skip(i + 1));
    let (m, j) = find_bar(rest);
    if same_text(word, "sub") && j == m {
        Ok(Command::Sub(rest.to_owned()))
    } else if same_text(word, "unsub") && j == m {
        Ok(Command::Unsub(rest.to_owned()))
    } else if same_text(word, "post") && j < m {
        let name = rest.substring_char(0, j);
        let payload = rest.substring_char(j + 1, m);
        assert(name@ == rest@.take(j as int));
        assert(payload@ == rest@.skip(j + 1));
        Ok(Command::Post(name.to_owned(), payload.to_owned()))
    } else {
        Err(BrokerError::InvalidInput)
    }
}

/// The answer to a command that was carried out.
pub open spec fn done_text() -> Seq<char> {
    "OK"@
}

/// Carries out the command that `line` holds for the client `client_id`,
/// and answers `OK` or the text of the failure.
pub fn handle_line(broker: &mut Broker, client_id: &str, line: &str) -> (reply: String)
    requires
        old(broker).wf(),
    ensures
        final(broker).wf(),
        match parse(line@) {
            None => {
                &&& reply@ == error_text(BrokerError::InvalidInput)
                &&& final(broker)@ == old(broker)@
            },
            Some(CommandView::Sub(name)) => if old(broker)@.has_pipe(name) {
                reply@ == done_text() && final(broker)@ == old(broker)@.sub(name, client_id@)
            } else {
                reply@ == error_text(BrokerError::NotFound) && final(broker)@ == old(broker)@
            },
            Some(CommandView::Unsub(name)) => if old(broker)@.has_pipe(name) {
                reply@ == done_text() && final(broker)@ == old(broker)@.unsub(name, client_id@)
            } else {
                reply@ == error_text(BrokerError::NotFound) && final(broker)@ == old(broker)@
            },
            Some(CommandView::Post(name, payload)) => if old(broker)@.has_pipe(name) {
                let m = final(broker)@.pipe(name).msgs.last();
                &&& reply@ == done_text()
                &&& final(broker)@ == old(broker)@.post(m)
                &&& m.payload == payload
                &&& m.pipe_name == name
                &&& is_random_id(m.id)
                &&& m.timestamp.nanos < 1_000_000_000
            } else {
                reply@ == error_text(BrokerError::NotFound) && final(broker)@ == old(broker)@
            },
        },
{
    let done = match parse_command(line) {
        Ok(Command::Sub(name)) => broker.sub(name.as_str(), client_id),
        Ok(Command::Unsub(name)) => broker.unsub(name.as_str(), client_id),
        Ok(Command::Post(name, payload)) => match broker.post(name.as_str(), payload.as_str()) {
            Ok(_) => Ok(()),
            Err(e) => Err(e),
        },
        Err(e) => Err(e),
    };
    match done {
        Ok(_) => "OK".to_owned(),
        Err(e) => e.message(),
    }
}

} // verus!
