//! The kinds of failure, and the text that a transport shows for each.

use vstd::prelude::*;

verus! {

/// Why an operation failed.
#[derive(Clone, Copy, Debug, PartialEq, Eq, Structural)]
pub enum BrokerError {
    /// The operation names a pipe that is not registered.
    NotFound,
    /// A command of a transport was malformed.
    InvalidInput,
    /// The exclusive section round the broker could not be entered.
    CoordinationFailure,
}

/// The text shown for each kind of failure.
pub open spec fn error_text(e: BrokerError) -> Seq<char> {
    match e {
        BrokerError::NotFound => "Pipe not found"@,
        BrokerError::InvalidInput => "Unknown command"@,
        BrokerError::CoordinationFailure => "Failed to acquire lock"@,
    }
}

impl BrokerError {
    /// The text shown for this failure.
    pub fn message(&self) -> (text: String)
        ensures
            text@ == error_text(*self),
    {
        match self {
            BrokerError::NotFound => "Pipe not found".to_owned(),
            BrokerError::InvalidInput => "Unknown command".to_owned(),
            BrokerError::CoordinationFailure => "Failed to acquire lock".to_owned(),
        }
    }
}

} // verus!
