//! An in-process publish/subscribe broker: named pipes hold an append-only log
//! of messages and a set of subscribers; clients fetch what they have not yet
//! acknowledged.
//!
//! - [`msg`], [`pipe`], [`broker`]: the messages, the pipes and the broker.
//! - [`model`]: the broker as plain values, over which the contracts speak.
//! - [`laws`]: what holds of the broker in every state.
//! - [`order`]: the order of pipe names, in which pipes are fetched from.
//! - [`seqs`]: facts about sequences that the proofs rest on.
//! - [`service`], [`protocol`]: what the two front-ends answer.
//! - [`error`]: the kinds of failure.

pub mod error;
pub mod order;
pub mod seqs;
pub mod msg;
pub mod pipe;
pub mod model;
pub mod broker;
pub mod laws;
pub mod service;
pub mod protocol;
