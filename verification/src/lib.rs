//! A minimal verified core for nodes that take part in a distributed-systems
//! test harness by exchanging newline-delimited JSON envelopes over the
//! process's standard streams.
//!
//! The crate holds the envelope model and its wire codec, the one-time
//! initialization handshake, and the dispatch contract that a node behavior
//! implements, together with the protocol laws: message ids are assigned in
//! strictly increasing order starting from zero, every reply carries the id of
//! the envelope it answers, and an envelope survives a round trip through the
//! codec unchanged.  The blocking line-by-line transport around this core —
//! including the tolerant JSON reader that turns any rendering of an incoming
//! record into a `Message` — is ordinary unverified glue.

pub mod codec;
pub mod protocol;

pub use codec::{encode_message, parse_canonical};
pub use protocol::{Body, EchoNode, Error, Message, Node, NodeState, Payload, Runner};
