//! A caching DNS proxy, as a verified library.
//!
//! [`dns`] is the wire format: headers, names with their compression,
//! questions, resource records and whole messages, each with what decoding
//! gives at a place in a packet, what encoding writes, and the proof that the
//! one inverts the other.
//!
//! [`server`] is the answer cache, bounded and keyed by question, and what
//! the proxy decides around it: the query that goes upstream for a question,
//! its frame, and the reply that a client gets once its questions are
//! resolved.
//!
//! Sockets, TLS, locks and the clock are not here. A program around the
//! library reads and sends the bytes.

pub mod dns;
pub mod server;
