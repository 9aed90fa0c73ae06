//! Message codec for an RFC 1459 style chat protocol.
//!
//! The codec parses raw protocol lines into structured, immutable
//! [`message::Message`] values and serializes structured parts back into
//! wire-exact bytes.  A message owns a single byte buffer holding its
//! canonical encoded form and addresses its components by offset ranges
//! into that buffer.

pub mod case;
pub mod message;

pub use message::Message;
