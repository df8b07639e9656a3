//! Decoder for Source 2013 demo recordings: a fixed-size header followed by
//! a sequence of frame records, each carrying a raw payload.
//!
//! Every decoding step works on a byte slice and returns the unconsumed rest
//! together with the decoded value, or a [`DecodeError`] that tells a short
//! buffer (more bytes may still arrive) from one that is not a recording.

pub mod wire;
pub mod text;
pub mod demo;
pub mod laws;

pub use wire::DecodeError;
pub use demo::{demo, Demo, Frame, Header};
