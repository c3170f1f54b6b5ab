//! Logic of a keyboard-sharing tool: a client reports the state of a set of
//! keys to a server over UDP, and the server maps client keys to its own keys.
//!
//! This crate holds the wire encoding, the parsing of what comes over the
//! wire and of what the user types, and the texts shown to the user.

pub mod client;
pub mod keycodes;
pub mod server;
pub mod text;
pub mod util;
