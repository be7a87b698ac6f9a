//! Core of a LAN chat tool: peers discover one another over UDP broadcast
//! and exchange newline-delimited text over TCP, with one peer acting as
//! host (accepting connections and relaying lines between clients) and the
//! others as clients. This crate holds the verified logic: the discovery
//! peer set, the relay engine's session directory and mailboxes, the
//! cancellation flag, and command parsing. All socket, timer and terminal
//! work lives outside, in thin glue that calls into these functions.

pub mod addr;
pub mod cancel;
pub mod client;
pub mod command;
pub mod discovery;
pub mod host;
pub mod relay;
pub mod text;
