//! Routing registry of a message-broker name service, with the hex and
//! formatting helpers it shares with the rest of the broker tooling.

pub mod laws;
pub mod processor;
pub mod route;
pub mod util_all;
