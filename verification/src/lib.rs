//! A minimal partitioned commit log: per-key append-only logs of integer
//! messages with per-key committed-offset watermarks, a colon-delimited wire
//! codec for the four store operations, and the client-side request builders
//! and response parsers that speak the same wire format.

pub mod client;
pub mod codec;
pub mod store;
pub mod wire;
