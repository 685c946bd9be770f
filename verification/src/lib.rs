//! Core of a JSON-RPC 2.0 client runtime: the wire message model (response
//! envelopes and subscription notifications), a middleware service
//! abstraction with a two-variant combinator, client configuration, and the
//! per-connection state machine that correlates responses, admits calls under
//! a concurrency cap, demultiplexes subscription notifications under bounded
//! buffering, and resolves timeouts and connection closure.

pub mod builder;
pub mod client;
pub mod json;
pub mod response;
pub mod service;
