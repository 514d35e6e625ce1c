//! The TCP side: many proxied connections ("streams") multiplexed over one TLS
//! session, with padding that shapes the first writes.
pub mod auth;
pub mod client;
pub mod frame;
pub mod pool;
pub mod server;
pub mod tunnel;
pub mod writer;
