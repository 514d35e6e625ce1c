//! Protocol core of `anyst`, a port tunnel that relays TCP over TLS sessions
//! and UDP over QUIC connections.
//!
//! Everything here computes on plain values: text, bytes, tables and clock
//! readings. Sockets, tasks and files belong to the program that calls it.
#![allow(unused_imports)]

pub mod addr;
pub mod anytls;
pub mod config;
pub mod default_scheme;
pub mod digest;
pub mod padding;
pub mod random;
pub mod text;
pub mod tuic;
pub mod wire;
