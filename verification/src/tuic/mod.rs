//! The UDP side: datagrams relayed over a QUIC connection, cut into fragments
//! where they are too large for one.
pub mod auth;
pub mod client;
pub mod local;
pub mod packet;
pub mod reassembly;
pub mod relay;
pub mod server;
