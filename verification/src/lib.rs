//! Packet and channel layer of a datagram protocol for games.
//!
//! The crate turns an unordered, lossy transport into three kinds of logical
//! channel (unreliable, reliable and block) and keeps every packet bounded in
//! size. All of it is synchronous and works on byte buffers in memory; sockets
//! and sessions belong to the caller.
pub mod ack;
pub mod channel;
pub mod error;
pub mod packet;
pub mod pieces;
pub mod reassembly_fragment;
pub mod wire;

