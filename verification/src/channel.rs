//! The channels that keep state between packets: reliable and block. The
//! messages of an unreliable channel travel in one packet and leave nothing
//! behind.
pub mod block;
pub mod reliable;
