//! A lightweight message-queue broker core: an append-only commit log made of
//! segments and offset indexes, a registry of topics and consumer groups with
//! a snapshot format for its metadata, and the length-prefixed framing of the
//! connection server. Storage and sockets stay outside: every function here
//! works on plain values and states its result in its contract.

pub mod encoding;
pub mod index;
pub mod utils;
pub mod segment;
pub mod commitlog;
pub mod random;
pub mod topic;
pub mod snapshot;
pub mod lucidmq;
pub mod server;
pub mod tcp_server;
pub mod response;
