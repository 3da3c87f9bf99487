//! Block-pipelined, encrypted file transfer: the protocol's logic.
//!
//! A file is cut into chunks, each chunk is encrypted, hashed and framed into
//! one UDP datagram, and the chunks are grouped into blocks.  The sender keeps
//! a bounded number of blocks open, the receiver reports per block which
//! packets are missing, and a reorder buffer puts the chunks back in order.
//! Sockets, files, threads and clocks belong to the program around this crate.

pub mod buffer_pool;
pub mod checksum;
pub mod codec;
pub mod config;
pub mod crypto;
pub mod fileio;
pub mod handshake;
mod maps;
pub mod pipeline;
pub mod protocol;
pub mod receiver;
pub mod receiver_laws;
pub mod sender;
pub mod sender_laws;
pub mod sender_totals;
pub mod session;
pub mod transfer_laws;
pub mod transport;
pub mod worker;
pub mod writer;
