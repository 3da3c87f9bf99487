//! Tunables of the transfer.

use vstd::prelude::*;

verus! {

/// Address that the receiver binds its sockets to.
pub const HOST: &'static str = "0.0.0.0";

/// Address of the receiver, as the sender reaches it.
pub const RECEIVER_IP: &'static str = "192.168.1.157";

/// UDP port that carries file data.
pub const DATA_PORT: u16 = 5000;

/// TCP port that carries the handshake and the block acknowledgements.
pub const KEY_PORT: u16 = 5001;

/// Bytes of file data in one chunk.
pub const CHUNK_SIZE: usize = 1400;

/// Encryption or decryption threads per side.
pub const NUM_WORKERS: usize = 4;

pub const UDP_SEND_BUFFER: usize = 16 * 1024 * 1024;

pub const UDP_RECV_BUFFER: usize = 32 * 1024 * 1024;

pub const TCP_BUFFER: usize = 1024 * 1024;

/// Newly received packets per acknowledgement.
pub const ACK_INTERVAL: u32 = 128;

pub const RETRANSMIT_TIMEOUT_MS: u64 = 10;

pub const WINDOW_SIZE: usize = 256;

pub const RETRANSMIT_BATCH_SIZE: usize = 4096;

/// Packets in flight before any feedback has arrived.
pub const INITIAL_WINDOW: usize = 64;

/// The window never shrinks below this.
pub const MIN_WINDOW: usize = 32;

/// The window never grows past this.
pub const MAX_WINDOW: usize = 4096;

/// Growth of the window after each loss-free round.
pub const WINDOW_GROWTH_STEP: usize = 32;

/// How often the receiver reports progress.
pub const ACK_INTERVAL_MS: u64 = 15;

/// Silence after which a packet is resent unasked.
pub const RTO_MS: u64 = 200;

/// Least time between two resends of the same chunk.
pub const MIN_RESEND_INTERVAL_MS: u64 = 60;

/// How far past the contiguous prefix the receiver looks for gaps.
pub const MISSING_LOOKAHEAD: u32 = 8192;

/// UDP sockets that send in parallel.
pub const NUM_SENDER_STREAMS: usize = 1;

/// Packets in a block; the last block of a file may be shorter.
pub const PACKETS_PER_BLOCK: usize = 256;

/// Blocks that the sender keeps open at any time.
pub const PIPELINE_DEPTH: usize = 8;

/// Wait after the last activity of a block whose end marker has been seen.
pub const BLOCK_GRACE_PERIOD_MS: u64 = 15;

/// Wait after the last activity of a block whose end marker is missing.
pub const BLOCK_IDLE_TIMEOUT_MS: u64 = 200;

/// Repair rounds after which the receiver gives a block up.
pub const MAX_BLOCK_RETRY_ROUNDS: u32 = 50;

} // verus!
