//! What the stages of the sending and receiving pipelines hand to each other.

use vstd::prelude::*;

verus! {

/// Worker threads per pipeline.
pub const NUM_WORKERS: usize = 4;

/// A chunk as it was read from the file.
pub struct ReadChunk {
    pub chunk_id: u32,
    pub data: Vec<u8>,
}

/// A chunk that is ready to be sent: `packet` is the datagram, `bytes` the
/// number of file bytes in it.
pub struct EncryptedChunk {
    pub chunk_id: u32,
    pub packet: Vec<u8>,
    pub bytes: usize,
}

/// An [`EncryptedChunk`] with its datagram as a sequence.
#[verifier::ext_equal]
pub struct EncryptedChunkView {
    pub chunk_id: u32,
    pub packet: Seq<u8>,
    pub bytes: usize,
}

impl View for EncryptedChunk {
    type V = EncryptedChunkView;

    open spec fn view(&self) -> EncryptedChunkView {
        EncryptedChunkView {
            chunk_id: self.chunk_id,
            packet: self.packet@,
            bytes: self.bytes,
        }
    }
}

/// A still encrypted packet off the wire, with its place in the file both as a
/// chunk id and relative to its block.
pub struct ReceivedPacket {
    pub chunk_id: u32,
    pub block_id: u32,
    pub packet_in_block: u16,
    pub encrypted: Vec<u8>,
    pub hash: u64,
}

/// A [`ReceivedPacket`] with its payload as a sequence.
#[verifier::ext_equal]
pub struct ReceivedPacketView {
    pub chunk_id: u32,
    pub block_id: u32,
    pub packet_in_block: u16,
    pub encrypted: Seq<u8>,
    pub hash: u64,
}

impl View for ReceivedPacket {
    type V = ReceivedPacketView;

    open spec fn view(&self) -> ReceivedPacketView {
        ReceivedPacketView {
            chunk_id: self.chunk_id,
            block_id: self.block_id,
            packet_in_block: self.packet_in_block,
            encrypted: self.encrypted@,
            hash: self.hash,
        }
    }
}

/// A chunk that has been decrypted and verified.
pub struct DecryptedChunk {
    pub chunk_id: u32,
    pub data: Vec<u8>,
}

/// A request for whole chunks by their ids.
pub struct MissingRequest {
    pub missing: Vec<u32>,
}

/// The mathematical forms keep everything that chunks and packets hold.
pub proof fn law_chunks_are_seen_whole(chunk: EncryptedChunk, packet: ReceivedPacket)
    ensures
        chunk@.chunk_id == chunk.chunk_id,
        chunk@.packet == chunk.packet@,
        chunk@.bytes == chunk.bytes,
        packet@.chunk_id == packet.chunk_id,
        packet@.block_id == packet.block_id,
        packet@.packet_in_block == packet.packet_in_block,
        packet@.encrypted == packet.encrypted@,
        packet@.hash == packet.hash,
{
}

} // verus!
