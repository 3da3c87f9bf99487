//! What the worker threads do with one chunk: seal it for the wire, and open
//! and verify it on the other side.

use vstd::prelude::*;
use vstd::slice::slice_to_vec;
use crate::checksum::chunk_hash;
#[allow(unused_imports)]
use crate::checksum::hash_of;
#[allow(unused_imports)]
use crate::codec::be_bytes;
#[allow(unused_imports)]
use crate::config::PACKETS_PER_BLOCK;
use crate::crypto::{decrypt_chunk, encrypt_chunk};
#[allow(unused_imports)]
use crate::crypto::{
    aes256_ctr_byte, crypt, law_decrypt_undoes_encrypt, law_every_byte_is_under_its_keystream,
};
use crate::pipeline::{DecryptedChunk, EncryptedChunk, ReadChunk, ReceivedPacket};
#[allow(unused_imports)]
use crate::pipeline::{EncryptedChunkView, ReceivedPacketView};
use crate::protocol::DataPacket;
#[allow(unused_imports)]
use crate::protocol::{data_packet_bytes, DataPacketView};
use crate::transport::block_of;
#[allow(unused_imports)]
use crate::transport::{block_index, packet_index};

verus! {

/// What goes over the wire for a chunk: its place, the hash of the plain data
/// and the encrypted data.
pub open spec fn wire_packet(
    chunk_id: u32,
    data: Seq<u8>,
    key: Seq<u8>,
    nonce: Seq<u8>,
) -> DataPacketView {
    DataPacketView {
        block_id: block_index(chunk_id as nat) as u32,
        packet_in_block: packet_index(chunk_id as nat) as u16,
        hash: hash_of(data),
        payload: crypt(data, key, nonce, chunk_id),
    }
}

/// Encrypts, hashes and frames a chunk.
pub fn seal_chunk(chunk: &ReadChunk, key: &[u8; 32], nonce: &[u8; 16]) -> (r: EncryptedChunk)
    ensures
        r@ == (EncryptedChunkView {
            chunk_id: chunk.chunk_id,
            packet: data_packet_bytes(wire_packet(chunk.chunk_id, chunk.data@, key@, nonce@)),
            bytes: chunk.data@.len() as usize,
        }),
{
    let mut encrypted: Vec<u8> = slice_to_vec(chunk.data.as_slice());
    encrypt_chunk(encrypted.as_mut_slice(), key, nonce, chunk.chunk_id);
    let hash: u64 = chunk_hash(chunk.data.as_slice());
    let (block_id, packet_in_block) = block_of(chunk.chunk_id);
    let packet = DataPacket::encode(block_id, packet_in_block, hash, encrypted.as_slice());
    EncryptedChunk { chunk_id: chunk.chunk_id, packet, bytes: chunk.data.len() }
}

/// A packet whose checksum has been found right.  Only [`open_packet`] makes
/// one.
pub struct VerifiedPacket {
    block_id: u32,
    packet_in_block: u16,
    chunk: DecryptedChunk,
}

/// A [`VerifiedPacket`] in mathematical terms.
#[verifier::ext_equal]
pub struct VerifiedView {
    pub block_id: u32,
    pub packet_in_block: u16,
    pub chunk_id: u32,
    pub data: Seq<u8>,
}

impl View for VerifiedPacket {
    type V = VerifiedView;

    closed spec fn view(&self) -> VerifiedView {
        VerifiedView {
            block_id: self.block_id,
            packet_in_block: self.packet_in_block,
            chunk_id: self.chunk.chunk_id,
            data: self.chunk.data@,
        }
    }
}

/// What a received packet opens to: its decrypted data, if that has the hash
/// which the packet carries.
pub open spec fn opened(p: ReceivedPacketView, key: Seq<u8>, nonce: Seq<u8>) -> Option<
    VerifiedView,
> {
    let data = crypt(p.encrypted, key, nonce, p.chunk_id);
    if hash_of(data) == p.hash {
        Some(
            VerifiedView {
                block_id: p.block_id,
                packet_in_block: p.packet_in_block,
                chunk_id: p.chunk_id,
                data,
            },
        )
    } else {
        None
    }
}

/// Decrypts a packet and checks its hash.  A damaged packet gives `None`: it
/// counts as missing.
pub fn open_packet(packet: ReceivedPacket, key: &[u8; 32], nonce: &[u8; 16]) -> (r: Option<
    VerifiedPacket,
>)
    ensures
        match opened(packet@, key@, nonce@) {
            Some(v) => r matches Some(p) && p@ == v,
            None => r is None,
        },
{
    let ReceivedPacket { chunk_id, block_id, packet_in_block, encrypted, hash } = packet;
    let mut data: Vec<u8> = encrypted;
    decrypt_chunk(data.as_mut_slice(), key, nonce, chunk_id);
    if chunk_hash(data.as_slice()) != hash {
        return None;
    }
    Some(VerifiedPacket { block_id, packet_in_block, chunk: DecryptedChunk { chunk_id, data } })
}

impl VerifiedPacket {
    /// Block id and place of the packet.
    pub fn place(&self) -> (r: (u32, u16))
        ensures
            r == (self@.block_id, self@.packet_in_block),
    {
        (self.block_id, self.packet_in_block)
    }

    /// The chunk that the packet carried.
    pub fn into_chunk(self) -> (chunk: DecryptedChunk)
        ensures
            chunk.chunk_id == self@.chunk_id,
            chunk.data@ == self@.data,
    {
        self.chunk
    }
}

/// Whatever opens has the hash that its packet carries, over all of its bytes,
/// and keeps the packet's place; and whatever has that hash opens.
pub proof fn law_opened_means_verified(p: ReceivedPacketView, key: Seq<u8>, nonce: Seq<u8>)
    ensures
        opened(p, key, nonce) matches Some(v) ==> {
            &&& crate::checksum::xxh64(v.data, 0) == p.hash
            &&& v.data == crypt(p.encrypted, key, nonce, p.chunk_id)
            &&& v.data.len() == p.encrypted.len()
            &&& v.block_id == p.block_id
            &&& v.packet_in_block == p.packet_in_block
            &&& v.chunk_id == p.chunk_id
        },
        opened(p, key, nonce) is Some <==> crate::checksum::xxh64(
            crypt(p.encrypted, key, nonce, p.chunk_id),
            0,
        ) == p.hash,
{
}

/// Whatever opens has been encrypted from what it opens to: encrypted again, it
/// is the payload of the packet.
pub proof fn law_opened_encrypts_to_the_payload(
    p: ReceivedPacketView,
    key: Seq<u8>,
    nonce: Seq<u8>,
)
    ensures
        opened(p, key, nonce) matches Some(v) ==> {
            &&& crypt(v.data, key, nonce, v.chunk_id) == p.encrypted
            &&& forall|i: int|
                0 <= i < p.encrypted.len() ==> #[trigger] v.data[i] == p.encrypted[i]
                    ^ aes256_ctr_byte(
                    key,
                    nonce.take(8) + be_bytes(p.chunk_id as nat, 8),
                    i as nat,
                )
        },
{
    law_decrypt_undoes_encrypt(p.encrypted, key, nonce, p.chunk_id);
    if let Some(v) = opened(p, key, nonce) {
        assert forall|i: int| 0 <= i < p.encrypted.len() implies #[trigger] v.data[i]
            == p.encrypted[i] ^ aes256_ctr_byte(
            key,
            nonce.take(8) + be_bytes(p.chunk_id as nat, 8),
            i as nat,
        ) by {
            law_every_byte_is_under_its_keystream(p.encrypted, key, nonce, p.chunk_id, i);
        }
    }
}

/// What goes over the wire for a chunk names the chunk by block and place,
/// carries the hash of the plain data, and as many bytes as the chunk has, each
/// under the keystream of the chunk.
pub proof fn law_wire_packet_stands_for_its_chunk(
    chunk_id: u32,
    data: Seq<u8>,
    key: Seq<u8>,
    nonce: Seq<u8>,
)
    ensures
        ({
            let p = wire_packet(chunk_id, data, key, nonce);
            &&& p.block_id * PACKETS_PER_BLOCK + p.packet_in_block == chunk_id
            &&& p.packet_in_block < PACKETS_PER_BLOCK
            &&& p.hash == crate::checksum::xxh64(data, 0)
            &&& p.payload.len() == data.len()
            &&& forall|i: int|
                0 <= i < data.len() ==> #[trigger] p.payload[i] == data[i] ^ aes256_ctr_byte(
                    key,
                    nonce.take(8) + be_bytes(chunk_id as nat, 8),
                    i as nat,
                )
        }),
{
    let p = wire_packet(chunk_id, data, key, nonce);
    assert forall|i: int| 0 <= i < data.len() implies #[trigger] p.payload[i] == data[i]
        ^ aes256_ctr_byte(key, nonce.take(8) + be_bytes(chunk_id as nat, 8), i as nat) by {
        law_every_byte_is_under_its_keystream(data, key, nonce, chunk_id, i);
    }
    law_decrypt_undoes_encrypt(data, key, nonce, chunk_id);
}

} // verus!
