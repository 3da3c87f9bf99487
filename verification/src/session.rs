//! What is said over the control stream before the first block: length-prefixed
//! frames, the session's secrets, and the size of the file.

use rand::rngs::OsRng;
use rand::RngCore;
use vstd::prelude::*;
use crate::codec::{push_be, push_bytes, read_be};
#[allow(unused_imports)]
use crate::codec::{
    be_bytes, be_value, lemma_be_bytes_len, lemma_be_value_of_be_bytes, lemma_byte_spans,
};

verus! {

/// Bytes in a session key.
pub const KEY_LEN: usize = 32;

/// Bytes in a nonce.
pub const NONCE_LEN: usize = 16;

// ---------------------------------------------------------------------------
// Frames
// ---------------------------------------------------------------------------

/// A payload behind its length.  The prefix holds the 32 low-order bits of the
/// length.
pub open spec fn frame_bytes(payload: Seq<u8>) -> Seq<u8> {
    be_bytes(payload.len(), 4) + payload
}

/// Appends a payload behind its length to `out`.
pub fn push_frame(out: &mut Vec<u8>, payload: &[u8])
    ensures
        final(out)@ == old(out)@ + frame_bytes(payload@),
{
    push_be(out, payload.len() as u64, 4);
    push_bytes(out, payload);
    proof {
        assert(out@ =~= old(out)@ + frame_bytes(payload@));
    }
}

/// The length that a prefix announces.
pub fn frame_length(prefix: &[u8; 4]) -> (n: usize)
    ensures
        n == be_value(prefix@),
{
    proof {
        lemma_byte_spans();
        assert(prefix@.subrange(0, 4) =~= prefix@);
    }
    let bytes: &[u8] = prefix.as_slice();
    let n: u32 = read_be(bytes, 0, 4) as u32;
    n as usize
}

/// The prefix of a frame announces the length of its payload, as long as that
/// is less than 4 GiB, and the payload follows.
pub proof fn law_frame_round_trip(payload: Seq<u8>, rest: Seq<u8>)
    requires
        payload.len() < 0x1_0000_0000,
    ensures
        be_value((frame_bytes(payload) + rest).take(4)) == payload.len(),
        (frame_bytes(payload) + rest).subrange(4, 4 + payload.len() as int) =~= payload,
        (frame_bytes(payload) + rest).skip(4 + payload.len() as int) =~= rest,
{
    lemma_byte_spans();
    lemma_be_bytes_len(payload.len(), 4);
    lemma_be_value_of_be_bytes(payload.len(), 4);
    assert((frame_bytes(payload) + rest).take(4) =~= be_bytes(payload.len(), 4));
}

// ---------------------------------------------------------------------------
// The size of the file
// ---------------------------------------------------------------------------

/// Bytes in a transfer header.
pub const HEADER_LEN: usize = 4 + 8;

/// The transfer header: how many chunks and how many bytes will come.
pub open spec fn header_bytes(total_chunks: u32, file_size: u64) -> Seq<u8> {
    be_bytes(total_chunks as nat, 4) + be_bytes(file_size as nat, 8)
}

/// The transfer header of a file.
pub fn encode_header(total_chunks: u32, file_size: u64) -> (out: Vec<u8>)
    ensures
        out@ == header_bytes(total_chunks, file_size),
{
    let mut out: Vec<u8> = Vec::new();
    push_be(&mut out, total_chunks as u64, 4);
    push_be(&mut out, file_size, 8);
    proof {
        assert(out@ =~= header_bytes(total_chunks, file_size));
    }
    out
}

/// Chunks and bytes that a transfer header announces.
pub fn decode_header(bytes: &[u8; 12]) -> (r: (u32, u64))
    ensures
        r.0 == be_value(bytes@.subrange(0, 4)),
        r.1 == be_value(bytes@.subrange(4, 12)),
{
    proof {
        lemma_byte_spans();
    }
    let slice: &[u8] = bytes.as_slice();
    let total_chunks: u32 = read_be(slice, 0, 4) as u32;
    let file_size: u64 = read_be(slice, 4, 8);
    (total_chunks, file_size)
}

/// A transfer header announces what was put into it.
pub proof fn law_header_round_trip(total_chunks: u32, file_size: u64)
    ensures
        header_bytes(total_chunks, file_size).len() == HEADER_LEN,
        be_value(header_bytes(total_chunks, file_size).subrange(0, 4)) == total_chunks,
        be_value(header_bytes(total_chunks, file_size).subrange(4, 12)) == file_size,
{
    broadcast use lemma_be_bytes_len;

    lemma_byte_spans();
    let bytes = header_bytes(total_chunks, file_size);
    assert(bytes.subrange(0, 4) =~= be_bytes(total_chunks as nat, 4));
    assert(bytes.subrange(4, 12) =~= be_bytes(file_size as nat, 8));
    lemma_be_value_of_be_bytes(total_chunks as nat, 4);
    lemma_be_value_of_be_bytes(file_size as nat, 8);
}

// ---------------------------------------------------------------------------
// Secrets
// ---------------------------------------------------------------------------

/// `RngCore::try_fill_bytes` of `rand::rngs::OsRng`: fills the buffer with
/// random bytes, or says that the operating system has none.  Nothing is
/// claimed of the bytes but that there are as many as before.
#[verifier::external_body]
fn fill_random(buffer: &mut [u8]) -> (ok: bool)
    ensures
        final(buffer)@.len() == old(buffer)@.len(),
{
    OsRng.try_fill_bytes(buffer).is_ok()
}

/// The secrets of one session.
pub struct Secrets {
    pub session_key: [u8; 32],
    pub nonce: [u8; 16],
}

/// The session key that a byte string is, if it has the right length.
pub fn key_from_bytes(bytes: &[u8]) -> (r: Option<[u8; 32]>)
    ensures
        r is Some <==> bytes@.len() == KEY_LEN,
        r matches Some(key) ==> key@ == bytes@,
{
    if bytes.len() != KEY_LEN {
        return None;
    }
    let mut key: [u8; 32] = [0u8;32];
    let mut i: usize = 0;
    while i < KEY_LEN
        invariant
            i <= KEY_LEN,
            bytes@.len() == KEY_LEN,
            forall|k: int| 0 <= k < i ==> key@[k] == bytes@[k],
        decreases KEY_LEN - i,
    {
        key[i] = bytes[i];
        i = i + 1;
    }
    proof {
        assert(key@ =~= bytes@);
    }
    Some(key)
}

/// The nonce that a byte string is, if it has the right length.
pub fn nonce_from_bytes(bytes: &[u8]) -> (r: Option<[u8; 16]>)
    ensures
        r is Some <==> bytes@.len() == NONCE_LEN,
        r matches Some(nonce) ==> nonce@ == bytes@,
{
    if bytes.len() != NONCE_LEN {
        return None;
    }
    let mut nonce: [u8; 16] = [0u8;16];
    let mut i: usize = 0;
    while i < NONCE_LEN
        invariant
            i <= NONCE_LEN,
            bytes@.len() == NONCE_LEN,
            forall|k: int| 0 <= k < i ==> nonce@[k] == bytes@[k],
        decreases NONCE_LEN - i,
    {
        nonce[i] = bytes[i];
        i = i + 1;
    }
    proof {
        assert(nonce@ =~= bytes@);
    }
    Some(nonce)
}

/// The secrets that two draws of random bytes make.
pub fn secrets_from(key_bytes: &[u8], nonce_bytes: &[u8]) -> (r: Option<Secrets>)
    ensures
        r is Some <==> key_bytes@.len() == KEY_LEN && nonce_bytes@.len() == NONCE_LEN,
        r matches Some(s) ==> s.session_key@ == key_bytes@ && s.nonce@ == nonce_bytes@,
{
    match (key_from_bytes(key_bytes), nonce_from_bytes(nonce_bytes)) {
        (Some(session_key), Some(nonce)) => Some(Secrets { session_key, nonce }),
        _ => None,
    }
}

/// Secrets for a new session, drawn from the operating system's random numbers,
/// the key first; `None` if it has none to give.  What they are is up to
/// chance.
pub fn fresh_secrets() -> (r: Option<Secrets>)
    ensures
        r matches Some(s) ==> s.session_key@.len() == KEY_LEN && s.nonce@.len() == NONCE_LEN,
{
    let mut key: Vec<u8> = Vec::new();
    key.resize(KEY_LEN, 0);
    let mut nonce: Vec<u8> = Vec::new();
    nonce.resize(NONCE_LEN, 0);
    if !fill_random(key.as_mut_slice()) {
        return None;
    }
    if !fill_random(nonce.as_mut_slice()) {
        return None;
    }
    secrets_from(key.as_slice(), nonce.as_slice())
}

/// A frame is its prefix, which holds the low-order 32 bits of the payload's
/// length, and the payload behind it, to the last byte.
pub proof fn law_frame_layout(payload: Seq<u8>)
    ensures
        frame_bytes(payload).len() == 4 + payload.len(),
        frame_bytes(payload).take(4) == be_bytes(payload.len(), 4),
        frame_bytes(payload).skip(4) == payload,
{
    lemma_be_bytes_len(payload.len(), 4);
    assert(frame_bytes(payload).take(4) =~= be_bytes(payload.len(), 4));
    assert(frame_bytes(payload).skip(4) =~= payload);
}

} // verus!
