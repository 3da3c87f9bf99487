//! Encryption of chunks: AES-256 in counter mode, one counter range per chunk.

use ctr::cipher::{KeyIvInit, StreamCipher};
use vstd::prelude::*;
use crate::codec::push_be;
#[allow(unused_imports)]
use crate::codec::{
    be_bytes, be_value, lemma_be_bytes_len, lemma_be_value_of_be_bytes, lemma_byte_spans,
};

verus! {

/// Byte `at` of the keystream of AES-256 in counter mode, for a key and the
/// big-endian 128-bit counter that the keystream starts from.
pub uninterp spec fn aes256_ctr_byte(key: Seq<u8>, counter: Seq<u8>, at: nat) -> u8;

/// A byte string under the keystream: every byte is combined by exclusive or
/// with the keystream byte at its place.
pub open spec fn under_keystream(data: Seq<u8>, key: Seq<u8>, counter: Seq<u8>) -> Seq<u8> {
    Seq::new(data.len(), |i: int| data[i] ^ aes256_ctr_byte(key, counter, i as nat))
}

/// The counter that the keystream of a chunk starts from: the first half of
/// the nonce and the chunk id in the other half.
pub open spec fn chunk_counter(nonce: Seq<u8>, chunk_id: u32) -> Seq<u8> {
    nonce.take(8) + be_bytes(chunk_id as nat, 8)
}

/// A chunk in its other form: encrypted if it is plain, plain if it is
/// encrypted.
pub open spec fn crypt(data: Seq<u8>, key: Seq<u8>, nonce: Seq<u8>, chunk_id: u32) -> Seq<u8> {
    under_keystream(data, key, chunk_counter(nonce, chunk_id))
}

/// `KeyIvInit::new` and `StreamCipher::apply_keystream` of `ctr::Ctr128BE`
/// over `aes::Aes256`: combines the data with the keystream that starts from
/// `counter`.  The keystream has 2^128 blocks, so it does not end inside data
/// that fits into memory.
#[verifier::external_body]
fn apply_aes256_ctr(key: &[u8; 32], counter: &[u8; 16], data: &mut [u8])
    ensures
        final(data)@ == Seq::new(
            old(data)@.len(),
            |i: int| old(data)@[i] ^ aes256_ctr_byte(key@, counter@, i as nat),
        ),
{
    let mut cipher = ctr::Ctr128BE::<aes::Aes256>::new(key.into(), counter.into());
    cipher.apply_keystream(data);
}

/// The counter that the keystream of a chunk starts from.
pub fn build_counter(nonce: &[u8; 16], chunk_id: u32) -> (counter: [u8; 16])
    ensures
        counter@ == chunk_counter(nonce@, chunk_id),
{
    let mut low: Vec<u8> = Vec::new();
    push_be(&mut low, chunk_id as u64, 8);
    proof {
        lemma_be_bytes_len(chunk_id as nat, 8);
    }
    let mut counter: [u8; 16] = [0u8;16];
    let mut i: usize = 0;
    while i < 8
        invariant
            i <= 8,
            low@ == be_bytes(chunk_id as nat, 8),
            low@.len() == 8,
            forall|k: int| 0 <= k < i ==> counter@[k] == nonce@[k],
            forall|k: int| 0 <= k < i ==> counter@[8 + k] == #[trigger] low@[k],
        decreases 8 - i,
    {
        counter[i] = nonce[i];
        counter[8 + i] = low[i];
        i = i + 1;
    }
    proof {
        assert forall|k: int| 8 <= k < 16 implies counter@[k] == chunk_counter(nonce@, chunk_id)[k] by {
            assert(counter@[8 + (k - 8)] == low@[k - 8]);
        }
        assert(counter@ =~= chunk_counter(nonce@, chunk_id));
    }
    counter
}

/// Encrypts a chunk in place.
pub fn encrypt_chunk(data: &mut [u8], key: &[u8; 32], nonce: &[u8; 16], chunk_id: u32)
    ensures
        final(data)@ == crypt(old(data)@, key@, nonce@, chunk_id),
{
    let counter = build_counter(nonce, chunk_id);
    apply_aes256_ctr(key, &counter, data);
    proof {
        assert(data@ =~= crypt(old(data)@, key@, nonce@, chunk_id));
    }
}

/// Decrypts a chunk in place: the same operation as encrypting it.
pub fn decrypt_chunk(data: &mut [u8], key: &[u8; 32], nonce: &[u8; 16], chunk_id: u32)
    ensures
        final(data)@ == crypt(old(data)@, key@, nonce@, chunk_id),
{
    encrypt_chunk(data, key, nonce, chunk_id);
}

/// Decrypting an encrypted chunk gives the chunk back, under the same key,
/// nonce and chunk id.
pub proof fn law_decrypt_undoes_encrypt(
    data: Seq<u8>,
    key: Seq<u8>,
    nonce: Seq<u8>,
    chunk_id: u32,
)
    ensures
        crypt(crypt(data, key, nonce, chunk_id), key, nonce, chunk_id) == data,
        crypt(data, key, nonce, chunk_id).len() == data.len(),
{
    let twice = crypt(crypt(data, key, nonce, chunk_id), key, nonce, chunk_id);
    assert forall|i: int| 0 <= i < data.len() implies twice[i] == data[i] by {
        let d = data[i];
        let k = aes256_ctr_byte(key, chunk_counter(nonce, chunk_id), i as nat);
        assert((d ^ k) ^ k == d) by (bit_vector);
    }
    assert(twice =~= data);
}

/// Every byte of an encrypted chunk, whatever its length, is the plain byte
/// combined by exclusive or with the byte at the same place of the keystream
/// that starts from the first eight bytes of the nonce followed by the chunk id.
pub proof fn law_every_byte_is_under_its_keystream(
    data: Seq<u8>,
    key: Seq<u8>,
    nonce: Seq<u8>,
    chunk_id: u32,
    i: int,
)
    requires
        0 <= i < data.len(),
    ensures
        crypt(data, key, nonce, chunk_id).len() == data.len(),
        crypt(data, key, nonce, chunk_id)[i] == data[i] ^ aes256_ctr_byte(
            key,
            nonce.take(8) + be_bytes(chunk_id as nat, 8),
            i as nat,
        ),
{
}

/// The counter of a chunk keeps the first half of the nonce byte by byte, and
/// its second half reads as the chunk id.
pub proof fn law_counter_holds_nonce_and_id(nonce: Seq<u8>, chunk_id: u32)
    requires
        nonce.len() == 16,
    ensures
        chunk_counter(nonce, chunk_id).len() == 16,
        forall|i: int| 0 <= i < 8 ==> chunk_counter(nonce, chunk_id)[i] == #[trigger] nonce[i],
        be_value(chunk_counter(nonce, chunk_id).skip(8)) == chunk_id,
{
    lemma_be_bytes_len(chunk_id as nat, 8);
    lemma_byte_spans();
    lemma_be_value_of_be_bytes(chunk_id as nat, 8);
    assert(chunk_counter(nonce, chunk_id).skip(8) =~= be_bytes(chunk_id as nat, 8));
}

} // verus!
