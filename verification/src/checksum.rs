//! Chunk and file checksums: 64-bit xxHash with seed zero.

use std::hash::Hasher;
use vstd::prelude::*;
use xxhash_rust::xxh64::Xxh64;

verus! {

/// The streaming state of `xxhash_rust`.
#[verifier::external_type_specification]
#[verifier::external_body]
pub struct ExXxh64(xxhash_rust::xxh64::Xxh64);

/// The bytes that a streaming state has taken in so far.
pub uninterp spec fn hashed_bytes(state: Xxh64) -> Seq<u8>;

/// The seed that a streaming state was made with.
pub uninterp spec fn hash_seed(state: Xxh64) -> u64;

/// The 64-bit xxHash of a byte string under a seed.
pub uninterp spec fn xxh64(bytes: Seq<u8>, seed: u64) -> u64;

/// The hash that guards chunks and files.
pub open spec fn hash_of(bytes: Seq<u8>) -> u64 {
    xxh64(bytes, 0)
}

/// `Xxh64::new`: a state with this seed that has taken in nothing.
#[verifier::external_body]
fn xxh64_new(seed: u64) -> (state: Xxh64)
    ensures
        hashed_bytes(state) == Seq::<u8>::empty(),
        hash_seed(state) == seed,
{
    Xxh64::new(seed)
}

/// `Hasher::write` of `Xxh64`: takes in more bytes, behind those before, and
/// keeps the seed.
#[verifier::external_body]
fn xxh64_write(state: &mut Xxh64, data: &[u8])
    ensures
        hashed_bytes(*final(state)) == hashed_bytes(*old(state)) + data@,
        hash_seed(*final(state)) == hash_seed(*old(state)),
{
    state.write(data)
}

/// `Hasher::finish` of `Xxh64`: the hash of all bytes taken in.  It depends on
/// them and on the seed, not on how they were split up.
#[verifier::external_body]
fn xxh64_finish(state: &Xxh64) -> (hash: u64)
    ensures
        hash == xxh64(hashed_bytes(*state), hash_seed(*state)),
{
    state.finish()
}

/// The hash of a chunk.
pub fn chunk_hash(data: &[u8]) -> (hash: u64)
    ensures
        hash == hash_of(data@),
{
    let mut hasher = xxh64_new(0);
    xxh64_write(&mut hasher, data);
    proof {
        assert(hashed_bytes(hasher) =~= data@);
    }
    xxh64_finish(&hasher)
}

/// The hash of a file that is read piece by piece.
pub struct FileHasher {
    hasher: Xxh64,
}

impl View for FileHasher {
    type V = Seq<u8>;

    /// The bytes taken in so far.
    closed spec fn view(&self) -> Seq<u8> {
        hashed_bytes(self.hasher)
    }
}

impl FileHasher {
    /// The hasher was made with the seed of this crate.
    pub closed spec fn wf(self) -> bool {
        hash_seed(self.hasher) == 0
    }

    /// A hasher that has taken in nothing.
    pub fn new() -> (r: Self)
        ensures
            r@ == Seq::<u8>::empty(),
            r.wf(),
    {
        FileHasher { hasher: xxh64_new(0) }
    }

    /// Takes in the next piece.
    pub fn update(&mut self, data: &[u8])
        requires
            old(self).wf(),
        ensures
            final(self)@ == old(self)@ + data@,
            final(self).wf(),
    {
        xxh64_write(&mut self.hasher, data);
    }

    /// The hash of everything taken in.
    pub fn finish(self) -> (hash: u64)
        requires
            self.wf(),
        ensures
            hash == hash_of(self@),
    {
        xxh64_finish(&self.hasher)
    }
}

/// Chunks and files are guarded by the same hash: the 64-bit xxHash with seed
/// zero of all of their bytes.
pub proof fn law_hash_has_seed_zero(bytes: Seq<u8>)
    ensures
        hash_of(bytes) == xxh64(bytes, 0),
{
}

} // verus!
