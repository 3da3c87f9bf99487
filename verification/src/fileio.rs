//! Files as sequences of chunks.

use vstd::prelude::*;
use crate::config::CHUNK_SIZE;
use crate::pipeline::ReadChunk;

verus! {

/// The number of chunks of a file of `size` bytes.
pub open spec fn chunks_in(size: nat) -> nat {
    (size + CHUNK_SIZE as nat - 1) as nat / CHUNK_SIZE as nat
}

/// Where a chunk starts in the file.
pub open spec fn offset_of(chunk_id: nat) -> nat {
    chunk_id * CHUNK_SIZE as nat
}

/// One chunk of a file: all chunks are full but the last.
pub open spec fn file_chunk(file: Seq<u8>, chunk_id: nat) -> Seq<u8> {
    if offset_of(chunk_id + 1) <= file.len() {
        file.subrange(offset_of(chunk_id) as int, offset_of(chunk_id + 1) as int)
    } else if offset_of(chunk_id) <= file.len() {
        file.skip(offset_of(chunk_id) as int)
    } else {
        Seq::empty()
    }
}

/// The first `n` pieces, one behind the other.
pub open spec fn joined(pieces: spec_fn(nat) -> Seq<u8>, n: nat) -> Seq<u8>
    decreases n,
{
    if n == 0 {
        Seq::empty()
    } else {
        joined(pieces, (n - 1) as nat) + pieces((n - 1) as nat)
    }
}

/// The number of chunks that the receiver is told to expect: that of the file,
/// of which the message holds the 32 low-order bits.
pub fn chunk_count(file_size: u64) -> (n: u32)
    ensures
        n == chunks_in(file_size as nat) % 0x1_0000_0000,
{
    let size: u64 = CHUNK_SIZE as u64;
    let whole: u64 = file_size / size;
    let n: u64 = if file_size % size == 0 {
        whole
    } else {
        whole + 1
    };
    assert(n as u32 == n % 0x1_0000_0000) by (bit_vector);
    n as u32
}

/// Where a chunk starts in the file.
pub fn chunk_offset(chunk_id: u32) -> (offset: u64)
    ensures
        offset == offset_of(chunk_id as nat),
{
    assert(chunk_id * CHUNK_SIZE <= 0xffff_ffff * 0x1_0000) by (nonlinear_arith)
        requires
            chunk_id <= 0xffff_ffff,
            CHUNK_SIZE <= 0x1_0000,
    ;
    chunk_id as u64 * CHUNK_SIZE as u64
}

/// Numbers the pieces of a file in the order in which they are read.
pub struct ChunkCutter {
    next_id: u32,
}

impl View for ChunkCutter {
    type V = nat;

    /// The id of the next chunk.
    closed spec fn view(&self) -> nat {
        self.next_id as nat
    }
}

impl ChunkCutter {
    /// The first chunk has the id zero.
    pub fn new() -> (r: Self)
        ensures
            r@ == 0,
    {
        ChunkCutter { next_id: 0 }
    }

    /// The id of the next chunk.
    pub fn next_id(&self) -> (id: u32)
        ensures
            id == self@,
    {
        self.next_id
    }

    /// The chunk that reading `bytes` bytes into `buffer` gives.  Nothing read
    /// means that the file has ended.
    pub fn next_chunk(&mut self, buffer: Vec<u8>, bytes: usize) -> (r: Option<ReadChunk>)
        requires
            bytes <= buffer@.len(),
            bytes > 0 ==> old(self)@ < u32::MAX,
        ensures
            r is None <==> bytes == 0,
            r is None ==> final(self)@ == old(self)@,
            r matches Some(chunk) ==> {
                &&& chunk.chunk_id == old(self)@
                &&& chunk.data@ == buffer@.take(bytes as int)
                &&& final(self)@ == old(self)@ + 1
            },
    {
        if bytes == 0 {
            return None;
        }
        let mut data: Vec<u8> = buffer;
        data.truncate(bytes);
        let chunk = ReadChunk { chunk_id: self.next_id, data };
        self.next_id = self.next_id + 1;
        proof {
            assert(chunk.data@ =~= buffer@.take(bytes as int));
        }
        Some(chunk)
    }
}

/// The chunks of a file lie side by side: each starts where the one before it
/// ends, none but the last is short, and none is empty.
pub proof fn law_chunks_tile_the_file(file: Seq<u8>, chunk_id: nat)
    requires
        chunk_id < chunks_in(file.len()),
    ensures
        0 < file_chunk(file, chunk_id).len() <= CHUNK_SIZE,
        chunk_id + 1 < chunks_in(file.len()) ==> file_chunk(file, chunk_id).len() == CHUNK_SIZE,
        offset_of(chunk_id) + file_chunk(file, chunk_id).len() <= file.len(),
        chunk_id + 1 == chunks_in(file.len()) ==> offset_of(chunk_id) + file_chunk(
            file,
            chunk_id,
        ).len() == file.len(),
        file_chunk(file, chunk_id) =~= file.subrange(
            offset_of(chunk_id) as int,
            (offset_of(chunk_id) + file_chunk(file, chunk_id).len()) as int,
        ),
{
}

/// The chunks of a file, one behind the other, are the file.
pub proof fn law_chunks_make_the_file(file: Seq<u8>)
    ensures
        joined(|i: nat| file_chunk(file, i), chunks_in(file.len())) == file,
{
    let pieces = |i: nat| file_chunk(file, i);
    let n = chunks_in(file.len());
    if n == 0 {
        assert(file =~= Seq::empty());
    } else {
        lemma_joined_prefix(file, (n - 1) as nat);
        law_chunks_tile_the_file(file, (n - 1) as nat);
        assert(joined(pieces, n) =~= file);
    }
}

/// The first chunks of a file are not longer than the file.
pub(crate) proof fn lemma_joined_fits(file: Seq<u8>, n: nat)
    requires
        n <= chunks_in(file.len()),
    ensures
        joined(|i: nat| file_chunk(file, i), n).len() <= file.len(),
{
    if n == chunks_in(file.len()) {
        law_chunks_make_the_file(file);
    } else {
        lemma_joined_prefix(file, n);
    }
}

proof fn lemma_joined_prefix(file: Seq<u8>, n: nat)
    requires
        offset_of(n) <= file.len(),
    ensures
        joined(|i: nat| file_chunk(file, i), n) == file.take(offset_of(n) as int),
    decreases n,
{
    let pieces = |i: nat| file_chunk(file, i);
    if n == 0 {
        assert(joined(pieces, 0) =~= file.take(0));
    } else {
        let m = (n - 1) as nat;
        lemma_joined_prefix(file, m);
        assert(joined(pieces, n) =~= file.take(offset_of(n) as int));
    }
}

/// A file has as many chunks as it takes to hold it, and not one more.
pub proof fn law_chunks_are_just_enough(size: nat)
    ensures
        size <= chunks_in(size) * CHUNK_SIZE,
        chunks_in(size) > 0 ==> (chunks_in(size) - 1) * CHUNK_SIZE < size,
{
}

/// A chunk holds the bytes of the file from its offset on, up to the offset of
/// the next chunk or the end of the file; chunk 0 starts at the front, and from
/// one chunk to the next it is [`CHUNK_SIZE`] bytes.
pub proof fn law_chunk_holds_its_bytes(file: Seq<u8>, chunk_id: nat)
    ensures
        offset_of(0) == 0,
        offset_of(chunk_id + 1) == offset_of(chunk_id) + CHUNK_SIZE,
        forall|i: int|
            0 <= i < file_chunk(file, chunk_id).len() ==> #[trigger] file_chunk(file, chunk_id)[i]
                == file[chunk_id * CHUNK_SIZE + i],
        file_chunk(file, chunk_id).len() == if (chunk_id + 1) * CHUNK_SIZE <= file.len() {
            CHUNK_SIZE as int
        } else if chunk_id * CHUNK_SIZE <= file.len() {
            file.len() - chunk_id * CHUNK_SIZE
        } else {
            0
        },
{
}

/// Pieces that are joined keep their order and every byte.
pub proof fn law_joined_keeps_every_piece(pieces: spec_fn(nat) -> Seq<u8>, n: nat)
    ensures
        joined(pieces, 0) == Seq::<u8>::empty(),
        joined(pieces, n + 1).len() == joined(pieces, n).len() + pieces(n).len(),
        joined(pieces, n + 1).take(joined(pieces, n).len() as int) == joined(pieces, n),
        joined(pieces, n + 1).skip(joined(pieces, n).len() as int) == pieces(n),
{
    assert(joined(pieces, n + 1) == joined(pieces, n) + pieces(n));
    assert(joined(pieces, n + 1).take(joined(pieces, n).len() as int) =~= joined(pieces, n));
    assert(joined(pieces, n + 1).skip(joined(pieces, n).len() as int) =~= pieces(n));
}

} // verus!
