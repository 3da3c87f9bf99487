//! What both sides together achieve.

use vstd::prelude::*;
#[allow(unused_imports)]
use crate::fileio::{chunks_in, file_chunk, law_chunks_tile_the_file};
#[allow(unused_imports)]
use crate::protocol::{ack_bytes, ack_of, data_packet_bytes, law_ack_round_trip, AckReadError};
#[allow(unused_imports)]
use crate::receiver::{ack_for, incoming_of, IncomingView};
#[allow(unused_imports)]
use crate::receiver_laws::law_chunk_survives_transfer;
#[allow(unused_imports)]
use crate::transport::{missing_below, RxView};
#[allow(unused_imports)]
use crate::worker::{opened, wire_packet};
#[allow(unused_imports)]
use crate::writer::{genuine, has_come, law_the_file_is_written, written, ChunkView, WriteRun};

verus! {

/// The datagram that carries a chunk of a file.
pub open spec fn datagram_of(file: Seq<u8>, chunk_id: u32, key: Seq<u8>, nonce: Seq<u8>) -> Seq<
    u8,
> {
    data_packet_bytes(wire_packet(chunk_id, file_chunk(file, chunk_id as nat), key, nonce))
}

/// The chunk that the receiver makes of a datagram: none, unless it is a packet
/// whose hash is right.
pub open spec fn delivered(datagram: Seq<u8>, key: Seq<u8>, nonce: Seq<u8>) -> Option<ChunkView> {
    match incoming_of(datagram) {
        IncomingView::Packet(packet) => match opened(packet, key, nonce) {
            Some(v) => Some(ChunkView { chunk_id: v.chunk_id, data: v.data }),
            None => None,
        },
        _ => None,
    }
}

/// The chunks that the receiver makes of datagrams.
pub open spec fn all_delivered(datagrams: Seq<Seq<u8>>, key: Seq<u8>, nonce: Seq<u8>) -> Seq<
    ChunkView,
>
    decreases datagrams.len(),
{
    if datagrams.len() == 0 {
        Seq::empty()
    } else {
        let init = all_delivered(datagrams.drop_last(), key, nonce);
        match delivered(datagrams.last(), key, nonce) {
            Some(chunk) => init.push(chunk),
            None => init,
        }
    }
}

/// The datagram carries a chunk of the file, or the receiver drops it.
pub open spec fn honest(datagram: Seq<u8>, file: Seq<u8>, key: Seq<u8>, nonce: Seq<u8>) -> bool {
    delivered(datagram, key, nonce) is None || exists|chunk_id: u32|
        chunk_id < chunks_in(file.len()) && datagram == #[trigger] datagram_of(
            file,
            chunk_id,
            key,
            nonce,
        )
}

/// A datagram that carries a chunk of the file has arrived.
pub open spec fn has_arrived(
    datagrams: Seq<Seq<u8>>,
    file: Seq<u8>,
    chunk_id: u32,
    key: Seq<u8>,
    nonce: Seq<u8>,
) -> bool {
    datagrams.contains(datagram_of(file, chunk_id, key, nonce))
}

proof fn lemma_datagram_of(file: Seq<u8>, chunk_id: u32, key: Seq<u8>, nonce: Seq<u8>)
    requires
        chunk_id < chunks_in(file.len()),
    ensures
        delivered(datagram_of(file, chunk_id, key, nonce), key, nonce) == Some(
            ChunkView { chunk_id, data: file_chunk(file, chunk_id as nat) },
        ),
{
    law_chunks_tile_the_file(file, chunk_id as nat);
    law_chunk_survives_transfer(chunk_id, file_chunk(file, chunk_id as nat), key, nonce);
}

proof fn lemma_all_delivered(
    datagrams: Seq<Seq<u8>>,
    file: Seq<u8>,
    key: Seq<u8>,
    nonce: Seq<u8>,
)
    requires
        forall|i: int|
            0 <= i < datagrams.len() ==> honest(#[trigger] datagrams[i], file, key, nonce),
    ensures
        ({
            let chunks = all_delivered(datagrams, key, nonce);
            &&& genuine(chunks, |i: nat| file_chunk(file, i))
            &&& forall|i: int|
                0 <= i < chunks.len() ==> (#[trigger] chunks[i]).chunk_id < chunks_in(file.len())
            &&& forall|id: u32|
                id < chunks_in(file.len()) && #[trigger] has_arrived(
                    datagrams,
                    file,
                    id,
                    key,
                    nonce,
                ) ==> has_come(chunks, id as nat)
        }),
    decreases datagrams.len(),
{
    if datagrams.len() > 0 {
        let init = datagrams.drop_last();
        let last = datagrams.last();
        assert(forall|i: int| 0 <= i < init.len() ==> #[trigger] init[i] == datagrams[i]);
        assert(datagrams[datagrams.len() - 1] == last);
        lemma_all_delivered(init, file, key, nonce);
        let before = all_delivered(init, key, nonce);
        let chunks = all_delivered(datagrams, key, nonce);
        if let Some(chunk) = delivered(last, key, nonce) {
            let id = choose|id: u32|
                id < chunks_in(file.len()) && last == #[trigger] datagram_of(file, id, key, nonce);
            lemma_datagram_of(file, id, key, nonce);
            assert(chunks == before.push(chunk));
            assert(chunk.chunk_id == id);
        }
        assert(forall|i: int| 0 <= i < before.len() ==> #[trigger] chunks[i] == before[i]);
        assert forall|id: u32|
            id < chunks_in(file.len()) && #[trigger] has_arrived(
                datagrams,
                file,
                id,
                key,
                nonce,
            ) implies has_come(chunks, id as nat) by {
            let datagram = datagram_of(file, id, key, nonce);
            let i = datagrams.index_of(datagram);
            if i < init.len() {
                assert(init[i] == datagram);
                assert(has_arrived(init, file, id, key, nonce));
                let k = choose|k: int|
                    0 <= k < before.len() && (#[trigger] before[k]).chunk_id == id as nat;
                assert(chunks[k].chunk_id == id as nat);
            } else {
                lemma_datagram_of(file, id, key, nonce);
                assert(chunks[before.len() as int].chunk_id == id as nat);
            }
        }
    }
}

/// The file gets across: once every chunk of it (less than 2^32 of them) has
/// arrived in some datagram, in whatever order, however often, and among
/// whatever else the receiver drops, the bytes written on the other side are
/// the file.
pub proof fn law_the_file_gets_across(
    file: Seq<u8>,
    datagrams: Seq<Seq<u8>>,
    key: Seq<u8>,
    nonce: Seq<u8>,
)
    requires
        chunks_in(file.len()) <= u32::MAX,
        forall|i: int|
            0 <= i < datagrams.len() ==> honest(#[trigger] datagrams[i], file, key, nonce),
        forall|id: u32|
            id < chunks_in(file.len()) ==> #[trigger] has_arrived(
                datagrams,
                file,
                id,
                key,
                nonce,
            ),
    ensures
        ({
            let run = WriteRun::start(chunks_in(file.len())).accept_all(
                all_delivered(datagrams, key, nonce),
            );
            &&& !run.overflow
            &&& run.w.done()
            &&& written(run.out) == file
        }),
{
    let chunks = all_delivered(datagrams, key, nonce);
    lemma_all_delivered(datagrams, file, key, nonce);
    assert forall|id: nat| id < chunks_in(file.len()) implies #[trigger] has_come(chunks, id) by {
        assert(has_arrived(datagrams, file, id as u32, key, nonce));
        assert(has_come(chunks, (id as u32) as nat));
    }
    law_the_file_is_written(file, chunks);
}

/// What the receiver tells about a block is what the sender reads, and nothing
/// of what follows is touched.
pub proof fn law_verdict_reaches_the_sender(block_id: u32, entry: RxView, rest: Seq<u8>)
    requires
        entry.received.len() < 0x1_0000_0000,
    ensures
        ({
            let ack = ack_for(block_id, entry);
            &&& ack_of(ack_bytes(ack) + rest) == Ok::<_, AckReadError>((ack, ack_bytes(ack).len()))
            &&& (ack_bytes(ack) + rest).skip(ack_bytes(ack).len() as int) == rest
        }),
{
    lemma_missing_len(entry.received, entry.received.len());
    law_ack_round_trip(ack_for(block_id, entry), rest);
}

proof fn lemma_missing_len(bits: Seq<bool>, n: nat)
    ensures
        missing_below(bits, n).len() <= n,
    decreases n,
{
    if n > 0 {
        lemma_missing_len(bits, (n - 1) as nat);
    }
}

} // verus!
