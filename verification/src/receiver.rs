//! The receiver's side of the block protocol: what to do with a datagram, and
//! what to tell the sender about a block.

use vstd::prelude::*;
#[allow(unused_imports)]
use vstd::set_lib::lemma_len_subset;
use vstd::slice::slice_subrange;
use crate::config::{BLOCK_GRACE_PERIOD_MS, BLOCK_IDLE_TIMEOUT_MS, MAX_BLOCK_RETRY_ROUNDS, PACKETS_PER_BLOCK};
#[allow(unused_imports)]
use crate::maps::lemma_ids_below;
use crate::pipeline::{DecryptedChunk, ReceivedPacket};
#[allow(unused_imports)]
use crate::pipeline::ReceivedPacketView;
use crate::protocol::{BlockAck, BlockEndPacket, DataPacket, TAG_BLOCK_END, TAG_DATA};
#[allow(unused_imports)]
use crate::protocol::{block_end_of, data_body_ok, data_packet_of, BlockAckView, DataPacketView};
use crate::transport::{chunk_id_of, packets_in_block, total_blocks, SharedReceiverState};
#[allow(unused_imports)]
use crate::transport::{
    block_count, block_len, chunk_index, law_entries_are_sized, RxStateView, RxView,
};
use crate::worker::VerifiedPacket;
#[allow(unused_imports)]
use crate::worker::VerifiedView;

verus! {

// ---------------------------------------------------------------------------
// Datagrams
// ---------------------------------------------------------------------------

/// What a datagram turned out to be.
pub enum Incoming {
    /// Empty, of an unknown kind, or truncated.
    Ignored,
    /// File data, to be decrypted and verified.
    Packet(ReceivedPacket),
    /// The end marker of a block.
    BlockEnd,
    /// File data at a place that no chunk id can name.
    OutOfRange,
}

/// An [`Incoming`] in mathematical terms.
#[verifier::ext_equal]
pub enum IncomingView {
    Ignored,
    Packet(ReceivedPacketView),
    BlockEnd,
    OutOfRange,
}

impl View for Incoming {
    type V = IncomingView;

    open spec fn view(&self) -> IncomingView {
        match self {
            Incoming::Ignored => IncomingView::Ignored,
            Incoming::Packet(p) => IncomingView::Packet(p@),
            Incoming::BlockEnd => IncomingView::BlockEnd,
            Incoming::OutOfRange => IncomingView::OutOfRange,
        }
    }
}

/// The received packet that a data packet stands for.
pub open spec fn received_packet(p: DataPacketView) -> ReceivedPacketView {
    ReceivedPacketView {
        chunk_id: chunk_index(p.block_id as nat, p.packet_in_block as nat) as u32,
        block_id: p.block_id,
        packet_in_block: p.packet_in_block,
        encrypted: p.payload,
        hash: p.hash,
    }
}

/// What a datagram is.
pub open spec fn incoming_of(datagram: Seq<u8>) -> IncomingView {
    if datagram.len() < 1 {
        IncomingView::Ignored
    } else {
        let body = datagram.skip(1);
        if datagram[0] == TAG_DATA && data_body_ok(body) {
            let p = data_packet_of(body);
            if chunk_index(p.block_id as nat, p.packet_in_block as nat) <= u32::MAX {
                IncomingView::Packet(received_packet(p))
            } else {
                IncomingView::OutOfRange
            }
        } else if datagram[0] == TAG_BLOCK_END && block_end_of(body) is Some {
            IncomingView::BlockEnd
        } else {
            IncomingView::Ignored
        }
    }
}

// ---------------------------------------------------------------------------
// Acknowledgements
// ---------------------------------------------------------------------------

/// What the sender is told about a block.
pub struct Verdict {
    pub ack: BlockAck,
    /// Set if the block is given up: the number of the repair round, and how
    /// many packets are still missing.
    pub given_up: Option<(u32, usize)>,
}

/// The acknowledgement of a block that stands like this.  An incomplete block
/// is reported as complete once it has been asked for too often, so that it
/// cannot hold up the transfer.
pub open spec fn ack_for(block_id: u32, entry: RxView) -> BlockAckView {
    if entry.complete() || entry.rounds > MAX_BLOCK_RETRY_ROUNDS {
        BlockAckView::Complete { block_id }
    } else {
        BlockAckView::Missing { block_id, missing: entry.missing() }
    }
}

/// The block is given up.
pub open spec fn gives_up(entry: RxView) -> bool {
    !entry.complete() && entry.rounds > MAX_BLOCK_RETRY_ROUNDS
}

/// What the sender is told about a block of which `missing` is missing in this
/// round.
pub fn decide(block_id: u32, is_complete: bool, missing: Vec<u16>, rounds: u32) -> (v: Verdict)
    ensures
        v.ack@ == if is_complete || rounds > MAX_BLOCK_RETRY_ROUNDS {
            BlockAckView::Complete { block_id }
        } else {
            BlockAckView::Missing { block_id, missing: missing@ }
        },
        v.given_up == if !is_complete && rounds > MAX_BLOCK_RETRY_ROUNDS {
            Some((rounds, missing@.len() as usize))
        } else {
            None
        },
{
    if is_complete {
        Verdict { ack: BlockAck::Complete { block_id }, given_up: None }
    } else if rounds > MAX_BLOCK_RETRY_ROUNDS {
        Verdict { ack: BlockAck::Complete { block_id }, given_up: Some((rounds, missing.len())) }
    } else {
        Verdict { ack: BlockAck::Missing { block_id, missing }, given_up: None }
    }
}

// ---------------------------------------------------------------------------
// The receiver
// ---------------------------------------------------------------------------

/// Nanoseconds in a millisecond.
pub const NANOS_PER_MILLI: u128 = 1_000_000;

/// All that the receiver knows about the blocks of a file.
pub struct BlockReceiver {
    state: SharedReceiverState,
    expected_chunks: u32,
    total_blocks: u32,
    completed: u64,
}

/// A [`BlockReceiver`] in mathematical terms.
#[verifier::ext_equal]
pub struct ReceiverView {
    pub state: RxStateView,
    pub expected_chunks: nat,
}

impl View for BlockReceiver {
    type V = ReceiverView;

    closed spec fn view(&self) -> ReceiverView {
        ReceiverView { state: self.state@, expected_chunks: self.expected_chunks as nat }
    }
}

impl ReceiverView {
    /// The number of packets of a block.
    pub open spec fn size_of(self, block_id: u32) -> nat {
        block_len(block_id as nat, self.expected_chunks)
    }

    /// As many blocks are done as the file has.
    pub open spec fn done(self) -> bool {
        self.state.completed.len() >= block_count(self.expected_chunks)
    }

    /// The receiver after a datagram.
    pub open spec fn after_datagram(self, datagram: Seq<u8>, now: nat) -> ReceiverView {
        let body = datagram.skip(1);
        match incoming_of(datagram) {
            IncomingView::Ignored => self,
            IncomingView::BlockEnd => {
                let end = block_end_of(body)->0;
                ReceiverView { state: self.state.ended(end.0, end.1 as nat, now), ..self }
            },
            _ => {
                let id = data_packet_of(body).block_id;
                ReceiverView { state: self.state.touched(id, self.size_of(id), now), ..self }
            },
        }
    }

    /// The receiver after a packet has been verified.
    pub open spec fn after_verified(self, p: VerifiedView, now: nat) -> ReceiverView {
        ReceiverView {
            state: self.state.verified(
                p.block_id,
                p.packet_in_block,
                self.size_of(p.block_id),
                now,
            ),
            ..self
        }
    }

    /// The receiver after a block has been checked: one more repair round, or
    /// the block is done.
    pub open spec fn after_check(self, block_id: u32, now: nat) -> ReceiverView {
        if !self.state.blocks.contains_key(block_id) {
            self
        } else if ack_for(block_id, self.state.tick(block_id, now)) is Complete {
            ReceiverView { state: self.state.removed(block_id), ..self }
        } else {
            ReceiverView { state: self.state.ticked(block_id, now), ..self }
        }
    }

    /// No tracked block is done or has been asked for too often.
    pub open spec fn in_order(self) -> bool {
        &&& self.state.disjoint()
        &&& forall|id: u32| #[trigger]
            self.state.blocks.contains_key(id) ==> self.state.blocks[id].rounds
                <= MAX_BLOCK_RETRY_ROUNDS
    }
}

pub(crate) proof fn lemma_in_order(r: ReceiverView, datagram: Seq<u8>, p: VerifiedView, id: u32, now: nat)
    requires
        r.in_order(),
    ensures
        r.after_datagram(datagram, now).in_order(),
        r.after_verified(p, now).in_order(),
        r.after_check(id, now).in_order(),
{
    assert forall|other: u32, entry: RxView|
        entry.rounds <= MAX_BLOCK_RETRY_ROUNDS implies (#[trigger] (ReceiverView {
        state: r.state.updated(other, entry),
        ..r
    }).in_order()) by {
        let after = ReceiverView { state: r.state.updated(other, entry), ..r };
        assert forall|k: u32| #[trigger]
            after.state.blocks.contains_key(k) implies after.state.blocks[k].rounds
            <= MAX_BLOCK_RETRY_ROUNDS && !after.state.completed.contains(k) by {
            if k != other {
                assert(r.state.blocks.contains_key(k));
            }
        }
    }
    assert(forall|other: u32, total: nat| #[trigger]
        r.state.entry(other, total, now).rounds <= MAX_BLOCK_RETRY_ROUNDS);
    let end = block_end_of(datagram.skip(1))->0;
    let data_id = data_packet_of(datagram.skip(1)).block_id;
    assert(r.after_datagram(datagram, now).in_order()) by {
        let e0 = RxView {
            end_seen: true,
            last_activity: now,
            ..r.state.entry(end.0, end.1 as nat, now)
        };
        assert((ReceiverView { state: r.state.updated(end.0, e0), ..r }).in_order());
        let e1 = RxView { last_activity: now, ..r.state.entry(data_id, r.size_of(data_id), now) };
        assert((ReceiverView { state: r.state.updated(data_id, e1), ..r }).in_order());
    }
    let e2 = r.state.entry(p.block_id, r.size_of(p.block_id), now).verified(p.packet_in_block);
    assert((ReceiverView { state: r.state.updated(p.block_id, e2), ..r }).in_order());
    let checked = r.after_check(id, now);
    assert forall|k: u32| #[trigger]
        checked.state.blocks.contains_key(k) implies checked.state.blocks[k].rounds
        <= MAX_BLOCK_RETRY_ROUNDS && !checked.state.completed.contains(k) by {
        assert(r.state.blocks.contains_key(k));
    }
}

impl BlockReceiver {
    /// The receiver's invariant.
    pub closed spec fn wf(self) -> bool {
        &&& self.state.wf()
        &&& self@.in_order()
        &&& self.total_blocks == block_count(self.expected_chunks as nat)
        &&& self.state@.completed.finite()
        &&& self.completed == self.state@.completed.len()
    }

    /// A receiver for a file of `expected_chunks` chunks.
    pub fn new(expected_chunks: u32) -> (r: Self)
        ensures
            r@ == (ReceiverView {
                state: RxStateView::start(),
                expected_chunks: expected_chunks as nat,
            }),
            r.wf(),
    {
        BlockReceiver {
            state: SharedReceiverState::new(),
            expected_chunks,
            total_blocks: total_blocks(expected_chunks),
            completed: 0,
        }
    }

    /// Takes in a datagram that arrived at time `now`.
    pub fn on_datagram(&mut self, datagram: &[u8], now: u128) -> (r: Incoming)
        requires
            old(self).wf(),
        ensures
            r@ == incoming_of(datagram@),
            final(self)@ == old(self)@.after_datagram(datagram@, now as nat),
            final(self).wf(),
    {
        proof {
            lemma_in_order(self@, datagram@, arbitrary(), 0, now as nat);
        }
        if datagram.len() < 1 {
            return Incoming::Ignored;
        }
        let tag: u8 = datagram[0];
        let body = slice_subrange(datagram, 1, datagram.len());
        proof {
            assert(body@ =~= datagram@.skip(1));
        }
        if tag == TAG_DATA {
            let Some(p) = DataPacket::decode(body) else {
                return Incoming::Ignored;
            };
            let total: usize = packets_in_block(p.block_id, self.expected_chunks);
            self.state.touch_activity(p.block_id, total, now);
            let Some(chunk_id) = checked_chunk_id(p.block_id, p.packet_in_block) else {
                return Incoming::OutOfRange;
            };
            return Incoming::Packet(
                ReceivedPacket {
                    chunk_id,
                    block_id: p.block_id,
                    packet_in_block: p.packet_in_block,
                    encrypted: p.payload,
                    hash: p.hash,
                },
            );
        }
        if tag == TAG_BLOCK_END {
            let Some((block_id, total_packets)) = BlockEndPacket::decode(body) else {
                return Incoming::Ignored;
            };
            self.state.mark_end_seen(block_id, total_packets as usize, now);
            return Incoming::BlockEnd;
        }
        Incoming::Ignored
    }

    /// Counts a verified packet as received and hands out its chunk.
    pub fn on_verified(&mut self, packet: VerifiedPacket, now: u128) -> (chunk: DecryptedChunk)
        requires
            old(self).wf(),
        ensures
            final(self)@ == old(self)@.after_verified(packet@, now as nat),
            final(self).wf(),
            chunk.chunk_id == packet@.chunk_id,
            chunk.data@ == packet@.data,
    {
        proof {
            lemma_in_order(self@, Seq::empty(), packet@, 0, now as nat);
        }
        let (block_id, packet_in_block) = packet.place();
        let total: usize = packets_in_block(block_id, self.expected_chunks);
        self.state.mark_verified(block_id, packet_in_block, total, now);
        packet.into_chunk()
    }

    /// The blocks that are to be checked now, each once, in any order.
    pub fn ready_blocks(&self, now: u128) -> (ready: Vec<u32>)
        requires
            self.wf(),
        ensures
            ready@.no_duplicates(),
            forall|id: u32| #[trigger]
                ready@.contains(id) <==> self@.state.is_ready(
                    id,
                    now as nat,
                    (BLOCK_GRACE_PERIOD_MS * NANOS_PER_MILLI) as nat,
                    (BLOCK_IDLE_TIMEOUT_MS * NANOS_PER_MILLI) as nat,
                ),
    {
        let grace: u128 = BLOCK_GRACE_PERIOD_MS as u128 * NANOS_PER_MILLI;
        let idle_timeout: u128 = BLOCK_IDLE_TIMEOUT_MS as u128 * NANOS_PER_MILLI;
        self.state.ready_for_check(now, grace, idle_timeout)
    }

    /// Checks a block: what the sender is to be told about it, and nothing if
    /// it is not tracked.  A block that is reported as complete is done.
    pub fn check_block(&mut self, block_id: u32, now: u128) -> (r: Option<Verdict>)
        requires
            old(self).wf(),
        ensures
            final(self)@ == old(self)@.after_check(block_id, now as nat),
            final(self).wf(),
            r is Some <==> old(self)@.state.blocks.contains_key(block_id),
            r matches Some(v) ==> {
                let entry = old(self)@.state.tick(block_id, now as nat);
                &&& v.ack@ == ack_for(block_id, entry)
                &&& v.given_up == if gives_up(entry) {
                    Some((entry.rounds as u32, entry.missing().len() as usize))
                } else {
                    None
                }
            },
    {
        proof {
            lemma_in_order(self@, Seq::empty(), arbitrary(), block_id, now as nat);
            lemma_completed_fits(self.state@.completed.insert(block_id));
        }
        let ghost before = self@.state;
        let Some((is_complete, missing, rounds)) = self.state.snapshot_and_tick(
            block_id,
            now,
        ) else {
            return None;
        };
        let verdict = decide(block_id, is_complete, missing, rounds);
        if let BlockAck::Complete { .. } = verdict.ack {
            self.state.remove(block_id);
            self.completed = self.completed + 1;
            proof {
                assert(self.state@.blocks =~= before.removed(block_id).blocks);
            }
        }
        Some(verdict)
    }

    /// Whether as many blocks are done as the file has.
    pub fn is_done(&self) -> (r: bool)
        requires
            self.wf(),
        ensures
            r == self@.done(),
    {
        self.completed >= self.total_blocks as u64
    }

    /// The number of blocks of the file.
    pub fn total_blocks(&self) -> (n: u32)
        requires
            self.wf(),
        ensures
            n == block_count(self@.expected_chunks),
    {
        self.total_blocks
    }
}

/// The chunk at a place of a block, if a chunk id can name it.
pub fn checked_chunk_id(block_id: u32, packet_in_block: u16) -> (r: Option<u32>)
    ensures
        r == if chunk_index(block_id as nat, packet_in_block as nat) <= u32::MAX {
            Some(chunk_index(block_id as nat, packet_in_block as nat) as u32)
        } else {
            None
        },
{
    proof {
        assert(block_id * PACKETS_PER_BLOCK <= 0xffff_ffff * 0x1_0000) by (nonlinear_arith)
            requires
                block_id <= 0xffff_ffff,
                PACKETS_PER_BLOCK <= 0x1_0000,
        ;
    }
    let wide: u64 = block_id as u64 * PACKETS_PER_BLOCK as u64 + packet_in_block as u64;
    if wide <= u32::MAX as u64 {
        Some(chunk_id_of(block_id, packet_in_block))
    } else {
        None
    }
}

/// Every block that a receiver tracks has one bit for each of its packets, and
/// no tracked block is done or has been asked for too often.
pub proof fn law_tracked_blocks_are_sized(r: BlockReceiver)
    requires
        r.wf(),
    ensures
        forall|id: u32| #[trigger]
            r@.state.blocks.contains_key(id) ==> r@.state.blocks[id].received.len()
                == r@.state.blocks[id].total,
        r@.in_order(),
{
    law_entries_are_sized(r.state);
}

/// There are no more than 2^32 block ids.
pub(crate) proof fn lemma_completed_fits(ids: Set<u32>)
    ensures
        ids.finite(),
        ids.len() <= 0x1_0000_0000,
{
    let all = Set::new(|id: u32| id < 0x1_0000_0000nat);
    lemma_ids_below(0x1_0000_0000);
    assert(ids.subset_of(all));
    lemma_len_subset(ids, all);
}

} // verus!
