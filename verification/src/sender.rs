//! The sender's block scheduler.
//!
//! [`BlockManager`] owns every piece of a block's lifecycle: its cached
//! packets, how many of them have been sent, whether its end marker has gone
//! out and whether the receiver has confirmed it.  It takes chunks and
//! acknowledgements one at a time and answers with what is to be sent.
//!
//! A block id is unseen, `Pending` (chunks wait because the pipeline is full),
//! `Open` (packets are sent and cached) or `Resolved` (for good), and it is
//! never more than one of these at once.

use std::collections::HashMap;
use vstd::prelude::*;
use crate::maps::key_list;
#[allow(unused_imports)]
use crate::maps::{lemma_push_contains, lemma_take_succ_contains};
use crate::pipeline::EncryptedChunk;
#[allow(unused_imports)]
use crate::pipeline::EncryptedChunkView;
use crate::protocol::{BlockAck, BlockEndPacket};
#[allow(unused_imports)]
use crate::protocol::block_end_bytes;
use crate::transport::{block_of, collect_cached, new_packets, packets_in_block};
#[allow(unused_imports)]
use crate::transport::{
    block_index, block_len, cached_packets, datagrams_view, empty_packets, packet_index,
    packets_view,
};

verus! {

broadcast use vstd::std_specs::hash::group_hash_axioms;

/// File bytes between two progress reports.
pub const PROGRESS_STEP: u64 = 100 * 1024 * 1024;

// ---------------------------------------------------------------------------
// One block
// ---------------------------------------------------------------------------

/// An open block: `sent` counts the packets that have been placed into it.
pub struct BlockState {
    total: usize,
    packets: Vec<Option<Vec<u8>>>,
    sent: usize,
    end_emitted: bool,
}

/// A [`BlockState`] in mathematical terms.
#[verifier::ext_equal]
pub struct BlockView {
    pub total: nat,
    pub packets: Seq<Option<Seq<u8>>>,
    pub sent: nat,
    pub end_emitted: bool,
}

impl View for BlockState {
    type V = BlockView;

    closed spec fn view(&self) -> BlockView {
        BlockView {
            total: self.total as nat,
            packets: packets_view(self.packets@),
            sent: self.sent as nat,
            end_emitted: self.end_emitted,
        }
    }
}

impl BlockView {
    /// A block that has just been opened.
    pub open spec fn fresh(total: nat) -> BlockView {
        BlockView { total, packets: empty_packets(total), sent: 0, end_emitted: false }
    }

    /// Every place of the block holds a packet.
    pub open spec fn all_cached(self) -> bool {
        forall|i: int|
            0 <= i < self.total && i < self.packets.len() ==> #[trigger] self.packets[i] is Some
    }

    /// The block with a packet placed into it.  The end marker is due with the
    /// packet that makes the count reach the block's size.
    pub open spec fn place(self, at: nat, packet: Seq<u8>) -> BlockView {
        BlockView {
            total: self.total,
            packets: self.packets.update(at as int, Some(packet)),
            sent: self.sent + 1,
            end_emitted: self.end_emitted || self.sent + 1 == self.total,
        }
    }

    /// The end marker is due with the next packet.
    pub open spec fn end_due(self) -> bool {
        self.sent + 1 == self.total && !self.end_emitted
    }
}

impl BlockState {
    /// An open block of `total` places without packets.
    pub fn new(total: usize) -> (r: Self)
        ensures
            r@ == BlockView::fresh(total as nat),
    {
        BlockState { total, packets: new_packets(total), sent: 0, end_emitted: false }
    }

    /// Whether every place of the block holds a packet.
    pub fn all_cached(&self) -> (r: bool)
        ensures
            r == self@.all_cached(),
    {
        let mut i: usize = 0;
        while i < self.total && i < self.packets.len()
            invariant
                forall|k: int|
                    0 <= k < i && k < self@.packets.len() ==> #[trigger] self@.packets[k] is Some,
            decreases self.total - i,
        {
            if self.packets[i].is_none() {
                assert(self@.packets[i as int] is None);
                return false;
            }
            i = i + 1;
        }
        true
    }
}

// ---------------------------------------------------------------------------
// Slots, actions and faults
// ---------------------------------------------------------------------------

/// Where a block stands in its lifecycle.
pub enum BlockSlot {
    /// Chunks that arrived while the pipeline had no room for their block.
    Pending(Vec<EncryptedChunk>),
    /// Accepting chunks and serving retransmissions.
    Open(BlockState),
    /// Confirmed complete, or given up by the receiver.  Terminal.
    Resolved,
}

/// A [`BlockSlot`] in mathematical terms.
#[verifier::ext_equal]
pub enum SlotView {
    Pending(Seq<EncryptedChunkView>),
    Open(BlockView),
    Resolved,
}

/// The contents of a list of chunks.
pub open spec fn chunks_view(chunks: Seq<EncryptedChunk>) -> Seq<EncryptedChunkView> {
    chunks.map_values(|c: EncryptedChunk| c@)
}

impl View for BlockSlot {
    type V = SlotView;

    open spec fn view(&self) -> SlotView {
        match self {
            BlockSlot::Pending(chunks) => SlotView::Pending(chunks_view(chunks@)),
            BlockSlot::Open(block) => SlotView::Open(block@),
            BlockSlot::Resolved => SlotView::Resolved,
        }
    }
}

/// What the sending thread has to do, in order.
pub enum SendAction {
    /// Send the datagram of a packet.
    Data(Vec<u8>),
    /// Send the datagram that ends a block.
    BlockEnd(Vec<u8>),
    /// Send the datagram of a packet again.
    Resend(Vec<u8>),
    /// Report that this many file bytes have been sent.
    Progress(u64),
}

/// A [`SendAction`] in mathematical terms.
#[verifier::ext_equal]
pub enum ActionView {
    Data(Seq<u8>),
    BlockEnd(Seq<u8>),
    Resend(Seq<u8>),
    Progress(u64),
}

impl View for SendAction {
    type V = ActionView;

    open spec fn view(&self) -> ActionView {
        match self {
            SendAction::Data(d) => ActionView::Data(d@),
            SendAction::BlockEnd(d) => ActionView::BlockEnd(d@),
            SendAction::Resend(d) => ActionView::Resend(d@),
            SendAction::Progress(n) => ActionView::Progress(*n),
        }
    }
}

/// A list of actions in mathematical terms.
pub open spec fn actions_view(actions: Seq<SendAction>) -> Seq<ActionView> {
    actions.map_values(|a: SendAction| a@)
}

/// The actions that send datagrams again.
pub open spec fn resend_actions(datagrams: Seq<Seq<u8>>) -> Seq<ActionView> {
    datagrams.map_values(|d: Seq<u8>| ActionView::Resend(d))
}

/// Why a chunk cannot be placed into its block.  Nothing can be done about
/// any of these: the chunks do not come from one reading of the file.
#[derive(Debug, Clone, Copy, PartialEq, Eq, Structural)]
pub enum SendFault {
    /// The chunk lies behind the end of the file.
    PacketOutOfRange,
    /// A counter would overflow.
    CounterOverflow,
    /// As many packets as the block has places were sent, but not all of its
    /// places hold one: some chunk came twice.
    IncompleteBlock,
}

/// What the scheduler takes in.
pub enum SenderEvent {
    Chunk(EncryptedChunk),
    Ack(BlockAck),
}

/// Where a block stood when the receiver reported it as complete.
#[derive(Debug, Clone, Copy, PartialEq, Eq, Structural)]
pub enum Prior {
    /// Resolved before: the report is a duplicate and does not count.
    AlreadyResolved,
    WasOpen,
    /// Waiting with this many chunks, which are discarded.
    WasPending(usize),
    /// No chunk of the block had come yet.
    Unseen,
}

/// What became of an event.
#[derive(Debug, Clone, Copy, PartialEq, Eq, Structural)]
pub enum EventReply {
    /// The chunk was placed, kept or dropped.
    Taken,
    /// This many datagrams are sent again.
    Resent(usize),
    /// A block is resolved.
    Resolved(Prior),
}

/// What was left undone when the connection was lost.
#[derive(Debug, Clone, Copy, PartialEq, Eq, Structural)]
pub struct LostReport {
    pub unresolved: u32,
    pub total_blocks: u32,
    /// Blocks that wait for an acknowledgement.
    pub open_slots: usize,
    /// Chunks that wait for their block to be opened.
    pub stuck_pending: u128,
    /// Blocks that wait to be opened.
    pub stuck_pending_blocks: usize,
}

/// What drives the scheduler.
pub enum Input {
    /// The work begins.
    Begin,
    /// An event has come.
    Event(SenderEvent),
    /// No event will come any more.
    Closed,
}

/// How the work goes on.
#[derive(Debug, Clone, Copy, PartialEq, Eq, Structural)]
pub enum Status {
    /// Wait for the next event.
    Waiting,
    /// Every block is resolved.
    Finished,
    /// The connection was lost before that.
    Lost(LostReport),
}

// ---------------------------------------------------------------------------
// The scheduler in mathematical terms
// ---------------------------------------------------------------------------

/// A [`BlockManager`] in mathematical terms.
#[verifier::ext_equal]
pub struct ManagerView {
    pub blocks: Map<u32, SlotView>,
    pub open_slots: nat,
    pub total_chunks: nat,
    pub pipeline_depth: nat,
    pub total_blocks: nat,
    pub completed: nat,
    pub bytes_sent: nat,
    pub packets_sent: nat,
    pub retransmitted: nat,
    pub next_print: nat,
}

/// The ids of the open blocks.
pub open spec fn open_ids(blocks: Map<u32, SlotView>) -> Set<u32> {
    blocks.dom().filter(|id: u32| blocks[id] is Open)
}

/// The ids of the waiting blocks.
pub open spec fn pending_ids(blocks: Map<u32, SlotView>) -> Set<u32> {
    blocks.dom().filter(|id: u32| blocks[id] is Pending)
}

/// The number of chunks that wait at one of the blocks `ids`.
pub open spec fn waiting_at(blocks: Map<u32, SlotView>, ids: Set<u32>) -> nat {
    ids.fold(0nat, |n: nat, id: u32| n + blocks[id]->Pending_0.len())
}

/// The ids of the resolved blocks.
pub open spec fn resolved_ids(blocks: Map<u32, SlotView>) -> Set<u32> {
    blocks.dom().filter(|id: u32| blocks[id] is Resolved)
}

/// Block `id` waits for the pipeline to have room.
pub open spec fn is_pending(blocks: Map<u32, SlotView>, id: u32) -> bool {
    blocks.contains_key(id) && blocks[id] is Pending
}

/// Block `id` is the waiting block with the smallest id.
pub open spec fn is_first_pending(blocks: Map<u32, SlotView>, id: u32) -> bool {
    is_pending(blocks, id) && forall|other: u32| #[trigger] is_pending(blocks, other) ==> id <= other
}

/// The waiting block with the smallest id, if any block waits.
pub open spec fn first_pending(blocks: Map<u32, SlotView>) -> Option<u32> {
    if exists|id: u32| is_first_pending(blocks, id) {
        Some(choose|id: u32| is_first_pending(blocks, id))
    } else {
        None
    }
}

/// The block that a chunk belongs to.
pub open spec fn home(chunk: EncryptedChunkView) -> u32 {
    block_index(chunk.chunk_id as nat) as u32
}

/// The place of a chunk inside its block.
pub open spec fn place_of(chunk: EncryptedChunkView) -> nat {
    packet_index(chunk.chunk_id as nat)
}

impl ManagerView {
    /// A scheduler before its first event.
    pub open spec fn start(total_chunks: nat, pipeline_depth: nat, total_blocks: nat) -> Self {
        ManagerView {
            blocks: Map::empty(),
            open_slots: 0,
            total_chunks,
            pipeline_depth,
            total_blocks,
            completed: 0,
            bytes_sent: 0,
            packets_sent: 0,
            retransmitted: 0,
            next_print: PROGRESS_STEP as nat,
        }
    }

    /// A slot is in order: an open block has the size that the file gives it,
    /// its end marker is out exactly if as many packets were sent, and then
    /// all of its places hold one; waiting chunks wait at their own block.
    pub open spec fn slot_ok(self, id: u32) -> bool {
        match self.blocks[id] {
            SlotView::Open(b) => {
                &&& b.total == block_len(id as nat, self.total_chunks)
                &&& b.packets.len() == b.total
                &&& b.end_emitted <==> 0 < b.total <= b.sent
                &&& b.end_emitted ==> b.all_cached()
            },
            SlotView::Pending(chunks) => {
                &&& chunks.len() > 0
                &&& forall|i: int| 0 <= i < chunks.len() ==> home(#[trigger] chunks[i]) == id
            },
            SlotView::Resolved => true,
        }
    }

    /// The scheduler's invariant.
    pub open spec fn wf(self) -> bool {
        &&& self.blocks.dom().finite()
        &&& self.open_slots == open_ids(self.blocks).len()
        &&& self.open_slots <= self.pipeline_depth
        &&& self.completed == resolved_ids(self.blocks).len()
        &&& forall|id: u32| #[trigger] self.blocks.contains_key(id) ==> self.slot_ok(id)
    }

    /// Every block of the file has been resolved.
    pub open spec fn finished(self) -> bool {
        self.completed >= self.total_blocks
    }

    /// The scheduler with block `id` newly opened.
    pub open spec fn opened(self, id: u32) -> Self {
        ManagerView {
            blocks: self.blocks.insert(
                id,
                SlotView::Open(BlockView::fresh(block_len(id as nat, self.total_chunks))),
            ),
            open_slots: self.open_slots + 1,
            ..self
        }
    }

    /// The open block that a chunk belongs to.
    pub open spec fn block_for(self, chunk: EncryptedChunkView) -> BlockView {
        self.blocks[home(chunk)]->Open_0
    }

    /// Why a chunk cannot be placed into its open block, if it cannot.
    pub open spec fn place_fault(self, chunk: EncryptedChunkView) -> Option<SendFault> {
        let block = self.block_for(chunk);
        let bytes = self.bytes_sent + chunk.bytes;
        if place_of(chunk) >= block.packets.len() {
            Some(SendFault::PacketOutOfRange)
        } else if self.packets_sent + 1 > u64::MAX || bytes > u64::MAX || (bytes >= self.next_print
            && self.next_print + PROGRESS_STEP > u64::MAX) || block.sent + 1 > usize::MAX {
            Some(SendFault::CounterOverflow)
        } else if block.end_due() && !block.place(place_of(chunk), chunk.packet).all_cached() {
            Some(SendFault::IncompleteBlock)
        } else {
            None
        }
    }

    /// The scheduler with a chunk placed into its open block.
    pub open spec fn place(self, chunk: EncryptedChunkView) -> Self {
        let bytes = self.bytes_sent + chunk.bytes as nat;
        ManagerView {
            blocks: self.blocks.insert(
                home(chunk),
                SlotView::Open(self.block_for(chunk).place(place_of(chunk), chunk.packet)),
            ),
            packets_sent: self.packets_sent + 1,
            bytes_sent: bytes,
            next_print: if bytes >= self.next_print {
                self.next_print + PROGRESS_STEP as nat
            } else {
                self.next_print
            },
            ..self
        }
    }

    /// What is sent and reported when a chunk is placed into its open block.
    pub open spec fn place_actions(self, chunk: EncryptedChunkView) -> Seq<ActionView> {
        let bytes = self.bytes_sent + chunk.bytes;
        let block = self.block_for(chunk);
        seq![ActionView::Data(chunk.packet)] + (if bytes >= self.next_print {
            seq![ActionView::Progress(bytes as u64)]
        } else {
            Seq::empty()
        }) + (if block.end_due() {
            seq![ActionView::BlockEnd(block_end_bytes(home(chunk), block.total as u32))]
        } else {
            Seq::empty()
        })
    }

    /// The scheduler with a block resolved.
    pub open spec fn resolve(self, id: u32) -> Self {
        if self.blocks.contains_key(id) && self.blocks[id] is Resolved {
            self
        } else {
            ManagerView {
                blocks: self.blocks.insert(id, SlotView::Resolved),
                open_slots: if self.blocks.contains_key(id) && self.blocks[id] is Open {
                    (self.open_slots - 1) as nat
                } else {
                    self.open_slots
                },
                completed: self.completed + 1,
                ..self
            }
        }
    }

    /// Where a block stood before it was resolved.
    pub open spec fn prior(self, id: u32) -> Prior {
        if !self.blocks.contains_key(id) {
            Prior::Unseen
        } else {
            match self.blocks[id] {
                SlotView::Resolved => Prior::AlreadyResolved,
                SlotView::Open(_) => Prior::WasOpen,
                SlotView::Pending(chunks) => Prior::WasPending(chunks.len() as usize),
            }
        }
    }

    /// What is left undone if no event will come any more.
    pub open spec fn lost(self) -> LostReport {
        LostReport {
            unresolved: (self.total_blocks - self.completed) as u32,
            total_blocks: self.total_blocks as u32,
            open_slots: self.open_slots as usize,
            stuck_pending: waiting_at(self.blocks, pending_ids(self.blocks)) as u128,
            stuck_pending_blocks: pending_ids(self.blocks).len() as usize,
        }
    }

    /// What becomes of an event.
    pub open spec fn reply(self, event: SenderEvent) -> EventReply {
        match event {
            SenderEvent::Chunk(_) => EventReply::Taken,
            SenderEvent::Ack(BlockAck::Missing { block_id, missing }) => EventReply::Resent(
                self.resend(block_id, missing@).len() as usize,
            ),
            SenderEvent::Ack(BlockAck::Complete { block_id }) => EventReply::Resolved(
                self.prior(block_id),
            ),
        }
    }

    /// How the work goes on after an input.
    pub open spec fn status(self, closed: bool) -> Status {
        if self.finished() {
            Status::Finished
        } else if closed {
            Status::Lost(self.lost())
        } else {
            Status::Waiting
        }
    }

    /// The datagrams that answer a report of missing packets.
    pub open spec fn resend(self, id: u32, missing: Seq<u16>) -> Seq<Seq<u8>> {
        if self.blocks.contains_key(id) && self.blocks[id] is Open {
            cached_packets(self.blocks[id]->Open_0.packets, missing)
        } else {
            Seq::empty()
        }
    }
}

/// The fault that a result reports, if it reports one.
pub open spec fn fault_of<T>(r: Result<T, SendFault>) -> Option<SendFault> {
    match r {
        Ok(_) => None,
        Err(fault) => Some(fault),
    }
}

/// A scheduler, the actions that it has asked for so far, and the fault that
/// ended its work, if there was one.
#[verifier::ext_equal]
pub struct Run {
    pub m: ManagerView,
    pub out: Seq<ActionView>,
    pub fault: Option<SendFault>,
}

impl Run {
    /// A scheduler at work, with the actions that stand in the list already.
    pub open spec fn from(m: ManagerView, out: Seq<SendAction>) -> Run {
        Run { m, out: actions_view(out), fault: None }
    }

    /// Places one chunk into its open block.
    pub open spec fn place(self, chunk: EncryptedChunkView) -> Run {
        if self.fault is Some {
            self
        } else if self.m.place_fault(chunk) is Some {
            Run { fault: self.m.place_fault(chunk), ..self }
        } else {
            Run {
                m: self.m.place(chunk),
                out: self.out + self.m.place_actions(chunk),
                fault: None,
            }
        }
    }

    /// The run has ended with these results.
    pub open spec fn ends_as(
        self,
        m: ManagerView,
        out: Seq<SendAction>,
        fault: Option<SendFault>,
    ) -> bool {
        &&& m == self.m
        &&& actions_view(out) == self.out
        &&& fault == self.fault
    }

    /// Places chunks into their open block, one after the other.
    pub open spec fn place_all(self, chunks: Seq<EncryptedChunkView>) -> Run
        decreases chunks.len(),
    {
        if chunks.len() == 0 {
            self
        } else {
            self.place_all(chunks.drop_last()).place(chunks.last())
        }
    }

    /// Opens a block that has not been open.
    pub open spec fn opened(self, id: u32) -> Run {
        Run { m: self.m.opened(id), ..self }
    }

    /// Takes in a chunk: places it into its block where that is open or can be
    /// opened, lets it wait where the pipeline is full, and drops it where its
    /// block is resolved.
    pub open spec fn accept(self, chunk: EncryptedChunkView) -> Run {
        let id = home(chunk);
        if !self.m.blocks.contains_key(id) {
            if self.m.open_slots < self.m.pipeline_depth {
                self.opened(id).place(chunk)
            } else {
                Run {
                    m: ManagerView {
                        blocks: self.m.blocks.insert(id, SlotView::Pending(seq![chunk])),
                        ..self.m
                    },
                    ..self
                }
            }
        } else {
            match self.m.blocks[id] {
                SlotView::Resolved => self,
                SlotView::Open(_) => self.place(chunk),
                SlotView::Pending(chunks) => Run {
                    m: ManagerView {
                        blocks: self.m.blocks.insert(id, SlotView::Pending(chunks.push(chunk))),
                        ..self.m
                    },
                    ..self
                },
            }
        }
    }

    /// Answers a report of missing packets.
    pub open spec fn resent(self, id: u32, missing: Seq<u16>) -> Run {
        Run { out: self.out + resend_actions(self.m.resend(id, missing)), ..self }
    }

    /// Resolves a block.
    pub open spec fn resolved(self, id: u32) -> Run {
        Run { m: self.m.resolve(id), ..self }
    }

    /// Takes in one event.
    pub open spec fn event(self, event: SenderEvent) -> Run {
        match event {
            SenderEvent::Chunk(chunk) => self.accept(chunk@),
            SenderEvent::Ack(BlockAck::Missing { block_id, missing }) => self.resent(
                block_id,
                missing@,
            ),
            SenderEvent::Ack(BlockAck::Complete { block_id }) => self.resolved(block_id),
        }
    }

    /// Does all there is to do until the next event must be waited for: what
    /// the input asks for, and then the opening of waiting blocks.
    pub open spec fn advance(self, input: Input) -> Run {
        match input {
            Input::Event(event) => self.event(event).drain(),
            _ => self.drain(),
        }
    }

    /// Opens a waiting block and places all of its chunks.
    pub open spec fn open_pending(self, id: u32) -> Run {
        self.opened(id).place_all(self.m.blocks[id]->Pending_0)
    }

    /// Opens up to `slots` waiting blocks in ascending order of their ids.
    pub open spec fn drain_up_to(self, slots: nat) -> Run
        decreases slots,
    {
        if slots == 0 || self.fault is Some {
            self
        } else {
            match first_pending(self.m.blocks) {
                None => self,
                Some(id) => self.open_pending(id).drain_up_to((slots - 1) as nat),
            }
        }
    }

    /// Opens as many waiting blocks as the pipeline has room for.
    pub open spec fn drain(self) -> Run {
        if self.m.open_slots < self.m.pipeline_depth {
            self.drain_up_to((self.m.pipeline_depth - self.m.open_slots) as nat)
        } else {
            self
        }
    }
}

// ---------------------------------------------------------------------------
// The invariant is kept
// ---------------------------------------------------------------------------

/// Block `id` is open.
pub open spec fn is_open(blocks: Map<u32, SlotView>, id: u32) -> bool {
    blocks.contains_key(id) && blocks[id] is Open
}

pub(crate) proof fn lemma_place_keeps_wf(m: ManagerView, chunk: EncryptedChunkView)
    requires
        m.wf(),
        is_open(m.blocks, home(chunk)),
        m.place_fault(chunk) is None,
    ensures
        m.place(chunk).wf(),
{
    let after = m.place(chunk);
    assert(open_ids(after.blocks) =~= open_ids(m.blocks));
    assert(resolved_ids(after.blocks) =~= resolved_ids(m.blocks));
    assert forall|id: u32| #[trigger] after.blocks.contains_key(id) implies after.slot_ok(id) by {
        assert(m.blocks.contains_key(id));
        assert(m.slot_ok(id));
    }
}

pub(crate) proof fn lemma_opened_keeps_wf(m: ManagerView, id: u32)
    requires
        m.wf(),
        m.open_slots < m.pipeline_depth,
        !m.blocks.contains_key(id) || m.blocks[id] is Pending,
    ensures
        m.opened(id).wf(),
{
    let after = m.opened(id);
    assert(open_ids(after.blocks) =~= open_ids(m.blocks).insert(id));
    assert(resolved_ids(after.blocks) =~= resolved_ids(m.blocks));
    assert forall|other: u32| #[trigger] after.blocks.contains_key(other) implies after.slot_ok(
        other,
    ) by {
        if other != id {
            assert(m.blocks.contains_key(other));
            assert(m.slot_ok(other));
        }
    }
}

pub(crate) proof fn lemma_wait_keeps_wf(m: ManagerView, id: u32, chunks: Seq<EncryptedChunkView>)
    requires
        m.wf(),
        !m.blocks.contains_key(id) || m.blocks[id] is Pending,
        chunks.len() > 0,
        forall|i: int| 0 <= i < chunks.len() ==> home(#[trigger] chunks[i]) == id,
    ensures
        (ManagerView { blocks: m.blocks.insert(id, SlotView::Pending(chunks)), ..m }).wf(),
{
    let after = ManagerView { blocks: m.blocks.insert(id, SlotView::Pending(chunks)), ..m };
    assert(open_ids(after.blocks) =~= open_ids(m.blocks));
    assert(resolved_ids(after.blocks) =~= resolved_ids(m.blocks));
    assert forall|other: u32| #[trigger] after.blocks.contains_key(other) implies after.slot_ok(
        other,
    ) by {
        if other != id {
            assert(m.blocks.contains_key(other));
            assert(m.slot_ok(other));
        }
    }
}

pub(crate) proof fn lemma_resolve_keeps_wf(m: ManagerView, id: u32)
    requires
        m.wf(),
    ensures
        m.resolve(id).wf(),
        is_open(m.blocks, id) ==> m.open_slots > 0,
{
    let after = m.resolve(id);
    let open = open_ids(m.blocks);
    let resolved = resolved_ids(m.blocks);
    if open.contains(id) {
        assert(open.len() > 0);
    }
    if !resolved.contains(id) {
        assert(open_ids(after.blocks) =~= open.remove(id));
        assert(resolved_ids(after.blocks) =~= resolved.insert(id));
        assert forall|other: u32| #[trigger] after.blocks.contains_key(other) implies after.slot_ok(
            other,
        ) by {
            if other != id {
                assert(m.blocks.contains_key(other));
                assert(m.slot_ok(other));
            }
        }
    }
}

/// Placing chunks into their open block keeps the invariant and touches
/// nothing of the scheduler but that block and the counters of what was sent.
pub(crate) proof fn lemma_place_all(run: Run, id: u32, chunks: Seq<EncryptedChunkView>)
    requires
        run.m.wf(),
        is_open(run.m.blocks, id),
        forall|i: int| 0 <= i < chunks.len() ==> home(#[trigger] chunks[i]) == id,
    ensures
        run.place_all(chunks).m.wf(),
        is_open(run.place_all(chunks).m.blocks, id),
        run.place_all(chunks).m.open_slots == run.m.open_slots,
        run.place_all(chunks).m.pipeline_depth == run.m.pipeline_depth,
        run.place_all(chunks).m.blocks.remove(id) == run.m.blocks.remove(id),
    decreases chunks.len(),
{
    if chunks.len() > 0 {
        let init = chunks.drop_last();
        assert(forall|i: int| 0 <= i < init.len() ==> #[trigger] init[i] == chunks[i]);
        lemma_place_all(run, id, init);
        let before = run.place_all(init);
        assert(home(chunks.last()) == id);
        if before.fault is None && before.m.place_fault(chunks.last()) is None {
            lemma_place_keeps_wf(before.m, chunks.last());
        }
    }
    assert(run.place_all(chunks).m.blocks.remove(id) =~= run.m.blocks.remove(id));
}

/// After a fault no more chunks are placed.
pub(crate) proof fn lemma_place_all_stops(run: Run, chunks: Seq<EncryptedChunkView>, n: int)
    requires
        0 <= n <= chunks.len(),
        run.place_all(chunks.take(n)).fault is Some,
    ensures
        run.place_all(chunks) == run.place_all(chunks.take(n)),
    decreases chunks.len() - n,
{
    if n < chunks.len() {
        let next = chunks.take(n + 1);
        assert(next.drop_last() =~= chunks.take(n));
        lemma_place_all_stops(run, chunks, n + 1);
    } else {
        assert(chunks.take(n) =~= chunks);
    }
}

/// At most one waiting block has the smallest id.
proof fn lemma_first_pending(blocks: Map<u32, SlotView>, id: u32)
    requires
        is_first_pending(blocks, id),
    ensures
        first_pending(blocks) == Some(id),
{
    let chosen = choose|id: u32| is_first_pending(blocks, id);
    assert(is_first_pending(blocks, chosen));
    assert(is_pending(blocks, chosen));
    assert(is_pending(blocks, id));
}

// ---------------------------------------------------------------------------
// The scheduler
// ---------------------------------------------------------------------------

/// The single owner of every block's lifecycle.
pub struct BlockManager {
    blocks: HashMap<u32, BlockSlot>,
    open_slots: usize,
    total_chunks: u32,
    pipeline_depth: usize,
    total_blocks: u32,
    completed: u32,
    bytes_sent: u64,
    packets_sent: u64,
    retransmitted: u64,
    next_print: u64,
}

impl View for BlockManager {
    type V = ManagerView;

    closed spec fn view(&self) -> ManagerView {
        ManagerView {
            blocks: self.blocks@.map_values(|slot: BlockSlot| slot@),
            open_slots: self.open_slots as nat,
            total_chunks: self.total_chunks as nat,
            pipeline_depth: self.pipeline_depth as nat,
            total_blocks: self.total_blocks as nat,
            completed: self.completed as nat,
            bytes_sent: self.bytes_sent as nat,
            packets_sent: self.packets_sent as nat,
            retransmitted: self.retransmitted as nat,
            next_print: self.next_print as nat,
        }
    }
}

impl BlockManager {
    /// A scheduler for a file of `total_chunks` chunks in `total_blocks`
    /// blocks, of which at most `pipeline_depth` are open at any time.
    pub fn new(total_chunks: u32, pipeline_depth: usize, total_blocks: u32) -> (r: Self)
        ensures
            r@ == ManagerView::start(
                total_chunks as nat,
                pipeline_depth as nat,
                total_blocks as nat,
            ),
            r@.wf(),
    {
        let r = BlockManager {
            blocks: HashMap::new(),
            open_slots: 0,
            total_chunks,
            pipeline_depth,
            total_blocks,
            completed: 0,
            bytes_sent: 0,
            packets_sent: 0,
            retransmitted: 0,
            next_print: PROGRESS_STEP,
        };
        proof {
            assert(r@.blocks =~= Map::empty());
            assert(open_ids(r@.blocks) =~= Set::empty());
            assert(resolved_ids(r@.blocks) =~= Set::empty());
        }
        r
    }

    /// Places a chunk into its block, which is open: caches the packet, sends
    /// it, and ends the block with the packet that makes it full.
    pub fn place_chunk(&mut self, chunk: EncryptedChunk, out: &mut Vec<SendAction>) -> (r: Result<
        (),
        SendFault,
    >)
        requires
            old(self)@.wf(),
            is_open(old(self)@.blocks, home(chunk@)),
        ensures
            Run::from(old(self)@, old(out)@).place(chunk@).ends_as(
                final(self)@,
                final(out)@,
                fault_of(r),
            ),
            final(self)@.wf(),
    {
        let ghost before = self@;
        let (block_id, packet_in_block) = block_of(chunk.chunk_id);
        let at: usize = packet_in_block as usize;
        let mut block = match self.blocks.remove(&block_id) {
            Some(BlockSlot::Open(block)) => block,
            _ => {
                proof {
                    assert(false);
                }
                return Ok(());
            },
        };
        let ghost b = block@;
        proof {
            assert(before.blocks.contains_key(block_id));
            assert(before.slot_ok(block_id));
            assert(b == before.block_for(chunk@));
        }
        if at >= block.packets.len() {
            self.blocks.insert(block_id, BlockSlot::Open(block));
            proof {
                assert(self@.blocks =~= before.blocks);
            }
            return Err(SendFault::PacketOutOfRange);
        }
        let bytes: u64 = chunk.bytes as u64;
        let report: bool = self.bytes_sent <= u64::MAX - bytes && self.bytes_sent + bytes
            >= self.next_print;
        if self.packets_sent == u64::MAX || self.bytes_sent > u64::MAX - bytes || (report
            && self.next_print > u64::MAX - PROGRESS_STEP) || block.sent == usize::MAX {
            self.blocks.insert(block_id, BlockSlot::Open(block));
            proof {
                assert(self@.blocks =~= before.blocks);
            }
            return Err(SendFault::CounterOverflow);
        }
        let EncryptedChunk { packet, .. } = chunk;
        let ends: bool = block.sent + 1 == block.total && !block.end_emitted;
        let mut cell: Option<Vec<u8>> = Some(packet.clone());
        let ghost places = block.packets@;
        block.packets.set_and_swap(at, &mut cell);
        proof {
            assert(packets_view(block.packets@) =~= b.packets.update(at as int, Some(packet@)));
            assert(b.place(at as nat, packet@).packets == block@.packets);
            assert(b.place(at as nat, packet@).all_cached() == block@.all_cached());
        }
        if ends && !block.all_cached() {
            block.packets.set_and_swap(at, &mut cell);
            proof {
                assert(block.packets@ =~= places);
            }
            self.blocks.insert(block_id, BlockSlot::Open(block));
            proof {
                assert(self@.blocks =~= before.blocks);
            }
            return Err(SendFault::IncompleteBlock);
        }
        let ghost taken = out@;
        out.push(SendAction::Data(packet));
        self.packets_sent = self.packets_sent + 1;
        self.bytes_sent = self.bytes_sent + bytes;
        if report {
            out.push(SendAction::Progress(self.bytes_sent));
            self.next_print = self.next_print + PROGRESS_STEP;
        }
        block.sent = block.sent + 1;
        if ends {
            out.push(SendAction::BlockEnd(BlockEndPacket::encode(block_id, block.total as u32)));
            block.end_emitted = true;
        }
        self.blocks.insert(block_id, BlockSlot::Open(block));
        proof {
            assert(block@ =~= b.place(at as nat, packet@));
            assert(self@.blocks =~= before.place(chunk@).blocks);
            assert(actions_view(out@) =~= actions_view(taken) + before.place_actions(chunk@));
            lemma_place_keeps_wf(before, chunk@);
        }
        Ok(())
    }

    /// Takes in a chunk: places it, lets it wait, or drops it, depending on
    /// where its block stands.
    pub fn admit_or_buffer(&mut self, chunk: EncryptedChunk, out: &mut Vec<SendAction>) -> (r: Result<
        (),
        SendFault,
    >)
        requires
            old(self)@.wf(),
        ensures
            Run::from(old(self)@, old(out)@).accept(chunk@).ends_as(
                final(self)@,
                final(out)@,
                fault_of(r),
            ),
            final(self)@.wf(),
    {
        let ghost before = self@;
        let (block_id, _) = block_of(chunk.chunk_id);
        match self.blocks.remove(&block_id) {
            Some(BlockSlot::Resolved) => {
                self.blocks.insert(block_id, BlockSlot::Resolved);
                proof {
                    assert(before.blocks.contains_key(block_id));
                    assert(self@.blocks =~= before.blocks);
                }
                Ok(())
            },
            Some(BlockSlot::Open(block)) => {
                self.blocks.insert(block_id, BlockSlot::Open(block));
                proof {
                    assert(before.blocks.contains_key(block_id));
                    assert(self@.blocks =~= before.blocks);
                }
                self.place_chunk(chunk, out)
            },
            Some(BlockSlot::Pending(mut bucket)) => {
                let ghost waiting = chunks_view(bucket@);
                bucket.push(chunk);
                self.blocks.insert(block_id, BlockSlot::Pending(bucket));
                proof {
                    assert(before.blocks.contains_key(block_id));
                    assert(before.slot_ok(block_id));
                    assert(chunks_view(bucket@) =~= waiting.push(chunk@));
                    assert(self@.blocks =~= before.blocks.insert(
                        block_id,
                        SlotView::Pending(waiting.push(chunk@)),
                    ));
                    lemma_wait_keeps_wf(before, block_id, waiting.push(chunk@));
                }
                Ok(())
            },
            None => {
                proof {
                    assert(!before.blocks.contains_key(block_id));
                }
                if self.open_slots < self.pipeline_depth {
                    self.open_block(block_id);
                    proof {
                        assert(self@.blocks =~= before.opened(block_id).blocks);
                        lemma_opened_keeps_wf(before, block_id);
                    }
                    self.place_chunk(chunk, out)
                } else {
                    let mut bucket: Vec<EncryptedChunk> = Vec::new();
                    bucket.push(chunk);
                    self.blocks.insert(block_id, BlockSlot::Pending(bucket));
                    proof {
                        assert(chunks_view(bucket@) =~= seq![chunk@]);
                        assert(self@.blocks =~= before.blocks.insert(
                            block_id,
                            SlotView::Pending(seq![chunk@]),
                        ));
                        lemma_wait_keeps_wf(before, block_id, seq![chunk@]);
                    }
                    Ok(())
                }
            },
        }
    }

    /// Opens a block that has no slot.
    fn open_block(&mut self, block_id: u32)
        requires
            !old(self)@.blocks.contains_key(block_id),
            old(self)@.open_slots < old(self)@.pipeline_depth,
        ensures
            final(self)@ == old(self)@.opened(block_id),
    {
        let total: usize = packets_in_block(block_id, self.total_chunks);
        self.blocks.insert(block_id, BlockSlot::Open(BlockState::new(total)));
        self.open_slots = self.open_slots + 1;
        proof {
            assert(self@.blocks =~= old(self)@.opened(block_id).blocks);
        }
    }

    /// The waiting block with the smallest id.
    fn first_pending_id(&self) -> (r: Option<u32>)
        ensures
            r == first_pending(self@.blocks),
            r matches Some(id) ==> is_first_pending(self@.blocks, id),
    {
        let mut best: Option<u32> = None;
        let ghost blocks = self@.blocks;
        for (id, slot) in it: self.blocks.iter()
            invariant
                blocks == self@.blocks,
                best matches Some(b) ==> is_pending(blocks, b),
                forall|i: int|
                    0 <= i < it.index() && is_pending(blocks, *(#[trigger] it.seq()[i]).0) ==> {
                        &&& best is Some
                        &&& best->0 <= *it.seq()[i].0
                    },
        {
            proof {
                assert(self.blocks@.contains_key(*id) && self.blocks@[*id] == *slot);
            }
            if let BlockSlot::Pending(_) = slot {
                best = match best {
                    Some(b) if b <= *id => Some(b),
                    _ => Some(*id),
                };
            }
        }
        proof {
            assert forall|id: u32| #[trigger] is_pending(blocks, id) implies best is Some && best->0
                <= id by {
                assert(self.blocks@.contains_key(id));
            }
            match best {
                Some(b) => lemma_first_pending(blocks, b),
                None => {
                    assert forall|id: u32| !is_first_pending(blocks, id) by {
                        if is_first_pending(blocks, id) {
                            assert(is_pending(blocks, id));
                        }
                    }
                },
            }
        }
        best
    }

    /// Opens waiting blocks in ascending order of their ids for as long as the
    /// pipeline has room, and places the chunks that waited for them.
    pub fn drain_pending(&mut self, out: &mut Vec<SendAction>) -> (r: Result<(), SendFault>)
        requires
            old(self)@.wf(),
        ensures
            Run::from(old(self)@, old(out)@).drain().ends_as(
                final(self)@,
                final(out)@,
                fault_of(r),
            ),
            final(self)@.wf(),
    {
        let ghost start = Run::from(self@, out@);
        while self.open_slots < self.pipeline_depth
            invariant
                self@.wf(),
                start == Run::from(old(self)@, old(out)@),
                start.drain() == Run::from(self@, out@).drain(),
            decreases self@.pipeline_depth - self@.open_slots,
        {
            let ghost before = self@;
            let ghost run = Run::from(self@, out@);
            let Some(block_id) = self.first_pending_id() else {
                return Ok(());
            };
            proof {
                assert(is_pending(before.blocks, block_id));
                assert(before.slot_ok(block_id));
            }
            let bucket = match self.blocks.remove(&block_id) {
                Some(BlockSlot::Pending(bucket)) => bucket,
                _ => {
                    proof {
                        assert(false);
                    }
                    return Ok(());
                },
            };
            let ghost chunks = chunks_view(bucket@);
            self.open_block(block_id);
            let ghost opened = run.opened(block_id);
            proof {
                assert(self@.blocks =~= before.opened(block_id).blocks);
                lemma_opened_keeps_wf(before, block_id);
                assert(chunks.take(0) =~= Seq::empty());
                assert(run.open_pending(block_id) == opened.place_all(chunks));
            }
            for chunk in it: bucket
                invariant
                    chunks == chunks_view(it.seq()),
                    opened.m.wf(),
                    is_open(opened.m.blocks, block_id),
                    forall|i: int| 0 <= i < chunks.len() ==> home(#[trigger] chunks[i]) == block_id,
                    Run::from(self@, out@) == opened.place_all(chunks.take(it.index() as int)),
                    start == Run::from(old(self)@, old(out)@),
                    start.drain() == run.drain(),
                    run.drain() == opened.place_all(chunks).drain_up_to(
                        (run.m.pipeline_depth - run.m.open_slots - 1) as nat,
                    ),
            {
                let ghost n = it.index() as int;
                proof {
                    lemma_place_all(opened, block_id, chunks.take(n));
                    assert(chunks.take(n + 1).drop_last() =~= chunks.take(n));
                    assert(chunks[n] == chunk@);
                }
                let r = self.place_chunk(chunk, out);
                if r.is_err() {
                    proof {
                        lemma_place_all_stops(opened, chunks, n + 1);
                        lemma_place_all(opened, block_id, chunks);
                    }
                    return r;
                }
            }
            proof {
                assert(chunks.take(chunks.len() as int) =~= chunks);
                lemma_place_all(opened, block_id, chunks);
            }
        }
        Ok(())
    }

    /// Resolves a block, wherever it stands.
    pub fn on_complete(&mut self, block_id: u32) -> (prior: Prior)
        requires
            old(self)@.wf(),
            !old(self)@.finished(),
        ensures
            final(self)@ == old(self)@.resolve(block_id),
            prior == old(self)@.prior(block_id),
            final(self)@.wf(),
    {
        let ghost before = self@;
        proof {
            lemma_resolve_keeps_wf(before, block_id);
        }
        let prior = match self.blocks.get(&block_id) {
            Some(BlockSlot::Resolved) => Prior::AlreadyResolved,
            Some(BlockSlot::Open(_)) => Prior::WasOpen,
            Some(BlockSlot::Pending(bucket)) => Prior::WasPending(bucket.len()),
            None => Prior::Unseen,
        };
        match prior {
            Prior::AlreadyResolved => {},
            _ => {
                self.blocks.insert(block_id, BlockSlot::Resolved);
                self.completed = self.completed + 1;
                if let Prior::WasOpen = prior {
                    self.open_slots = self.open_slots - 1;
                }
                proof {
                    assert(self@.blocks =~= before.blocks.insert(block_id, SlotView::Resolved));
                }
            },
        }
        prior
    }

    /// The datagrams of the packets that an open block is missing, as far as
    /// they have been sent once.  Any other block has nothing to resend.
    pub fn resend(&self, block_id: u32, missing: &[u16]) -> (r: Vec<Vec<u8>>)
        ensures
            datagrams_view(r@) == self@.resend(block_id, missing@),
    {
        match self.blocks.get(&block_id) {
            Some(BlockSlot::Open(block)) => collect_cached(&block.packets, missing),
            _ => {
                let r: Vec<Vec<u8>> = Vec::new();
                proof {
                    assert(datagrams_view(r@) =~= Seq::empty());
                }
                r
            },
        }
    }

    /// Counts datagrams that were sent again.
    pub fn note_retransmitted(&mut self, count: u64)
        requires
            old(self)@.retransmitted + count <= u64::MAX,
        ensures
            final(self)@ == (ManagerView {
                retransmitted: old(self)@.retransmitted + count as nat,
                ..old(self)@
            }),
    {
        self.retransmitted = self.retransmitted + count;
    }

    /// Takes in one event.
    pub fn handle(&mut self, event: SenderEvent, out: &mut Vec<SendAction>) -> (r: Result<
        EventReply,
        SendFault,
    >)
        requires
            old(self)@.wf(),
            !old(self)@.finished(),
        ensures
            Run::from(old(self)@, old(out)@).event(event).ends_as(
                final(self)@,
                final(out)@,
                fault_of(r),
            ),
            r matches Ok(reply) ==> reply == old(self)@.reply(event),
            final(self)@.wf(),
    {
        match event {
            SenderEvent::Chunk(chunk) => match self.admit_or_buffer(chunk, out) {
                Ok(()) => Ok(EventReply::Taken),
                Err(fault) => Err(fault),
            },
            SenderEvent::Ack(BlockAck::Missing { block_id, missing }) => {
                let datagrams = self.resend(block_id, missing.as_slice());
                let n: usize = datagrams.len();
                push_resends(out, datagrams);
                Ok(EventReply::Resent(n))
            },
            SenderEvent::Ack(BlockAck::Complete { block_id }) => {
                Ok(EventReply::Resolved(self.on_complete(block_id)))
            },
        }
    }

    /// Does all there is to do until the next event must be waited for, and
    /// says how the work goes on and what became of the event, if there was
    /// one.  Waiting blocks are opened before every wait, so none is left
    /// behind that could have been opened.
    pub fn advance(&mut self, input: Input, out: &mut Vec<SendAction>) -> (r: Result<
        (Status, Option<EventReply>),
        SendFault,
    >)
        requires
            old(self)@.wf(),
            input is Event ==> !old(self)@.finished(),
        ensures
            Run::from(old(self)@, old(out)@).advance(input).ends_as(
                final(self)@,
                final(out)@,
                fault_of(r),
            ),
            r matches Ok((status, reply)) ==> {
                &&& status == final(self)@.status(input is Closed)
                &&& reply == match input {
                    Input::Event(event) => Some(old(self)@.reply(event)),
                    _ => None,
                }
            },
            final(self)@.wf(),
    {
        let (closed, reply): (bool, Option<EventReply>) = match input {
            Input::Begin => (false, None),
            Input::Closed => (true, None),
            Input::Event(event) => match self.handle(event, out) {
                Ok(reply) => (false, Some(reply)),
                Err(fault) => {
                    return Err(fault);
                },
            },
        };
        match self.drain_pending(out) {
            Ok(()) => {},
            Err(fault) => {
                return Err(fault);
            },
        }
        let status = if self.completed >= self.total_blocks {
            Status::Finished
        } else if closed {
            Status::Lost(self.lost_report())
        } else {
            Status::Waiting
        };
        Ok((status, reply))
    }

    /// What is left undone.
    pub fn lost_report(&self) -> (r: LostReport)
        requires
            self@.wf(),
            !self@.finished(),
        ensures
            r == self@.lost(),
    {
        let ids = self.pending_block_ids();
        let stuck_pending: u128 = self.count_waiting(&ids);
        proof {
            ids@.unique_seq_to_set();
        }
        LostReport {
            unresolved: self.total_blocks - self.completed,
            total_blocks: self.total_blocks,
            open_slots: self.open_slots,
            stuck_pending,
            stuck_pending_blocks: ids.len(),
        }
    }

    /// The number of chunks that wait at the blocks `ids`.
    fn count_waiting(&self, ids: &Vec<u32>) -> (n: u128)
        requires
            ids@.no_duplicates(),
            ids@.to_set() == pending_ids(self@.blocks),
        ensures
            n == waiting_at(self@.blocks, pending_ids(self@.blocks)),
    {
        let ghost blocks = self@.blocks;
        let ghost f = |n: nat, id: u32| n + blocks[id]->Pending_0.len();
        let mut n: u128 = 0;
        let mut i: usize = 0;
        proof {
            assert(ids@.take(0).to_set() =~= Set::empty());
            vstd::set::fold::lemma_fold_empty(0nat, f);
        }
        while i < ids.len()
            invariant
                i <= ids@.len(),
                ids@.no_duplicates(),
                blocks == self@.blocks,
                f == (|n: nat, id: u32| n + blocks[id]->Pending_0.len()),
                ids@.to_set() == pending_ids(blocks),
                n == waiting_at(blocks, ids@.take(i as int).to_set()),
                n <= i * usize::MAX,
            decreases ids@.len() - i,
        {
            let id: u32 = ids[i];
            let ghost seen = ids@.take(i as int).to_set();
            proof {
                assert(ids@.to_set().contains(id));
                assert(pending_ids(blocks).contains(id));
                assert(self.blocks@.contains_key(id));
                assert(!seen.contains(id));
                lemma_take_succ_contains(ids@, i as int);
                assert(ids@.take(i + 1).to_set() =~= seen.insert(id));
                vstd::set::fold::lemma_fold_insert(seen, 0nat, f, id);
                assert((i + 1) * usize::MAX == i * usize::MAX + usize::MAX) by (nonlinear_arith);
                assert(i * usize::MAX <= usize::MAX * usize::MAX) by (nonlinear_arith)
                    requires
                        i <= usize::MAX,
                ;
                assert(usize::MAX * usize::MAX + usize::MAX <= u128::MAX) by (nonlinear_arith)
                    requires
                        usize::MAX <= 0xffff_ffff_ffff_ffff,
                ;
            }
            if let Some(BlockSlot::Pending(bucket)) = self.blocks.get(&id) {
                n = n + bucket.len() as u128;
            }
            i = i + 1;
        }
        proof {
            assert(ids@.take(i as int) =~= ids@);
        }
        n
    }

    /// The ids of the waiting blocks, in any order.
    pub fn pending_block_ids(&self) -> (ids: Vec<u32>)
        ensures
            ids@.no_duplicates(),
            ids@.to_set() == pending_ids(self@.blocks),
    {
        let keys = key_list(&self.blocks);
        let mut ids: Vec<u32> = Vec::new();
        let mut i: usize = 0;
        while i < keys.len()
            invariant
                i <= keys@.len(),
                keys@.no_duplicates(),
                keys@.to_set() == self.blocks@.dom(),
                ids@.no_duplicates(),
                forall|k: u32| #[trigger]
                    ids@.contains(k) <==> keys@.take(i as int).contains(k) && self@.blocks[k] is Pending,
            decreases keys@.len() - i,
        {
            let id: u32 = keys[i];
            let ghost before = ids@;
            proof {
                assert(keys@.to_set().contains(id));
                lemma_take_succ_contains(keys@, i as int);
            }
            if let Some(BlockSlot::Pending(_)) = self.blocks.get(&id) {
                ids.push(id);
                proof {
                    lemma_push_contains(before, id);
                }
            }
            i = i + 1;
        }
        proof {
            assert(keys@.take(i as int) =~= keys@);
            assert(ids@.to_set() =~= pending_ids(self@.blocks)) by {
                assert forall|k: u32| ids@.contains(k) <==> pending_ids(self@.blocks).contains(
                    k,
                ) by {
                    assert(keys@.contains(k) == keys@.to_set().contains(k));
                }
            }
        }
        ids
    }

    /// The ids of the open blocks, in any order.
    pub fn open_block_ids(&self) -> (ids: Vec<u32>)
        ensures
            ids@.no_duplicates(),
            ids@.to_set() == open_ids(self@.blocks),
    {
        let keys = key_list(&self.blocks);
        let mut ids: Vec<u32> = Vec::new();
        let mut i: usize = 0;
        while i < keys.len()
            invariant
                i <= keys@.len(),
                keys@.no_duplicates(),
                keys@.to_set() == self.blocks@.dom(),
                ids@.no_duplicates(),
                forall|k: u32| #[trigger]
                    ids@.contains(k) <==> keys@.take(i as int).contains(k) && self@.blocks[k] is Open,
            decreases keys@.len() - i,
        {
            let id: u32 = keys[i];
            let ghost before = ids@;
            proof {
                assert(keys@.to_set().contains(id));
                lemma_take_succ_contains(keys@, i as int);
            }
            if let Some(BlockSlot::Open(_)) = self.blocks.get(&id) {
                ids.push(id);
                proof {
                    lemma_push_contains(before, id);
                }
            }
            i = i + 1;
        }
        proof {
            assert(keys@.take(i as int) =~= keys@);
            assert(ids@.to_set() =~= open_ids(self@.blocks)) by {
                assert forall|k: u32| ids@.contains(k) <==> open_ids(self@.blocks).contains(k) by {
                    assert(keys@.contains(k) == keys@.to_set().contains(k));
                }
            }
        }
        ids
    }

    /// Whether every block of the file has been resolved.
    pub fn is_finished(&self) -> (r: bool)
        ensures
            r == self@.finished(),
    {
        self.completed >= self.total_blocks
    }

    /// The number of resolved blocks.
    pub fn completed(&self) -> (n: u32)
        ensures
            n == self@.completed,
    {
        self.completed
    }

    /// The number of open blocks.
    pub fn open_slots(&self) -> (n: usize)
        ensures
            n == self@.open_slots,
    {
        self.open_slots
    }

    /// The number of file bytes that have been sent.
    pub fn bytes_sent(&self) -> (n: u64)
        ensures
            n == self@.bytes_sent,
    {
        self.bytes_sent
    }

    /// The number of packets that have been sent, retransmissions not counted.
    pub fn packets_sent(&self) -> (n: u64)
        ensures
            n == self@.packets_sent,
    {
        self.packets_sent
    }

    /// The number of packets that have been sent again.
    pub fn retransmitted(&self) -> (n: u64)
        ensures
            n == self@.retransmitted,
    {
        self.retransmitted
    }
}

/// Appends the actions that send datagrams again.
fn push_resends(out: &mut Vec<SendAction>, datagrams: Vec<Vec<u8>>)
    ensures
        actions_view(final(out)@) == actions_view(old(out)@) + resend_actions(
            datagrams_view(datagrams@),
        ),
{
    let ghost all = resend_actions(datagrams_view(datagrams@));
    let ghost before = actions_view(out@);
    proof {
        assert(actions_view(out@) =~= before + all.take(0));
        assert(all.take(all.len() as int) =~= all);
    }
    for datagram in it: datagrams
        invariant
            all == resend_actions(datagrams_view(it.seq())),
            actions_view(out@) == before + all.take(it.index() as int),
            it.index() == it.seq().len() ==> actions_view(out@) == before + all,
    {
        let ghost taken = out@;
        out.push(SendAction::Resend(datagram));
        proof {
            assert(actions_view(out@) =~= actions_view(taken).push(ActionView::Resend(datagram@)));
            assert(actions_view(out@) =~= before + all.take(it.index() + 1));
            assert(all.take(all.len() as int) =~= all);
        }
    }
}

} // verus!
