//! What holds of the sender's scheduler whatever events reach it, and in
//! whatever order.

use vstd::prelude::*;
#[allow(unused_imports)]
use vstd::set_lib::{lemma_int_range, lemma_len_subset, lemma_subset_equality, set_int_range};
#[allow(unused_imports)]
use crate::config::PACKETS_PER_BLOCK;
#[allow(unused_imports)]
use crate::maps::lemma_ids_below;
#[allow(unused_imports)]
use crate::pipeline::EncryptedChunkView;
#[allow(unused_imports)]
use crate::protocol::{block_end_bytes, block_end_of, law_block_end_round_trip, BlockAck};
#[allow(unused_imports)]
use crate::sender::{
    actions_view, fault_of, first_pending, home, is_first_pending, is_open, is_pending,
    lemma_opened_keeps_wf, lemma_place_all, lemma_place_keeps_wf, lemma_resolve_keeps_wf,
    lemma_wait_keeps_wf, open_ids, pending_ids, place_of, resend_actions, resolved_ids, waiting_at,
    ActionView, BlockView, EventReply, Input, ManagerView, Prior, Run, SendAction, SendFault,
    SenderEvent, SlotView, Status,
};
#[allow(unused_imports)]
use crate::transport::{
    block_index, block_len, chunk_index, law_all_requested_packets_are_served,
    law_block_chunk_inverse, law_blocks_are_cut_at_multiples, law_cached_packet_is_served,
    law_place_exists, law_requests_are_served_id_by_id,
};

verus! {

// ---------------------------------------------------------------------------
// Histories
// ---------------------------------------------------------------------------

/// One thing that can happen to a scheduler.
pub enum Step {
    /// A chunk comes in.
    Chunk(EncryptedChunkView),
    /// Waiting blocks are opened.
    Drain,
    /// Packets of a block are reported as missing.
    Missing(u32, Seq<u16>),
    /// A block is reported as complete.
    Resolve(u32),
}

impl Run {
    /// The run after one more step.  A fault ends it for good.
    pub open spec fn step(self, step: Step) -> Run {
        if self.fault is Some {
            self
        } else {
            match step {
                Step::Chunk(chunk) => self.accept(chunk),
                Step::Drain => self.drain(),
                Step::Missing(id, missing) => self.resent(id, missing),
                Step::Resolve(id) => self.resolved(id),
            }
        }
    }

    /// The run after a history of steps.
    pub open spec fn after(self, steps: Seq<Step>) -> Run
        decreases steps.len(),
    {
        if steps.len() == 0 {
            self
        } else {
            self.after(steps.drop_last()).step(steps.last())
        }
    }
}

/// The steps that an input leads to.
pub open spec fn steps_of(input: Input) -> Seq<Step> {
    match input {
        Input::Event(SenderEvent::Chunk(chunk)) => seq![Step::Chunk(chunk@), Step::Drain],
        Input::Event(SenderEvent::Ack(BlockAck::Missing { block_id, missing })) => seq![
            Step::Missing(block_id, missing@),
            Step::Drain,
        ],
        Input::Event(SenderEvent::Ack(BlockAck::Complete { block_id })) => seq![
            Step::Resolve(block_id),
            Step::Drain,
        ],
        _ => seq![Step::Drain],
    }
}

/// What the scheduler does with an input are the steps of that input, so that
/// all that holds of histories of steps holds of the scheduler at work.
pub proof fn law_inputs_are_steps(run: Run, input: Input)
    requires
        run.fault is None,
    ensures
        run.advance(input) == run.after(steps_of(input)),
{
    let steps = steps_of(input);
    reveal_with_fuel(Run::after, 3);
    if steps.len() == 2 {
        assert(steps.drop_last() =~= seq![steps[0]]);
        assert(seq![steps[0]].drop_last() =~= Seq::empty());
        let mid = run.step(steps[0]);
        assert(mid.fault is Some ==> mid.drain() == mid);
    } else {
        assert(steps.drop_last() =~= Seq::empty());
    }
}

/// A scheduler for a file of `total_chunks` chunks before its first step.
pub open spec fn fresh_run(total_chunks: nat, pipeline_depth: nat, total_blocks: nat) -> Run {
    Run {
        m: ManagerView::start(total_chunks, pipeline_depth, total_blocks),
        out: Seq::empty(),
        fault: None,
    }
}

/// Block `id` is resolved.
pub open spec fn is_resolved(blocks: Map<u32, SlotView>, id: u32) -> bool {
    blocks.contains_key(id) && blocks[id] is Resolved
}

/// The place of a chunk in its open block holds a packet.
pub open spec fn is_cached(blocks: Map<u32, SlotView>, chunk: EncryptedChunkView) -> bool {
    &&& is_open(blocks, home(chunk))
    &&& place_of(chunk) < (blocks[home(chunk)]->Open_0).packets.len()
    &&& (blocks[home(chunk)]->Open_0).packets[place_of(chunk) as int] is Some
}

/// The chunk waits for its block to be opened.
pub open spec fn is_waiting(blocks: Map<u32, SlotView>, chunk: EncryptedChunkView) -> bool {
    is_pending(blocks, home(chunk)) && (blocks[home(chunk)]->Pending_0).contains(chunk)
}

/// The scheduler has a chunk in hand: its packet is cached, or it waits, or
/// its block is resolved and nobody needs it any more.
pub open spec fn is_kept(blocks: Map<u32, SlotView>, chunk: EncryptedChunkView) -> bool {
    is_cached(blocks, chunk) || is_waiting(blocks, chunk) || is_resolved(blocks, home(chunk))
}

/// What no step takes away: the parameters, the actions asked for so far, the
/// resolved blocks and, as long as there is no fault, the chunks.
pub open spec fn grows_into(run: Run, later: Run) -> bool {
    &&& later.m.total_chunks == run.m.total_chunks
    &&& later.m.pipeline_depth == run.m.pipeline_depth
    &&& later.m.total_blocks == run.m.total_blocks
    &&& run.out.is_prefix_of(later.out)
    &&& run.fault is Some ==> later == run
    &&& forall|id: u32| #[trigger]
        is_resolved(run.m.blocks, id) ==> is_resolved(later.m.blocks, id)
    &&& later.fault is None ==> forall|chunk: EncryptedChunkView| #[trigger]
        is_kept(run.m.blocks, chunk) ==> is_kept(later.m.blocks, chunk)
}

proof fn lemma_grows_transitive(a: Run, b: Run, c: Run)
    requires
        grows_into(a, b),
        grows_into(b, c),
    ensures
        grows_into(a, c),
{
    assert(a.out.is_prefix_of(c.out));
}

proof fn lemma_place_grows(run: Run, chunk: EncryptedChunkView)
    requires
        run.m.wf(),
        is_open(run.m.blocks, home(chunk)),
    ensures
        grows_into(run, run.place(chunk)),
        run.place(chunk).fault is None ==> is_cached(run.place(chunk).m.blocks, chunk),
{
    assert(run.m.blocks.contains_key(home(chunk)));
    assert(run.m.slot_ok(home(chunk)));
    let later = run.place(chunk);
    if later.fault is None {
        assert forall|other: EncryptedChunkView| #[trigger]
            is_kept(run.m.blocks, other) implies is_kept(later.m.blocks, other) by {}
    }
}

proof fn lemma_place_all_grows(run: Run, id: u32, chunks: Seq<EncryptedChunkView>)
    requires
        run.m.wf(),
        is_open(run.m.blocks, id),
        forall|i: int| 0 <= i < chunks.len() ==> home(#[trigger] chunks[i]) == id,
    ensures
        grows_into(run, run.place_all(chunks)),
        run.place_all(chunks).fault is None ==> forall|i: int|
            0 <= i < chunks.len() ==> is_cached(
                run.place_all(chunks).m.blocks,
                #[trigger] chunks[i],
            ),
    decreases chunks.len(),
{
    if chunks.len() > 0 {
        let init = chunks.drop_last();
        assert(forall|i: int| 0 <= i < init.len() ==> #[trigger] init[i] == chunks[i]);
        lemma_place_all(run, id, init);
        lemma_place_all_grows(run, id, init);
        let mid = run.place_all(init);
        assert(home(chunks.last()) == id);
        lemma_place_grows(mid, chunks.last());
        lemma_grows_transitive(run, mid, run.place_all(chunks));
        let later = run.place_all(chunks);
        if later.fault is None {
            assert forall|i: int| 0 <= i < chunks.len() implies is_cached(
                later.m.blocks,
                #[trigger] chunks[i],
            ) by {
                if i < init.len() {
                    assert(is_cached(mid.m.blocks, init[i]));
                    assert(is_kept(mid.m.blocks, chunks[i]));
                    assert(is_kept(later.m.blocks, chunks[i]));
                }
            }
        }
    }
}

pub(crate) proof fn lemma_open_pending_grows(run: Run, id: u32)
    requires
        run.m.wf(),
        run.m.open_slots < run.m.pipeline_depth,
        run.fault is None,
        is_pending(run.m.blocks, id),
    ensures
        grows_into(run, run.open_pending(id)),
        run.open_pending(id).m.wf(),
        run.open_pending(id).m.open_slots == run.m.open_slots + 1,
        run.open_pending(id).m.pipeline_depth == run.m.pipeline_depth,
        is_open(run.open_pending(id).m.blocks, id),
        run.open_pending(id).m.blocks.remove(id) == run.m.blocks.remove(id),
{
    let opened = run.opened(id);
    let chunks = run.m.blocks[id]->Pending_0;
    let later = run.open_pending(id);
    assert(run.m.slot_ok(id));
    lemma_opened_keeps_wf(run.m, id);
    lemma_place_all(opened, id, chunks);
    lemma_place_all_grows(opened, id, chunks);
    assert(opened.m.blocks.remove(id) =~= run.m.blocks.remove(id));
    let rest = run.m.blocks.remove(id);
    assert(forall|other: u32|
        other != id ==> (#[trigger] run.m.blocks.contains_key(other) == rest.contains_key(other)));
    assert(forall|other: u32|
        other != id ==> (#[trigger] later.m.blocks.contains_key(other) == rest.contains_key(
            other,
        )));
    assert forall|other: u32| other != id && run.m.blocks.contains_key(other) implies
        later.m.blocks[other] == #[trigger] run.m.blocks[other] by {
        assert(rest[other] == run.m.blocks[other]);
        assert(later.m.blocks.remove(id)[other] == later.m.blocks[other]);
    }
    if later.fault is None {
        assert forall|chunk: EncryptedChunkView| #[trigger]
            is_kept(run.m.blocks, chunk) implies is_kept(later.m.blocks, chunk) by {
            if home(chunk) == id {
                let i = chunks.index_of(chunk);
                assert(chunks[i] == chunk);
            } else {
                assert(later.m.blocks[home(chunk)] == run.m.blocks[home(chunk)]);
            }
        }
    }
}

proof fn lemma_drain_up_to_grows(run: Run, slots: nat)
    requires
        run.m.wf(),
        run.m.open_slots + slots <= run.m.pipeline_depth,
    ensures
        grows_into(run, run.drain_up_to(slots)),
        run.drain_up_to(slots).m.wf(),
    decreases slots,
{
    if slots > 0 && run.fault is None {
        if let Some(id) = first_pending(run.m.blocks) {
            assert(is_first_pending(run.m.blocks, id));
            lemma_open_pending_grows(run, id);
            let next = run.open_pending(id);
            lemma_drain_up_to_grows(next, (slots - 1) as nat);
            lemma_grows_transitive(run, next, run.drain_up_to(slots));
        }
    }
}

/// One step keeps the invariant and takes nothing away.
proof fn lemma_step(run: Run, step: Step)
    requires
        run.m.wf(),
    ensures
        grows_into(run, run.step(step)),
        run.step(step).m.wf(),
{
    if run.fault is None {
        match step {
            Step::Chunk(chunk) => {
                let id = home(chunk);
                if !run.m.blocks.contains_key(id) {
                    if run.m.open_slots < run.m.pipeline_depth {
                        lemma_opened_keeps_wf(run.m, id);
                        let opened = run.opened(id);
                        assert(grows_into(run, opened));
                        lemma_place_grows(opened, chunk);
                        lemma_grows_transitive(run, opened, opened.place(chunk));
                        if opened.m.place_fault(chunk) is None {
                            lemma_place_keeps_wf(opened.m, chunk);
                        }
                    } else {
                        lemma_wait_keeps_wf(run.m, id, seq![chunk]);
                    }
                } else {
                    assert(run.m.slot_ok(id));
                    match run.m.blocks[id] {
                        SlotView::Resolved => {},
                        SlotView::Open(_) => {
                            lemma_place_grows(run, chunk);
                            if run.m.place_fault(chunk) is None {
                                lemma_place_keeps_wf(run.m, chunk);
                            }
                        },
                        SlotView::Pending(chunks) => {
                            lemma_wait_keeps_wf(run.m, id, chunks.push(chunk));
                            let later = run.step(step);
                            assert forall|other: EncryptedChunkView| #[trigger]
                                is_kept(run.m.blocks, other) implies is_kept(
                                later.m.blocks,
                                other,
                            ) by {
                                if home(other) == id {
                                    let i = chunks.index_of(other);
                                    assert(chunks.push(chunk)[i] == other);
                                }
                            }
                        },
                    }
                }
            },
            Step::Drain => {
                if run.m.open_slots < run.m.pipeline_depth {
                    lemma_drain_up_to_grows(
                        run,
                        (run.m.pipeline_depth - run.m.open_slots) as nat,
                    );
                }
            },
            Step::Missing(_, _) => {},
            Step::Resolve(id) => {
                lemma_resolve_keeps_wf(run.m, id);
            },
        }
    }
}

/// Whatever happens to a scheduler, its invariant holds: above all, never more
/// blocks than `pipeline_depth` are open, and the count of completed blocks is
/// the number of distinct blocks that were resolved.
pub proof fn law_invariant_holds(
    total_chunks: nat,
    pipeline_depth: nat,
    total_blocks: nat,
    steps: Seq<Step>,
)
    ensures
        ({
            let m = fresh_run(total_chunks, pipeline_depth, total_blocks).after(steps).m;
            &&& m.wf()
            &&& m.pipeline_depth == pipeline_depth
            &&& m.open_slots == open_ids(m.blocks).len() <= pipeline_depth
            &&& m.completed == resolved_ids(m.blocks).len()
        }),
    decreases steps.len(),
{
    let start = fresh_run(total_chunks, pipeline_depth, total_blocks);
    if steps.len() == 0 {
        assert(open_ids(start.m.blocks) =~= Set::empty());
        assert(resolved_ids(start.m.blocks) =~= Set::empty());
    } else {
        law_invariant_holds(total_chunks, pipeline_depth, total_blocks, steps.drop_last());
        lemma_step(start.after(steps.drop_last()), steps.last());
    }
}

/// Nothing that happens later takes back an action, reopens a resolved block
/// or, short of a fault, loses a chunk.
pub proof fn law_nothing_is_taken_back(run: Run, steps: Seq<Step>)
    requires
        run.m.wf(),
    ensures
        grows_into(run, run.after(steps)),
        run.after(steps).m.wf(),
    decreases steps.len(),
{
    if steps.len() > 0 {
        law_nothing_is_taken_back(run, steps.drop_last());
        let mid = run.after(steps.drop_last());
        lemma_step(mid, steps.last());
        lemma_grows_transitive(run, mid, run.after(steps));
    }
}

/// A chunk that came in without a fault is cached, or waits, or its block is
/// resolved, and so it stays, whatever happens later without a fault.
pub proof fn law_chunks_are_kept(run: Run, chunk: EncryptedChunkView, steps: Seq<Step>)
    requires
        run.m.wf(),
        run.fault is None,
        run.step(Step::Chunk(chunk)).after(steps).fault is None,
    ensures
        is_kept(run.step(Step::Chunk(chunk)).m.blocks, chunk),
        is_kept(run.step(Step::Chunk(chunk)).after(steps).m.blocks, chunk),
{
    let next = run.step(Step::Chunk(chunk));
    lemma_step(run, Step::Chunk(chunk));
    law_nothing_is_taken_back(next, steps);
    assert(next.fault is None);
    let id = home(chunk);
    if !run.m.blocks.contains_key(id) {
        if run.m.open_slots < run.m.pipeline_depth {
            lemma_opened_keeps_wf(run.m, id);
            lemma_place_grows(run.opened(id), chunk);
        } else {
            assert(seq![chunk][0] == chunk);
            assert(is_waiting(next.m.blocks, chunk));
        }
    } else {
        match run.m.blocks[id] {
            SlotView::Resolved => {},
            SlotView::Open(_) => lemma_place_grows(run, chunk),
            SlotView::Pending(chunks) => {
                assert(chunks.push(chunk)[chunks.len() as int] == chunk);
                assert(is_waiting(next.m.blocks, chunk));
            },
        }
    }
    assert(is_kept(next.m.blocks, chunk));
}

// ---------------------------------------------------------------------------
// Opening waiting blocks
// ---------------------------------------------------------------------------

proof fn lemma_some_block_is_first(blocks: Map<u32, SlotView>, id: u32)
    requires
        is_pending(blocks, id),
    ensures
        first_pending(blocks) is Some,
    decreases id,
{
    if exists|other: u32| is_pending(blocks, other) && other < id {
        let other = choose|other: u32| is_pending(blocks, other) && other < id;
        lemma_some_block_is_first(blocks, other);
    } else {
        assert(is_first_pending(blocks, id));
    }
}

proof fn lemma_drain_up_to_fills(run: Run, slots: nat)
    requires
        run.m.wf(),
        run.m.open_slots + slots <= run.m.pipeline_depth,
        run.drain_up_to(slots).fault is None,
    ensures
        run.drain_up_to(slots).m.open_slots == run.m.open_slots + slots || forall|id: u32|
            !#[trigger] is_pending(run.drain_up_to(slots).m.blocks, id),
    decreases slots,
{
    if slots > 0 && run.fault is None {
        match first_pending(run.m.blocks) {
            Some(id) => {
                assert(is_first_pending(run.m.blocks, id));
                lemma_open_pending_grows(run, id);
                lemma_drain_up_to_fills(run.open_pending(id), (slots - 1) as nat);
            },
            None => {
                assert forall|id: u32| !#[trigger] is_pending(run.m.blocks, id) by {
                    if is_pending(run.m.blocks, id) {
                        lemma_some_block_is_first(run.m.blocks, id);
                    }
                }
            },
        }
    }
}

proof fn lemma_drain_up_to_in_order(run: Run, slots: nat, opened: u32, left: u32)
    requires
        run.m.wf(),
        run.m.open_slots + slots <= run.m.pipeline_depth,
        is_pending(run.drain_up_to(slots).m.blocks, left),
    ensures
        is_pending(run.m.blocks, left),
        is_pending(run.m.blocks, opened) && !is_pending(
            run.drain_up_to(slots).m.blocks,
            opened,
        ) ==> opened < left,
    decreases slots,
{
    if slots > 0 && run.fault is None {
        if let Some(id) = first_pending(run.m.blocks) {
            assert(is_first_pending(run.m.blocks, id));
            lemma_open_pending_grows(run, id);
            let next = run.open_pending(id);
            lemma_drain_up_to_in_order(next, (slots - 1) as nat, opened, left);
            let rest = run.m.blocks.remove(id);
            assert(next.m.blocks.remove(id).contains_key(left) == rest.contains_key(left));
            assert(next.m.blocks.remove(id)[left] == rest[left]);
            assert(is_pending(run.m.blocks, left));
            if is_pending(run.m.blocks, opened) && opened != id {
                assert(next.m.blocks.remove(id).contains_key(opened) == rest.contains_key(opened));
                assert(next.m.blocks.remove(id)[opened] == rest[opened]);
                assert(is_pending(next.m.blocks, opened));
            }
        }
    }
}

/// No room is left unused: once waiting blocks have been opened without a
/// fault, the pipeline is full or no block waits.
pub proof fn law_drain_leaves_no_room(run: Run)
    requires
        run.m.wf(),
        run.fault is None,
        run.drain().fault is None,
    ensures
        run.drain().m.open_slots == run.m.pipeline_depth || forall|id: u32|
            !#[trigger] is_pending(run.drain().m.blocks, id),
{
    if run.m.open_slots < run.m.pipeline_depth {
        lemma_drain_up_to_fills(run, (run.m.pipeline_depth - run.m.open_slots) as nat);
    }
}

/// The scheduler never waits for an event while a block could be opened.
pub proof fn law_no_room_is_left_while_waiting(run: Run, input: Input)
    requires
        run.m.wf(),
        run.fault is None,
        run.advance(input).fault is None,
    ensures
        ({
            let m = run.advance(input).m;
            m.open_slots == m.pipeline_depth || forall|id: u32|
                !#[trigger] is_pending(m.blocks, id)
        }),
{
    law_inputs_are_steps(run, input);
    law_nothing_is_taken_back(run, steps_of(input));
    match input {
        Input::Event(event) => {
            let mid = run.event(event);
            match event {
                SenderEvent::Chunk(chunk) => lemma_step(run, Step::Chunk(chunk@)),
                SenderEvent::Ack(BlockAck::Missing { block_id, missing }) => lemma_step(
                    run,
                    Step::Missing(block_id, missing@),
                ),
                SenderEvent::Ack(BlockAck::Complete { block_id }) => lemma_step(
                    run,
                    Step::Resolve(block_id),
                ),
            }
            if mid.fault is Some {
                assert(mid.drain() == mid);
            }
            law_drain_leaves_no_room(mid);
            lemma_step(mid, Step::Drain);
        },
        _ => {
            law_drain_leaves_no_room(run);
            lemma_step(run, Step::Drain);
        },
    }
}

/// A packet that is cached is sent again when it is reported as missing.
pub proof fn law_missing_packet_is_resent(m: ManagerView, chunk: EncryptedChunkView)
    requires
        is_cached(m.blocks, chunk),
    ensures
        m.resend(home(chunk), seq![place_of(chunk) as u16]) == seq![
            (m.blocks[home(chunk)]->Open_0).packets[place_of(chunk) as int]->0,
        ],
{
    law_block_chunk_inverse(chunk.chunk_id as nat, 0, 0);
    law_cached_packet_is_served(
        (m.blocks[home(chunk)]->Open_0).packets,
        place_of(chunk) as u16,
    );
}

/// Waiting blocks are opened in ascending order: a block that still waits
/// after a drain has a larger id than every block that the drain has opened.
pub proof fn law_drain_opens_in_order(run: Run, opened: u32, left: u32)
    requires
        run.m.wf(),
        is_pending(run.m.blocks, opened),
        !is_pending(run.drain().m.blocks, opened),
        is_pending(run.drain().m.blocks, left),
    ensures
        opened < left,
{
    lemma_drain_up_to_in_order(
        run,
        (run.m.pipeline_depth - run.m.open_slots) as nat,
        opened,
        left,
    );
}

// ---------------------------------------------------------------------------
// What has been sent
// ---------------------------------------------------------------------------

/// The action ends block `id`.
pub open spec fn is_end_of(action: ActionView, id: u32) -> bool {
    match action {
        ActionView::BlockEnd(datagram) => match block_end_of(datagram.skip(1)) {
            Some((block_id, _)) => block_id == id,
            None => false,
        },
        _ => false,
    }
}

/// How often block `id` is ended in a list of actions.
pub open spec fn ends_of(actions: Seq<ActionView>, id: u32) -> nat
    decreases actions.len(),
{
    if actions.len() == 0 {
        0
    } else {
        ends_of(actions.drop_last(), id) + if is_end_of(actions.last(), id) {
            1nat
        } else {
            0nat
        }
    }
}

/// How often block `id` can have been ended, given where it stands.
pub open spec fn ends_match(run: Run, id: u32) -> bool {
    let n = ends_of(run.out, id);
    if !run.m.blocks.contains_key(id) {
        n == 0
    } else {
        match run.m.blocks[id] {
            SlotView::Pending(_) => n == 0,
            SlotView::Open(b) => n == if b.end_emitted {
                1nat
            } else {
                0nat
            },
            SlotView::Resolved => n <= 1,
        }
    }
}

/// Every packet that an open block has cached has been sent.
pub open spec fn cached_is_sent(run: Run, id: u32) -> bool {
    is_open(run.m.blocks, id) ==> forall|i: int|
        #![trigger (run.m.blocks[id]->Open_0).packets[i]]
        0 <= i < (run.m.blocks[id]->Open_0).packets.len() ==> match (
        run.m.blocks[id]->Open_0).packets[i] {
            Some(packet) => run.out.contains(ActionView::Data(packet)),
            None => true,
        }
}

/// What has been sent agrees with where the blocks stand.
pub open spec fn sent_matches(run: Run) -> bool {
    &&& forall|id: u32| #[trigger] ends_match(run, id)
    &&& forall|id: u32| #[trigger] cached_is_sent(run, id)
}

proof fn lemma_ends_of_concat(a: Seq<ActionView>, b: Seq<ActionView>, id: u32)
    ensures
        ends_of(a + b, id) == ends_of(a, id) + ends_of(b, id),
    decreases b.len(),
{
    if b.len() == 0 {
        assert(a + b =~= a);
    } else {
        assert((a + b).drop_last() =~= a + b.drop_last());
        lemma_ends_of_concat(a, b.drop_last(), id);
    }
}

proof fn lemma_ends_of_one(action: ActionView, id: u32)
    ensures
        ends_of(seq![action], id) == if is_end_of(action, id) {
            1nat
        } else {
            0nat
        },
{
    reveal_with_fuel(ends_of, 2);
    assert(seq![action].drop_last() =~= Seq::empty());
}

proof fn lemma_resends_end_nothing(datagrams: Seq<Seq<u8>>, id: u32)
    ensures
        ends_of(resend_actions(datagrams), id) == 0,
    decreases datagrams.len(),
{
    if datagrams.len() > 0 {
        assert(resend_actions(datagrams).drop_last() =~= resend_actions(datagrams.drop_last()));
        lemma_resends_end_nothing(datagrams.drop_last(), id);
    }
}

proof fn lemma_end_datagram(id: u32, total: u32, other: u32)
    ensures
        is_end_of(ActionView::BlockEnd(block_end_bytes(id, total)), other) <==> other == id,
{
    law_block_end_round_trip(id, total, Seq::empty());
    assert(block_end_bytes(id, total).skip(1) + Seq::<u8>::empty() =~= block_end_bytes(
        id,
        total,
    ).skip(1));
}

proof fn lemma_place_actions(m: ManagerView, chunk: EncryptedChunkView, id: u32)
    ensures
        ends_of(m.place_actions(chunk), id) == if id == home(chunk) && m.block_for(
            chunk,
        ).end_due() {
            1nat
        } else {
            0nat
        },
        m.place_actions(chunk)[0] == ActionView::Data(chunk.packet),
{
    let bytes = m.bytes_sent + chunk.bytes;
    let block = m.block_for(chunk);
    let a = seq![ActionView::Data(chunk.packet)];
    let b = if bytes >= m.next_print {
        seq![ActionView::Progress(bytes as u64)]
    } else {
        Seq::empty()
    };
    let end = ActionView::BlockEnd(block_end_bytes(home(chunk), block.total as u32));
    let c = if block.end_due() {
        seq![end]
    } else {
        Seq::empty()
    };
    assert(m.place_actions(chunk) == a + b + c);
    lemma_ends_of_concat(a + b, c, id);
    lemma_ends_of_concat(a, b, id);
    lemma_ends_of_one(ActionView::Data(chunk.packet), id);
    lemma_ends_of_one(ActionView::Progress(bytes as u64), id);
    lemma_ends_of_one(end, id);
    lemma_end_datagram(home(chunk), block.total as u32, id);
    assert(ends_of(Seq::empty(), id) == 0);
}

proof fn lemma_place_sent(run: Run, chunk: EncryptedChunkView)
    requires
        run.m.wf(),
        is_open(run.m.blocks, home(chunk)),
        sent_matches(run),
    ensures
        sent_matches(run.place(chunk)),
{
    let later = run.place(chunk);
    let home_id = home(chunk);
    assert(run.m.blocks.contains_key(home_id));
    assert(run.m.slot_ok(home_id));
    if run.fault is None && run.m.place_fault(chunk) is None {
        let new = run.m.place_actions(chunk);
        assert forall|id: u32| #[trigger] ends_match(later, id) by {
            assert(ends_match(run, id));
            lemma_ends_of_concat(run.out, new, id);
            lemma_place_actions(run.m, chunk, id);
        }
        assert forall|id: u32| #[trigger] cached_is_sent(later, id) by {
            assert(cached_is_sent(run, id));
            lemma_place_actions(run.m, chunk, id);
            assert(later.out[run.out.len() as int] == ActionView::Data(chunk.packet));
            if is_open(later.m.blocks, id) {
                let packets = (later.m.blocks[id]->Open_0).packets;
                let before = (run.m.blocks[id]->Open_0).packets;
                assert forall|i: int| 0 <= i < packets.len() implies match #[trigger] packets[i] {
                    Some(packet) => later.out.contains(ActionView::Data(packet)),
                    None => true,
                } by {
                    if id != home_id || i != place_of(chunk) {
                        assert(packets[i] == before[i]);
                        if let Some(packet) = before[i] {
                            let j = run.out.index_of(ActionView::Data(packet));
                            assert(later.out[j] == ActionView::Data(packet));
                        }
                    }
                }
            }
        }
    } else {
        assert forall|id: u32| #[trigger] ends_match(later, id) by {
            assert(ends_match(run, id));
        }
        assert forall|id: u32| #[trigger] cached_is_sent(later, id) by {
            assert(cached_is_sent(run, id));
        }
    }
}

proof fn lemma_place_all_sent(run: Run, id: u32, chunks: Seq<EncryptedChunkView>)
    requires
        run.m.wf(),
        is_open(run.m.blocks, id),
        forall|i: int| 0 <= i < chunks.len() ==> home(#[trigger] chunks[i]) == id,
        sent_matches(run),
    ensures
        sent_matches(run.place_all(chunks)),
    decreases chunks.len(),
{
    if chunks.len() > 0 {
        let init = chunks.drop_last();
        assert(forall|i: int| 0 <= i < init.len() ==> #[trigger] init[i] == chunks[i]);
        lemma_place_all(run, id, init);
        lemma_place_all_sent(run, id, init);
        assert(home(chunks.last()) == id);
        lemma_place_sent(run.place_all(init), chunks.last());
    }
}

proof fn lemma_opened_sent(run: Run, id: u32)
    requires
        sent_matches(run),
        !run.m.blocks.contains_key(id) || run.m.blocks[id] is Pending,
    ensures
        sent_matches(run.opened(id)),
{
    let later = run.opened(id);
    assert forall|other: u32| #[trigger] ends_match(later, other) by {
        assert(ends_match(run, other));
    }
    assert forall|other: u32| #[trigger] cached_is_sent(later, other) by {
        assert(cached_is_sent(run, other));
    }
}

proof fn lemma_drain_up_to_sent(run: Run, slots: nat)
    requires
        run.m.wf(),
        run.m.open_slots + slots <= run.m.pipeline_depth,
        sent_matches(run),
    ensures
        sent_matches(run.drain_up_to(slots)),
    decreases slots,
{
    if slots > 0 && run.fault is None {
        if let Some(id) = first_pending(run.m.blocks) {
            assert(is_first_pending(run.m.blocks, id));
            assert(is_pending(run.m.blocks, id));
            assert(run.m.slot_ok(id));
            lemma_open_pending_grows(run, id);
            lemma_opened_sent(run, id);
            lemma_opened_keeps_wf(run.m, id);
            lemma_place_all_sent(run.opened(id), id, run.m.blocks[id]->Pending_0);
            lemma_drain_up_to_sent(run.open_pending(id), (slots - 1) as nat);
        }
    }
}

proof fn lemma_step_sent(run: Run, step: Step)
    requires
        run.m.wf(),
        sent_matches(run),
    ensures
        sent_matches(run.step(step)),
{
    let later = run.step(step);
    if run.fault is None {
        match step {
            Step::Chunk(chunk) => {
                let id = home(chunk);
                if is_open(run.m.blocks, id) {
                    lemma_place_sent(run, chunk);
                } else if !run.m.blocks.contains_key(id) && run.m.open_slots
                    < run.m.pipeline_depth {
                    lemma_opened_keeps_wf(run.m, id);
                    lemma_opened_sent(run, id);
                    lemma_place_sent(run.opened(id), chunk);
                } else {
                    assert forall|other: u32| #[trigger] ends_match(later, other) by {
                        assert(ends_match(run, other));
                    }
                    assert forall|other: u32| #[trigger] cached_is_sent(later, other) by {
                        assert(cached_is_sent(run, other));
                    }
                }
            },
            Step::Drain => {
                if run.m.open_slots < run.m.pipeline_depth {
                    lemma_drain_up_to_sent(
                        run,
                        (run.m.pipeline_depth - run.m.open_slots) as nat,
                    );
                }
            },
            Step::Missing(id, missing) => {
                let new = resend_actions(run.m.resend(id, missing));
                assert forall|other: u32| #[trigger] ends_match(later, other) by {
                    assert(ends_match(run, other));
                    lemma_ends_of_concat(run.out, new, other);
                    lemma_resends_end_nothing(run.m.resend(id, missing), other);
                }
                assert forall|other: u32| #[trigger] cached_is_sent(later, other) by {
                    assert(cached_is_sent(run, other));
                    if is_open(later.m.blocks, other) {
                        let packets = (later.m.blocks[other]->Open_0).packets;
                        assert forall|i: int| 0 <= i < packets.len() implies match
                            #[trigger] packets[i] {
                            Some(packet) => later.out.contains(ActionView::Data(packet)),
                            None => true,
                        } by {
                            if let Some(packet) = packets[i] {
                                let j = run.out.index_of(ActionView::Data(packet));
                                assert(later.out[j] == ActionView::Data(packet));
                            }
                        }
                    }
                }
            },
            Step::Resolve(id) => {
                assert forall|other: u32| #[trigger] ends_match(later, other) by {
                    assert(ends_match(run, other));
                }
                assert forall|other: u32| #[trigger] cached_is_sent(later, other) by {
                    assert(cached_is_sent(run, other));
                }
            },
        }
    }
}

/// Whatever happens, the end of a block is sent at most once.  It is out for an
/// open block exactly if the block says so, and then every place of the block
/// holds a packet; and every packet that is cached has been sent.
pub proof fn law_block_end_is_sent_once(
    total_chunks: nat,
    pipeline_depth: nat,
    total_blocks: nat,
    steps: Seq<Step>,
    id: u32,
)
    ensures
        ({
            let run = fresh_run(total_chunks, pipeline_depth, total_blocks).after(steps);
            &&& ends_of(run.out, id) <= 1
            &&& sent_matches(run)
            &&& is_open(run.m.blocks, id) && ends_of(run.out, id) == 1 ==> (
            run.m.blocks[id]->Open_0).all_cached()
        }),
{
    lemma_history_sent(total_chunks, pipeline_depth, total_blocks, steps);
    law_invariant_holds(total_chunks, pipeline_depth, total_blocks, steps);
    let run = fresh_run(total_chunks, pipeline_depth, total_blocks).after(steps);
    assert(ends_match(run, id));
    if is_open(run.m.blocks, id) {
        assert(run.m.slot_ok(id));
    }
}

proof fn lemma_history_sent(
    total_chunks: nat,
    pipeline_depth: nat,
    total_blocks: nat,
    steps: Seq<Step>,
)
    ensures
        sent_matches(fresh_run(total_chunks, pipeline_depth, total_blocks).after(steps)),
    decreases steps.len(),
{
    let start = fresh_run(total_chunks, pipeline_depth, total_blocks);
    if steps.len() > 0 {
        let init = steps.drop_last();
        lemma_history_sent(total_chunks, pipeline_depth, total_blocks, init);
        law_invariant_holds(total_chunks, pipeline_depth, total_blocks, init);
        lemma_step_sent(start.after(init), steps.last());
    }
}

// ---------------------------------------------------------------------------
// Chunks that come once
// ---------------------------------------------------------------------------

/// The places of a block that hold a packet.
pub open spec fn filled(packets: Seq<Option<Seq<u8>>>) -> Set<int> {
    Set::new(|i: int| 0 <= i < packets.len() && packets[i] is Some)
}

/// The chunk id of a place of a block.
pub open spec fn id_at(block_id: u32, place: int) -> nat {
    chunk_index(block_id as nat, place as nat)
}

/// The ids of the chunks that have come in.
pub open spec fn came(steps: Seq<Step>) -> Set<nat> {
    Set::new(
        |id: nat|
            exists|i: int|
                0 <= i < steps.len() && (#[trigger] steps[i] matches Step::Chunk(c) && c.chunk_id
                    == id),
    )
}

/// Every chunk of a history belongs to the file, and none comes twice.
pub open spec fn each_comes_once(steps: Seq<Step>, total_chunks: nat) -> bool {
    &&& forall|i: int|
        0 <= i < steps.len() ==> (#[trigger] steps[i] matches Step::Chunk(c) ==> c.chunk_id
            < total_chunks)
    &&& forall|i: int, j: int|
        0 <= i < j < steps.len() ==> (#[trigger] steps[i] matches Step::Chunk(a) ==> (
        #[trigger] steps[j] matches Step::Chunk(b) ==> a.chunk_id != b.chunk_id))
}

/// An open block has been sent as many packets as it holds, all of them of
/// chunks in `seen`.
pub open spec fn tidy_block(b: BlockView, id: u32, seen: Set<nat>) -> bool {
    &&& b.sent == filled(b.packets).len()
    &&& forall|i: int| #[trigger] filled(b.packets).contains(i) ==> seen.contains(id_at(id, i))
}

/// Waiting chunks differ from each other, belong to the file and are in `seen`.
pub open spec fn tidy_bucket(
    chunks: Seq<EncryptedChunkView>,
    total_chunks: nat,
    seen: Set<nat>,
) -> bool {
    &&& forall|i: int|
        0 <= i < chunks.len() ==> (#[trigger] chunks[i]).chunk_id < total_chunks && seen.contains(
            chunks[i].chunk_id as nat,
        )
    &&& forall|i: int, j: int|
        0 <= i < j < chunks.len() ==> (#[trigger] chunks[i]).chunk_id != (
        #[trigger] chunks[j]).chunk_id
}

/// Every slot holds only chunks in `seen`, each once.
pub open spec fn tidy_slot(m: ManagerView, id: u32, seen: Set<nat>) -> bool {
    m.blocks.contains_key(id) ==> match m.blocks[id] {
        SlotView::Open(b) => tidy_block(b, id, seen),
        SlotView::Pending(chunks) => tidy_bucket(chunks, m.total_chunks, seen),
        SlotView::Resolved => true,
    }
}

/// Every slot is tidy, and there is no fault but an overflow of a counter.
pub open spec fn tidy(run: Run, seen: Set<nat>) -> bool {
    match run.fault {
        None => forall|id: u32| #[trigger] tidy_slot(run.m, id, seen),
        Some(fault) => fault == SendFault::CounterOverflow,
    }
}

proof fn lemma_filled(packets: Seq<Option<Seq<u8>>>)
    ensures
        filled(packets).finite(),
        filled(packets).len() <= packets.len(),
        filled(packets).len() == packets.len() <==> forall|i: int|
            0 <= i < packets.len() ==> #[trigger] packets[i] is Some,
{
    let all = set_int_range(0, packets.len() as int);
    lemma_int_range(0, packets.len() as int);
    assert(filled(packets).subset_of(all));
    lemma_len_subset(filled(packets), all);
    if filled(packets).len() == packets.len() {
        lemma_subset_equality(filled(packets), all);
        assert forall|i: int| 0 <= i < packets.len() implies #[trigger] packets[i] is Some by {
            assert(all.contains(i));
            assert(filled(packets).contains(i));
        }
    }
    if forall|i: int| 0 <= i < packets.len() ==> #[trigger] packets[i] is Some {
        assert(filled(packets) =~= all);
    }
}

pub(crate) proof fn lemma_place_is_in_block(chunk: EncryptedChunkView, total_chunks: nat)
    requires
        chunk.chunk_id < total_chunks,
    ensures
        place_of(chunk) < block_len(home(chunk) as nat, total_chunks),
        id_at(home(chunk), place_of(chunk) as int) == chunk.chunk_id,
{
    law_block_chunk_inverse(chunk.chunk_id as nat, 0, 0);
    assert(block_index(chunk.chunk_id as nat) <= chunk.chunk_id);
    law_place_exists(home(chunk) as nat, place_of(chunk), total_chunks);
}

/// A new chunk goes into its open block without a fault.
proof fn lemma_place_tidy(run: Run, chunk: EncryptedChunkView, seen: Set<nat>)
    requires
        run.m.wf(),
        run.fault is None,
        is_open(run.m.blocks, home(chunk)),
        chunk.chunk_id < run.m.total_chunks,
        tidy_block(run.m.block_for(chunk), home(chunk), seen),
        !filled(run.m.block_for(chunk).packets).contains(place_of(chunk) as int),
    ensures
        ({
            let later = run.place(chunk);
            match later.fault {
                None => {
                    &&& tidy_block(
                        later.m.block_for(chunk),
                        home(chunk),
                        seen.insert(chunk.chunk_id as nat),
                    )
                    &&& filled(later.m.block_for(chunk).packets) == filled(
                        run.m.block_for(chunk).packets,
                    ).insert(place_of(chunk) as int)
                },
                Some(fault) => fault == SendFault::CounterOverflow,
            }
        }),
{
    let id = home(chunk);
    let b = run.m.block_for(chunk);
    assert(run.m.blocks.contains_key(id));
    assert(run.m.slot_ok(id));
    lemma_place_is_in_block(chunk, run.m.total_chunks);
    let after = b.place(place_of(chunk), chunk.packet);
    assert(filled(after.packets) =~= filled(b.packets).insert(place_of(chunk) as int));
    lemma_filled(b.packets);
    lemma_filled(after.packets);
    assert(after.sent == filled(after.packets).len());
}

/// Chunks that differ from each other and from what their open block holds go
/// into it without a fault.
proof fn lemma_place_all_tidy(
    run: Run,
    id: u32,
    chunks: Seq<EncryptedChunkView>,
    seen: Set<nat>,
)
    requires
        run.m.wf(),
        run.fault is None,
        is_open(run.m.blocks, id),
        forall|i: int| 0 <= i < chunks.len() ==> home(#[trigger] chunks[i]) == id,
        tidy_bucket(chunks, run.m.total_chunks, seen),
        tidy_block(run.m.blocks[id]->Open_0, id, seen),
        forall|i: int|
            0 <= i < chunks.len() ==> !filled((run.m.blocks[id]->Open_0).packets).contains(
                place_of(#[trigger] chunks[i]) as int,
            ),
    ensures
        ({
            let later = run.place_all(chunks);
            match later.fault {
                None => {
                    &&& tidy_block(later.m.blocks[id]->Open_0, id, seen)
                    &&& forall|place: int| #[trigger]
                        filled((later.m.blocks[id]->Open_0).packets).contains(place) ==> filled(
                            (run.m.blocks[id]->Open_0).packets,
                        ).contains(place) || exists|i: int|
                            0 <= i < chunks.len() && place_of(#[trigger] chunks[i]) == place
                },
                Some(fault) => fault == SendFault::CounterOverflow,
            }
        }),
    decreases chunks.len(),
{
    if chunks.len() > 0 {
        let init = chunks.drop_last();
        let last = chunks.last();
        assert(forall|i: int| 0 <= i < init.len() ==> #[trigger] init[i] == chunks[i]);
        lemma_place_all(run, id, init);
        lemma_place_all_tidy(run, id, init, seen);
        lemma_place_all_grows(run, id, init);
        let mid = run.place_all(init);
        assert(home(last) == id);
        assert(chunks[chunks.len() - 1] == last);
        if mid.fault is None {
            let packets = (mid.m.blocks[id]->Open_0).packets;
            assert(!filled(packets).contains(place_of(last) as int)) by {
                if filled(packets).contains(place_of(last) as int) {
                    let i = choose|i: int|
                        0 <= i < init.len() && place_of(#[trigger] init[i]) == place_of(last) as int;
                    assert(init[i] == chunks[i]);
                    lemma_place_is_in_block(chunks[i], run.m.total_chunks);
                    lemma_place_is_in_block(last, run.m.total_chunks);
                    assert(chunks[i].chunk_id == last.chunk_id);
                }
            }
            lemma_place_tidy(mid, last, seen);
            assert(seen.insert(last.chunk_id as nat) =~= seen);
            let later = run.place_all(chunks);
            if later.fault is None {
                assert forall|place: int| #[trigger]
                    filled((later.m.blocks[id]->Open_0).packets).contains(place) implies filled(
                    (run.m.blocks[id]->Open_0).packets,
                ).contains(place) || exists|i: int|
                    0 <= i < chunks.len() && place_of(#[trigger] chunks[i]) == place by {
                    if place != place_of(last) {
                        assert(filled(packets).contains(place));
                        if !filled((run.m.blocks[id]->Open_0).packets).contains(place) {
                            let i = choose|i: int|
                                0 <= i < init.len() && place_of(#[trigger] init[i]) == place;
                            assert(place_of(chunks[i]) == place);
                        }
                    }
                }
            }
        }
    }
}

proof fn lemma_fresh_block_is_tidy(total: nat, id: u32, seen: Set<nat>)
    ensures
        tidy_block(BlockView::fresh(total), id, seen),
        filled(BlockView::fresh(total).packets) == Set::<int>::empty(),
{
    assert(filled(BlockView::fresh(total).packets) =~= Set::empty());
}

pub(crate) proof fn lemma_drain_up_to_tidy(run: Run, slots: nat, seen: Set<nat>)
    requires
        run.m.wf(),
        run.m.open_slots + slots <= run.m.pipeline_depth,
        tidy(run, seen),
    ensures
        tidy(run.drain_up_to(slots), seen),
    decreases slots,
{
    if slots > 0 && run.fault is None {
        if let Some(id) = first_pending(run.m.blocks) {
            assert(is_first_pending(run.m.blocks, id));
            assert(is_pending(run.m.blocks, id));
            assert(run.m.slot_ok(id));
            assert(tidy_slot(run.m, id, seen));
            lemma_open_pending_grows(run, id);
            lemma_opened_keeps_wf(run.m, id);
            lemma_fresh_block_is_tidy(block_len(id as nat, run.m.total_chunks), id, seen);
            let next = run.open_pending(id);
            lemma_place_all_tidy(run.opened(id), id, run.m.blocks[id]->Pending_0, seen);
            if next.fault is None {
                assert forall|other: u32| #[trigger] tidy_slot(next.m, other, seen) by {
                    if other != id {
                        assert(tidy_slot(run.m, other, seen));
                        let rest = run.m.blocks.remove(id);
                        assert(next.m.blocks.remove(id).contains_key(other) == rest.contains_key(
                            other,
                        ));
                        assert(next.m.blocks.remove(id)[other] == rest[other]);
                    }
                }
            }
            lemma_drain_up_to_tidy(next, (slots - 1) as nat, seen);
        }
    }
}

/// More chunks may be in `seen` than the slots hold.
proof fn lemma_tidy_slot_grows(m: ManagerView, id: u32, seen: Set<nat>, more: Set<nat>)
    requires
        tidy_slot(m, id, seen),
        seen.subset_of(more),
    ensures
        tidy_slot(m, id, more),
{
}

proof fn lemma_chunk_tidy(run: Run, chunk: EncryptedChunkView, seen: Set<nat>)
    requires
        run.m.wf(),
        run.fault is None,
        tidy(run, seen),
        chunk.chunk_id < run.m.total_chunks,
        !seen.contains(chunk.chunk_id as nat),
    ensures
        tidy(run.accept(chunk), seen.insert(chunk.chunk_id as nat)),
{
    let id = home(chunk);
    let more = seen.insert(chunk.chunk_id as nat);
    let later = run.accept(chunk);
    assert(tidy_slot(run.m, id, seen));
    lemma_place_is_in_block(chunk, run.m.total_chunks);
    if is_open(run.m.blocks, id) {
        assert(!filled(run.m.block_for(chunk).packets).contains(place_of(chunk) as int));
        lemma_place_tidy(run, chunk, seen);
    } else if !run.m.blocks.contains_key(id) && run.m.open_slots < run.m.pipeline_depth {
        lemma_opened_keeps_wf(run.m, id);
        lemma_fresh_block_is_tidy(block_len(id as nat, run.m.total_chunks), id, seen);
        lemma_place_tidy(run.opened(id), chunk, seen);
    }
    if later.fault is None {
        assert forall|other: u32| #[trigger] tidy_slot(later.m, other, more) by {
            assert(tidy_slot(run.m, other, seen));
            lemma_tidy_slot_grows(run.m, other, seen, more);
            if other == id && is_pending(run.m.blocks, id) {
                let chunks = run.m.blocks[id]->Pending_0;
                assert(later.m.blocks[id] == SlotView::Pending(chunks.push(chunk)));
                assert(tidy_bucket(chunks.push(chunk), run.m.total_chunks, more));
            }
        }
    }
}

pub(crate) proof fn lemma_history_tidy(
    total_chunks: nat,
    pipeline_depth: nat,
    total_blocks: nat,
    steps: Seq<Step>,
)
    requires
        each_comes_once(steps, total_chunks),
    ensures
        tidy(fresh_run(total_chunks, pipeline_depth, total_blocks).after(steps), came(steps)),
    decreases steps.len(),
{
    let start = fresh_run(total_chunks, pipeline_depth, total_blocks);
    if steps.len() > 0 {
        let init = steps.drop_last();
        let last = steps.last();
        assert(forall|i: int| 0 <= i < init.len() ==> #[trigger] init[i] == steps[i]);
        assert(steps[steps.len() - 1] == last);
        lemma_history_tidy(total_chunks, pipeline_depth, total_blocks, init);
        law_invariant_holds(total_chunks, pipeline_depth, total_blocks, init);
        law_invariant_holds(total_chunks, pipeline_depth, total_blocks, Seq::empty());
        law_nothing_is_taken_back(start, init);
        let run = start.after(init);
        let later = start.after(steps);
        assert(came(init).subset_of(came(steps))) by {
            assert forall|id: nat| came(init).contains(id) implies came(steps).contains(id) by {
                let i = choose|i: int|
                    0 <= i < init.len() && (#[trigger] init[i] matches Step::Chunk(c) && c.chunk_id
                        == id);
                assert(steps[i] == init[i]);
            }
        }
        if run.fault is None {
            match last {
                Step::Chunk(chunk) => {
                    lemma_chunk_tidy(run, chunk, came(init));
                    let more = came(init).insert(chunk.chunk_id as nat);
                    assert(more.subset_of(came(steps)));
                    if later.fault is None {
                        assert forall|id: u32| #[trigger] tidy_slot(later.m, id, came(steps)) by {
                            assert(tidy_slot(later.m, id, more));
                            lemma_tidy_slot_grows(later.m, id, more, came(steps));
                        }
                    }
                },
                _ => {
                    if last is Drain && run.m.open_slots < run.m.pipeline_depth {
                        lemma_drain_up_to_tidy(
                            run,
                            (run.m.pipeline_depth - run.m.open_slots) as nat,
                            came(init),
                        );
                    }
                    if later.fault is None {
                        assert forall|id: u32| #[trigger] tidy_slot(later.m, id, came(steps)) by {
                            assert(tidy_slot(run.m, id, came(init)));
                            assert(tidy_slot(later.m, id, came(init)));
                            lemma_tidy_slot_grows(later.m, id, came(init), came(steps));
                        }
                    }
                },
            }
        }
    }
}

/// If every chunk comes from the file and none comes twice, in whatever order,
/// no chunk is ever refused (a counter may still overflow), and the end of an
/// open block is out exactly if all of its packets have been sent.
pub proof fn law_chunks_that_come_once(
    total_chunks: nat,
    pipeline_depth: nat,
    total_blocks: nat,
    steps: Seq<Step>,
    id: u32,
)
    requires
        each_comes_once(steps, total_chunks),
    ensures
        ({
            let run = fresh_run(total_chunks, pipeline_depth, total_blocks).after(steps);
            &&& run.fault is Some ==> run.fault == Some(SendFault::CounterOverflow)
            &&& run.fault is None && is_open(run.m.blocks, id) && block_len(id as nat, total_chunks)
                > 0 ==> {
                let b = run.m.blocks[id]->Open_0;
                (ends_of(run.out, id) == 1) == b.all_cached()
            }
        }),
{
    let start = fresh_run(total_chunks, pipeline_depth, total_blocks);
    let run = start.after(steps);
    lemma_history_tidy(total_chunks, pipeline_depth, total_blocks, steps);
    lemma_history_sent(total_chunks, pipeline_depth, total_blocks, steps);
    law_invariant_holds(total_chunks, pipeline_depth, total_blocks, steps);
    law_invariant_holds(total_chunks, pipeline_depth, total_blocks, Seq::empty());
    law_nothing_is_taken_back(start, steps);
    if run.fault is None && is_open(run.m.blocks, id) {
        let b = run.m.blocks[id]->Open_0;
        assert(run.m.slot_ok(id));
        assert(tidy_slot(run.m, id, came(steps)));
        assert(ends_match(run, id));
        lemma_filled(b.packets);
        if b.all_cached() {
            assert forall|i: int| 0 <= i < b.packets.len() implies #[trigger] b.packets[i] is Some by {}
        }
    }
}

// ---------------------------------------------------------------------------
// The end of the work
// ---------------------------------------------------------------------------

/// As long as only blocks of the file are reported, the work is over exactly
/// when every block of the file is resolved.
pub proof fn law_finished_means_all_resolved(m: ManagerView)
    requires
        m.wf(),
        m.total_blocks <= 0x1_0000_0000,
        forall|id: u32| #[trigger] is_resolved(m.blocks, id) ==> id < m.total_blocks,
    ensures
        m.finished() <==> forall|id: u32| id < m.total_blocks ==> #[trigger] is_resolved(m.blocks, id),
{
    let all = Set::new(|id: u32| id < m.total_blocks);
    let resolved = resolved_ids(m.blocks);
    lemma_ids_below(m.total_blocks);
    assert(resolved.subset_of(all)) by {
        assert forall|id: u32| resolved.contains(id) implies all.contains(id) by {
            assert(is_resolved(m.blocks, id));
        }
    }
    lemma_len_subset(resolved, all);
    if m.finished() {
        lemma_subset_equality(resolved, all);
        assert forall|id: u32| id < m.total_blocks implies #[trigger] is_resolved(m.blocks, id) by {
            assert(all.contains(id));
            assert(resolved.contains(id));
        }
    }
    if forall|id: u32| id < m.total_blocks ==> #[trigger] is_resolved(m.blocks, id) {
        assert forall|id: u32| all.contains(id) implies resolved.contains(id) by {
            assert(is_resolved(m.blocks, id));
        }
        assert(resolved =~= all);
    }
}

/// A second report about a block changes nothing, and reports about different
/// blocks can come in either order.
pub proof fn law_reports_are_counted_once(m: ManagerView, a: u32, b: u32)
    requires
        m.wf(),
    ensures
        m.resolve(a).resolve(a) == m.resolve(a),
        m.resolve(a).resolve(b) == m.resolve(b).resolve(a),
        m.resolve(a).completed == m.completed + if is_resolved(m.blocks, a) {
            0int
        } else {
            1int
        },
{
    lemma_resolve_keeps_wf(m, a);
    lemma_resolve_keeps_wf(m, b);
    lemma_resolve_keeps_wf(m.resolve(a), b);
    lemma_resolve_keeps_wf(m.resolve(b), a);
    assert(m.resolve(a).resolve(b).blocks =~= m.resolve(b).resolve(a).blocks);
}

/// The blocks that are reported as complete in a history.
pub open spec fn reported(steps: Seq<Step>) -> Set<u32> {
    Set::new(|id: u32| steps.contains(Step::Resolve(id)))
}

proof fn lemma_drain_up_to_resolves_nothing(run: Run, slots: nat)
    requires
        run.m.wf(),
        run.m.open_slots + slots <= run.m.pipeline_depth,
    ensures
        resolved_ids(run.drain_up_to(slots).m.blocks) == resolved_ids(run.m.blocks),
    decreases slots,
{
    if slots > 0 && run.fault is None {
        if let Some(id) = first_pending(run.m.blocks) {
            assert(is_first_pending(run.m.blocks, id));
            lemma_open_pending_grows(run, id);
            let next = run.open_pending(id);
            lemma_drain_up_to_resolves_nothing(next, (slots - 1) as nat);
            let rest = run.m.blocks.remove(id);
            assert forall|other: u32|
                resolved_ids(next.m.blocks).contains(other) == resolved_ids(
                    run.m.blocks,
                ).contains(other) by {
                if other != id {
                    assert(rest.contains_key(other) == run.m.blocks.contains_key(other));
                    assert(next.m.blocks.remove(id).contains_key(other)
                        == next.m.blocks.contains_key(other));
                    if rest.contains_key(other) {
                        assert(rest[other] == run.m.blocks[other]);
                        assert(next.m.blocks.remove(id)[other] == next.m.blocks[other]);
                    }
                }
            }
            assert(resolved_ids(next.m.blocks) =~= resolved_ids(run.m.blocks));
        }
    }
}

proof fn lemma_step_resolves(run: Run, step: Step)
    requires
        run.m.wf(),
        run.fault is None,
    ensures
        resolved_ids(run.step(step).m.blocks) == match step {
            Step::Resolve(id) => resolved_ids(run.m.blocks).insert(id),
            _ => resolved_ids(run.m.blocks),
        },
{
    let later = run.step(step);
    match step {
        Step::Resolve(id) => {
            assert(resolved_ids(later.m.blocks) =~= resolved_ids(run.m.blocks).insert(id));
        },
        Step::Drain => {
            if run.m.open_slots < run.m.pipeline_depth {
                lemma_drain_up_to_resolves_nothing(
                    run,
                    (run.m.pipeline_depth - run.m.open_slots) as nat,
                );
            }
        },
        _ => {
            assert(resolved_ids(later.m.blocks) =~= resolved_ids(run.m.blocks));
        },
    }
}

/// As long as there is no fault, the resolved blocks are those that have been
/// reported as complete, neither more nor less; the count of completed blocks is
/// their number, however often and in whatever order they were reported; and the
/// work is over exactly when as many different blocks have been reported as the
/// file has.
pub proof fn law_resolved_means_reported(
    total_chunks: nat,
    pipeline_depth: nat,
    total_blocks: nat,
    steps: Seq<Step>,
)
    requires
        fresh_run(total_chunks, pipeline_depth, total_blocks).after(steps).fault is None,
    ensures
        ({
            let run = fresh_run(total_chunks, pipeline_depth, total_blocks).after(steps);
            &&& resolved_ids(run.m.blocks) == reported(steps)
            &&& reported(steps).finite()
            &&& run.m.completed == reported(steps).len()
            &&& run.m.finished() <==> reported(steps).len() >= total_blocks
        }),
    decreases steps.len(),
{
    let start = fresh_run(total_chunks, pipeline_depth, total_blocks);
    let run = start.after(steps);
    law_invariant_holds(total_chunks, pipeline_depth, total_blocks, steps);
    law_invariant_holds(total_chunks, pipeline_depth, total_blocks, Seq::empty());
    law_nothing_is_taken_back(start, steps);
    if steps.len() == 0 {
        assert(resolved_ids(run.m.blocks) =~= reported(steps));
    } else {
        let init = steps.drop_last();
        law_invariant_holds(total_chunks, pipeline_depth, total_blocks, init);
        law_resolved_means_reported(total_chunks, pipeline_depth, total_blocks, init);
        lemma_step_resolves(start.after(init), steps.last());
        assert forall|id: u32|
            steps.contains(Step::Resolve(id)) <==> init.contains(Step::Resolve(id)) || steps.last()
                == Step::Resolve(id) by {
            if steps.contains(Step::Resolve(id)) {
                let i = choose|i: int| 0 <= i < steps.len() && steps[i] == Step::Resolve(id);
                if i < init.len() {
                    assert(init[i] == Step::Resolve(id));
                }
            }
            if init.contains(Step::Resolve(id)) {
                let i = choose|i: int| 0 <= i < init.len() && init[i] == Step::Resolve(id);
                assert(steps[i] == Step::Resolve(id));
            }
            if steps.last() == Step::Resolve(id) {
                assert(steps[steps.len() - 1] == Step::Resolve(id));
            }
        }
        assert(resolved_ids(run.m.blocks) =~= reported(steps));
    }
}

// ---------------------------------------------------------------------------
// What each operation does
// ---------------------------------------------------------------------------

/// A chunk belongs to the block and the place that its id is cut into.
pub proof fn law_chunks_have_one_place(chunk: EncryptedChunkView)
    ensures
        home(chunk) * PACKETS_PER_BLOCK + place_of(chunk) == chunk.chunk_id,
        place_of(chunk) < PACKETS_PER_BLOCK,
{
    law_block_chunk_inverse(chunk.chunk_id as nat, 0, 0);
    law_blocks_are_cut_at_multiples(
        0,
        block_index(chunk.chunk_id as nat),
        place_of(chunk),
        0,
    );
    assert(block_index(chunk.chunk_id as nat) <= chunk.chunk_id);
}

/// Nothing is known of any block, and nothing has been counted, before the first
/// event.
pub proof fn law_work_starts_empty(
    total_chunks: nat,
    pipeline_depth: nat,
    total_blocks: nat,
    id: u32,
)
    ensures
        ({
            let m = ManagerView::start(total_chunks, pipeline_depth, total_blocks);
            &&& !m.blocks.contains_key(id)
            &&& m.total_chunks == total_chunks
            &&& m.pipeline_depth == pipeline_depth
            &&& m.total_blocks == total_blocks
            &&& m.open_slots == 0 && m.completed == 0
            &&& m.bytes_sent == 0 && m.packets_sent == 0 && m.retransmitted == 0
            &&& m.next_print == 100 * 1024 * 1024
        }),
{
}

/// What opening a block changes: the block is open, with an empty place for each
/// of its packets, and takes up one slot.  Nothing else changes.
pub proof fn law_opened_blocks_are_empty(run: Run, id: u32, other: u32)
    ensures
        ({
            let after = run.opened(id);
            let b = after.m.blocks[id]->Open_0;
            &&& after.out == run.out
            &&& after.fault == run.fault
            &&& after.m == (ManagerView {
                blocks: after.m.blocks,
                open_slots: run.m.open_slots + 1,
                ..run.m
            })
            &&& after.m.blocks.contains_key(id) && after.m.blocks[id] is Open
            &&& b.total == block_len(id as nat, run.m.total_chunks)
            &&& b.packets.len() == b.total
            &&& forall|i: int| 0 <= i < b.packets.len() ==> #[trigger] b.packets[i] is None
            &&& b.sent == 0
            &&& !b.end_emitted
            &&& other != id ==> {
                &&& after.m.blocks.contains_key(other) == run.m.blocks.contains_key(other)
                &&& after.m.blocks.contains_key(other) ==> after.m.blocks[other]
                    == run.m.blocks[other]
            }
        }),
{
}

/// What placing a chunk into its open block changes: its packet stands at its
/// place, and everything else that the block holds stays; the block has been
/// sent one packet more, and its end has been sent once that makes as many as
/// the block has.  The counters go on by one packet and the chunk's bytes.  No
/// other block changes.
pub proof fn law_placed_chunk_is_cached(run: Run, chunk: EncryptedChunkView, other: u32)
    requires
        run.fault is None,
        run.m.blocks.contains_key(home(chunk)),
        run.m.blocks[home(chunk)] is Open,
        place_of(chunk) < (run.m.blocks[home(chunk)]->Open_0).packets.len(),
        run.m.place_fault(chunk) is None,
    ensures
        ({
            let after = run.place(chunk);
            let id = home(chunk);
            let b = run.m.blocks[id]->Open_0;
            let a = after.m.blocks[id]->Open_0;
            &&& after.fault is None
            &&& after.m.blocks.contains_key(id) && after.m.blocks[id] is Open
            &&& a.packets.len() == b.packets.len()
            &&& a.packets[place_of(chunk) as int] == Some(chunk.packet)
            &&& forall|i: int|
                0 <= i < b.packets.len() && i != place_of(chunk) ==> #[trigger] a.packets[i]
                    == b.packets[i]
            &&& a.total == b.total
            &&& a.sent == b.sent + 1
            &&& a.end_emitted <==> b.end_emitted || a.sent == b.total
            &&& other != id ==> {
                &&& after.m.blocks.contains_key(other) == run.m.blocks.contains_key(other)
                &&& after.m.blocks.contains_key(other) ==> after.m.blocks[other]
                    == run.m.blocks[other]
            }
            &&& after.m == (ManagerView {
                blocks: after.m.blocks,
                packets_sent: run.m.packets_sent + 1,
                bytes_sent: run.m.bytes_sent + chunk.bytes as nat,
                next_print: after.m.next_print,
                ..run.m
            })
            &&& after.m.next_print == run.m.next_print + if after.m.bytes_sent
                >= run.m.next_print {
                100 * 1024 * 1024int
            } else {
                0
            }
        }),
{
}

/// What placing a chunk sends: first its packet; a report of the bytes sent, if
/// they have reached the next mark; and last the end of the block, with its id
/// and size, if it has now been sent as many packets as it has and has not been
/// ended before.  Nothing that stood in the list changes.
pub proof fn law_placed_chunk_is_sent(run: Run, chunk: EncryptedChunkView)
    requires
        run.fault is None,
        run.m.blocks.contains_key(home(chunk)),
        run.m.blocks[home(chunk)] is Open,
        run.m.place_fault(chunk) is None,
    ensures
        ({
            let after = run.place(chunk);
            let b = run.m.blocks[home(chunk)]->Open_0;
            let n = run.out.len() as int;
            let bytes = run.m.bytes_sent + chunk.bytes;
            let marks: int = if bytes >= run.m.next_print { 1 } else { 0 };
            let ends: int = if b.sent + 1 == b.total && !b.end_emitted { 1 } else { 0 };
            &&& after.out.len() == n + 1 + marks + ends
            &&& after.out.take(n) == run.out
            &&& after.out[n] == ActionView::Data(chunk.packet)
            &&& marks == 1 ==> after.out[n + 1] == ActionView::Progress(bytes as u64)
            &&& ends == 1 ==> after.out.last() == ActionView::BlockEnd(
                block_end_bytes(home(chunk), b.total as u32),
            )
        }),
{
    let after = run.place(chunk);
    assert(after.out.take(run.out.len() as int) =~= run.out);
}

/// When a chunk cannot be placed: exactly if its block has no such place, a
/// counter would overflow, or the block would be ended with a place still empty;
/// and then nothing changes and nothing is sent.
pub proof fn law_faults_change_nothing(run: Run, chunk: EncryptedChunkView)
    requires
        run.fault is None,
        run.m.blocks.contains_key(home(chunk)),
        run.m.blocks[home(chunk)] is Open,
    ensures
        ({
            let b = run.m.blocks[home(chunk)]->Open_0;
            let bytes = run.m.bytes_sent + chunk.bytes;
            let outside = place_of(chunk) >= b.packets.len();
            let overflow = {
                ||| run.m.packets_sent >= u64::MAX
                ||| bytes > u64::MAX
                ||| bytes >= run.m.next_print && run.m.next_print + 100 * 1024 * 1024 > u64::MAX
                ||| b.sent >= usize::MAX
            };
            let gap = b.sent + 1 == b.total && !b.end_emitted && exists|i: int|
                0 <= i < b.total && i < b.packets.len() && i != place_of(chunk)
                    && #[trigger] b.packets[i] is None;
            let fault = run.place(chunk).fault;
            &&& fault == Some(SendFault::PacketOutOfRange) <==> outside
            &&& fault == Some(SendFault::CounterOverflow) <==> !outside && overflow
            &&& fault == Some(SendFault::IncompleteBlock) <==> !outside && !overflow && gap
            &&& fault is None <==> !outside && !overflow && !gap
            &&& fault == run.m.place_fault(chunk)
            &&& fault is Some ==> run.place(chunk).m == run.m && run.place(chunk).out == run.out
        }),
{
    let b = run.m.blocks[home(chunk)]->Open_0;
    let at = place_of(chunk) as int;
    if at < b.packets.len() {
        let placed = b.place(place_of(chunk), chunk.packet);
        assert(forall|i: int|
            0 <= i < b.packets.len() && i != at ==> #[trigger] placed.packets[i] == b.packets[i]);
        if exists|i: int|
            0 <= i < b.total && i < b.packets.len() && i != at && #[trigger] b.packets[i] is None {
            let i = choose|i: int|
                0 <= i < b.total && i < b.packets.len() && i != at
                    && #[trigger] b.packets[i] is None;
            assert(placed.packets[i] is None);
        } else {
            assert forall|i: int| 0 <= i < placed.total && i < placed.packets.len() implies
                #[trigger] placed.packets[i] is Some by {
                if i != at {
                    assert(b.packets[i] is Some);
                }
            }
        }
    }
}

/// What becomes of a chunk: it is placed if its block is open; if its block is
/// new, the block is opened for it while there is room, and else it waits; behind
/// the chunks that wait already it waits too; and if its block is resolved it is
/// dropped.  A chunk that waits or is dropped sends nothing, and changes no other
/// block and no counter.
pub proof fn law_chunks_find_their_block(run: Run, chunk: EncryptedChunkView, other: u32)
    requires
        run.fault is None,
    ensures
        ({
            let after = run.accept(chunk);
            let id = home(chunk);
            let seen = run.m.blocks.contains_key(id);
            let room = run.m.open_slots < run.m.pipeline_depth;
            let waits = !seen && !room || seen && run.m.blocks[id] is Pending;
            &&& seen && run.m.blocks[id] is Open ==> after == run.place(chunk)
            &&& !seen && room ==> after == run.opened(id).place(chunk)
            &&& seen && run.m.blocks[id] is Resolved ==> after == run
            &&& waits ==> {
                let now = after.m.blocks[id]->Pending_0;
                &&& after.out == run.out
                &&& after.fault is None
                &&& after.m == (ManagerView { blocks: after.m.blocks, ..run.m })
                &&& after.m.blocks.contains_key(id) && after.m.blocks[id] is Pending
                &&& now.last() == chunk
                &&& now.drop_last() == if seen {
                    run.m.blocks[id]->Pending_0
                } else {
                    Seq::empty()
                }
                &&& now.len() > 0
                &&& other != id ==> {
                    &&& after.m.blocks.contains_key(other) == run.m.blocks.contains_key(other)
                    &&& after.m.blocks.contains_key(other) ==> after.m.blocks[other]
                        == run.m.blocks[other]
                }
            }
        }),
{
    let id = home(chunk);
    if run.m.blocks.contains_key(id) {
        if let SlotView::Pending(chunks) = run.m.blocks[id] {
            assert(chunks.push(chunk).drop_last() =~= chunks);
        }
    } else {
        assert(seq![chunk].drop_last() =~= Seq::empty());
    }
}

/// Which block is opened next: the one with the smallest id among all that wait,
/// and none only if none waits.
pub proof fn law_smallest_waiting_block_is_first(blocks: Map<u32, SlotView>, id: u32)
    ensures
        first_pending(blocks) == Some(id) <==> {
            &&& blocks.contains_key(id) && blocks[id] is Pending
            &&& forall|other: u32|
                #![trigger blocks.contains_key(other)]
                blocks.contains_key(other) && blocks[other] is Pending ==> id <= other
        },
        first_pending(blocks) is None ==> !(blocks.contains_key(id) && blocks[id] is Pending),
{
    if is_pending(blocks, id) {
        lemma_some_block_is_first(blocks, id);
    }
    if first_pending(blocks) is Some {
        let chosen = first_pending(blocks)->0;
        assert(is_first_pending(blocks, chosen));
        assert forall|other: u32|
            #![trigger blocks.contains_key(other)]
            blocks.contains_key(other) && blocks[other] is Pending implies chosen <= other by {
            assert(is_pending(blocks, other));
        }
        if is_pending(blocks, id) && forall|other: u32|
            #![trigger blocks.contains_key(other)]
            blocks.contains_key(other) && blocks[other] is Pending ==> id <= other {
            assert(is_pending(blocks, chosen));
            assert(blocks.contains_key(chosen));
        }
    }
}

/// Chunks are placed one after the other, every one of them, in their order.
pub proof fn law_chunks_are_placed_in_turn(
    run: Run,
    chunks: Seq<EncryptedChunkView>,
    chunk: EncryptedChunkView,
)
    ensures
        run.place_all(Seq::empty()) == run,
        run.place_all(chunks.push(chunk)) == run.place_all(chunks).place(chunk),
{
    assert(chunks.push(chunk).drop_last() =~= chunks);
}

/// How waiting blocks are opened: while there is room and no fault, the one with
/// the smallest id is opened and all of its chunks are placed, and so on with
/// what waits then; without room, after a fault, or if nothing waits, nothing
/// happens.
pub proof fn law_drain_goes_on_block_by_block(run: Run)
    requires
        run.m.wf(),
    ensures
        run.fault is Some || run.m.open_slots >= run.m.pipeline_depth || first_pending(
            run.m.blocks,
        ) is None ==> run.drain() == run,
        run.fault is None && run.m.open_slots < run.m.pipeline_depth ==> (first_pending(
            run.m.blocks,
        ) matches Some(id) ==> run.drain() == run.opened(id).place_all(
            run.m.blocks[id]->Pending_0,
        ).drain()),
{
    if run.fault is None && run.m.open_slots < run.m.pipeline_depth {
        if let Some(id) = first_pending(run.m.blocks) {
            assert(is_first_pending(run.m.blocks, id));
            lemma_open_pending_grows(run, id);
            let next = run.open_pending(id);
            let left = (run.m.pipeline_depth - run.m.open_slots - 1) as nat;
            assert(run.drain() == next.drain_up_to(left));
        }
    }
}

/// What a report of a complete block changes: the block is resolved, whatever it
/// was before, an open one gives its slot back, and the first report about it
/// counts.  Nothing else changes, and nothing is sent.
pub proof fn law_reports_resolve_their_block(run: Run, id: u32, other: u32)
    requires
        run.m.wf(),
    ensures
        ({
            let after = run.resolved(id);
            let seen = run.m.blocks.contains_key(id);
            let again = seen && run.m.blocks[id] is Resolved;
            let was_open = seen && run.m.blocks[id] is Open;
            &&& after.out == run.out
            &&& after.fault == run.fault
            &&& after.m.blocks.contains_key(id) && after.m.blocks[id] is Resolved
            &&& other != id ==> {
                &&& after.m.blocks.contains_key(other) == run.m.blocks.contains_key(other)
                &&& after.m.blocks.contains_key(other) ==> after.m.blocks[other]
                    == run.m.blocks[other]
            }
            &&& after.m == (ManagerView {
                blocks: after.m.blocks,
                open_slots: after.m.open_slots,
                completed: after.m.completed,
                ..run.m
            })
            &&& after.m.open_slots == run.m.open_slots - if was_open { 1int } else { 0 }
            &&& after.m.completed == run.m.completed + if again { 0int } else { 1 }
        }),
        run.m.prior(id) == Prior::Unseen <==> !run.m.blocks.contains_key(id),
        run.m.prior(id) == Prior::AlreadyResolved <==> run.m.blocks.contains_key(id)
            && run.m.blocks[id] is Resolved,
        run.m.prior(id) == Prior::WasOpen <==> run.m.blocks.contains_key(id)
            && run.m.blocks[id] is Open,
        run.m.blocks.contains_key(id) && run.m.blocks[id] is Pending ==> run.m.prior(id)
            == Prior::WasPending((run.m.blocks[id]->Pending_0).len() as usize),
{
    lemma_resolve_keeps_wf(run.m, id);
}

/// However many packets of an open block are reported as missing: every one that
/// is cached is sent again, nothing else is, and as many datagrams go out as the
/// report has ids with a cached packet.  Of a block that is not open nothing is
/// sent again.
pub proof fn law_all_missing_packets_are_resent(m: ManagerView, id: u32, missing: Seq<u16>)
    ensures
        !(m.blocks.contains_key(id) && m.blocks[id] is Open) ==> m.resend(id, missing).len() == 0,
        m.blocks.contains_key(id) && m.blocks[id] is Open ==> {
            let packets = (m.blocks[id]->Open_0).packets;
            &&& forall|i: int|
                0 <= i < missing.len() && (#[trigger] missing[i] as int) < packets.len()
                    && packets[missing[i] as int] is Some ==> m.resend(id, missing).contains(
                    packets[missing[i] as int]->0,
                )
            &&& forall|packet: Seq<u8>| #[trigger]
                m.resend(id, missing).contains(packet) ==> exists|place: u16| #[trigger]
                    missing.contains(place) && (place as int) < packets.len()
                        && packets[place as int] == Some(packet)
            &&& m.resend(id, missing).len() == missing.filter(
                |place: u16| (place as int) < packets.len() && packets[place as int] is Some,
            ).len()
        },
{
    if m.blocks.contains_key(id) && m.blocks[id] is Open {
        law_all_requested_packets_are_served((m.blocks[id]->Open_0).packets, missing);
    }
}

/// The answer to a longer report is that to the shorter one, and behind it the
/// packet that the additional id names, if it is cached.
pub proof fn law_missing_packets_are_resent_in_order(
    m: ManagerView,
    id: u32,
    missing: Seq<u16>,
    place: u16,
)
    requires
        m.blocks.contains_key(id),
        m.blocks[id] is Open,
    ensures
        m.resend(id, Seq::empty()).len() == 0,
        ({
            let packets = (m.blocks[id]->Open_0).packets;
            m.resend(id, missing.push(place)) == if (place as int) < packets.len()
                && packets[place as int] is Some {
                m.resend(id, missing).push(packets[place as int]->0)
            } else {
                m.resend(id, missing)
            }
        }),
{
    law_requests_are_served_id_by_id((m.blocks[id]->Open_0).packets, missing, place);
}

/// What a report of missing packets changes: the datagrams that answer it are
/// asked for behind all else, each once and in order; the scheduler stays as it
/// was.
pub proof fn law_resends_are_asked_for(run: Run, id: u32, missing: Seq<u16>)
    ensures
        ({
            let after = run.resent(id, missing);
            let datagrams = run.m.resend(id, missing);
            let n = run.out.len() as int;
            &&& after.m == run.m
            &&& after.fault == run.fault
            &&& after.out.len() == n + datagrams.len()
            &&& after.out.take(n) == run.out
            &&& forall|i: int|
                0 <= i < datagrams.len() ==> after.out[n + i] == ActionView::Resend(
                    #[trigger] datagrams[i],
                )
        }),
{
    let after = run.resent(id, missing);
    assert(after.out.take(run.out.len() as int) =~= run.out);
}

/// What is done with an event, and what is answered: a chunk is taken in; a
/// report of missing packets is answered with their number; and a report of a
/// complete block with where the block stood.
pub proof fn law_events_are_answered(run: Run, event: SenderEvent)
    ensures
        match event {
            SenderEvent::Chunk(chunk) => {
                &&& run.event(event) == run.accept(chunk@)
                &&& run.m.reply(event) == EventReply::Taken
            },
            SenderEvent::Ack(BlockAck::Missing { block_id, missing }) => {
                &&& run.event(event) == run.resent(block_id, missing@)
                &&& run.m.reply(event) == EventReply::Resent(
                    run.m.resend(block_id, missing@).len() as usize,
                )
            },
            SenderEvent::Ack(BlockAck::Complete { block_id }) => {
                &&& run.event(event) == run.resolved(block_id)
                &&& run.m.reply(event) == EventReply::Resolved(run.m.prior(block_id))
            },
        },
{
}

/// After every input waiting blocks are opened, and before that an event is dealt
/// with.
pub proof fn law_inputs_end_in_a_drain(run: Run, event: SenderEvent)
    ensures
        run.advance(Input::Begin) == run.drain(),
        run.advance(Input::Closed) == run.drain(),
        run.advance(Input::Event(event)) == run.event(event).drain(),
{
}

/// How the work goes on: it is finished exactly when as many blocks are resolved
/// as the file has; else it is lost exactly if no event will come any more.  What
/// is then reported is what is left: the blocks that are not resolved, those that
/// are open, those that wait, and the chunks that wait in them.
pub proof fn law_status_tells_what_is_left(m: ManagerView, closed: bool)
    requires
        m.wf(),
        m.total_blocks <= u32::MAX,
        m.pipeline_depth <= usize::MAX,
    ensures
        m.finished() <==> resolved_ids(m.blocks).len() >= m.total_blocks,
        m.status(closed) == Status::Finished <==> m.completed >= m.total_blocks,
        m.status(closed) == Status::Waiting <==> m.completed < m.total_blocks && !closed,
        m.completed < m.total_blocks && closed ==> (m.status(closed) matches Status::Lost(report) && {
            &&& report.unresolved == m.total_blocks - m.completed
            &&& report.total_blocks == m.total_blocks
            &&& report.open_slots == m.open_slots
            &&& report.stuck_pending_blocks == pending_ids(m.blocks).len() as usize
            &&& report.stuck_pending == waiting_at(m.blocks, pending_ids(m.blocks)) as u128
        }),
        m.completed < m.total_blocks ==> m.status(true) == Status::Lost(m.lost()),
{
}

/// The chunks that wait are counted block by block, each with all of its chunks.
pub proof fn law_waiting_chunks_are_counted(
    blocks: Map<u32, SlotView>,
    ids: Set<u32>,
    id: u32,
)
    requires
        ids.finite(),
        !ids.contains(id),
    ensures
        waiting_at(blocks, Set::empty()) == 0,
        waiting_at(blocks, ids.insert(id)) == waiting_at(blocks, ids)
            + blocks[id]->Pending_0.len(),
{
    let f = |n: nat, id: u32| n + blocks[id]->Pending_0.len();
    vstd::set::fold::lemma_fold_empty(0nat, f);
    vstd::set::fold::lemma_fold_insert(ids, 0nat, f, id);
}

/// Every block that has been seen is open, waiting or resolved, and in the list
/// of that state and no other.
pub proof fn law_blocks_are_listed_by_state(blocks: Map<u32, SlotView>, id: u32)
    ensures
        open_ids(blocks).contains(id) <==> blocks.contains_key(id) && blocks[id] is Open,
        pending_ids(blocks).contains(id) <==> blocks.contains_key(id) && blocks[id] is Pending,
        resolved_ids(blocks).contains(id) <==> blocks.contains_key(id) && blocks[id] is Resolved,
{
}

/// A block of which every place holds a packet is fully cached, and no other.
pub proof fn law_cached_blocks_have_no_gap(b: BlockView)
    requires
        b.packets.len() == b.total,
    ensures
        b.all_cached() <==> forall|i: int|
            0 <= i < b.packets.len() ==> #[trigger] b.packets[i] is Some,
        BlockView::fresh(b.total).packets.len() == b.total,
        forall|i: int|
            0 <= i < b.total ==> #[trigger] BlockView::fresh(b.total).packets[i] is None,
        BlockView::fresh(b.total).sent == 0,
        !BlockView::fresh(b.total).end_emitted,
{
}

/// The mathematical forms keep every action, and the results of a run are all of
/// the actions, in order, the scheduler and the fault.
pub proof fn law_runs_are_seen_whole(
    run: Run,
    m: ManagerView,
    out: Seq<SendAction>,
    fault: Option<SendFault>,
)
    ensures
        run.ends_as(m, out, fault) <==> {
            &&& m == run.m
            &&& fault == run.fault
            &&& out.len() == run.out.len()
            &&& forall|i: int|
                0 <= i < out.len() ==> (match #[trigger] out[i] {
                    SendAction::Data(d) => run.out[i] == ActionView::Data(d@),
                    SendAction::BlockEnd(d) => run.out[i] == ActionView::BlockEnd(d@),
                    SendAction::Resend(d) => run.out[i] == ActionView::Resend(d@),
                    SendAction::Progress(n) => run.out[i] == ActionView::Progress(n),
                })
        },
        Run::from(m, out).m == m,
        Run::from(m, out).fault is None,
        Run::from(m, out).ends_as(m, out, None),
{
    if run.ends_as(m, out, fault) {
        assert forall|i: int| 0 <= i < out.len() implies (match #[trigger] out[i] {
            SendAction::Data(d) => run.out[i] == ActionView::Data(d@),
            SendAction::BlockEnd(d) => run.out[i] == ActionView::BlockEnd(d@),
            SendAction::Resend(d) => run.out[i] == ActionView::Resend(d@),
            SendAction::Progress(n) => run.out[i] == ActionView::Progress(n),
        }) by {
            assert(actions_view(out)[i] == out[i]@);
        }
    }
    if out.len() == run.out.len() && forall|i: int|
        0 <= i < out.len() ==> (match #[trigger] out[i] {
            SendAction::Data(d) => run.out[i] == ActionView::Data(d@),
            SendAction::BlockEnd(d) => run.out[i] == ActionView::BlockEnd(d@),
            SendAction::Resend(d) => run.out[i] == ActionView::Resend(d@),
            SendAction::Progress(n) => run.out[i] == ActionView::Progress(n),
        }) {
        assert forall|i: int| 0 <= i < out.len() implies actions_view(out)[i] == run.out[i] by {
            assert(actions_view(out)[i] == out[i]@);
        }
        assert(actions_view(out) =~= run.out);
    }
}

/// A result reports the fault that it holds, and no other.
pub proof fn law_results_report_their_fault(fault: SendFault, reply: EventReply)
    ensures
        fault_of(Err::<EventReply, SendFault>(fault)) == Some(fault),
        fault_of(Ok::<EventReply, SendFault>(reply)) is None,
        fault_of(Err::<(), SendFault>(fault)) == Some(fault),
        fault_of(Ok::<(), SendFault>(())) is None,
{
}

/// After a fault no chunk is placed and no block is opened any more.
pub proof fn law_nothing_follows_a_fault(run: Run, chunk: EncryptedChunkView, steps: Seq<Step>)
    requires
        run.fault is Some,
    ensures
        run.place(chunk) == run,
        run.drain() == run,
        run.after(steps) == run,
    decreases steps.len(),
{
    if steps.len() > 0 {
        law_nothing_follows_a_fault(run, chunk, steps.drop_last());
    }
}

} // verus!
