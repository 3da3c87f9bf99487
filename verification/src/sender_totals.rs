//! What the sender's counters add up to.

use vstd::prelude::*;
#[allow(unused_imports)]
use crate::fileio::{chunks_in, file_chunk, joined, law_chunks_make_the_file};
#[allow(unused_imports)]
use crate::pipeline::EncryptedChunkView;
#[allow(unused_imports)]
use crate::protocol::block_end_bytes;
#[allow(unused_imports)]
use crate::sender::{
    first_pending, home, is_first_pending, is_open, is_pending, place_of, resend_actions,
    ActionView, ManagerView, Run,
};
#[allow(unused_imports)]
use crate::sender_laws::{
    came, each_comes_once, filled, fresh_run, id_at, is_resolved, law_finished_means_all_resolved,
    law_invariant_holds, law_nothing_is_taken_back, lemma_drain_up_to_tidy, lemma_history_tidy,
    lemma_open_pending_grows, lemma_place_is_in_block, tidy, tidy_slot, Step,
};
#[allow(unused_imports)]
use crate::transport::{
    block_count, block_index, block_len, law_block_chunk_inverse, law_blocks_are_not_empty,
    law_place_exists, packet_index,
};

verus! {

// ---------------------------------------------------------------------------
// The chunks that are placed
// ---------------------------------------------------------------------------

/// The file bytes of a list of chunks.
pub open spec fn bytes_of(chunks: Seq<EncryptedChunkView>) -> nat
    decreases chunks.len(),
{
    if chunks.len() == 0 {
        0
    } else {
        bytes_of(chunks.drop_last()) + chunks.last().bytes as nat
    }
}

/// The packets of a list of chunks.
pub open spec fn packets_of(chunks: Seq<EncryptedChunkView>) -> Seq<Seq<u8>> {
    chunks.map_values(|c: EncryptedChunkView| c.packet)
}

/// The packets that a list of actions sends for the first time, in order.
pub open spec fn data_of(actions: Seq<ActionView>) -> Seq<Seq<u8>>
    decreases actions.len(),
{
    if actions.len() == 0 {
        Seq::empty()
    } else {
        let init = data_of(actions.drop_last());
        match actions.last() {
            ActionView::Data(packet) => init.push(packet),
            _ => init,
        }
    }
}

impl Run {
    /// The chunk, if placing it into its open block is no fault.
    pub open spec fn placed_one(self, chunk: EncryptedChunkView) -> Seq<EncryptedChunkView> {
        if self.fault is None && self.m.place_fault(chunk) is None {
            seq![chunk]
        } else {
            Seq::empty()
        }
    }

    /// Those of the chunks that are placed into their open block.
    pub open spec fn placed_all(self, chunks: Seq<EncryptedChunkView>) -> Seq<EncryptedChunkView>
        decreases chunks.len(),
    {
        if chunks.len() == 0 {
            Seq::empty()
        } else {
            self.placed_all(chunks.drop_last()) + self.place_all(chunks.drop_last()).placed_one(
                chunks.last(),
            )
        }
    }

    /// The chunks that are placed when up to `slots` waiting blocks are opened.
    pub open spec fn placed_by_drain(self, slots: nat) -> Seq<EncryptedChunkView>
        decreases slots,
    {
        if slots == 0 || self.fault is Some {
            Seq::empty()
        } else {
            match first_pending(self.m.blocks) {
                None => Seq::empty(),
                Some(id) => self.opened(id).placed_all(self.m.blocks[id]->Pending_0)
                    + self.open_pending(id).placed_by_drain((slots - 1) as nat),
            }
        }
    }

    /// The chunks that a step places into open blocks.
    pub open spec fn placed_by(self, step: Step) -> Seq<EncryptedChunkView> {
        if self.fault is Some {
            Seq::empty()
        } else {
            match step {
                Step::Chunk(chunk) => {
                    let id = home(chunk);
                    if is_open(self.m.blocks, id) {
                        self.placed_one(chunk)
                    } else if !self.m.blocks.contains_key(id) && self.m.open_slots
                        < self.m.pipeline_depth {
                        self.opened(id).placed_one(chunk)
                    } else {
                        Seq::empty()
                    }
                },
                Step::Drain => if self.m.open_slots < self.m.pipeline_depth {
                    self.placed_by_drain((self.m.pipeline_depth - self.m.open_slots) as nat)
                } else {
                    Seq::empty()
                },
                _ => Seq::empty(),
            }
        }
    }

    /// The chunks that a history of steps places into open blocks, in order.
    pub open spec fn placed_during(self, steps: Seq<Step>) -> Seq<EncryptedChunkView>
        decreases steps.len(),
    {
        if steps.len() == 0 {
            Seq::empty()
        } else {
            self.placed_during(steps.drop_last()) + self.after(steps.drop_last()).placed_by(
                steps.last(),
            )
        }
    }
}

// ---------------------------------------------------------------------------
// The counters count them
// ---------------------------------------------------------------------------

/// Between two moments of a run exactly these chunks were placed: the counters
/// have grown by them, and their packets have been sent for the first time.
pub open spec fn accounts(run: Run, later: Run, placed: Seq<EncryptedChunkView>) -> bool {
    &&& later.m.bytes_sent == run.m.bytes_sent + bytes_of(placed)
    &&& later.m.packets_sent == run.m.packets_sent + placed.len()
    &&& data_of(later.out) == data_of(run.out) + packets_of(placed)
}

proof fn lemma_bytes_of_concat(a: Seq<EncryptedChunkView>, b: Seq<EncryptedChunkView>)
    ensures
        bytes_of(a + b) == bytes_of(a) + bytes_of(b),
    decreases b.len(),
{
    if b.len() == 0 {
        assert(a + b =~= a);
    } else {
        assert((a + b).drop_last() =~= a + b.drop_last());
        lemma_bytes_of_concat(a, b.drop_last());
    }
}

proof fn lemma_data_of_concat(a: Seq<ActionView>, b: Seq<ActionView>)
    ensures
        data_of(a + b) == data_of(a) + data_of(b),
    decreases b.len(),
{
    if b.len() == 0 {
        assert(a + b =~= a);
        assert(data_of(a + b) =~= data_of(a) + data_of(b));
    } else {
        assert((a + b).drop_last() =~= a + b.drop_last());
        lemma_data_of_concat(a, b.drop_last());
        assert(data_of(a + b) =~= data_of(a) + data_of(b));
    }
}

proof fn lemma_data_of_one(action: ActionView)
    ensures
        data_of(seq![action]) == match action {
            ActionView::Data(packet) => seq![packet],
            _ => Seq::empty(),
        },
{
    reveal_with_fuel(data_of, 2);
    assert(seq![action].drop_last() =~= Seq::empty());
    if let ActionView::Data(packet) = action {
        assert(Seq::<Seq<u8>>::empty().push(packet) =~= seq![packet]);
    }
}

proof fn lemma_resends_are_no_data(datagrams: Seq<Seq<u8>>)
    ensures
        data_of(resend_actions(datagrams)) == Seq::<Seq<u8>>::empty(),
    decreases datagrams.len(),
{
    if datagrams.len() > 0 {
        assert(resend_actions(datagrams).drop_last() =~= resend_actions(datagrams.drop_last()));
        lemma_resends_are_no_data(datagrams.drop_last());
    }
}

proof fn lemma_accounts_transitive(
    a: Run,
    b: Run,
    c: Run,
    first: Seq<EncryptedChunkView>,
    second: Seq<EncryptedChunkView>,
)
    requires
        accounts(a, b, first),
        accounts(b, c, second),
    ensures
        accounts(a, c, first + second),
{
    lemma_bytes_of_concat(first, second);
    assert(packets_of(first + second) =~= packets_of(first) + packets_of(second));
    assert(data_of(c.out) =~= data_of(a.out) + packets_of(first + second));
}

proof fn lemma_accounts_nothing(run: Run, later: Run)
    requires
        later.m.bytes_sent == run.m.bytes_sent,
        later.m.packets_sent == run.m.packets_sent,
        later.out == run.out,
    ensures
        accounts(run, later, Seq::empty()),
{
    assert(packets_of(Seq::empty()) =~= Seq::<Seq<u8>>::empty());
    assert(data_of(later.out) =~= data_of(run.out) + packets_of(Seq::empty()));
}

proof fn lemma_place_accounts(run: Run, chunk: EncryptedChunkView)
    ensures
        accounts(run, run.place(chunk), run.placed_one(chunk)),
{
    if run.fault is None && run.m.place_fault(chunk) is None {
        let bytes = run.m.bytes_sent + chunk.bytes;
        let block = run.m.block_for(chunk);
        let new = run.m.place_actions(chunk);
        let data = ActionView::Data(chunk.packet);
        let report = ActionView::Progress(bytes as u64);
        let end = ActionView::BlockEnd(block_end_bytes(home(chunk), block.total as u32));
        let a = seq![data];
        let b = if bytes >= run.m.next_print {
            seq![report]
        } else {
            Seq::empty()
        };
        let c = if block.end_due() {
            seq![end]
        } else {
            Seq::empty()
        };
        assert(new == a + b + c);
        lemma_data_of_concat(run.out, new);
        lemma_data_of_concat(a + b, c);
        lemma_data_of_concat(a, b);
        lemma_data_of_one(data);
        lemma_data_of_one(report);
        lemma_data_of_one(end);
        assert(data_of(Seq::empty()) =~= Seq::<Seq<u8>>::empty());
        reveal_with_fuel(bytes_of, 2);
        assert(seq![chunk].drop_last() =~= Seq::empty());
        assert(packets_of(seq![chunk]) =~= seq![chunk.packet]);
        assert(data_of(new) =~= seq![chunk.packet]);
    } else {
        lemma_accounts_nothing(run, run.place(chunk));
    }
}

proof fn lemma_place_all_accounts(run: Run, chunks: Seq<EncryptedChunkView>)
    ensures
        accounts(run, run.place_all(chunks), run.placed_all(chunks)),
        run.place_all(chunks).fault is None ==> run.placed_all(chunks) == chunks,
    decreases chunks.len(),
{
    if chunks.len() == 0 {
        lemma_accounts_nothing(run, run);
        assert(chunks =~= Seq::empty());
    } else {
        let init = chunks.drop_last();
        let mid = run.place_all(init);
        lemma_place_all_accounts(run, init);
        lemma_place_accounts(mid, chunks.last());
        lemma_accounts_transitive(
            run,
            mid,
            run.place_all(chunks),
            run.placed_all(init),
            mid.placed_one(chunks.last()),
        );
        assert(init + seq![chunks.last()] =~= chunks);
    }
}

proof fn lemma_drain_accounts(run: Run, slots: nat)
    ensures
        accounts(run, run.drain_up_to(slots), run.placed_by_drain(slots)),
    decreases slots,
{
    if slots == 0 || run.fault is Some || first_pending(run.m.blocks) is None {
        lemma_accounts_nothing(run, run);
    } else {
        let id = first_pending(run.m.blocks)->0;
        let chunks = run.m.blocks[id]->Pending_0;
        let opened = run.opened(id);
        let next = run.open_pending(id);
        lemma_place_all_accounts(opened, chunks);
        assert(accounts(run, next, opened.placed_all(chunks)));
        lemma_drain_accounts(next, (slots - 1) as nat);
        lemma_accounts_transitive(
            run,
            next,
            run.drain_up_to(slots),
            opened.placed_all(chunks),
            next.placed_by_drain((slots - 1) as nat),
        );
    }
}

proof fn lemma_step_accounts(run: Run, step: Step)
    ensures
        accounts(run, run.step(step), run.placed_by(step)),
{
    let later = run.step(step);
    if run.fault is Some {
        lemma_accounts_nothing(run, later);
    } else {
        match step {
            Step::Chunk(chunk) => {
                let id = home(chunk);
                if is_open(run.m.blocks, id) {
                    lemma_place_accounts(run, chunk);
                } else if !run.m.blocks.contains_key(id) && run.m.open_slots
                    < run.m.pipeline_depth {
                    lemma_place_accounts(run.opened(id), chunk);
                } else {
                    lemma_accounts_nothing(run, later);
                }
            },
            Step::Drain => {
                if run.m.open_slots < run.m.pipeline_depth {
                    lemma_drain_accounts(run, (run.m.pipeline_depth - run.m.open_slots) as nat);
                } else {
                    lemma_accounts_nothing(run, later);
                }
            },
            Step::Missing(id, missing) => {
                let new = resend_actions(run.m.resend(id, missing));
                lemma_accounts_nothing(run, run);
                lemma_data_of_concat(run.out, new);
                lemma_resends_are_no_data(run.m.resend(id, missing));
                assert(data_of(later.out) =~= data_of(run.out));
            },
            Step::Resolve(_) => {
                lemma_accounts_nothing(run, later);
            },
        }
    }
}

/// Whatever happens, and whatever is sent again: the bytes sent are those of the
/// chunks that were placed, the packets sent are as many as these chunks, and
/// what was sent for the first time are their packets, in order, each once.
pub proof fn law_counters_count_placed_chunks(run: Run, steps: Seq<Step>)
    ensures
        accounts(run, run.after(steps), run.placed_during(steps)),
    decreases steps.len(),
{
    if steps.len() == 0 {
        lemma_accounts_nothing(run, run);
    } else {
        let init = steps.drop_last();
        let mid = run.after(init);
        law_counters_count_placed_chunks(run, init);
        lemma_step_accounts(mid, steps.last());
        lemma_accounts_transitive(
            run,
            mid,
            run.after(steps),
            run.placed_during(init),
            mid.placed_by(steps.last()),
        );
    }
}

// ---------------------------------------------------------------------------
// A complete run sends the file
// ---------------------------------------------------------------------------

/// The chunk with this id is among the chunks.
pub open spec fn has_id(chunks: Seq<EncryptedChunkView>, id: nat) -> bool {
    exists|i: int| 0 <= i < chunks.len() && (#[trigger] chunks[i]).chunk_id == id
}

/// No two of the chunks have the same id.
pub open spec fn distinct_ids(chunks: Seq<EncryptedChunkView>) -> bool {
    forall|i: int, j: int|
        0 <= i < j < chunks.len() ==> (#[trigger] chunks[i]).chunk_id != (
        #[trigger] chunks[j]).chunk_id
}

/// The chunk counts as many bytes as the file has at its place.
pub open spec fn right_size(chunk: EncryptedChunkView, file: Seq<u8>) -> bool {
    chunk.bytes == file_chunk(file, chunk.chunk_id as nat).len()
}

/// Every chunk of a history counts as many bytes as the file has at its place.
pub open spec fn right_sizes(steps: Seq<Step>, file: Seq<u8>) -> bool {
    forall|i: int|
        0 <= i < steps.len() ==> (#[trigger] steps[i] matches Step::Chunk(c) ==> right_size(
            c,
            file,
        ))
}

/// Block `id` may be reported as complete: its end is out, or it has been
/// reported before.
pub open spec fn may_resolve(m: ManagerView, id: u32) -> bool {
    is_resolved(m.blocks, id) || is_open(m.blocks, id) && (m.blocks[id]->Open_0).end_emitted
}

/// No block is reported as complete before its end has been sent, that is, the
/// receiver gives no block up before it could have received it.
pub open spec fn resolves_ended_blocks(run: Run, steps: Seq<Step>) -> bool {
    forall|i: int|
        0 <= i < steps.len() ==> (#[trigger] steps[i] matches Step::Resolve(id) ==> may_resolve(
            run.after(steps.take(i)).m,
            id,
        ))
}

/// The chunks in `seen` have been placed or wait, each once, and all chunks of
/// resolved blocks are in `seen`.
pub open spec fn settled(
    m: ManagerView,
    placed: Seq<EncryptedChunkView>,
    seen: Set<nat>,
    file: Seq<u8>,
) -> bool {
    &&& distinct_ids(placed)
    &&& forall|i: int|
        0 <= i < placed.len() ==> seen.contains((#[trigger] placed[i]).chunk_id as nat)
            && right_size(placed[i], file)
    &&& forall|id: u32, i: int|
        #![trigger m.blocks[id]->Pending_0[i]]
        is_pending(m.blocks, id) && 0 <= i < (m.blocks[id]->Pending_0).len() ==> !has_id(
            placed,
            (m.blocks[id]->Pending_0[i]).chunk_id as nat,
        ) && right_size(m.blocks[id]->Pending_0[i], file)
    &&& forall|k: nat| #[trigger] seen.contains(k) ==> has_id(placed, k) || waits(m, k)
    &&& forall|id: u32, place: int|
        #![trigger is_resolved(m.blocks, id), id_at(id, place)]
        is_resolved(m.blocks, id) && 0 <= place < block_len(id as nat, m.total_chunks)
            ==> seen.contains(id_at(id, place))
    &&& forall|id: u32| #[trigger]
        is_resolved(m.blocks, id) ==> block_len(id as nat, m.total_chunks) > 0
}

/// The chunk with this id waits at its block.
pub open spec fn waits(m: ManagerView, k: nat) -> bool {
    let id = block_index(k) as u32;
    is_pending(m.blocks, id) && has_id(m.blocks[id]->Pending_0, k)
}

proof fn lemma_has_id_concat(a: Seq<EncryptedChunkView>, b: Seq<EncryptedChunkView>, k: nat)
    ensures
        has_id(a + b, k) <==> has_id(a, k) || has_id(b, k),
{
    if has_id(a, k) {
        let i = choose|i: int| 0 <= i < a.len() && (#[trigger] a[i]).chunk_id == k;
        assert((a + b)[i].chunk_id == k);
    }
    if has_id(b, k) {
        let i = choose|i: int| 0 <= i < b.len() && (#[trigger] b[i]).chunk_id == k;
        assert((a + b)[a.len() + i].chunk_id == k);
    }
    if has_id(a + b, k) {
        let i = choose|i: int| 0 <= i < (a + b).len() && (#[trigger] (a + b)[i]).chunk_id == k;
        if i < a.len() {
            assert(a[i].chunk_id == k);
        } else {
            assert(b[i - a.len()].chunk_id == k);
        }
    }
}

/// Chunks that are new among the placed ones can be placed behind them.
proof fn lemma_distinct_concat(a: Seq<EncryptedChunkView>, b: Seq<EncryptedChunkView>)
    requires
        distinct_ids(a),
        distinct_ids(b),
        forall|i: int| 0 <= i < b.len() ==> !has_id(a, (#[trigger] b[i]).chunk_id as nat),
    ensures
        distinct_ids(a + b),
{
    let all = a + b;
    assert forall|i: int, j: int| 0 <= i < j < all.len() implies (#[trigger] all[i]).chunk_id != (
    #[trigger] all[j]).chunk_id by {
        if i < a.len() && j >= a.len() {
            assert(!has_id(a, b[j - a.len()].chunk_id as nat));
            assert(a[i].chunk_id == all[i].chunk_id);
        }
    }
}

/// Opening a waiting block without a fault settles its chunks.
proof fn lemma_open_pending_settled(
    run: Run,
    id: u32,
    placed: Seq<EncryptedChunkView>,
    seen: Set<nat>,
    file: Seq<u8>,
)
    requires
        run.m.wf(),
        run.fault is None,
        run.m.open_slots < run.m.pipeline_depth,
        is_pending(run.m.blocks, id),
        tidy_slot(run.m, id, seen),
        settled(run.m, placed, seen, file),
        run.open_pending(id).fault is None,
    ensures
        settled(
            run.open_pending(id).m,
            placed + run.opened(id).placed_all(run.m.blocks[id]->Pending_0),
            seen,
            file,
        ),
{
    let chunks = run.m.blocks[id]->Pending_0;
    let later = run.open_pending(id);
    assert(run.m.slot_ok(id));
    lemma_place_all_accounts(run.opened(id), chunks);
    lemma_open_pending_grows(run, id);
    let all = placed + chunks;
    assert forall|i: int| 0 <= i < chunks.len() implies !has_id(
        placed,
        (#[trigger] chunks[i]).chunk_id as nat,
    ) by {
        assert(run.m.blocks[id]->Pending_0[i] == chunks[i]);
    }
    lemma_distinct_concat(placed, chunks);
    let rest = run.m.blocks.remove(id);
    assert forall|other: u32| other != id implies (#[trigger] later.m.blocks.contains_key(other)
        == run.m.blocks.contains_key(other)) && later.m.blocks[other] == run.m.blocks[other] by {
        assert(later.m.blocks.remove(id).contains_key(other) == rest.contains_key(other));
        assert(later.m.blocks.remove(id)[other] == rest[other]);
        assert(rest[other] == run.m.blocks[other]);
    }
    assert forall|i: int| 0 <= i < all.len() implies seen.contains(
        (#[trigger] all[i]).chunk_id as nat,
    ) && right_size(all[i], file) by {
        if i >= placed.len() {
            assert(run.m.blocks[id]->Pending_0[i - placed.len()] == all[i]);
            assert(chunks[i - placed.len()] == all[i]);
        } else {
            assert(placed[i] == all[i]);
        }
    }
    assert forall|other: u32, i: int|
        #![trigger later.m.blocks[other]->Pending_0[i]]
        is_pending(later.m.blocks, other) && 0 <= i < (
        later.m.blocks[other]->Pending_0).len() implies !has_id(
        all,
        (later.m.blocks[other]->Pending_0[i]).chunk_id as nat,
    ) && right_size(later.m.blocks[other]->Pending_0[i], file) by {
        let chunk = later.m.blocks[other]->Pending_0[i];
        assert(later.m.blocks.contains_key(other));
        assert(other != id);
        assert(run.m.blocks[other]->Pending_0[i] == chunk);
        assert(run.m.slot_ok(other));
        assert(home(chunk) == other);
        lemma_has_id_concat(placed, chunks, chunk.chunk_id as nat);
        if has_id(chunks, chunk.chunk_id as nat) {
            let j = choose|j: int|
                0 <= j < chunks.len() && (#[trigger] chunks[j]).chunk_id == chunk.chunk_id as nat;
            assert(home(chunks[j]) == id);
        }
    }
    assert forall|k: nat| #[trigger] seen.contains(k) implies has_id(all, k) || waits(
        later.m,
        k,
    ) by {
        lemma_has_id_concat(placed, chunks, k);
        if !has_id(placed, k) {
            let at = block_index(k) as u32;
            assert(waits(run.m, k));
            if at != id {
                assert(later.m.blocks.contains_key(at) == run.m.blocks.contains_key(at));
                assert(waits(later.m, k));
            }
        }
    }
    assert forall|other: u32| #[trigger] is_resolved(later.m.blocks, other) implies is_resolved(
        run.m.blocks,
        other,
    ) by {
        assert(later.m.blocks.contains_key(other));
        if other == id {
            assert(is_open(later.m.blocks, id));
        }
    }
}

proof fn lemma_drain_settled(
    run: Run,
    slots: nat,
    placed: Seq<EncryptedChunkView>,
    seen: Set<nat>,
    file: Seq<u8>,
)
    requires
        run.m.wf(),
        run.fault is None,
        run.m.open_slots + slots <= run.m.pipeline_depth,
        tidy(run, seen),
        settled(run.m, placed, seen, file),
        run.drain_up_to(slots).fault is None,
    ensures
        settled(run.drain_up_to(slots).m, placed + run.placed_by_drain(slots), seen, file),
    decreases slots,
{
    if slots == 0 || first_pending(run.m.blocks) is None {
        assert(placed + Seq::<EncryptedChunkView>::empty() =~= placed);
    } else {
        let id = first_pending(run.m.blocks)->0;
        assert(is_first_pending(run.m.blocks, id));
        assert(is_pending(run.m.blocks, id));
        assert(tidy_slot(run.m, id, seen));
        lemma_open_pending_grows(run, id);
        let next = run.open_pending(id);
        let first = run.opened(id).placed_all(run.m.blocks[id]->Pending_0);
        assert(next.fault is Some ==> next.drain_up_to((slots - 1) as nat) == next);
        lemma_open_pending_settled(run, id, placed, seen, file);
        lemma_drain_up_to_tidy(run, 1, seen);
        reveal_with_fuel(Run::drain_up_to, 2);
        assert(run.drain_up_to(1) == next);
        lemma_drain_settled(next, (slots - 1) as nat, placed + first, seen, file);
        let second = next.placed_by_drain((slots - 1) as nat);
        assert(placed + first + second =~= placed + (first + second));
    }
}

proof fn lemma_chunk_settled(
    run: Run,
    chunk: EncryptedChunkView,
    placed: Seq<EncryptedChunkView>,
    seen: Set<nat>,
    file: Seq<u8>,
)
    requires
        run.m.wf(),
        run.fault is None,
        settled(run.m, placed, seen, file),
        chunk.chunk_id < run.m.total_chunks,
        !seen.contains(chunk.chunk_id as nat),
        right_size(chunk, file),
        run.accept(chunk).fault is None,
    ensures
        settled(
            run.accept(chunk).m,
            placed + run.placed_by(Step::Chunk(chunk)),
            seen.insert(chunk.chunk_id as nat),
            file,
        ),
{
    let id = home(chunk);
    let key = chunk.chunk_id as nat;
    let later = run.accept(chunk);
    let new = run.placed_by(Step::Chunk(chunk));
    let all = placed + new;
    let more = seen.insert(key);
    lemma_place_is_in_block(chunk, run.m.total_chunks);
    assert(block_index(key) <= key);
    if is_resolved(run.m.blocks, id) {
        assert(seen.contains(id_at(id, place_of(chunk) as int)));
    }
    assert(!has_id(placed, key)) by {
        if has_id(placed, key) {
            let i = choose|i: int| 0 <= i < placed.len() && (#[trigger] placed[i]).chunk_id == key;
            assert(seen.contains(placed[i].chunk_id as nat));
        }
    }
    let goes_out = new.len() > 0;
    if goes_out {
        assert(new == seq![chunk]);
        assert(new[0] == chunk);
        lemma_distinct_concat(placed, new);
    } else {
        assert(all =~= placed);
    }
    assert forall|k: nat| #[trigger] has_id(all, k) == (has_id(placed, k) || (goes_out && k
        == key)) by {
        lemma_has_id_concat(placed, new, k);
        if goes_out && k == key {
            assert(new[0].chunk_id == k);
        }
    }
    assert forall|i: int| 0 <= i < all.len() implies more.contains(
        (#[trigger] all[i]).chunk_id as nat,
    ) && right_size(all[i], file) by {
        if i < placed.len() {
            assert(placed[i] == all[i]);
        }
    }
    assert forall|other: u32, i: int|
        #![trigger later.m.blocks[other]->Pending_0[i]]
        is_pending(later.m.blocks, other) && 0 <= i < (
        later.m.blocks[other]->Pending_0).len() implies !has_id(
        all,
        (later.m.blocks[other]->Pending_0[i]).chunk_id as nat,
    ) && right_size(later.m.blocks[other]->Pending_0[i], file) by {
        let waiting = later.m.blocks[other]->Pending_0[i];
        if other != id {
            assert(run.m.blocks[other]->Pending_0[i] == waiting);
            assert(run.m.blocks.contains_key(other));
            assert(run.m.slot_ok(other));
            assert(home(waiting) == other);
        } else if is_pending(run.m.blocks, id) {
            let chunks = run.m.blocks[id]->Pending_0;
            if i < chunks.len() {
                assert(run.m.blocks[id]->Pending_0[i] == waiting);
            }
        }
    }
    assert forall|k: nat| #[trigger] more.contains(k) implies has_id(all, k) || waits(
        later.m,
        k,
    ) by {
        let at = block_index(k) as u32;
        if k == key {
            if !goes_out {
                let chunks = later.m.blocks[id]->Pending_0;
                assert(is_pending(later.m.blocks, id));
                assert(chunks[chunks.len() - 1] == chunk);
                assert(has_id(chunks, k));
            }
        } else {
            assert(seen.contains(k));
            if !has_id(placed, k) {
                assert(waits(run.m, k));
                if at == id {
                    let chunks = run.m.blocks[id]->Pending_0;
                    let i = choose|i: int|
                        0 <= i < chunks.len() && (#[trigger] chunks[i]).chunk_id == k;
                    assert((later.m.blocks[id]->Pending_0)[i].chunk_id == k);
                }
                assert(waits(later.m, k));
            }
        }
    }
    assert forall|other: u32| #[trigger] is_resolved(later.m.blocks, other) implies is_resolved(
        run.m.blocks,
        other,
    ) by {}
}

proof fn lemma_resolve_settled(
    run: Run,
    id: u32,
    placed: Seq<EncryptedChunkView>,
    seen: Set<nat>,
    file: Seq<u8>,
)
    requires
        run.m.wf(),
        run.fault is None,
        tidy(run, seen),
        settled(run.m, placed, seen, file),
        may_resolve(run.m, id),
    ensures
        settled(run.m.resolve(id), placed, seen, file),
{
    let later = run.m.resolve(id);
    if !is_resolved(run.m.blocks, id) {
        let b = run.m.blocks[id]->Open_0;
        assert(run.m.blocks.contains_key(id));
        assert(run.m.slot_ok(id));
        assert(tidy_slot(run.m, id, seen));
        assert(b.end_emitted);
        assert(b.all_cached());
        assert forall|place: int| 0 <= place < b.total implies seen.contains(
            #[trigger] id_at(id, place),
        ) by {
            assert(b.packets[place] is Some);
            assert(filled(b.packets).contains(place));
        }
        assert forall|k: nat| #[trigger] seen.contains(k) implies has_id(placed, k) || waits(
            later,
            k,
        ) by {
            if !has_id(placed, k) {
                assert(waits(run.m, k));
                assert(waits(later, k));
            }
        }
        assert forall|other: u32, i: int|
            #![trigger later.blocks[other]->Pending_0[i]]
            is_pending(later.blocks, other) && 0 <= i < (
            later.blocks[other]->Pending_0).len() implies !has_id(
            placed,
            (later.blocks[other]->Pending_0[i]).chunk_id as nat,
        ) && right_size(later.blocks[other]->Pending_0[i], file) by {
            assert(run.m.blocks[other]->Pending_0[i] == later.blocks[other]->Pending_0[i]);
            assert(is_pending(run.m.blocks, other));
        }
        assert forall|other: u32, place: int|
            #![trigger is_resolved(later.blocks, other), id_at(other, place)]
            is_resolved(later.blocks, other) && 0 <= place < block_len(
                other as nat,
                later.total_chunks,
            ) implies seen.contains(id_at(other, place)) by {
            if other != id {
                assert(is_resolved(run.m.blocks, other));
            }
        }
        assert forall|other: u32| #[trigger] is_resolved(later.blocks, other) implies block_len(
            other as nat,
            later.total_chunks,
        ) > 0 by {
            if other != id {
                assert(is_resolved(run.m.blocks, other));
            }
        }
    }
}

proof fn lemma_history_settled(
    file: Seq<u8>,
    total_chunks: nat,
    pipeline_depth: nat,
    total_blocks: nat,
    steps: Seq<Step>,
)
    requires
        each_comes_once(steps, total_chunks),
        right_sizes(steps, file),
        resolves_ended_blocks(fresh_run(total_chunks, pipeline_depth, total_blocks), steps),
        fresh_run(total_chunks, pipeline_depth, total_blocks).after(steps).fault is None,
    ensures
        ({
            let start = fresh_run(total_chunks, pipeline_depth, total_blocks);
            settled(start.after(steps).m, start.placed_during(steps), came(steps), file)
        }),
    decreases steps.len(),
{
    let start = fresh_run(total_chunks, pipeline_depth, total_blocks);
    if steps.len() == 0 {
        assert(came(steps) =~= Set::empty());
    } else {
        let init = steps.drop_last();
        let last = steps.last();
        let run = start.after(init);
        let later = start.after(steps);
        assert(forall|i: int| 0 <= i < init.len() ==> #[trigger] init[i] == steps[i]);
        assert(steps[steps.len() - 1] == last);
        assert(steps.take(steps.len() - 1) =~= init);
        assert(resolves_ended_blocks(start, init)) by {
            assert forall|i: int| 0 <= i < init.len() implies (
            #[trigger] init[i] matches Step::Resolve(id) ==> may_resolve(
                start.after(init.take(i)).m,
                id,
            )) by {
                assert(steps[i] == init[i]);
                assert(init.take(i) =~= steps.take(i));
            }
        }
        assert(run.fault is None);
        lemma_history_settled(file, total_chunks, pipeline_depth, total_blocks, init);
        lemma_history_tidy(total_chunks, pipeline_depth, total_blocks, init);
        law_invariant_holds(total_chunks, pipeline_depth, total_blocks, init);
        law_invariant_holds(total_chunks, pipeline_depth, total_blocks, Seq::empty());
        law_nothing_is_taken_back(start, init);
        let placed = start.placed_during(init);
        assert(placed + Seq::<EncryptedChunkView>::empty() =~= placed);
        match last {
            Step::Chunk(chunk) => {
                assert(!came(init).contains(chunk.chunk_id as nat)) by {
                    if came(init).contains(chunk.chunk_id as nat) {
                        let i = choose|i: int|
                            0 <= i < init.len() && (
                            #[trigger] init[i] matches Step::Chunk(c) && c.chunk_id
                                == chunk.chunk_id as nat);
                        assert(steps[i] == init[i]);
                    }
                }
                lemma_chunk_settled(run, chunk, placed, came(init), file);
                lemma_came_push(init, steps);
                assert(came(steps) =~= came(init).insert(chunk.chunk_id as nat));
            },
            _ => {
                lemma_came_push(init, steps);
                assert(came(steps) =~= came(init));
                match last {
                    Step::Drain => {
                        if run.m.open_slots < run.m.pipeline_depth {
                            lemma_drain_settled(
                                run,
                                (run.m.pipeline_depth - run.m.open_slots) as nat,
                                placed,
                                came(init),
                                file,
                            );
                        }
                    },
                    Step::Resolve(id) => {
                        assert(may_resolve(run.m, id));
                        lemma_resolve_settled(run, id, placed, came(init), file);
                    },
                    _ => {},
                }
            },
        }
    }
}

proof fn lemma_came_push(init: Seq<Step>, steps: Seq<Step>)
    requires
        steps.len() > 0,
        init == steps.drop_last(),
    ensures
        forall|k: nat| #[trigger]
            came(steps).contains(k) <==> came(init).contains(k) || (
            steps.last() matches Step::Chunk(c) && c.chunk_id == k),
{
    assert forall|k: nat| #[trigger] came(steps).contains(k) <==> came(init).contains(k) || (
    steps.last() matches Step::Chunk(c) && c.chunk_id == k) by {
        if came(init).contains(k) {
            let i = choose|i: int|
                0 <= i < init.len() && (#[trigger] init[i] matches Step::Chunk(c) && c.chunk_id
                    == k);
            assert(steps[i] == init[i]);
        }
        if came(steps).contains(k) {
            let i = choose|i: int|
                0 <= i < steps.len() && (#[trigger] steps[i] matches Step::Chunk(c) && c.chunk_id
                    == k);
            if i < init.len() {
                assert(init[i] == steps[i]);
            }
        }
        if steps.last() matches Step::Chunk(c) && c.chunk_id == k {
            assert(steps[steps.len() - 1] == steps.last());
        }
    }
}

proof fn lemma_bytes_of_remove(chunks: Seq<EncryptedChunkView>, at: int)
    requires
        0 <= at < chunks.len(),
    ensures
        bytes_of(chunks) == bytes_of(chunks.remove(at)) + chunks[at].bytes,
{
    let front = chunks.take(at);
    let back = chunks.skip(at + 1);
    assert(chunks =~= front + (seq![chunks[at]] + back));
    assert(chunks.remove(at) =~= front + back);
    lemma_bytes_of_concat(front, seq![chunks[at]] + back);
    lemma_bytes_of_concat(seq![chunks[at]], back);
    lemma_bytes_of_concat(front, back);
    reveal_with_fuel(bytes_of, 2);
    assert(seq![chunks[at]].drop_last() =~= Seq::empty());
}

/// Chunks that are all those of the file below `n`, each once, count its bytes.
proof fn lemma_bytes_of_all(chunks: Seq<EncryptedChunkView>, n: nat, file: Seq<u8>)
    requires
        distinct_ids(chunks),
        forall|i: int|
            0 <= i < chunks.len() ==> (#[trigger] chunks[i]).chunk_id < n && right_size(
                chunks[i],
                file,
            ),
        forall|k: nat| k < n ==> #[trigger] has_id(chunks, k),
    ensures
        chunks.len() == n,
        bytes_of(chunks) == joined(|i: nat| file_chunk(file, i), n).len(),
    decreases n,
{
    let pieces = |i: nat| file_chunk(file, i);
    if n == 0 {
        if chunks.len() > 0 {
            assert(chunks[0].chunk_id < 0);
        }
    } else {
        let m = (n - 1) as nat;
        assert(has_id(chunks, m));
        let at = choose|i: int| 0 <= i < chunks.len() && (#[trigger] chunks[i]).chunk_id == m;
        let rest = chunks.remove(at);
        assert(forall|i: int|
            0 <= i < rest.len() ==> #[trigger] rest[i] == if i < at {
                chunks[i]
            } else {
                chunks[i + 1]
            });
        assert forall|i: int| 0 <= i < rest.len() implies (#[trigger] rest[i]).chunk_id < m
            && right_size(rest[i], file) by {
            let j = if i < at {
                i
            } else {
                i + 1
            };
            assert(rest[i] == chunks[j]);
            assert(chunks[j].chunk_id != chunks[at].chunk_id);
        }
        assert forall|k: nat| k < m implies #[trigger] has_id(rest, k) by {
            assert(has_id(chunks, k));
            let j = choose|i: int| 0 <= i < chunks.len() && (#[trigger] chunks[i]).chunk_id == k;
            if j < at {
                assert(rest[j].chunk_id == k);
            } else {
                assert(rest[j - 1].chunk_id == k);
            }
        }
        lemma_bytes_of_all(rest, m, file);
        lemma_bytes_of_remove(chunks, at);
        assert(right_size(chunks[at], file));
        assert(joined(pieces, n) == joined(pieces, m) + pieces(m));
    }
}

/// A complete run sends the file: if no chunk comes twice, and no block is
/// reported as complete before its end has been sent, the work is over only
/// when every chunk has been sent, and the bytes sent are then the size of the
/// file, whatever was sent again.
pub proof fn law_a_complete_run_sends_the_file(
    file: Seq<u8>,
    pipeline_depth: nat,
    steps: Seq<Step>,
)
    requires
        chunks_in(file.len()) <= 0x1_0000_0000,
        each_comes_once(steps, chunks_in(file.len())),
        right_sizes(steps, file),
        ({
            let n = chunks_in(file.len());
            let start = fresh_run(n, pipeline_depth, block_count(n));
            &&& resolves_ended_blocks(start, steps)
            &&& start.after(steps).fault is None
            &&& start.after(steps).m.finished()
        }),
    ensures
        ({
            let n = chunks_in(file.len());
            let m = fresh_run(n, pipeline_depth, block_count(n)).after(steps).m;
            &&& m.bytes_sent == file.len()
            &&& m.packets_sent == n
        }),
{
    let n = chunks_in(file.len());
    let start = fresh_run(n, pipeline_depth, block_count(n));
    let m = start.after(steps).m;
    let placed = start.placed_during(steps);
    lemma_history_settled(file, n, pipeline_depth, block_count(n), steps);
    law_counters_count_placed_chunks(start, steps);
    law_invariant_holds(n, pipeline_depth, block_count(n), steps);
    law_invariant_holds(n, pipeline_depth, block_count(n), Seq::empty());
    law_nothing_is_taken_back(start, steps);
    assert forall|id: u32| #[trigger] is_resolved(m.blocks, id) implies id < m.total_blocks by {
        law_blocks_are_not_empty(id as nat, n);
    }
    law_finished_means_all_resolved(m);
    assert forall|k: nat| k < n implies #[trigger] has_id(placed, k) by {
        let id = block_index(k) as u32;
        law_block_chunk_inverse(k, 0, 0);
        assert(block_index(k) <= k);
        let place = packet_index(k) as int;
        law_place_exists(id as nat, place as nat, n);
        law_blocks_are_not_empty(id as nat, n);
        assert(is_resolved(m.blocks, id));
        assert(id_at(id, place) == k);
        assert(came(steps).contains(k));
        assert(!waits(m, k));
    }
    assert forall|i: int| 0 <= i < placed.len() implies (#[trigger] placed[i]).chunk_id < n
        && right_size(placed[i], file) by {
        let k = placed[i].chunk_id as nat;
        assert(came(steps).contains(k));
        let j = choose|j: int|
            0 <= j < steps.len() && (#[trigger] steps[j] matches Step::Chunk(c) && c.chunk_id == k);
        assert(steps[j] is Chunk);
    }
    lemma_bytes_of_all(placed, n, file);
    law_chunks_make_the_file(file);
}

} // verus!
