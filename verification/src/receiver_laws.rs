//! What holds of the receiver whatever datagrams reach it, and of a chunk on
//! its way from one side to the other.

use vstd::prelude::*;
#[allow(unused_imports)]
use vstd::set_lib::{lemma_len_subset, lemma_subset_equality};
use crate::config::{MAX_BLOCK_RETRY_ROUNDS, PACKETS_PER_BLOCK};
#[allow(unused_imports)]
use crate::codec::be_value;
#[allow(unused_imports)]
use crate::crypto::law_decrypt_undoes_encrypt;
#[allow(unused_imports)]
use crate::maps::lemma_ids_below;
#[allow(unused_imports)]
use crate::protocol::{
    block_end_of, data_body_ok, data_packet_bytes, data_packet_of, law_block_end_layout,
    law_data_packet_fields, law_data_packet_round_trip, BlockAckView,
};
#[allow(unused_imports)]
use crate::receiver::{
    ack_for, gives_up, incoming_of, lemma_completed_fits, lemma_in_order, received_packet,
    Incoming, IncomingView, ReceiverView,
};
#[allow(unused_imports)]
use crate::transport::{
    block_count, block_index, block_len, elapsed, law_block_chunk_inverse,
    law_blocks_are_cut_at_multiples, law_missing_lists_every_gap, missing_below, RxStateView,
    RxView,
};
#[allow(unused_imports)]
use crate::worker::{opened, wire_packet, VerifiedView};

verus! {

// ---------------------------------------------------------------------------
// Histories
// ---------------------------------------------------------------------------

/// One thing that can happen to a receiver, with the time of it.
pub enum RxStep {
    /// A datagram arrives.
    Datagram(Seq<u8>, nat),
    /// A packet has been verified.
    Verified(VerifiedView, nat),
    /// A block is checked.
    Check(u32, nat),
}

impl ReceiverView {
    /// The receiver after one more step.
    pub open spec fn step(self, step: RxStep) -> ReceiverView {
        match step {
            RxStep::Datagram(datagram, now) => self.after_datagram(datagram, now),
            RxStep::Verified(p, now) => self.after_verified(p, now),
            RxStep::Check(id, now) => self.after_check(id, now),
        }
    }

    /// The receiver after a history of steps.
    pub open spec fn after(self, steps: Seq<RxStep>) -> ReceiverView
        decreases steps.len(),
    {
        if steps.len() == 0 {
            self
        } else {
            self.after(steps.drop_last()).step(steps.last())
        }
    }

    /// A receiver before its first step.
    pub open spec fn start(expected_chunks: nat) -> ReceiverView {
        ReceiverView { state: RxStateView::start(), expected_chunks }
    }

    /// A place of a tracked block counts as received.
    pub open spec fn has(self, id: u32, place: int) -> bool {
        &&& self.state.blocks.contains_key(id)
        &&& 0 <= place < self.state.blocks[id].received.len()
        &&& self.state.blocks[id].received[place]
    }
}

/// The step reports the packet at this place as verified.
pub open spec fn verifies(step: RxStep, id: u32, place: int) -> bool {
    match step {
        RxStep::Verified(p, _) => p.block_id == id && p.packet_in_block == place,
        _ => false,
    }
}

/// Some step of the history reports the packet at this place as verified.
pub open spec fn was_verified(steps: Seq<RxStep>, id: u32, place: int) -> bool {
    exists|i: int| 0 <= i < steps.len() && verifies(#[trigger] steps[i], id, place)
}

proof fn lemma_step(r: ReceiverView, step: RxStep)
    requires
        r.in_order(),
    ensures
        r.step(step).in_order(),
        r.step(step).expected_chunks == r.expected_chunks,
        r.state.completed.subset_of(r.step(step).state.completed),
        forall|id: u32, place: int| #[trigger]
            r.step(step).has(id, place) ==> r.has(id, place) || verifies(step, id, place),
{
    match step {
        RxStep::Datagram(datagram, now) => {
            lemma_in_order(r, datagram, arbitrary(), 0, now);
        },
        RxStep::Verified(p, now) => {
            lemma_in_order(r, Seq::empty(), p, 0, now);
        },
        RxStep::Check(id, now) => {
            lemma_in_order(r, Seq::empty(), arbitrary(), id, now);
        },
    }
}

/// A block that is done stays done, whatever arrives later, and is not tracked
/// any more: late datagrams never start it again.
pub proof fn law_done_blocks_stay_done(r: ReceiverView, steps: Seq<RxStep>, id: u32)
    requires
        r.in_order(),
    ensures
        r.after(steps).in_order(),
        r.after(steps).expected_chunks == r.expected_chunks,
        r.state.completed.subset_of(r.after(steps).state.completed),
        r.state.completed.contains(id) ==> {
            &&& r.after(steps).state.completed.contains(id)
            &&& !r.after(steps).state.blocks.contains_key(id)
        },
    decreases steps.len(),
{
    if steps.len() > 0 {
        law_done_blocks_stay_done(r, steps.drop_last(), id);
        lemma_step(r.after(steps.drop_last()), steps.last());
    }
}

/// A packet counts as received only if it has been decrypted and verified; the
/// arrival of its datagram is not enough.
pub proof fn law_received_means_verified(
    expected_chunks: nat,
    steps: Seq<RxStep>,
    id: u32,
    place: int,
)
    requires
        ReceiverView::start(expected_chunks).after(steps).has(id, place),
    ensures
        was_verified(steps, id, place),
    decreases steps.len(),
{
    let start = ReceiverView::start(expected_chunks);
    if steps.len() > 0 {
        let init = steps.drop_last();
        let mid = start.after(init);
        law_done_blocks_stay_done(start, init, id);
        lemma_step(mid, steps.last());
        if mid.has(id, place) {
            law_received_means_verified(expected_chunks, init, id, place);
            let i = choose|i: int| 0 <= i < init.len() && verifies(#[trigger] init[i], id, place);
            assert(verifies(steps[i], id, place));
        } else {
            assert(verifies(steps[steps.len() - 1], id, place));
        }
    }
}

/// A block that is reported as complete without being given up has had every
/// one of its packets verified.
pub proof fn law_complete_means_verified(
    expected_chunks: nat,
    steps: Seq<RxStep>,
    id: u32,
    now: nat,
)
    requires
        ReceiverView::start(expected_chunks).after(steps).state.blocks.contains_key(id),
        ({
            let entry = ReceiverView::start(expected_chunks).after(steps).state.tick(id, now);
            ack_for(id, entry) is Complete && !gives_up(entry)
        }),
    ensures
        ({
            let entry = ReceiverView::start(expected_chunks).after(steps).state.blocks[id];
            forall|place: int|
                0 <= place < entry.received.len() ==> #[trigger] was_verified(steps, id, place)
        }),
{
    let r = ReceiverView::start(expected_chunks).after(steps);
    let entry = r.state.blocks[id];
    assert(r.state.tick(id, now).received == entry.received);
    assert forall|place: int| 0 <= place < entry.received.len() implies #[trigger] was_verified(
        steps,
        id,
        place,
    ) by {
        assert(r.state.tick(id, now).received[place]);
        assert(r.has(id, place));
        law_received_means_verified(expected_chunks, steps, id, place);
    }
}

/// A verified packet that comes again changes nothing, and packets can be
/// verified in any order.
pub proof fn law_verification_order_is_free(r: ReceiverView, p: VerifiedView, q: VerifiedView, now: nat)
    ensures
        r.after_verified(p, now).after_verified(p, now) =~~= r.after_verified(p, now),
        r.after_verified(p, now).after_verified(q, now) =~~= r.after_verified(
            q,
            now,
        ).after_verified(p, now),
{
    let once = r.after_verified(p, now);
    assert(once.after_verified(p, now).state.blocks =~~= once.state.blocks);
    assert(once.after_verified(q, now).state.blocks =~~= r.after_verified(
        q,
        now,
    ).after_verified(p, now).state.blocks);
}

// ---------------------------------------------------------------------------
// Missing packets
// ---------------------------------------------------------------------------

/// In a block of at most 2^16 packets the ids reported as missing are exactly
/// the places that have not been received, in ascending order, and a block is
/// complete exactly if nothing is missing.
pub proof fn law_missing_ids(entry: RxView)
    requires
        entry.received.len() <= 0x1_0000,
    ensures
        forall|id: u16|
            entry.missing().contains(id) <==> id < entry.received.len()
                && !#[trigger] entry.received[id as int],
        forall|i: int, j: int|
            0 <= i < j < entry.missing().len() ==> entry.missing()[i] < entry.missing()[j],
        entry.complete() <==> entry.missing().len() == 0,
{
    let n = entry.received.len();
    lemma_missing_below(entry.received, n);
    if entry.missing().len() == 0 {
        assert forall|i: int| 0 <= i < n implies #[trigger] entry.received[i] by {
            if !entry.received[i] {
                assert(missing_below(entry.received, n).contains(i as u16));
            }
        }
    } else {
        let id = entry.missing()[0];
        assert(entry.missing().contains(id));
        assert(!entry.received[id as int]);
    }
}

proof fn lemma_missing_below(bits: Seq<bool>, n: nat)
    requires
        n <= bits.len(),
        n <= 0x1_0000,
    ensures
        forall|id: u16| #[trigger]
            missing_below(bits, n).contains(id) <==> id < n && !bits[id as int],
        forall|i: int, j: int|
            0 <= i < j < missing_below(bits, n).len() ==> missing_below(bits, n)[i]
                < missing_below(bits, n)[j],
    decreases n,
{
    if n > 0 {
        let init = missing_below(bits, (n - 1) as nat);
        let all = missing_below(bits, n);
        lemma_missing_below(bits, (n - 1) as nat);
        assert forall|i: int| 0 <= i < init.len() implies #[trigger] init[i] < n - 1 by {
            assert(init.contains(init[i]));
        }
        assert(forall|i: int| 0 <= i < init.len() ==> all[i] == #[trigger] init[i]);
        assert forall|id: u16| #[trigger] all.contains(id) <==> id < n && !bits[id as int] by {
            if init.contains(id) {
                let k = init.index_of(id);
                assert(all[k] == id);
            }
            if !bits[n - 1] {
                assert(all[init.len() as int] == (n - 1) as u16);
            }
            if all.contains(id) {
                let k = all.index_of(id);
                if k < init.len() {
                    assert(init[k] == id);
                }
            }
        }
    }
}

// ---------------------------------------------------------------------------
// Progress
// ---------------------------------------------------------------------------

impl ReceiverView {
    /// The receiver after a block has been checked at each of these times.
    pub open spec fn after_checks(self, id: u32, times: Seq<nat>) -> ReceiverView
        decreases times.len(),
    {
        if times.len() == 0 {
            self
        } else {
            self.after_checks(id, times.drop_last()).after_check(id, times.last())
        }
    }
}

/// No block can hold up the transfer: checked often enough, it is done, be it
/// complete or given up.
pub proof fn law_every_block_ends(r: ReceiverView, id: u32, times: Seq<nat>)
    requires
        r.in_order(),
        r.state.blocks.contains_key(id),
        r.state.blocks[id].rounds + times.len() > MAX_BLOCK_RETRY_ROUNDS,
    ensures
        r.after_checks(id, times).state.completed.contains(id),
{
    lemma_checks(r, id, times);
}

proof fn lemma_checks(r: ReceiverView, id: u32, times: Seq<nat>)
    requires
        r.state.blocks.contains_key(id),
    ensures
        ({
            let later = r.after_checks(id, times).state;
            later.completed.contains(id) || (later.blocks.contains_key(id)
                && later.blocks[id].rounds == r.state.blocks[id].rounds + times.len() && (
            times.len() > 0 ==> later.blocks[id].rounds <= MAX_BLOCK_RETRY_ROUNDS))
        }),
    decreases times.len(),
{
    if times.len() > 0 {
        lemma_checks(r, id, times.drop_last());
    }
}

/// A block that has been quiet for the idle timeout and the grace period is
/// checked, with or without its end marker, in whatever round; and more rounds
/// never make it wait less, nor longer than both.
pub proof fn law_quiet_blocks_are_checked(
    entry: RxView,
    now: nat,
    grace: nat,
    idle_timeout: nat,
    more_rounds: nat,
)
    requires
        elapsed(entry.last_activity, now) >= grace,
        elapsed(entry.last_activity, now) >= idle_timeout,
        more_rounds >= entry.rounds,
    ensures
        entry.ready(now, grace, idle_timeout),
        entry.wait(grace, idle_timeout) <= (RxView { rounds: more_rounds, ..entry }).wait(
            grace,
            idle_timeout,
        ),
        entry.wait(grace, idle_timeout) <= grace || entry.wait(grace, idle_timeout)
            <= idle_timeout,
{
    let later = RxView { rounds: more_rounds, ..entry };
    assert(later.received == entry.received);
    assert(later.complete() == entry.complete());
    assert(grace * (entry.rounds + 1) <= grace * (more_rounds + 1)) by (nonlinear_arith)
        requires
            more_rounds >= entry.rounds,
    ;
}

// ---------------------------------------------------------------------------
// The end of the work
// ---------------------------------------------------------------------------

/// The block that a step speaks of, if it can start the tracking of one.
pub open spec fn block_of(step: RxStep) -> Option<u32> {
    match step {
        RxStep::Datagram(datagram, _) => match incoming_of(datagram) {
            IncomingView::Ignored => None,
            IncomingView::BlockEnd => Some((block_end_of(datagram.skip(1))->0).0),
            _ => Some(data_packet_of(datagram.skip(1)).block_id),
        },
        RxStep::Verified(p, _) => Some(p.block_id),
        RxStep::Check(_, _) => None,
    }
}

/// Every datagram and every packet of a history is about one of the first `n`
/// blocks.
pub open spec fn about_blocks_below(steps: Seq<RxStep>, n: nat) -> bool {
    forall|i: int|
        0 <= i < steps.len() ==> (block_of(#[trigger] steps[i]) matches Some(id) ==> id < n)
}

/// Only blocks that something was received of are tracked or done.
pub proof fn law_only_seen_blocks_are_tracked(expected_chunks: nat, steps: Seq<RxStep>, n: nat)
    requires
        about_blocks_below(steps, n),
    ensures
        ({
            let state = ReceiverView::start(expected_chunks).after(steps).state;
            &&& forall|id: u32| #[trigger] state.blocks.contains_key(id) ==> id < n
            &&& forall|id: u32| #[trigger] state.completed.contains(id) ==> id < n
        }),
    decreases steps.len(),
{
    if steps.len() > 0 {
        let init = steps.drop_last();
        assert forall|i: int| 0 <= i < init.len() implies (block_of(#[trigger] init[i]) matches Some(
            id,
        ) ==> id < n) by {
            assert(init[i] == steps[i]);
        }
        law_only_seen_blocks_are_tracked(expected_chunks, init, n);
        assert(block_of(steps[steps.len() - 1]) matches Some(id) ==> id < n);
        let mid = ReceiverView::start(expected_chunks).after(init);
        let later = mid.step(steps.last());
        assert forall|id: u32| #[trigger] later.state.blocks.contains_key(id) implies id < n by {
            assert(mid.state.blocks.contains_key(id) || block_of(steps.last()) == Some(id));
        }
        assert forall|id: u32| #[trigger] later.state.completed.contains(id) implies id < n by {
            assert(mid.state.completed.contains(id) || mid.state.blocks.contains_key(id));
        }
    }
}

/// As long as only blocks of the file are done, the transfer is over exactly
/// when every block of the file is.
pub proof fn law_done_means_all_completed(r: ReceiverView)
    requires
        block_count(r.expected_chunks) <= 0x1_0000_0000,
        forall|id: u32| #[trigger]
            r.state.completed.contains(id) ==> id < block_count(r.expected_chunks),
    ensures
        r.done() <==> forall|id: u32|
            id < block_count(r.expected_chunks) ==> #[trigger] r.state.completed.contains(id),
{
    let n = block_count(r.expected_chunks);
    let all = Set::new(|id: u32| id < n);
    lemma_ids_below(n);
    lemma_completed_fits(r.state.completed);
    assert(r.state.completed.subset_of(all));
    lemma_len_subset(r.state.completed, all);
    if r.done() {
        lemma_subset_equality(r.state.completed, all);
        assert forall|id: u32| id < n implies #[trigger] r.state.completed.contains(id) by {
            assert(all.contains(id));
        }
    }
    if forall|id: u32| id < n ==> #[trigger] r.state.completed.contains(id) {
        assert(r.state.completed =~= all);
    }
}

/// The step makes the receiver tell the sender that block `id` is complete.
pub open spec fn reports(r: ReceiverView, step: RxStep, id: u32) -> bool {
    step matches RxStep::Check(checked, now) && checked == id && r.state.blocks.contains_key(id)
        && ack_for(id, r.state.tick(id, now)) is Complete
}

/// How often the sender is told in a history that block `id` is complete.
pub open spec fn reports_in(r: ReceiverView, steps: Seq<RxStep>, id: u32) -> nat
    decreases steps.len(),
{
    if steps.len() == 0 {
        0
    } else {
        let before = reports_in(r, steps.drop_last(), id);
        if reports(r.after(steps.drop_last()), steps.last(), id) {
            before + 1
        } else {
            before
        }
    }
}

/// The blocks that are done are those that the sender has been told are
/// complete, and it is told so once for each of them.
pub proof fn law_each_block_is_reported_once(expected_chunks: nat, steps: Seq<RxStep>, id: u32)
    ensures
        ({
            let start = ReceiverView::start(expected_chunks);
            reports_in(start, steps, id) == if start.after(steps).state.completed.contains(id) {
                1nat
            } else {
                0nat
            }
        }),
    decreases steps.len(),
{
    let start = ReceiverView::start(expected_chunks);
    if steps.len() > 0 {
        let init = steps.drop_last();
        law_each_block_is_reported_once(expected_chunks, init, id);
        law_done_blocks_stay_done(start, init, id);
    }
}

/// If all that arrives is about blocks of the file, the transfer is over exactly
/// when the sender has been told of every block of the file that it is complete.
pub proof fn law_done_means_all_reported(expected_chunks: nat, steps: Seq<RxStep>)
    requires
        block_count(expected_chunks) <= 0x1_0000_0000,
        about_blocks_below(steps, block_count(expected_chunks)),
    ensures
        ({
            let start = ReceiverView::start(expected_chunks);
            start.after(steps).done() <==> forall|id: u32|
                id < block_count(expected_chunks) ==> #[trigger] reports_in(start, steps, id) == 1
        }),
{
    let start = ReceiverView::start(expected_chunks);
    let r = start.after(steps);
    law_done_blocks_stay_done(start, steps, 0);
    law_only_seen_blocks_are_tracked(expected_chunks, steps, block_count(expected_chunks));
    law_done_means_all_completed(r);
    assert forall|id: u32| #[trigger] reports_in(start, steps, id) == if r.state.completed.contains(
        id,
    ) {
        1nat
    } else {
        0nat
    } by {
        law_each_block_is_reported_once(expected_chunks, steps, id);
    }
    if forall|id: u32|
        id < block_count(expected_chunks) ==> #[trigger] reports_in(start, steps, id) == 1 {
        assert forall|id: u32| id < block_count(expected_chunks) implies #[trigger] r.state.completed.contains(
        id) by {
            assert(reports_in(start, steps, id) == 1);
        }
    }
}

// ---------------------------------------------------------------------------
// From one side to the other
// ---------------------------------------------------------------------------

/// A chunk that is sealed on one side, and whose datagram arrives, is opened
/// and verified to the same chunk on the other, at its place in its block.
pub proof fn law_chunk_survives_transfer(
    chunk_id: u32,
    data: Seq<u8>,
    key: Seq<u8>,
    nonce: Seq<u8>,
)
    requires
        data.len() < 0x1_0000_0000,
    ensures
        ({
            let wire = wire_packet(chunk_id, data, key, nonce);
            let packet = received_packet(wire);
            &&& incoming_of(data_packet_bytes(wire)) == IncomingView::Packet(packet)
            &&& packet.chunk_id == chunk_id
            &&& opened(packet, key, nonce) == Some(
                VerifiedView {
                    block_id: wire.block_id,
                    packet_in_block: wire.packet_in_block,
                    chunk_id,
                    data,
                },
            )
        }),
{
    let wire = wire_packet(chunk_id, data, key, nonce);
    let datagram = data_packet_bytes(wire);
    law_decrypt_undoes_encrypt(data, key, nonce, chunk_id);
    law_data_packet_round_trip(wire, Seq::empty());
    law_block_chunk_inverse(chunk_id as nat, 0, 0);
    assert(datagram.skip(1) + Seq::<u8>::empty() =~= datagram.skip(1));
    assert(data_packet_of(datagram.skip(1)) == wire);
    assert(block_index(chunk_id as nat) <= chunk_id);
}

// ---------------------------------------------------------------------------
// What each operation does
// ---------------------------------------------------------------------------

/// In every round the answer to a check is about the checked block, and it says
/// that the block is complete exactly if nothing is missing or the rounds are
/// used up.  Else it names every place that has not been received, and no other,
/// each once and in ascending order; in a block of at most 2^16 packets every
/// place has an id of its own.
pub proof fn law_every_report_names_the_gaps(r: ReceiverView, id: u32, now: nat)
    requires
        r.state.blocks.contains_key(id),
    ensures
        ({
            let received = r.state.blocks[id].received;
            let round = r.state.blocks[id].rounds + 1;
            match ack_for(id, r.state.tick(id, now)) {
                BlockAckView::Complete { block_id } => {
                    &&& block_id == id
                    &&& round > MAX_BLOCK_RETRY_ROUNDS || forall|i: int|
                        0 <= i < received.len() ==> #[trigger] received[i]
                },
                BlockAckView::Missing { block_id, missing } => {
                    &&& block_id == id
                    &&& round <= MAX_BLOCK_RETRY_ROUNDS
                    &&& exists|i: int| 0 <= i < received.len() && !#[trigger] received[i]
                    &&& missing == Seq::new(received.len(), |i: int| i).filter(
                        |i: int| !received[i],
                    ).map_values(|i: int| i as u16)
                    &&& received.len() <= 0x1_0000 ==> {
                        &&& forall|place: u16| #[trigger]
                            missing.contains(place) <==> place < received.len()
                                && !received[place as int]
                        &&& forall|i: int, j: int|
                            0 <= i < j < missing.len() ==> missing[i] < missing[j]
                        &&& missing.len() > 0
                    }
                },
            }
        }),
{
    let entry = r.state.tick(id, now);
    law_missing_lists_every_gap(entry);
    assert(entry.received == r.state.blocks[id].received);
    let received = r.state.blocks[id].received;
    if let BlockAckView::Missing { missing, .. } = ack_for(id, entry) {
        if received.len() <= 0x1_0000 {
            law_missing_ids(entry);
            assert forall|place: u16| #[trigger]
                missing.contains(place) <==> place < received.len() && !received[place as int] by {
                assert(entry.received[place as int] == received[place as int]);
            }
        }
    }
}

/// A block is given up exactly if something of it is missing when the rounds are
/// used up, and the number that is reported with it is that of its gaps.
pub proof fn law_given_up_blocks_have_gaps(r: ReceiverView, id: u32, now: nat)
    requires
        r.state.blocks.contains_key(id),
    ensures
        gives_up(r.state.tick(id, now)) <==> {
            &&& r.state.blocks[id].rounds + 1 > MAX_BLOCK_RETRY_ROUNDS
            &&& exists|i: int|
                0 <= i < r.state.blocks[id].received.len()
                    && !#[trigger] r.state.blocks[id].received[i]
        },
        r.state.tick(id, now).rounds == r.state.blocks[id].rounds + 1,
        r.state.tick(id, now).missing().len() == Seq::new(
            r.state.blocks[id].received.len(),
            |i: int| i,
        ).filter(|i: int| !r.state.blocks[id].received[i]).len(),
{
    law_missing_lists_every_gap(r.state.tick(id, now));
}

/// What a check changes: a block that is reported as complete is done and not
/// tracked any more; any other tracked block has been through one round more,
/// and keeps what was received of it.  A block that is not tracked, and every
/// other block, stays as it was.
pub proof fn law_check_ends_or_counts(r: ReceiverView, id: u32, now: nat, other: u32)
    ensures
        ({
            let after = r.after_check(id, now);
            let complete = r.state.blocks.contains_key(id) && (r.state.blocks[id].rounds + 1
                > MAX_BLOCK_RETRY_ROUNDS || forall|i: int|
                0 <= i < r.state.blocks[id].received.len()
                    ==> #[trigger] r.state.blocks[id].received[i]);
            &&& after.expected_chunks == r.expected_chunks
            &&& complete ==> {
                &&& !after.state.blocks.contains_key(id)
                &&& after.state.completed == r.state.completed.insert(id)
            }
            &&& !complete ==> {
                &&& after.state.blocks.contains_key(id) == r.state.blocks.contains_key(id)
                &&& after.state.completed == r.state.completed
            }
            &&& !complete && r.state.blocks.contains_key(id) ==> {
                let b = after.state.blocks[id];
                &&& b.rounds == r.state.blocks[id].rounds + 1
                &&& b.last_activity == now
                &&& b.received == r.state.blocks[id].received
                &&& b.total == r.state.blocks[id].total
                &&& b.end_seen == r.state.blocks[id].end_seen
            }
            &&& other != id ==> {
                &&& after.state.blocks.contains_key(other) == r.state.blocks.contains_key(other)
                &&& r.state.blocks.contains_key(other) ==> after.state.blocks[other]
                    == r.state.blocks[other]
            }
        }),
{
    if r.state.blocks.contains_key(id) {
        assert(r.state.tick(id, now).received == r.state.blocks[id].received);
    }
}

/// What a datagram is taken for, byte by byte: one that starts with the tag of
/// file data and holds what its header announces is a packet with the fields and
/// the payload that stand in it, for the chunk that its block and place name, or
/// out of range where no chunk id can name them; one that starts with the tag of
/// an end marker and is long enough is one; anything else is ignored.
pub proof fn law_datagrams_are_told_apart(datagram: Seq<u8>)
    ensures
        ({
            let is_data = datagram.len() >= 19 && datagram[0] == 0x01u8 && datagram.len() >= 19
                + be_value(datagram.subrange(7, 11));
            let is_end = datagram.len() >= 9 && datagram[0] == 0x02u8;
            let chunk_id = be_value(datagram.subrange(1, 5)) * PACKETS_PER_BLOCK + be_value(
                datagram.subrange(5, 7),
            );
            &&& incoming_of(datagram) is Ignored <==> !is_data && !is_end
            &&& incoming_of(datagram) is BlockEnd <==> is_end
            &&& incoming_of(datagram) is OutOfRange <==> is_data && chunk_id > u32::MAX
            &&& incoming_of(datagram) is Packet <==> is_data && chunk_id <= u32::MAX
            &&& incoming_of(datagram) matches IncomingView::Packet(p) ==> {
                &&& p.chunk_id == chunk_id
                &&& p.block_id == be_value(datagram.subrange(1, 5))
                &&& p.packet_in_block == be_value(datagram.subrange(5, 7))
                &&& p.hash == be_value(datagram.subrange(11, 19))
                &&& p.encrypted.len() == be_value(datagram.subrange(7, 11))
                &&& forall|i: int|
                    0 <= i < p.encrypted.len() ==> #[trigger] p.encrypted[i] == datagram[19 + i]
            }
        }),
{
    if datagram.len() >= 1 {
        let body = datagram.skip(1);
        law_data_packet_fields(body);
        law_block_end_layout(0, 0, body);
        if body.len() >= 18 {
            assert(body.subrange(0, 4) =~= datagram.subrange(1, 5));
            assert(body.subrange(4, 6) =~= datagram.subrange(5, 7));
            assert(body.subrange(6, 10) =~= datagram.subrange(7, 11));
            assert(body.subrange(10, 18) =~= datagram.subrange(11, 19));
        }
        if data_body_ok(body) {
            let p = data_packet_of(body);
            law_blocks_are_cut_at_multiples(0, p.block_id as nat, p.packet_in_block as nat, 0);
        }
    }
}

/// What a datagram changes: file data is activity of the block that it names,
/// whose size follows from the size of the file; an end marker is remembered
/// with the size that it gives; anything else changes nothing.
pub proof fn law_datagrams_reach_their_block(r: ReceiverView, datagram: Seq<u8>, now: nat)
    ensures
        ({
            let is_data = datagram.len() >= 19 && datagram[0] == 0x01u8 && datagram.len() >= 19
                + be_value(datagram.subrange(7, 11));
            let is_end = datagram.len() >= 9 && datagram[0] == 0x02u8;
            let id = be_value(datagram.subrange(1, 5)) as u32;
            let after = r.after_datagram(datagram, now);
            &&& after.expected_chunks == r.expected_chunks
            &&& is_data ==> after.state == r.state.touched(
                id,
                block_len(id as nat, r.expected_chunks),
                now,
            )
            &&& is_end ==> after.state == r.state.ended(
                id,
                be_value(datagram.subrange(5, 9)),
                now,
            )
            &&& !is_data && !is_end ==> after.state == r.state
        }),
{
    law_datagrams_are_told_apart(datagram);
    if datagram.len() >= 1 {
        let body = datagram.skip(1);
        law_data_packet_fields(body);
        law_block_end_layout(0, 0, body);
        if body.len() >= 8 {
            assert(body.subrange(0, 4) =~= datagram.subrange(1, 5));
            assert(body.subrange(4, 8) =~= datagram.subrange(5, 9));
        }
    }
}

/// What a verified packet changes: its place in its block counts as received,
/// in a block whose size follows from the size of the file.
pub proof fn law_verified_packets_reach_their_block(r: ReceiverView, p: VerifiedView, now: nat)
    ensures
        r.after_verified(p, now).expected_chunks == r.expected_chunks,
        r.after_verified(p, now).state == r.state.verified(
            p.block_id,
            p.packet_in_block,
            block_len(p.block_id as nat, r.expected_chunks),
            now,
        ),
{
}

/// The transfer is over exactly when the blocks that are done have places for
/// all chunks of the file.
pub proof fn law_done_counts_blocks(r: ReceiverView)
    ensures
        r.done() <==> r.state.completed.len() * PACKETS_PER_BLOCK >= r.expected_chunks,
{
    law_blocks_are_cut_at_multiples(0, 0, 0, r.expected_chunks);
    let n = r.state.completed.len();
    let count = block_count(r.expected_chunks);
    if n >= count {
        assert(n * PACKETS_PER_BLOCK >= count * PACKETS_PER_BLOCK) by (nonlinear_arith)
            requires
                n >= count,
        ;
    } else {
        assert(n * PACKETS_PER_BLOCK <= (count - 1) * PACKETS_PER_BLOCK) by (nonlinear_arith)
            requires
                n <= count - 1,
        ;
    }
}

/// The mathematical forms keep what a datagram turned out to be.
pub proof fn law_incoming_is_seen_whole(incoming: Incoming)
    ensures
        match incoming {
            Incoming::Ignored => incoming@ is Ignored,
            Incoming::Packet(p) => incoming@ == IncomingView::Packet(p@),
            Incoming::BlockEnd => incoming@ is BlockEnd,
            Incoming::OutOfRange => incoming@ is OutOfRange,
        },
{
}

} // verus!
