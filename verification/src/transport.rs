//! Block bookkeeping of the reliable transport.
//!
//! - A file is split into blocks of [`PACKETS_PER_BLOCK`] packets.
//! - [`SharedBlockCache`] keeps the datagrams of open blocks for retransmission.
//! - [`SharedReceiverState`] tracks per block which packets have been verified.
//!
//! Retransmission is scoped to packets of one block, never to a whole block or
//! the whole file.

use std::collections::{HashMap, HashSet};
use vstd::prelude::*;
use crate::config::PACKETS_PER_BLOCK;
use crate::maps::key_list;
#[allow(unused_imports)]
use crate::maps::{lemma_push_contains, lemma_take_succ_contains};

verus! {

broadcast use vstd::std_specs::hash::group_hash_axioms;

// ---------------------------------------------------------------------------
// Block and chunk arithmetic
// ---------------------------------------------------------------------------

/// The block that a chunk belongs to.
pub open spec fn block_index(chunk_id: nat) -> nat {
    chunk_id / (PACKETS_PER_BLOCK as nat)
}

/// The place of a chunk inside its block.
pub open spec fn packet_index(chunk_id: nat) -> nat {
    chunk_id % (PACKETS_PER_BLOCK as nat)
}

/// The chunk at a place of a block.
pub open spec fn chunk_index(block_id: nat, packet_in_block: nat) -> nat {
    block_id * (PACKETS_PER_BLOCK as nat) + packet_in_block
}

/// The number of packets in a block of a file of `total_chunks` chunks: a full
/// block, or what is left of the file from the block's first chunk on.
pub open spec fn block_len(block_id: nat, total_chunks: nat) -> nat {
    if chunk_index(block_id + 1, 0) <= total_chunks {
        PACKETS_PER_BLOCK as nat
    } else if chunk_index(block_id, 0) <= total_chunks {
        (total_chunks - chunk_index(block_id, 0)) as nat
    } else {
        0
    }
}

/// The number of blocks of a file of `total_chunks` chunks: as many as it takes
/// to hold them.
pub open spec fn block_count(total_chunks: nat) -> nat {
    if total_chunks == 0 {
        0
    } else {
        block_index((total_chunks - 1) as nat) + 1
    }
}

/// The number of packets in the first `n` blocks.
pub open spec fn packets_before(n: nat, total_chunks: nat) -> nat
    decreases n,
{
    if n == 0 {
        0
    } else {
        packets_before((n - 1) as nat, total_chunks) + block_len((n - 1) as nat, total_chunks)
    }
}

/// Block id and place inside the block of a chunk.
pub fn block_of(chunk_id: u32) -> (r: (u32, u16))
    ensures
        r.0 == block_index(chunk_id as nat),
        r.1 == packet_index(chunk_id as nat),
{
    let per_block: u32 = PACKETS_PER_BLOCK as u32;
    (chunk_id / per_block, (chunk_id % per_block) as u16)
}

/// The chunk at a place of a block: the inverse of [`block_of`].
pub fn chunk_id_of(block_id: u32, packet_in_block: u16) -> (chunk_id: u32)
    requires
        chunk_index(block_id as nat, packet_in_block as nat) <= u32::MAX,
    ensures
        chunk_id == chunk_index(block_id as nat, packet_in_block as nat),
{
    block_id * PACKETS_PER_BLOCK as u32 + packet_in_block as u32
}

/// Number of packets of `block_id`; the last block of a file may be short.
pub fn packets_in_block(block_id: u32, total_chunks: u32) -> (n: usize)
    ensures
        n == block_len(block_id as nat, total_chunks as nat),
        n <= PACKETS_PER_BLOCK,
{
    proof {
        lemma_next_block(block_id as nat);
        assert(block_id * PACKETS_PER_BLOCK <= 0xffff_ffff * 0x1_0000) by (nonlinear_arith)
            requires
                block_id <= 0xffff_ffff,
                PACKETS_PER_BLOCK <= 0x1_0000,
        ;
    }
    let start: u64 = block_id as u64 * PACKETS_PER_BLOCK as u64;
    let total: u64 = total_chunks as u64;
    let remaining: u64 = if start < total { total - start } else { 0 };
    if remaining < PACKETS_PER_BLOCK as u64 {
        remaining as usize
    } else {
        PACKETS_PER_BLOCK
    }
}

/// Number of blocks of a file of `total_chunks` packets.
pub fn total_blocks(total_chunks: u32) -> (n: u32)
    ensures
        n == block_count(total_chunks as nat),
{
    let per_block: u32 = PACKETS_PER_BLOCK as u32;
    if total_chunks == 0 {
        0
    } else {
        (total_chunks - 1) / per_block + 1
    }
}

/// A block starts where the one before it ends.
proof fn lemma_next_block(block_id: nat)
    ensures
        chunk_index(block_id + 1, 0) == chunk_index(block_id, 0) + PACKETS_PER_BLOCK,
        chunk_index(block_id, 0) == block_id * PACKETS_PER_BLOCK,
{
}

/// [`block_of`] and [`chunk_id_of`] undo each other.
pub proof fn law_block_chunk_inverse(chunk_id: nat, block_id: nat, packet_in_block: nat)
    ensures
        chunk_index(block_index(chunk_id), packet_index(chunk_id)) == chunk_id,
        packet_index(chunk_id) < PACKETS_PER_BLOCK,
        packet_in_block < PACKETS_PER_BLOCK ==> {
            &&& block_index(chunk_index(block_id, packet_in_block)) == block_id
            &&& packet_index(chunk_index(block_id, packet_in_block)) == packet_in_block
        },
{
}

/// A place exists in a block exactly when its chunk exists in the file.
pub proof fn law_place_exists(block_id: nat, packet_in_block: nat, total_chunks: nat)
    requires
        packet_in_block < PACKETS_PER_BLOCK,
    ensures
        packet_in_block < block_len(block_id, total_chunks) <==> chunk_index(
            block_id,
            packet_in_block,
        ) < total_chunks,
{
}

/// The blocks of a file are exactly those that hold a packet.
pub proof fn law_blocks_are_not_empty(block_id: nat, total_chunks: nat)
    ensures
        block_id < block_count(total_chunks) <==> block_len(block_id, total_chunks) > 0,
        block_len(block_id, total_chunks) <= PACKETS_PER_BLOCK,
{
}

/// The blocks of a file hold as many packets together as the file has chunks.
pub proof fn law_blocks_cover_file(total_chunks: nat)
    ensures
        packets_before(block_count(total_chunks), total_chunks) == total_chunks,
{
    if total_chunks > 0 {
        let last = (block_count(total_chunks) - 1) as nat;
        lemma_packets_before_full(last, total_chunks);
    }
}

proof fn lemma_packets_before_full(n: nat, total_chunks: nat)
    requires
        chunk_index(n, 0) <= total_chunks,
    ensures
        packets_before(n, total_chunks) == chunk_index(n, 0),
    decreases n,
{
    if n > 0 {
        lemma_packets_before_full((n - 1) as nat, total_chunks);
    }
}

// ---------------------------------------------------------------------------
// Cached datagrams
// ---------------------------------------------------------------------------

/// The contents of one place of a packet cache.
pub open spec fn packet_view(p: Option<Vec<u8>>) -> Option<Seq<u8>> {
    match p {
        Some(v) => Some(v@),
        None => None,
    }
}

/// The contents of a packet cache, place by place.
pub open spec fn packets_view(packets: Seq<Option<Vec<u8>>>) -> Seq<Option<Seq<u8>>> {
    packets.map_values(|p: Option<Vec<u8>>| packet_view(p))
}

/// The contents of a list of datagrams.
pub open spec fn datagrams_view(datagrams: Seq<Vec<u8>>) -> Seq<Seq<u8>> {
    datagrams.map_values(|d: Vec<u8>| d@)
}

/// A packet cache of `total` places, all of them empty.
pub open spec fn empty_packets(total: nat) -> Seq<Option<Seq<u8>>> {
    Seq::new(total, |i: int| None)
}

/// The packet that a cache holds at a place, if there is one.
pub open spec fn packet_at(packets: Seq<Option<Seq<u8>>>, id: u16) -> Option<Seq<u8>> {
    if (id as int) < packets.len() {
        packets[id as int]
    } else {
        None
    }
}

/// The cached packets among those that `ids` asks for, in the order of `ids`.
pub open spec fn cached_packets(packets: Seq<Option<Seq<u8>>>, ids: Seq<u16>) -> Seq<Seq<u8>> {
    ids.filter_map(|id: u16| packet_at(packets, id))
}

/// A packet cache of `total` places, all of them empty.
pub(crate) fn new_packets(total: usize) -> (packets: Vec<Option<Vec<u8>>>)
    ensures
        packets_view(packets@) == empty_packets(total as nat),
{
    let mut packets: Vec<Option<Vec<u8>>> = Vec::new();
    let mut i: usize = 0;
    while i < total
        invariant
            i <= total,
            packets@.len() == i,
            forall|k: int| 0 <= k < i ==> packets@[k] is None,
        decreases total - i,
    {
        packets.push(None);
        i = i + 1;
    }
    proof {
        assert(packets_view(packets@) =~= empty_packets(total as nat));
    }
    packets
}

/// Copies of the cached packets among those that `ids` asks for.
pub(crate) fn collect_cached(packets: &Vec<Option<Vec<u8>>>, ids: &[u16]) -> (r: Vec<Vec<u8>>)
    ensures
        datagrams_view(r@) == cached_packets(packets_view(packets@), ids@),
{
    let ghost cache = packets_view(packets@);
    let ghost f = |id: u16| packet_at(cache, id);
    let mut r: Vec<Vec<u8>> = Vec::new();
    let mut i: usize = 0;
    proof {
        assert(ids@.take(0) =~= Seq::<u16>::empty());
        assert(datagrams_view(r@) =~= ids@.take(0).filter_map(f)) by {
            reveal(Seq::filter_map);
        }
    }
    while i < ids.len()
        invariant
            i <= ids@.len(),
            cache == packets_view(packets@),
            f == (|id: u16| packet_at(cache, id)),
            datagrams_view(r@) == ids@.take(i as int).filter_map(f),
        decreases ids@.len() - i,
    {
        let ghost before = r@;
        let id: usize = ids[i] as usize;
        if id < packets.len() {
            if let Some(packet) = &packets[id] {
                r.push(packet.clone());
                proof {
                    assert(r@.last()@ =~= packet@);
                    assert(datagrams_view(r@) =~= datagrams_view(before).push(packet@));
                }
            }
        }
        proof {
            ids@.lemma_filter_map_take_succ(f, i as int);
            assert(f(ids@[i as int]) == packet_at(cache, ids@[i as int]));
        }
        i = i + 1;
    }
    proof {
        assert(ids@.take(i as int) =~= ids@);
    }
    r
}

/// Datagrams of one block that the sender has transmitted, kept to serve
/// retransmission requests until the receiver confirms the block.
pub struct BlockCacheEntry {
    packets: Vec<Option<Vec<u8>>>,
}

impl View for BlockCacheEntry {
    type V = Seq<Option<Seq<u8>>>;

    closed spec fn view(&self) -> Seq<Option<Seq<u8>>> {
        packets_view(self.packets@)
    }
}

impl BlockCacheEntry {
    fn new(total: usize) -> (r: Self)
        ensures
            r@ == empty_packets(total as nat),
    {
        BlockCacheEntry { packets: new_packets(total) }
    }
}

/// Packet caches by block id.
pub struct SharedBlockCache {
    inner: HashMap<u32, BlockCacheEntry>,
}

impl View for SharedBlockCache {
    type V = Map<u32, Seq<Option<Seq<u8>>>>;

    closed spec fn view(&self) -> Map<u32, Seq<Option<Seq<u8>>>> {
        self.inner@.map_values(|e: BlockCacheEntry| e@)
    }
}

/// The packet cache of a block: the one it has, or a new one.
pub open spec fn cache_of(
    cache: Map<u32, Seq<Option<Seq<u8>>>>,
    block_id: u32,
    total: nat,
) -> Seq<Option<Seq<u8>>> {
    if cache.contains_key(block_id) {
        cache[block_id]
    } else {
        empty_packets(total)
    }
}

impl SharedBlockCache {
    /// A cache without any block.
    pub fn new() -> (r: Self)
        ensures
            r@ == Map::<u32, Seq<Option<Seq<u8>>>>::empty(),
    {
        let r = SharedBlockCache { inner: HashMap::new() };
        proof {
            assert(r@ =~= Map::empty());
        }
        r
    }

    /// Remembers the datagram of one packet.  The first packet of a block
    /// fixes the number of the block's places.
    pub fn record_sent(
        &mut self,
        block_id: u32,
        packet_in_block: u16,
        total: usize,
        datagram: Vec<u8>,
    )
        requires
            packet_in_block < cache_of(old(self)@, block_id, total as nat).len(),
        ensures
            final(self)@ == old(self)@.insert(
                block_id,
                cache_of(old(self)@, block_id, total as nat).update(
                    packet_in_block as int,
                    Some(datagram@),
                ),
            ),
    {
        let mut entry = match self.inner.remove(&block_id) {
            Some(entry) => entry,
            None => BlockCacheEntry::new(total),
        };
        let ghost places = entry.packets@;
        entry.packets[packet_in_block as usize] = Some(datagram);
        proof {
            assert(entry@ =~= packets_view(places).update(
                packet_in_block as int,
                Some(datagram@),
            ));
        }
        self.inner.insert(block_id, entry);
        proof {
            assert(self@ =~= old(self)@.insert(
                block_id,
                cache_of(old(self)@, block_id, total as nat).update(
                    packet_in_block as int,
                    Some(datagram@),
                ),
            ));
        }
    }

    /// The cached datagrams among the packets `ids` of a block.
    pub fn fetch_for_retransmit(&self, block_id: u32, ids: &[u16]) -> (r: Vec<Vec<u8>>)
        ensures
            datagrams_view(r@) == if self@.contains_key(block_id) {
                cached_packets(self@[block_id], ids@)
            } else {
                Seq::empty()
            },
    {
        match self.inner.get(&block_id) {
            Some(entry) => collect_cached(&entry.packets, ids),
            None => {
                let r: Vec<Vec<u8>> = Vec::new();
                proof {
                    assert(datagrams_view(r@) =~= Seq::empty());
                }
                r
            },
        }
    }

    /// Forgets a block.
    pub fn complete(&mut self, block_id: u32)
        ensures
            final(self)@ == old(self)@.remove(block_id),
    {
        self.inner.remove(&block_id);
        proof {
            assert(self@ =~= old(self)@.remove(block_id));
        }
    }

    /// The number of blocks in the cache.
    pub fn open_block_count(&self) -> (n: usize)
        ensures
            self@.dom().finite(),
            n == self@.dom().len(),
    {
        proof {
            assert(self@.dom() =~= self.inner@.dom());
        }
        self.inner.len()
    }
}

impl Default for SharedBlockCache {
    fn default() -> (r: Self)
        ensures
            r@ == Map::<u32, Seq<Option<Seq<u8>>>>::empty(),
    {
        SharedBlockCache::new()
    }
}

/// A packet that is cached is served when it is asked for.
pub proof fn law_cached_packet_is_served(packets: Seq<Option<Seq<u8>>>, id: u16)
    requires
        packet_at(packets, id) is Some,
    ensures
        cached_packets(packets, seq![id]) == seq![packet_at(packets, id)->0],
{
    let ids = seq![id];
    let f = |id: u16| packet_at(packets, id);
    ids.lemma_filter_map_take_succ(f, 0);
    assert(ids.take(0) =~= Seq::<u16>::empty());
    assert(ids.take(1) =~= ids);
    reveal(Seq::filter_map);
    assert(f(ids[0]) == packet_at(packets, id));
    assert(cached_packets(packets, ids) =~= seq![packet_at(packets, id)->0]);
}

/// A packet that has been recorded is served when it is asked for, whatever
/// was recorded for its block before.
pub proof fn law_recorded_packet_is_served(
    cache: Map<u32, Seq<Option<Seq<u8>>>>,
    block_id: u32,
    packet_in_block: u16,
    total: nat,
    datagram: Seq<u8>,
)
    requires
        packet_in_block < cache_of(cache, block_id, total).len(),
    ensures
        cached_packets(
            cache_of(cache, block_id, total).update(packet_in_block as int, Some(datagram)),
            seq![packet_in_block],
        ) == seq![datagram],
{
    law_cached_packet_is_served(
        cache_of(cache, block_id, total).update(packet_in_block as int, Some(datagram)),
        packet_in_block,
    );
}

/// A block's places and those of other blocks do not touch each other, and a
/// forgotten block has nothing left to serve.
pub proof fn law_cache_blocks_are_independent(
    cache: Map<u32, Seq<Option<Seq<u8>>>>,
    block_id: u32,
    other: u32,
    packets: Seq<Option<Seq<u8>>>,
)
    requires
        other != block_id,
    ensures
        cache_of(cache.insert(block_id, packets), other, 0) == cache_of(cache, other, 0),
        cache_of(cache.remove(block_id), other, 0) == cache_of(cache, other, 0),
        !cache.remove(block_id).contains_key(block_id),
{
}

// ---------------------------------------------------------------------------
// Received packets
// ---------------------------------------------------------------------------

/// Bookkeeping of one block on the receiving side.  Times are in nanoseconds
/// of any clock that does not run backwards.
///
/// A packet counts as received once it has been decrypted and its checksum
/// verified, not when its datagram arrives: a block that looked complete with
/// a damaged packet in it would be lost for good.  The time of the last
/// activity follows the datagrams instead.
pub struct BlockRxEntry {
    pub total: usize,
    received: Vec<bool>,
    received_count: usize,
    last_activity: u128,
    end_seen: bool,
    rounds: u32,
}

/// A [`BlockRxEntry`] in mathematical terms.
#[verifier::ext_equal]
pub struct RxView {
    pub total: nat,
    pub received: Seq<bool>,
    pub last_activity: nat,
    pub end_seen: bool,
    pub rounds: nat,
}

/// How many of a list of bits are set.
pub open spec fn count_set(bits: Seq<bool>) -> nat
    decreases bits.len(),
{
    if bits.len() == 0 {
        0
    } else {
        count_set(bits.drop_last()) + if bits.last() {
            1nat
        } else {
            0nat
        }
    }
}

/// The places among the first `n` whose bit is not set, in ascending order.
/// An id has 16 bits; a place that needs more is given by its low-order ones.
pub open spec fn missing_below(bits: Seq<bool>, n: nat) -> Seq<u16>
    decreases n,
{
    if n == 0 {
        Seq::empty()
    } else if bits[n - 1] {
        missing_below(bits, (n - 1) as nat)
    } else {
        missing_below(bits, (n - 1) as nat).push((n - 1) as u16)
    }
}

/// The nanoseconds from `then` to `now`, none if `then` is the later of them.
pub open spec fn elapsed(then: nat, now: nat) -> nat {
    if then <= now {
        (now - then) as nat
    } else {
        0
    }
}

impl RxView {
    /// A block of `total` packets of which nothing has been received.
    pub open spec fn fresh(total: nat, now: nat) -> RxView {
        RxView {
            total,
            received: Seq::new(total, |i: int| false),
            last_activity: now,
            end_seen: false,
            rounds: 0,
        }
    }

    /// Every packet has been received.
    pub open spec fn complete(self) -> bool {
        forall|i: int| 0 <= i < self.received.len() ==> #[trigger] self.received[i]
    }

    /// The packets that have not been received.
    pub open spec fn missing(self) -> Seq<u16> {
        missing_below(self.received, self.received.len())
    }

    /// How long the block must have been quiet before it is checked: the idle
    /// timeout as long as its end has not been seen; else the grace period,
    /// which an incomplete block waits once more per repair round, up to the
    /// idle timeout.
    pub open spec fn wait(self, grace: nat, idle_timeout: nat) -> nat {
        if !self.end_seen {
            idle_timeout
        } else if self.complete() {
            grace
        } else if grace * (self.rounds + 1) < idle_timeout {
            grace * (self.rounds + 1)
        } else {
            idle_timeout
        }
    }

    /// The block is to be checked now.
    pub open spec fn ready(self, now: nat, grace: nat, idle_timeout: nat) -> bool {
        elapsed(self.last_activity, now) >= self.wait(grace, idle_timeout)
    }

    /// The block with one packet received; a place that it lacks changes
    /// nothing.
    pub open spec fn verified(self, packet_in_block: u16) -> RxView {
        if packet_in_block < self.received.len() {
            RxView { received: self.received.update(packet_in_block as int, true), ..self }
        } else {
            self
        }
    }
}

impl View for BlockRxEntry {
    type V = RxView;

    closed spec fn view(&self) -> RxView {
        RxView {
            total: self.total as nat,
            received: self.received@,
            last_activity: self.last_activity as nat,
            end_seen: self.end_seen,
            rounds: self.rounds as nat,
        }
    }
}

proof fn lemma_count_set(bits: Seq<bool>)
    ensures
        count_set(bits) <= bits.len(),
        count_set(bits) == bits.len() <==> forall|i: int|
            0 <= i < bits.len() ==> #[trigger] bits[i],
    decreases bits.len(),
{
    if bits.len() > 0 {
        let init = bits.drop_last();
        lemma_count_set(init);
        assert(forall|i: int| 0 <= i < init.len() ==> #[trigger] init[i] == bits[i]);
        if forall|i: int| 0 <= i < bits.len() ==> #[trigger] bits[i] {
            assert(bits[bits.len() - 1]);
            assert(forall|i: int| 0 <= i < init.len() ==> #[trigger] init[i]);
        }
        if count_set(bits) == bits.len() {
            assert forall|i: int| 0 <= i < bits.len() implies #[trigger] bits[i] by {
                if i < init.len() {
                    assert(init[i]);
                }
            }
        }
    }
}

proof fn lemma_count_set_update(bits: Seq<bool>, at: int)
    requires
        0 <= at < bits.len(),
        !bits[at],
    ensures
        count_set(bits.update(at, true)) == count_set(bits) + 1,
    decreases bits.len(),
{
    let after = bits.update(at, true);
    if at == bits.len() - 1 {
        assert(after.drop_last() =~= bits.drop_last());
    } else {
        assert(after.drop_last() =~= bits.drop_last().update(at, true));
        lemma_count_set_update(bits.drop_last(), at);
    }
}

proof fn lemma_count_set_none(n: nat)
    ensures
        count_set(Seq::new(n, |i: int| false)) == 0,
    decreases n,
{
    if n > 0 {
        assert(Seq::new(n, |i: int| false).drop_last() =~= Seq::new(
            (n - 1) as nat,
            |i: int| false,
        ));
        lemma_count_set_none((n - 1) as nat);
    }
}

impl BlockRxEntry {
    /// The counts agree with the bits.
    pub closed spec fn wf(self) -> bool {
        &&& self.total == self.received@.len()
        &&& self.received_count == count_set(self.received@)
    }

    /// A block of `total` packets of which nothing has been received.
    pub fn new(total: usize, now: u128) -> (r: Self)
        ensures
            r@ == RxView::fresh(total as nat, now as nat),
            r.wf(),
    {
        let mut received: Vec<bool> = Vec::new();
        let mut i: usize = 0;
        while i < total
            invariant
                i <= total,
                received@ == Seq::new(i as nat, |k: int| false),
            decreases total - i,
        {
            received.push(false);
            i = i + 1;
            proof {
                assert(received@ =~= Seq::new(i as nat, |k: int| false));
            }
        }
        proof {
            lemma_count_set_none(total as nat);
            assert(received@ =~= Seq::new(total as nat, |i: int| false));
        }
        BlockRxEntry {
            total,
            received,
            received_count: 0,
            last_activity: now,
            end_seen: false,
            rounds: 0,
        }
    }

    /// Whether every packet has been received.
    pub fn is_complete(&self) -> (r: bool)
        requires
            self.wf(),
        ensures
            r == self@.complete(),
    {
        proof {
            let bits = self@.received;
            lemma_count_set(bits);
            assert(self@.complete() == forall|i: int| 0 <= i < bits.len() ==> #[trigger] bits[i]);
        }
        self.received_count == self.total
    }

    /// The packets that have not been received, in ascending order.
    pub fn missing_ids(&self) -> (ids: Vec<u16>)
        ensures
            ids@ == self@.missing(),
    {
        let mut ids: Vec<u16> = Vec::new();
        let mut i: usize = 0;
        while i < self.received.len()
            invariant
                i <= self.received@.len(),
                ids@ == missing_below(self.received@, i as nat),
            decreases self.received@.len() - i,
        {
            if !self.received[i] {
                ids.push(i as u16);
            }
            i = i + 1;
        }
        ids
    }

    /// Marks a packet as received.
    fn set_received(&mut self, packet_in_block: u16)
        requires
            old(self).wf(),
        ensures
            final(self)@ == old(self)@.verified(packet_in_block),
            final(self).wf(),
    {
        let at: usize = packet_in_block as usize;
        if at < self.received.len() && !self.received[at] {
            proof {
                lemma_count_set_update(self.received@, at as int);
                lemma_count_set(self.received@.update(at as int, true));
            }
            self.received[at] = true;
            self.received_count = self.received_count + 1;
        }
        proof {
            assert(self@.received =~= old(self)@.verified(packet_in_block).received);
        }
    }

    /// Whether the block is to be checked now.
    fn is_ready(&self, now: u128, grace: u128, idle_timeout: u128) -> (r: bool)
        requires
            self.wf(),
        ensures
            r == self@.ready(now as nat, grace as nat, idle_timeout as nat),
    {
        let quiet: u128 = if self.last_activity <= now {
            now - self.last_activity
        } else {
            0
        };
        if !self.end_seen {
            return quiet >= idle_timeout;
        }
        if self.is_complete() {
            return quiet >= grace;
        }
        let required: u128 = match grace.checked_mul(self.rounds as u128 + 1) {
            Some(backoff) if backoff < idle_timeout => backoff,
            _ => idle_timeout,
        };
        quiet >= required
    }
}

/// An entry holds one bit for each packet of its block.
pub proof fn law_entry_is_sized(entry: BlockRxEntry)
    requires
        entry.wf(),
    ensures
        entry@.received.len() == entry@.total,
{
}

/// Blocks that are being received, and the ids of those that are done.
pub struct SharedReceiverState {
    inner: HashMap<u32, BlockRxEntry>,
    completed_blocks: HashSet<u32>,
}

/// A [`SharedReceiverState`] in mathematical terms.
#[verifier::ext_equal]
pub struct RxStateView {
    pub blocks: Map<u32, RxView>,
    pub completed: Set<u32>,
}

impl View for SharedReceiverState {
    type V = RxStateView;

    closed spec fn view(&self) -> RxStateView {
        RxStateView {
            blocks: self.inner@.map_values(|e: BlockRxEntry| e@),
            completed: self.completed_blocks@,
        }
    }
}

impl RxStateView {
    /// No block has been seen.
    pub open spec fn start() -> RxStateView {
        RxStateView { blocks: Map::empty(), completed: Set::empty() }
    }

    /// A block that is done is not tracked any more.
    pub open spec fn disjoint(self) -> bool {
        forall|id: u32| #[trigger] self.blocks.contains_key(id) ==> !self.completed.contains(id)
    }

    /// What is known of a block; a block that is not tracked yet is new.
    pub open spec fn entry(self, id: u32, total: nat, now: nat) -> RxView {
        if self.blocks.contains_key(id) {
            self.blocks[id]
        } else {
            RxView::fresh(total, now)
        }
    }

    /// The state with a block's entry replaced, unless the block is done.
    pub open spec fn updated(self, id: u32, entry: RxView) -> RxStateView {
        if self.completed.contains(id) {
            self
        } else {
            RxStateView { blocks: self.blocks.insert(id, entry), ..self }
        }
    }

    /// A datagram of the block has arrived.
    pub open spec fn touched(self, id: u32, total: nat, now: nat) -> RxStateView {
        self.updated(id, RxView { last_activity: now, ..self.entry(id, total, now) })
    }

    /// A packet of the block has been verified.
    pub open spec fn verified(
        self,
        id: u32,
        packet_in_block: u16,
        total: nat,
        now: nat,
    ) -> RxStateView {
        self.updated(id, self.entry(id, total, now).verified(packet_in_block))
    }

    /// The end marker of the block has arrived.
    pub open spec fn ended(self, id: u32, total: nat, now: nat) -> RxStateView {
        self.updated(
            id,
            RxView { end_seen: true, last_activity: now, ..self.entry(id, total, now) },
        )
    }

    /// The block's next repair round.
    pub open spec fn tick(self, id: u32, now: nat) -> RxView {
        RxView { rounds: self.blocks[id].rounds + 1, last_activity: now, ..self.blocks[id] }
    }

    /// The state with one more repair round for a block that is tracked.
    pub open spec fn ticked(self, id: u32, now: nat) -> RxStateView {
        if self.blocks.contains_key(id) {
            RxStateView { blocks: self.blocks.insert(id, self.tick(id, now)), ..self }
        } else {
            self
        }
    }

    /// The state with the block done.
    pub open spec fn removed(self, id: u32) -> RxStateView {
        RxStateView { blocks: self.blocks.remove(id), completed: self.completed.insert(id) }
    }

    /// The block is tracked and is to be checked now.
    pub open spec fn is_ready(self, id: u32, now: nat, grace: nat, idle_timeout: nat) -> bool {
        self.blocks.contains_key(id) && self.blocks[id].ready(now, grace, idle_timeout)
    }
}

impl SharedReceiverState {
    /// Every entry is in order, and a block that is done is not tracked.
    pub closed spec fn wf(self) -> bool {
        &&& forall|id: u32| #[trigger] self.inner@.contains_key(id) ==> self.inner@[id].wf()
        &&& self@.disjoint()
    }

    /// No block has been seen.
    pub fn new() -> (r: Self)
        ensures
            r@ == RxStateView::start(),
            r.wf(),
    {
        let r = SharedReceiverState { inner: HashMap::new(), completed_blocks: HashSet::new() };
        proof {
            assert(r@.blocks =~= Map::empty());
        }
        r
    }

    /// Whether a block is done.
    pub fn is_completed(&self, block_id: u32) -> (r: bool)
        ensures
            r == self@.completed.contains(block_id),
    {
        self.completed_blocks.contains(&block_id)
    }

    /// Takes a block's entry out of the map; a block without one is new.
    fn take_entry(&mut self, block_id: u32, total: usize, now: u128) -> (entry: BlockRxEntry)
        requires
            old(self).wf(),
        ensures
            entry@ == old(self)@.entry(block_id, total as nat, now as nat),
            entry.wf(),
            final(self)@ == (RxStateView {
                blocks: old(self)@.blocks.remove(block_id),
                ..old(self)@
            }),
            final(self).wf(),
    {
        let ghost before = self.inner@;
        let entry = match self.inner.remove(&block_id) {
            Some(entry) => entry,
            None => BlockRxEntry::new(total, now),
        };
        proof {
            if before.contains_key(block_id) {
                assert(before[block_id].wf());
            }
            assert(self@.blocks =~= old(self)@.blocks.remove(block_id));
            assert forall|id: u32| #[trigger]
                self.inner@.contains_key(id) implies self.inner@[id].wf() by {
                assert(before.contains_key(id));
            }
            assert forall|id: u32| #[trigger]
                self@.blocks.contains_key(id) implies !self@.completed.contains(id) by {
                assert(old(self)@.blocks.contains_key(id));
            }
        }
        entry
    }

    /// Puts a block's entry into the map.
    fn put_entry(&mut self, block_id: u32, entry: BlockRxEntry)
        requires
            old(self).wf(),
            entry.wf(),
            !old(self)@.completed.contains(block_id),
        ensures
            final(self)@ == (RxStateView {
                blocks: old(self)@.blocks.insert(block_id, entry@),
                ..old(self)@
            }),
            final(self).wf(),
    {
        let ghost before = self.inner@;
        self.inner.insert(block_id, entry);
        proof {
            assert(self@.blocks =~= old(self)@.blocks.insert(block_id, entry@));
            assert forall|id: u32| #[trigger]
                self.inner@.contains_key(id) implies self.inner@[id].wf() by {
                if id != block_id {
                    assert(before.contains_key(id));
                }
            }
            assert forall|id: u32| #[trigger]
                self@.blocks.contains_key(id) implies !self@.completed.contains(id) by {
                if id != block_id {
                    assert(old(self)@.blocks.contains_key(id));
                }
            }
        }
    }

    /// Notes that a datagram of the block has arrived.  Late datagrams of a
    /// block that is done are ignored.
    pub fn touch_activity(&mut self, block_id: u32, total: usize, now: u128)
        requires
            old(self).wf(),
        ensures
            final(self)@ == old(self)@.touched(block_id, total as nat, now as nat),
            final(self).wf(),
    {
        if self.is_completed(block_id) {
            return;
        }
        let mut entry = self.take_entry(block_id, total, now);
        entry.last_activity = now;
        self.put_entry(block_id, entry);
        proof {
            assert(self@.blocks =~= old(self)@.touched(block_id, total as nat, now as nat).blocks);
        }
    }

    /// Marks a packet as received, once it has been decrypted and verified.
    pub fn mark_verified(&mut self, block_id: u32, packet_in_block: u16, total: usize, now: u128)
        requires
            old(self).wf(),
        ensures
            final(self)@ == old(self)@.verified(
                block_id,
                packet_in_block,
                total as nat,
                now as nat,
            ),
            final(self).wf(),
    {
        if self.is_completed(block_id) {
            return;
        }
        let mut entry = self.take_entry(block_id, total, now);
        entry.set_received(packet_in_block);
        self.put_entry(block_id, entry);
        proof {
            assert(self@.blocks =~= old(self)@.verified(
                block_id,
                packet_in_block,
                total as nat,
                now as nat,
            ).blocks);
        }
    }

    /// Notes that the end marker of the block has arrived.
    pub fn mark_end_seen(&mut self, block_id: u32, total: usize, now: u128)
        requires
            old(self).wf(),
        ensures
            final(self)@ == old(self)@.ended(block_id, total as nat, now as nat),
            final(self).wf(),
    {
        if self.is_completed(block_id) {
            return;
        }
        let mut entry = self.take_entry(block_id, total, now);
        entry.end_seen = true;
        entry.last_activity = now;
        self.put_entry(block_id, entry);
        proof {
            assert(self@.blocks =~= old(self)@.ended(block_id, total as nat, now as nat).blocks);
        }
    }

    /// The blocks that are to be checked now, each once, in any order.
    pub fn ready_for_check(&self, now: u128, grace: u128, idle_timeout: u128) -> (ready: Vec<u32>)
        requires
            self.wf(),
        ensures
            ready@.no_duplicates(),
            forall|id: u32| #[trigger]
                ready@.contains(id) <==> self@.is_ready(
                    id,
                    now as nat,
                    grace as nat,
                    idle_timeout as nat,
                ),
    {
        let keys = key_list(&self.inner);
        let mut ready: Vec<u32> = Vec::new();
        let mut i: usize = 0;
        while i < keys.len()
            invariant
                i <= keys@.len(),
                self.wf(),
                keys@.no_duplicates(),
                keys@.to_set() == self.inner@.dom(),
                ready@.no_duplicates(),
                forall|id: u32| #[trigger]
                    ready@.contains(id) <==> keys@.take(i as int).contains(id) && self@.is_ready(
                        id,
                        now as nat,
                        grace as nat,
                        idle_timeout as nat,
                    ),
            decreases keys@.len() - i,
        {
            let id: u32 = keys[i];
            let ghost before = ready@;
            proof {
                assert(keys@.to_set().contains(id));
                assert(self.inner@.contains_key(id));
                lemma_take_succ_contains(keys@, i as int);
            }
            if let Some(entry) = self.inner.get(&id) {
                if entry.is_ready(now, grace, idle_timeout) {
                    ready.push(id);
                    proof {
                        lemma_push_contains(before, id);
                    }
                }
            }
            i = i + 1;
        }
        proof {
            assert(keys@.take(i as int) =~= keys@);
            assert forall|id: u32| #[trigger] ready@.contains(id) <==> self@.is_ready(
                id,
                now as nat,
                grace as nat,
                idle_timeout as nat,
            ) by {
                assert(keys@.contains(id) == keys@.to_set().contains(id));
            }
        }
        ready
    }

    /// Starts the next repair round of a block and says how the block stands:
    /// whether it is complete, what is missing, and the number of the round.
    /// `None` if the block is not tracked.
    pub fn snapshot_and_tick(&mut self, block_id: u32, now: u128) -> (r: Option<
        (bool, Vec<u16>, u32),
    >)
        requires
            old(self).wf(),
            old(self)@.blocks.contains_key(block_id) ==> old(self)@.blocks[block_id].rounds
                < u32::MAX,
        ensures
            final(self)@ == old(self)@.ticked(block_id, now as nat),
            final(self).wf(),
            r is Some <==> old(self)@.blocks.contains_key(block_id),
            r matches Some((is_complete, missing, rounds)) ==> {
                let entry = old(self)@.tick(block_id, now as nat);
                is_complete == entry.complete() && missing@ == entry.missing() && rounds
                    == entry.rounds
            },
    {
        if !self.inner.contains_key(&block_id) {
            return None;
        }
        proof {
            assert(self@.blocks.contains_key(block_id));
        }
        let mut entry = self.take_entry(block_id, 0, now);
        entry.rounds = entry.rounds + 1;
        entry.last_activity = now;
        let r = Some((entry.is_complete(), entry.missing_ids(), entry.rounds));
        self.put_entry(block_id, entry);
        proof {
            assert(self@.blocks =~= old(self)@.ticked(block_id, now as nat).blocks);
        }
        r
    }

    /// Ends the tracking of a block for good.
    pub fn remove(&mut self, block_id: u32)
        requires
            old(self).wf(),
        ensures
            final(self)@ == old(self)@.removed(block_id),
            final(self).wf(),
    {
        let ghost before = self.inner@;
        self.inner.remove(&block_id);
        self.completed_blocks.insert(block_id);
        proof {
            assert(self@.blocks =~= old(self)@.removed(block_id).blocks);
            assert forall|id: u32| #[trigger]
                self.inner@.contains_key(id) implies self.inner@[id].wf() by {
                assert(before.contains_key(id));
            }
            assert forall|id: u32| #[trigger]
                self@.blocks.contains_key(id) implies !self@.completed.contains(id) by {
                assert(old(self)@.blocks.contains_key(id));
            }
        }
    }
}

impl Default for SharedReceiverState {
    fn default() -> (r: Self)
        ensures
            r@ == RxStateView::start(),
            r.wf(),
    {
        SharedReceiverState::new()
    }
}

/// Every tracked block has one bit for each of its packets, and no block that is
/// done is tracked.
pub proof fn law_entries_are_sized(state: SharedReceiverState)
    requires
        state.wf(),
    ensures
        forall|id: u32| #[trigger]
            state@.blocks.contains_key(id) ==> state@.blocks[id].received.len()
                == state@.blocks[id].total,
        state@.disjoint(),
{
    assert forall|id: u32| #[trigger] state@.blocks.contains_key(id) implies state@.blocks[
        id
    ].received.len() == state@.blocks[id].total by {
        assert(state.inner@.contains_key(id));
        law_entry_is_sized(state.inner@[id]);
    }
}

// ---------------------------------------------------------------------------
// What each operation does
// ---------------------------------------------------------------------------

/// Blocks are cut at the multiples of [`PACKETS_PER_BLOCK`]: a chunk stands in
/// the block whose first chunk is the last such multiple up to its id, as many
/// places behind it; a file has just as many blocks as it takes to hold it.
pub proof fn law_blocks_are_cut_at_multiples(
    chunk_id: nat,
    block_id: nat,
    packet_in_block: nat,
    total_chunks: nat,
)
    ensures
        chunk_index(block_id, packet_in_block) == block_id * PACKETS_PER_BLOCK + packet_in_block,
        block_index(chunk_id) * PACKETS_PER_BLOCK <= chunk_id < (block_index(chunk_id) + 1)
            * PACKETS_PER_BLOCK,
        packet_index(chunk_id) == chunk_id - block_index(chunk_id) * PACKETS_PER_BLOCK,
        total_chunks <= block_count(total_chunks) * PACKETS_PER_BLOCK,
        block_count(total_chunks) > 0 ==> (block_count(total_chunks) - 1) * PACKETS_PER_BLOCK
            < total_chunks,
        (block_id + 1) * PACKETS_PER_BLOCK <= total_chunks ==> block_len(block_id, total_chunks)
            == PACKETS_PER_BLOCK,
        block_id * PACKETS_PER_BLOCK <= total_chunks < (block_id + 1) * PACKETS_PER_BLOCK
            ==> block_len(block_id, total_chunks) == total_chunks - block_id * PACKETS_PER_BLOCK,
        total_chunks < block_id * PACKETS_PER_BLOCK ==> block_len(block_id, total_chunks) == 0,
{
}

/// A request is answered id by id: an id whose place holds a packet adds that
/// packet behind what the ids before it gave, every other id adds nothing.
pub proof fn law_requests_are_served_id_by_id(
    packets: Seq<Option<Seq<u8>>>,
    ids: Seq<u16>,
    id: u16,
)
    ensures
        cached_packets(packets, Seq::empty()) == Seq::<Seq<u8>>::empty(),
        cached_packets(packets, ids.push(id)) == if (id as int) < packets.len()
            && packets[id as int] is Some {
            cached_packets(packets, ids).push(packets[id as int]->0)
        } else {
            cached_packets(packets, ids)
        },
{
    let f = |id: u16| packet_at(packets, id);
    let more = ids.push(id);
    reveal(Seq::filter_map);
    more.lemma_filter_map_take_succ(f, ids.len() as int);
    assert(more.take(ids.len() as int) =~= ids);
    assert(more.take(ids.len() as int + 1) =~= more);
    assert(f(more[ids.len() as int]) == packet_at(packets, id));
    assert(cached_packets(packets, Seq::empty()) =~= Seq::<Seq<u8>>::empty());
    assert(cached_packets(packets, more) =~= if (id as int) < packets.len()
        && packets[id as int] is Some {
        cached_packets(packets, ids).push(packets[id as int]->0)
    } else {
        cached_packets(packets, ids)
    });
}

/// However many ids are asked for: every one of them whose place holds a packet
/// is answered with that packet, nothing else is sent, and as many packets are
/// sent as there are such ids.
pub proof fn law_all_requested_packets_are_served(
    packets: Seq<Option<Seq<u8>>>,
    ids: Seq<u16>,
)
    ensures
        forall|i: int|
            0 <= i < ids.len() && (#[trigger] ids[i] as int) < packets.len()
                && packets[ids[i] as int] is Some ==> cached_packets(packets, ids).contains(
                packets[ids[i] as int]->0,
            ),
        forall|packet: Seq<u8>| #[trigger]
            cached_packets(packets, ids).contains(packet) ==> exists|id: u16| #[trigger]
                ids.contains(id) && (id as int) < packets.len() && packets[id as int] == Some(
                    packet,
                ),
        cached_packets(packets, ids).len() == ids.filter(
            |id: u16| (id as int) < packets.len() && packets[id as int] is Some,
        ).len(),
    decreases ids.len(),
{
    let served = cached_packets(packets, ids);
    let holds = |id: u16| (id as int) < packets.len() && packets[id as int] is Some;
    reveal(Seq::filter);
    if ids.len() == 0 {
        law_requests_are_served_id_by_id(packets, ids, 0);
        assert(ids =~= Seq::empty());
    } else {
        let init = ids.drop_last();
        let before = cached_packets(packets, init);
        law_all_requested_packets_are_served(packets, init);
        law_requests_are_served_id_by_id(packets, init, ids.last());
        assert(init.push(ids.last()) =~= ids);
        assert forall|i: int|
            0 <= i < ids.len() && (#[trigger] ids[i] as int) < packets.len()
                && packets[ids[i] as int] is Some implies served.contains(
            packets[ids[i] as int]->0,
        ) by {
            let packet = packets[ids[i] as int]->0;
            if i < init.len() {
                assert(init[i] == ids[i]);
                assert(before.contains(packet));
                let k = before.index_of(packet);
                assert(served[k] == packet);
            } else {
                assert(served.last() == packet);
            }
        }
        assert forall|packet: Seq<u8>| #[trigger] served.contains(packet) implies exists|id: u16|
            #[trigger] ids.contains(id) && (id as int) < packets.len() && packets[id as int]
                == Some(packet) by {
            let k = served.index_of(packet);
            if k < before.len() {
                assert(before[k] == packet);
                assert(before.contains(packet));
                let id = choose|id: u16| #[trigger]
                    init.contains(id) && (id as int) < packets.len() && packets[id as int] == Some(
                        packet,
                    );
                let i = init.index_of(id);
                assert(ids[i] == id);
                assert(ids.contains(id));
            } else {
                assert(ids[ids.len() - 1] == ids.last());
                assert(ids.contains(ids.last()));
            }
        }
        assert(holds(ids.last()) == ((ids.last() as int) < packets.len()
            && packets[ids.last() as int] is Some));
    }
}

/// A block that has a cache keeps it; any other block starts with one of as many
/// places as it has packets, all of them empty.
pub proof fn law_new_caches_are_empty(
    cache: Map<u32, Seq<Option<Seq<u8>>>>,
    block_id: u32,
    total: nat,
)
    ensures
        cache.contains_key(block_id) ==> cache_of(cache, block_id, total) == cache[block_id],
        !cache.contains_key(block_id) ==> {
            &&& cache_of(cache, block_id, total).len() == total
            &&& forall|i: int|
                0 <= i < total ==> #[trigger] cache_of(cache, block_id, total)[i] is None
        },
{
}

/// The mathematical forms keep every packet and every datagram at its place.
pub proof fn law_packets_are_seen_whole(
    packets: Seq<Option<Vec<u8>>>,
    datagrams: Seq<Vec<u8>>,
)
    ensures
        packets_view(packets).len() == packets.len(),
        forall|i: int|
            0 <= i < packets.len() ==> (match #[trigger] packets[i] {
                Some(packet) => packets_view(packets)[i] == Some(packet@),
                None => packets_view(packets)[i] is None,
            }),
        datagrams_view(datagrams).len() == datagrams.len(),
        forall|i: int|
            0 <= i < datagrams.len() ==> #[trigger] datagrams_view(datagrams)[i] == datagrams[i]@,
{
}

/// The missing ids of a block of any size are the places that have not been
/// received, all of them, in ascending order.
pub proof fn law_missing_lists_every_gap(entry: RxView)
    ensures
        entry.missing() == Seq::new(entry.received.len(), |i: int| i).filter(
            |i: int| !entry.received[i],
        ).map_values(|i: int| i as u16),
{
    lemma_missing_is_filter(entry.received, entry.received.len());
}

proof fn lemma_missing_is_filter(bits: Seq<bool>, n: nat)
    requires
        n <= bits.len(),
    ensures
        missing_below(bits, n) == Seq::new(n, |i: int| i).filter(|i: int| !bits[i]).map_values(
            |i: int| i as u16,
        ),
    decreases n,
{
    let gap = |i: int| !bits[i];
    let id = |i: int| i as u16;
    let places = Seq::new(n, |i: int| i);
    reveal(Seq::filter);
    if n > 0 {
        lemma_missing_is_filter(bits, (n - 1) as nat);
        assert(places.drop_last() =~= Seq::new((n - 1) as nat, |i: int| i));
        assert(places.last() == n - 1);
        let before = places.drop_last().filter(gap);
        assert(before.push(n - 1).map_values(id) =~= before.map_values(id).push((n - 1) as u16));
        assert(gap(n - 1) == !bits[n - 1]);
    } else {
        assert(places.filter(gap).map_values(id) =~= Seq::<u16>::empty());
    }
}

/// When a block is checked, counted from the time of its last activity: after
/// the idle timeout in any case; with its end marker, a complete block after the
/// grace period, and any other after one grace period for each round that it has
/// been through and one more.
pub proof fn law_when_a_block_is_due(entry: RxView, now: nat, grace: nat, idle_timeout: nat)
    ensures
        !entry.end_seen ==> (entry.ready(now, grace, idle_timeout) <==> now >= entry.last_activity
            + idle_timeout || idle_timeout == 0),
        entry.end_seen && (forall|i: int|
            0 <= i < entry.received.len() ==> #[trigger] entry.received[i]) ==> (entry.ready(
            now,
            grace,
            idle_timeout,
        ) <==> now >= entry.last_activity + grace || grace == 0),
        entry.end_seen && (exists|i: int|
            0 <= i < entry.received.len() && !#[trigger] entry.received[i]) ==> (entry.ready(
            now,
            grace,
            idle_timeout,
        ) <==> {
            ||| now >= entry.last_activity + idle_timeout
            ||| now >= entry.last_activity + grace * (entry.rounds + 1)
            ||| idle_timeout == 0
            ||| grace * (entry.rounds + 1) == 0
        }),
{
    let waited = grace * (entry.rounds + 1);
    assert(waited >= 0);
}

/// A block is tracked, and due, only if its own entry is.
pub proof fn law_due_blocks_are_tracked(
    state: RxStateView,
    id: u32,
    now: nat,
    grace: nat,
    idle_timeout: nat,
)
    ensures
        state.is_ready(id, now, grace, idle_timeout) <==> state.blocks.contains_key(id)
            && state.blocks[id].ready(now, grace, idle_timeout),
{
}

/// What the arrival of a datagram changes: a block that is done stays as it is;
/// any other is tracked from then on, and the time of its last activity is now.
/// What has been received of it, and all other blocks, stay as they were.
pub proof fn law_arrival_is_activity(
    state: RxStateView,
    id: u32,
    total: nat,
    now: nat,
    other: u32,
)
    ensures
        ({
            let after = state.touched(id, total, now);
            &&& after.completed == state.completed
            &&& other != id || state.completed.contains(id) ==> {
                &&& after.blocks.contains_key(other) == state.blocks.contains_key(other)
                &&& after.blocks.contains_key(other) ==> after.blocks[other] == state.blocks[other]
            }
            &&& !state.completed.contains(id) ==> {
                let b = after.blocks[id];
                &&& after.blocks.contains_key(id)
                &&& b.last_activity == now
                &&& state.blocks.contains_key(id) ==> {
                    &&& b.total == state.blocks[id].total
                    &&& b.received == state.blocks[id].received
                    &&& b.end_seen == state.blocks[id].end_seen
                    &&& b.rounds == state.blocks[id].rounds
                }
                &&& !state.blocks.contains_key(id) ==> {
                    &&& b.total == total
                    &&& b.received.len() == total
                    &&& forall|i: int| 0 <= i < total ==> !#[trigger] b.received[i]
                    &&& !b.end_seen
                    &&& b.rounds == 0
                }
            }
        }),
{
}

/// What a verified packet changes: its place in its block counts as received
/// from then on, unless the block is done or has no such place.  No other place,
/// no other block and no time of activity changes.
pub proof fn law_verified_packet_is_received(
    state: RxStateView,
    id: u32,
    packet_in_block: u16,
    total: nat,
    now: nat,
    other: u32,
)
    ensures
        ({
            let after = state.verified(id, packet_in_block, total, now);
            &&& after.completed == state.completed
            &&& other != id || state.completed.contains(id) ==> {
                &&& after.blocks.contains_key(other) == state.blocks.contains_key(other)
                &&& after.blocks.contains_key(other) ==> after.blocks[other] == state.blocks[other]
            }
            &&& !state.completed.contains(id) ==> {
                let b = after.blocks[id];
                &&& after.blocks.contains_key(id)
                &&& packet_in_block < b.received.len() ==> b.received[packet_in_block as int]
                &&& state.blocks.contains_key(id) ==> {
                    &&& b.total == state.blocks[id].total
                    &&& b.received.len() == state.blocks[id].received.len()
                    &&& forall|i: int|
                        0 <= i < b.received.len() && i != packet_in_block
                            ==> #[trigger] b.received[i] == state.blocks[id].received[i]
                    &&& b.last_activity == state.blocks[id].last_activity
                    &&& b.end_seen == state.blocks[id].end_seen
                    &&& b.rounds == state.blocks[id].rounds
                }
                &&& !state.blocks.contains_key(id) ==> {
                    &&& b.total == total
                    &&& b.received.len() == total
                    &&& forall|i: int|
                        0 <= i < total && i != packet_in_block ==> !#[trigger] b.received[i]
                    &&& b.last_activity == now
                    &&& !b.end_seen
                    &&& b.rounds == 0
                }
            }
        }),
{
}

/// What an end marker changes: unless the block is done, it is tracked from then
/// on, its end has been seen, and the time of its last activity is now.  What has
/// been received of it, and all other blocks, stay as they were.
pub proof fn law_end_marker_is_remembered(
    state: RxStateView,
    id: u32,
    total: nat,
    now: nat,
    other: u32,
)
    ensures
        ({
            let after = state.ended(id, total, now);
            &&& after.completed == state.completed
            &&& other != id || state.completed.contains(id) ==> {
                &&& after.blocks.contains_key(other) == state.blocks.contains_key(other)
                &&& after.blocks.contains_key(other) ==> after.blocks[other] == state.blocks[other]
            }
            &&& !state.completed.contains(id) ==> {
                let b = after.blocks[id];
                &&& after.blocks.contains_key(id)
                &&& b.last_activity == now
                &&& b.end_seen
                &&& state.blocks.contains_key(id) ==> {
                    &&& b.total == state.blocks[id].total
                    &&& b.received == state.blocks[id].received
                    &&& b.rounds == state.blocks[id].rounds
                }
                &&& !state.blocks.contains_key(id) ==> {
                    &&& b.total == total
                    &&& b.received.len() == total
                    &&& forall|i: int| 0 <= i < total ==> !#[trigger] b.received[i]
                    &&& b.rounds == 0
                }
            }
        }),
{
}

/// What a repair round changes: the block has been through one round more, and
/// the time of its last activity is now.  The end of a block takes it out of
/// those that are tracked and puts it among those that are done.  Nothing else
/// changes in either case.
pub proof fn law_rounds_and_ends(state: RxStateView, id: u32, now: nat, other: u32)
    ensures
        ({
            let after = state.ticked(id, now);
            &&& after.completed == state.completed
            &&& after.blocks.contains_key(other) == state.blocks.contains_key(other)
            &&& other != id && state.blocks.contains_key(other) ==> after.blocks[other]
                == state.blocks[other]
            &&& state.blocks.contains_key(id) ==> {
                let b = after.blocks[id];
                &&& b == state.tick(id, now)
                &&& b.rounds == state.blocks[id].rounds + 1
                &&& b.last_activity == now
                &&& b.received == state.blocks[id].received
                &&& b.total == state.blocks[id].total
                &&& b.end_seen == state.blocks[id].end_seen
            }
        }),
        ({
            let after = state.removed(id);
            &&& !after.blocks.contains_key(id)
            &&& after.completed.contains(id)
            &&& other != id ==> {
                &&& after.blocks.contains_key(other) == state.blocks.contains_key(other)
                &&& state.blocks.contains_key(other) ==> after.blocks[other]
                    == state.blocks[other]
                &&& after.completed.contains(other) == state.completed.contains(other)
            }
        }),
{
}

/// Nothing is tracked and nothing is done before the first datagram, and nothing
/// of a new block has been received.
pub proof fn law_tracking_starts_empty(id: u32, total: nat, now: nat)
    ensures
        !RxStateView::start().blocks.contains_key(id),
        !RxStateView::start().completed.contains(id),
        RxView::fresh(total, now).total == total,
        RxView::fresh(total, now).received.len() == total,
        forall|i: int| 0 <= i < total ==> !#[trigger] RxView::fresh(total, now).received[i],
        RxView::fresh(total, now).last_activity == now,
        !RxView::fresh(total, now).end_seen,
        RxView::fresh(total, now).rounds == 0,
{
}

/// A block is complete exactly if none of its places is a gap.
pub proof fn law_complete_blocks_have_no_gap(entry: RxView)
    ensures
        entry.complete() <==> forall|i: int|
            0 <= i < entry.received.len() ==> #[trigger] entry.received[i],
        entry.complete() <==> entry.missing().len() == 0,
{
    let received = entry.received;
    let gap = |i: int| !received[i];
    let places = Seq::new(received.len(), |i: int| i);
    law_missing_lists_every_gap(entry);
    assert(entry.missing().len() == places.filter(gap).len());
    let gaps = places.filter(gap);
    if gaps.len() > 0 {
        let i = gaps[0];
        places.lemma_filter_pred(gap, 0);
        assert(gaps.contains(i));
        places.lemma_filter_contains_rev(gap, i);
        assert(!received[i]);
    } else {
        assert forall|i: int| 0 <= i < received.len() implies #[trigger] received[i] by {
            if !received[i] {
                assert(gap(places[i]));
                places.lemma_filter_contains(gap, i);
            }
        }
    }
}

} // verus!
