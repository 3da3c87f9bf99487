use secure_transfer::config::PACKETS_PER_BLOCK;
use secure_transfer::transport::{
    block_of, chunk_id_of, packets_in_block, total_blocks, BlockRxEntry, SharedBlockCache,
    SharedReceiverState,
};

const N: u32 = PACKETS_PER_BLOCK as u32;

#[test]
fn places_of_chunks() {
    assert_eq!(block_of(0), (0, 0));
    assert_eq!(block_of(N - 1), (0, (N - 1) as u16));
    assert_eq!(block_of(N), (1, 0));
    assert_eq!(block_of(3 * N + 5), (3, 5));
    assert_eq!(chunk_id_of(3, 5), 3 * N + 5);
}

#[test]
fn place_and_chunk_id_undo_each_other() {
    for chunk_id in [0, 1, 255, 256, 257, 100_000, u32::MAX] {
        let (block_id, packet_in_block) = block_of(chunk_id);
        assert!((packet_in_block as usize) < PACKETS_PER_BLOCK);
        assert_eq!(chunk_id_of(block_id, packet_in_block), chunk_id);
    }
}

#[test]
fn sizes_of_blocks() {
    let chunks = 2 * N + 3;
    assert_eq!(packets_in_block(0, chunks), PACKETS_PER_BLOCK);
    assert_eq!(packets_in_block(1, chunks), PACKETS_PER_BLOCK);
    assert_eq!(packets_in_block(2, chunks), 3);
    assert_eq!(packets_in_block(3, chunks), 0);
    assert_eq!(packets_in_block(u32::MAX, chunks), 0);
    assert_eq!(packets_in_block(0, 0), 0);
    assert_eq!(packets_in_block(0, N), PACKETS_PER_BLOCK);
    assert_eq!(packets_in_block(1, N), 0);
}

#[test]
fn numbers_of_blocks() {
    assert_eq!(total_blocks(0), 0);
    assert_eq!(total_blocks(1), 1);
    assert_eq!(total_blocks(N), 1);
    assert_eq!(total_blocks(N + 1), 2);
    assert_eq!(total_blocks(u32::MAX), u32::MAX / N + 1);
}

#[test]
fn blocks_cover_the_file() {
    for chunks in [0, 1, N - 1, N, N + 1, 10 * N + 7] {
        let sum: usize = (0..total_blocks(chunks)).map(|id| packets_in_block(id, chunks)).sum();
        assert_eq!(sum as u32, chunks);
        for id in 0..total_blocks(chunks) {
            assert!(packets_in_block(id, chunks) > 0);
        }
    }
}

#[test]
fn cached_packets_are_served_in_the_order_asked_for() {
    let mut cache = SharedBlockCache::new();
    cache.record_sent(4, 0, 3, vec![10]);
    cache.record_sent(4, 2, 3, vec![12]);
    assert_eq!(cache.fetch_for_retransmit(4, &[2, 0]), vec![vec![12], vec![10]]);
    assert_eq!(cache.fetch_for_retransmit(4, &[0, 0]), vec![vec![10], vec![10]]);
    assert_eq!(cache.fetch_for_retransmit(4, &[1, 3, 60000]), Vec::<Vec<u8>>::new());
    assert_eq!(cache.fetch_for_retransmit(5, &[0]), Vec::<Vec<u8>>::new());
}

#[test]
fn cache_forgets_completed_blocks_only() {
    let mut cache = SharedBlockCache::default();
    assert_eq!(cache.open_block_count(), 0);
    cache.record_sent(1, 0, 2, vec![1]);
    cache.record_sent(2, 1, 2, vec![2]);
    cache.record_sent(1, 1, 2, vec![3]);
    assert_eq!(cache.open_block_count(), 2);
    cache.complete(1);
    assert_eq!(cache.open_block_count(), 1);
    assert!(cache.fetch_for_retransmit(1, &[0, 1]).is_empty());
    assert_eq!(cache.fetch_for_retransmit(2, &[1]), vec![vec![2]]);
    cache.complete(77);
    assert_eq!(cache.open_block_count(), 1);
}

#[test]
fn recorded_packet_replaces_the_one_before() {
    let mut cache = SharedBlockCache::new();
    cache.record_sent(1, 0, 2, vec![1]);
    cache.record_sent(1, 0, 99, vec![9]);
    assert_eq!(cache.fetch_for_retransmit(1, &[0]), vec![vec![9]]);
    assert!(cache.fetch_for_retransmit(1, &[5]).is_empty());
}

#[test]
fn new_entry_misses_everything() {
    let entry = BlockRxEntry::new(3, 0);
    assert_eq!(entry.total, 3);
    assert!(!entry.is_complete());
    assert_eq!(entry.missing_ids(), vec![0, 1, 2]);
    let empty = BlockRxEntry::new(0, 0);
    assert!(empty.is_complete());
    assert!(empty.missing_ids().is_empty());
}

#[test]
fn verified_packets_are_no_longer_missing() {
    let mut state = SharedReceiverState::new();
    state.mark_verified(7, 1, 3, 100);
    state.mark_verified(7, 1, 3, 100);
    state.mark_verified(7, 9, 3, 100);
    let (complete, missing, rounds) = state.snapshot_and_tick(7, 200).unwrap();
    assert!(!complete);
    assert_eq!(missing, vec![0, 2]);
    assert_eq!(rounds, 1);
    state.mark_verified(7, 0, 3, 300);
    state.mark_verified(7, 2, 3, 300);
    let (complete, missing, rounds) = state.snapshot_and_tick(7, 400).unwrap();
    assert!(complete);
    assert!(missing.is_empty());
    assert_eq!(rounds, 2);
}

#[test]
fn arrival_alone_marks_nothing() {
    let mut state = SharedReceiverState::default();
    state.touch_activity(1, 2, 5);
    state.mark_end_seen(1, 2, 6);
    let (complete, missing, _) = state.snapshot_and_tick(1, 7).unwrap();
    assert!(!complete);
    assert_eq!(missing, vec![0, 1]);
}

#[test]
fn unknown_blocks_have_no_snapshot() {
    let mut state = SharedReceiverState::new();
    assert!(state.snapshot_and_tick(1, 0).is_none());
}

#[test]
fn completed_blocks_are_never_tracked_again() {
    let mut state = SharedReceiverState::new();
    state.mark_verified(3, 0, 1, 0);
    assert!(!state.is_completed(3));
    state.remove(3);
    assert!(state.is_completed(3));
    state.touch_activity(3, 1, 10);
    state.mark_verified(3, 0, 1, 10);
    state.mark_end_seen(3, 1, 10);
    assert!(state.snapshot_and_tick(3, 20).is_none());
    assert!(state.ready_for_check(1_000_000, 0, 0).is_empty());
}

#[test]
fn incomplete_block_backs_off_up_to_the_idle_timeout() {
    let mut state = SharedReceiverState::new();
    state.mark_end_seen(1, 2, 0);
    assert!(state.ready_for_check(9, 10, 25).is_empty());
    assert_eq!(state.ready_for_check(10, 10, 25), vec![1]);
    // One round later it waits twice as long, from the time of the round on.
    state.snapshot_and_tick(1, 100).unwrap();
    assert!(state.ready_for_check(119, 10, 25).is_empty());
    assert_eq!(state.ready_for_check(120, 10, 25), vec![1]);
    // Two rounds later the idle timeout is the limit.
    state.snapshot_and_tick(1, 200).unwrap();
    assert!(state.ready_for_check(224, 10, 25).is_empty());
    assert_eq!(state.ready_for_check(225, 10, 25), vec![1]);
}

#[test]
fn complete_block_waits_for_the_grace_period_only() {
    let mut state = SharedReceiverState::new();
    state.mark_end_seen(1, 1, 0);
    state.mark_verified(1, 0, 1, 0);
    state.snapshot_and_tick(1, 0).unwrap();
    state.snapshot_and_tick(1, 0).unwrap();
    assert!(state.ready_for_check(9, 10, 100).is_empty());
    assert_eq!(state.ready_for_check(10, 10, 100), vec![1]);
}

#[test]
fn block_without_an_end_is_checked_when_idle() {
    let mut state = SharedReceiverState::new();
    state.touch_activity(1, 2, 0);
    state.mark_verified(2, 0, 1, 0);
    assert!(state.ready_for_check(99, 10, 100).is_empty());
    let mut ready = state.ready_for_check(100, 10, 100);
    ready.sort();
    assert_eq!(ready, vec![1, 2]);
}

#[test]
fn activity_puts_the_check_off() {
    let mut state = SharedReceiverState::new();
    state.touch_activity(1, 2, 0);
    state.touch_activity(1, 2, 50);
    assert!(state.ready_for_check(149, 10, 100).is_empty());
    assert_eq!(state.ready_for_check(150, 10, 100), vec![1]);
    // A clock that seems to run backwards counts as no time at all.
    assert!(state.ready_for_check(0, 10, 100).is_empty());
}

#[test]
fn verification_is_no_activity() {
    let mut state = SharedReceiverState::new();
    state.touch_activity(1, 2, 0);
    state.mark_verified(1, 0, 2, 90);
    assert_eq!(state.ready_for_check(100, 10, 100), vec![1]);
}

#[test]
fn backoff_does_not_overflow() {
    let mut state = SharedReceiverState::new();
    state.mark_end_seen(1, 2, 0);
    state.snapshot_and_tick(1, 0).unwrap();
    assert!(state.ready_for_check(99, u128::MAX, 100).is_empty());
    assert_eq!(state.ready_for_check(100, u128::MAX, 100), vec![1]);
}
