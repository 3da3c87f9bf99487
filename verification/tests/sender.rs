use secure_transfer::config::PACKETS_PER_BLOCK;
use secure_transfer::pipeline::{EncryptedChunk, ReadChunk};
use secure_transfer::protocol::{BlockAck, BlockEndPacket};
use secure_transfer::receiver::{BlockReceiver, Incoming};
use secure_transfer::sender::{
    BlockManager, BlockState, EventReply, Input, LostReport, Prior, SendAction, SendFault,
    SenderEvent, Status, PROGRESS_STEP,
};
use secure_transfer::transport::total_blocks;
use secure_transfer::worker::{open_packet, seal_chunk};
use secure_transfer::writer::{ReorderBuffer, WriteAction};

const N: u32 = PACKETS_PER_BLOCK as u32;

fn chunk(chunk_id: u32) -> EncryptedChunk {
    EncryptedChunk { chunk_id, packet: chunk_id.to_be_bytes().to_vec(), bytes: 10 }
}

fn arrived(chunk_id: u32) -> Input {
    Input::Event(SenderEvent::Chunk(chunk(chunk_id)))
}

fn complete(block_id: u32) -> Input {
    Input::Event(SenderEvent::Ack(BlockAck::Complete { block_id }))
}

fn missing(block_id: u32, missing: Vec<u16>) -> Input {
    Input::Event(SenderEvent::Ack(BlockAck::Missing { block_id, missing }))
}

fn manager(total_chunks: u32, depth: usize) -> BlockManager {
    BlockManager::new(total_chunks, depth, total_blocks(total_chunks))
}

/// What the actions send, in order: `Ok` for file data, `Err` for block ends.
fn sent(actions: &[SendAction]) -> Vec<Result<u32, Vec<u8>>> {
    let mut list = Vec::new();
    for action in actions {
        match action {
            SendAction::Data(d) | SendAction::Resend(d) => {
                list.push(Ok(u32::from_be_bytes(d[..4].try_into().unwrap())));
            }
            SendAction::BlockEnd(d) => list.push(Err(d.clone())),
            SendAction::Progress(_) => {}
        }
    }
    list
}

fn feed(manager: &mut BlockManager, input: Input) -> Vec<Result<u32, Vec<u8>>> {
    let mut actions = Vec::new();
    manager.advance(input, &mut actions).unwrap();
    sent(&actions)
}

#[test]
fn new_block_state_has_nothing_cached() {
    assert!(!BlockState::new(2).all_cached());
    assert!(BlockState::new(0).all_cached());
}

#[test]
fn a_file_without_blocks_is_finished_at_once() {
    let mut m = manager(0, 4);
    let mut actions = Vec::new();
    let (status, reply) = m.advance(Input::Begin, &mut actions).unwrap();
    assert_eq!(status, Status::Finished);
    assert!(reply.is_none());
    assert!(actions.is_empty());
}

#[test]
fn block_end_follows_the_last_packet() {
    let mut m = manager(3, 4);
    assert_eq!(feed(&mut m, arrived(2)), vec![Ok(2)]);
    assert_eq!(feed(&mut m, arrived(0)), vec![Ok(0)]);
    assert_eq!(
        feed(&mut m, arrived(1)),
        vec![Ok(1), Err(BlockEndPacket::encode(0, 3))]
    );
    assert_eq!(m.packets_sent(), 3);
    assert_eq!(m.bytes_sent(), 30);
    assert_eq!(m.open_slots(), 1);
}

#[test]
fn block_end_is_sent_once() {
    let mut m = manager(2, 4);
    feed(&mut m, arrived(0));
    assert_eq!(feed(&mut m, arrived(1)).len(), 2);
    // A chunk that comes again is sent again, the end is not.
    assert_eq!(feed(&mut m, arrived(1)), vec![Ok(1)]);
    assert_eq!(feed(&mut m, missing(0, vec![0, 1])), vec![Ok(0), Ok(1)]);
}

#[test]
fn a_full_pipeline_makes_blocks_wait() {
    let mut m = manager(4 * N, 2);
    assert_eq!(feed(&mut m, arrived(0)), vec![Ok(0)]);
    assert_eq!(feed(&mut m, arrived(N)), vec![Ok(N)]);
    assert_eq!(feed(&mut m, arrived(3 * N)), vec![]);
    assert_eq!(feed(&mut m, arrived(2 * N + 1)), vec![]);
    assert_eq!(feed(&mut m, arrived(2 * N)), vec![]);
    assert_eq!(m.open_slots(), 2);
    let mut pending = m.pending_block_ids();
    pending.sort();
    assert_eq!(pending, vec![2, 3]);
    // Chunks of open blocks still go out.
    assert_eq!(feed(&mut m, arrived(1)), vec![Ok(1)]);
    // A free slot goes to the smallest id, with all that waited for it.
    assert_eq!(feed(&mut m, complete(1)), vec![Ok(2 * N + 1), Ok(2 * N)]);
    assert_eq!(m.pending_block_ids(), vec![3]);
    let mut open = m.open_block_ids();
    open.sort();
    assert_eq!(open, vec![0, 2]);
}

#[test]
fn resolved_blocks_take_no_chunks() {
    let mut m = manager(2 * N, 2);
    feed(&mut m, arrived(0));
    feed(&mut m, complete(0));
    assert_eq!(feed(&mut m, arrived(1)), vec![]);
    assert_eq!(feed(&mut m, missing(0, vec![0])), vec![]);
    assert_eq!(m.packets_sent(), 1);
    assert_eq!(m.open_slots(), 0);
    assert_eq!(m.completed(), 1);
}

#[test]
fn replies_say_where_a_block_stood() {
    let mut m = manager(5 * N, 1);
    let mut actions = Vec::new();
    let mut reply = |input| m.advance(input, &mut actions).unwrap().1;
    assert_eq!(reply(arrived(0)), Some(EventReply::Taken));
    assert_eq!(reply(arrived(N)), Some(EventReply::Taken));
    assert_eq!(reply(arrived(N + 1)), Some(EventReply::Taken));
    assert_eq!(reply(missing(0, vec![0, 1])), Some(EventReply::Resent(1)));
    assert_eq!(reply(complete(1)), Some(EventReply::Resolved(Prior::WasPending(2))));
    assert_eq!(reply(complete(2)), Some(EventReply::Resolved(Prior::Unseen)));
    assert_eq!(reply(complete(0)), Some(EventReply::Resolved(Prior::WasOpen)));
    assert_eq!(reply(complete(0)), Some(EventReply::Resolved(Prior::AlreadyResolved)));
}

#[test]
fn duplicate_reports_do_not_count() {
    let mut m = manager(2 * N, 2);
    feed(&mut m, complete(0));
    feed(&mut m, complete(0));
    assert_eq!(m.completed(), 1);
    assert!(!m.is_finished());
    let mut actions = Vec::new();
    let (status, _) = m.advance(complete(1), &mut actions).unwrap();
    assert_eq!(status, Status::Finished);
    assert!(m.is_finished());
}

#[test]
fn only_cached_packets_are_resent() {
    let mut m = manager(N, 2);
    feed(&mut m, arrived(3));
    feed(&mut m, arrived(1));
    assert_eq!(feed(&mut m, missing(0, vec![0, 1, 2, 3, 999])), vec![Ok(1), Ok(3)]);
    assert_eq!(feed(&mut m, missing(7, vec![0])), vec![]);
    assert_eq!(m.resend(0, &[3]), vec![3u32.to_be_bytes().to_vec()]);
    assert_eq!(m.packets_sent(), 2);
    m.note_retransmitted(2);
    m.note_retransmitted(1);
    assert_eq!(m.retransmitted(), 3);
}

#[test]
fn waiting_blocks_have_nothing_to_resend() {
    let mut m = manager(2 * N, 1);
    feed(&mut m, arrived(0));
    feed(&mut m, arrived(N));
    assert_eq!(feed(&mut m, missing(1, vec![0])), vec![]);
}

#[test]
fn a_lost_connection_is_reported() {
    let mut m = manager(4 * N, 1);
    feed(&mut m, arrived(0));
    feed(&mut m, arrived(N));
    feed(&mut m, arrived(N + 1));
    feed(&mut m, arrived(2 * N));
    feed(&mut m, complete(3));
    let mut actions = Vec::new();
    let (status, reply) = m.advance(Input::Closed, &mut actions).unwrap();
    assert!(reply.is_none());
    assert_eq!(
        status,
        Status::Lost(LostReport {
            unresolved: 3,
            total_blocks: 4,
            open_slots: 1,
            stuck_pending: 3,
            stuck_pending_blocks: 2,
        })
    );
}

#[test]
fn a_closed_channel_is_no_loss_when_all_is_done() {
    let mut m = manager(1, 1);
    feed(&mut m, complete(0));
    let mut actions = Vec::new();
    let (status, _) = m.advance(Input::Closed, &mut actions).unwrap();
    assert_eq!(status, Status::Finished);
}

#[test]
fn chunks_behind_the_file_are_a_fault() {
    let mut m = manager(3, 2);
    let mut actions = Vec::new();
    assert_eq!(m.advance(arrived(3), &mut actions), Err(SendFault::PacketOutOfRange));
    let mut m = manager(3, 2);
    assert_eq!(m.advance(arrived(N), &mut actions), Err(SendFault::PacketOutOfRange));
    assert!(actions.is_empty());
}

#[test]
fn a_repeated_chunk_in_place_of_another_is_a_fault() {
    let mut m = manager(2, 2);
    let mut actions = Vec::new();
    m.advance(arrived(0), &mut actions).unwrap();
    assert_eq!(m.advance(arrived(0), &mut actions), Err(SendFault::IncompleteBlock));
    assert_eq!(actions.len(), 1);
}

#[test]
fn too_many_bytes_are_a_fault() {
    let mut m = manager(2, 2);
    let mut actions = Vec::new();
    let mut huge = chunk(0);
    huge.bytes = usize::MAX;
    assert!(m.advance(Input::Event(SenderEvent::Chunk(huge)), &mut actions).is_ok());
    assert_eq!(m.advance(arrived(1), &mut actions), Err(SendFault::CounterOverflow));
}

#[test]
fn progress_is_reported_between_data_and_block_end() {
    let mut m = manager(1, 2);
    let mut actions = Vec::new();
    let mut big = chunk(0);
    big.bytes = PROGRESS_STEP as usize;
    m.advance(Input::Event(SenderEvent::Chunk(big)), &mut actions).unwrap();
    assert_eq!(actions.len(), 3);
    assert!(matches!(actions[0], SendAction::Data(_)));
    assert!(matches!(actions[1], SendAction::Progress(PROGRESS_STEP)));
    assert!(matches!(actions[2], SendAction::BlockEnd(_)));
}

#[test]
fn waiting_chunks_end_their_block_when_it_opens() {
    let mut m = manager(N + 2, 1);
    feed(&mut m, arrived(0));
    feed(&mut m, arrived(N + 1));
    feed(&mut m, arrived(N));
    assert_eq!(
        feed(&mut m, complete(0)),
        vec![Ok(N + 1), Ok(N), Err(BlockEndPacket::encode(1, 2))]
    );
}

#[test]
fn each_block_is_ended_once_whatever_the_order() {
    let total = 3 * N + 5;
    for step in [1u64, 7, 101, 331] {
        let mut m = manager(total, 8);
        let mut ends = 0;
        for k in 0..total as u64 {
            let id = (k * step % total as u64) as u32;
            ends += feed(&mut m, arrived(id)).iter().filter(|s| s.is_err()).count();
        }
        assert_eq!(ends, 4);
        assert_eq!(m.packets_sent(), total as u64);
    }
}

#[test]
fn bytes_sent_are_the_size_of_the_file() {
    let size = (2 * N as u64 + 3) * 10;
    let mut m = manager(2 * N + 3, 1);
    for id in (0..2 * N + 3).rev() {
        feed(&mut m, arrived(id));
        feed(&mut m, missing(2, vec![0, 1, 2]));
    }
    // Only the last block is open; the others wait.
    assert_eq!(m.bytes_sent(), 30);
    feed(&mut m, complete(2));
    feed(&mut m, missing(0, vec![5]));
    feed(&mut m, complete(0));
    feed(&mut m, complete(1));
    assert!(m.is_finished());
    assert_eq!(m.bytes_sent(), size);
    assert_eq!(m.packets_sent(), 2 * N as u64 + 3);
}

#[test]
fn the_steps_of_the_scheduler_can_be_taken_singly() {
    let mut m = manager(2 * N, 1);
    let mut actions = Vec::new();
    m.admit_or_buffer(chunk(0), &mut actions).unwrap();
    m.place_chunk(chunk(1), &mut actions).unwrap();
    m.admit_or_buffer(chunk(N), &mut actions).unwrap();
    assert_eq!(sent(&actions), vec![Ok(0), Ok(1)]);
    m.drain_pending(&mut actions).unwrap();
    assert_eq!(actions.len(), 2);
    assert_eq!(m.on_complete(0), Prior::WasOpen);
    m.drain_pending(&mut actions).unwrap();
    assert_eq!(sent(&actions), vec![Ok(0), Ok(1), Ok(N)]);
    assert_eq!(
        m.handle(SenderEvent::Chunk(chunk(N + 1)), &mut actions),
        Ok(EventReply::Taken)
    );
    assert_eq!(m.lost_report().unresolved, 1);
}

/// A transfer over a wire that loses every third datagram the first time.
#[test]
fn a_lossy_transfer_is_repaired() {
    let key = [1u8; 32];
    let nonce = [2u8; 16];
    let file: Vec<u8> = (0..2000 * 700).map(|i: u32| (i % 253) as u8).collect();
    let pieces: Vec<&[u8]> = file.chunks(1400).collect();
    let total = pieces.len() as u32;

    let mut m = manager(total, 2);
    let mut receiver = BlockReceiver::new(total);
    let mut writer = ReorderBuffer::new(total);
    let mut output = Vec::new();
    let mut now = 0u128;
    let mut lost = 0u32;

    let mut inputs = vec![Input::Begin];
    for (i, piece) in pieces.iter().enumerate() {
        let chunk = ReadChunk { chunk_id: i as u32, data: piece.to_vec() };
        inputs.push(Input::Event(SenderEvent::Chunk(seal_chunk(&chunk, &key, &nonce))));
    }
    inputs.reverse();

    let mut finished = false;
    while !finished {
        let mut actions = Vec::new();
        if let Some(input) = inputs.pop() {
            let (status, _) = m.advance(input, &mut actions).unwrap();
            finished = status == Status::Finished;
        }
        for action in actions {
            let (datagram, first) = match action {
                SendAction::Data(d) | SendAction::BlockEnd(d) => (d, true),
                SendAction::Resend(d) => (d, false),
                SendAction::Progress(_) => continue,
            };
            lost += 1;
            if first && lost % 3 == 0 {
                continue;
            }
            if let Incoming::Packet(packet) = receiver.on_datagram(&datagram, now) {
                let verified = open_packet(packet, &key, &nonce).unwrap();
                let chunk = receiver.on_verified(verified, now);
                let mut writes = Vec::new();
                writer.accept(chunk, &mut writes).unwrap();
                for write in writes {
                    if let WriteAction::Write(data) = write {
                        output.extend_from_slice(&data);
                    }
                }
            }
        }
        now += 1_000_000;
        if inputs.is_empty() {
            now += 300_000_000;
            for id in receiver.ready_blocks(now) {
                let verdict = receiver.check_block(id, now).unwrap();
                assert!(verdict.given_up.is_none());
                inputs.push(Input::Event(SenderEvent::Ack(verdict.ack)));
            }
        }
    }
    assert!(receiver.is_done());
    assert!(writer.is_done());
    assert!(output == file);
    assert_eq!(m.bytes_sent(), file.len() as u64);
}
