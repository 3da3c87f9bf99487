use secure_transfer::config::{MAX_BLOCK_RETRY_ROUNDS, PACKETS_PER_BLOCK};
use secure_transfer::pipeline::{DecryptedChunk, ReadChunk, ReceivedPacket};
use secure_transfer::protocol::{BlockAck, BlockEndPacket, DataPacket};
use secure_transfer::receiver::{checked_chunk_id, decide, BlockReceiver, Incoming};
use secure_transfer::worker::{open_packet, seal_chunk};

const KEY: [u8; 32] = [3; 32];
const NONCE: [u8; 16] = [4; 16];
const MS: u128 = 1_000_000;

fn sealed(chunk_id: u32, data: &[u8]) -> Vec<u8> {
    let chunk = ReadChunk { chunk_id, data: data.to_vec() };
    seal_chunk(&chunk, &KEY, &NONCE).packet
}

fn packet_of(receiver: &mut BlockReceiver, datagram: &[u8], now: u128) -> ReceivedPacket {
    match receiver.on_datagram(datagram, now) {
        Incoming::Packet(packet) => packet,
        _ => panic!("expected a packet"),
    }
}

fn deliver(receiver: &mut BlockReceiver, chunk_id: u32, data: &[u8], now: u128) -> DecryptedChunk {
    let packet = packet_of(receiver, &sealed(chunk_id, data), now);
    let verified = open_packet(packet, &KEY, &NONCE).unwrap();
    receiver.on_verified(verified, now)
}

#[test]
fn sealed_chunk_is_framed_for_its_place() {
    let chunk = ReadChunk { chunk_id: PACKETS_PER_BLOCK as u32 + 3, data: vec![1, 2, 3] };
    let sealed = seal_chunk(&chunk, &KEY, &NONCE);
    assert_eq!(sealed.chunk_id, chunk.chunk_id);
    assert_eq!(sealed.bytes, 3);
    let packet = DataPacket::decode(&sealed.packet[1..]).unwrap();
    assert_eq!((packet.block_id, packet.packet_in_block), (1, 3));
    assert_eq!(packet.hash, secure_transfer::checksum::chunk_hash(&[1, 2, 3]));
    assert_ne!(packet.payload, vec![1, 2, 3]);
}

#[test]
fn chunk_survives_the_transfer() {
    let mut receiver = BlockReceiver::new(1000);
    let data: Vec<u8> = (0..1400).map(|i| (i % 256) as u8).collect();
    for chunk_id in [0, 5, 300, 999] {
        let chunk = deliver(&mut receiver, chunk_id, &data, 0);
        assert_eq!(chunk.chunk_id, chunk_id);
        assert_eq!(chunk.data, data);
    }
}

#[test]
fn damaged_packets_do_not_open() {
    let mut receiver = BlockReceiver::new(10);
    let mut datagram = sealed(3, &[1, 2, 3]);
    let last = datagram.len() - 1;
    datagram[last] ^= 1;
    let packet = packet_of(&mut receiver, &datagram, 0);
    assert!(open_packet(packet, &KEY, &NONCE).is_none());
    let packet = packet_of(&mut receiver, &sealed(3, &[1, 2, 3]), 0);
    assert!(open_packet(packet, &[9; 32], &NONCE).is_none());
}

#[test]
fn verified_packet_knows_its_place() {
    let mut receiver = BlockReceiver::new(1000);
    let packet = packet_of(&mut receiver, &sealed(PACKETS_PER_BLOCK as u32 + 7, &[8]), 0);
    let verified = open_packet(packet, &KEY, &NONCE).unwrap();
    assert_eq!(verified.place(), (1, 7));
    assert_eq!(verified.into_chunk().data, vec![8]);
}

#[test]
fn noise_is_ignored() {
    let mut receiver = BlockReceiver::new(10);
    assert!(matches!(receiver.on_datagram(&[], 0), Incoming::Ignored));
    assert!(matches!(receiver.on_datagram(&[0x77, 1, 2], 0), Incoming::Ignored));
    assert!(matches!(receiver.on_datagram(&[0x01, 1, 2], 0), Incoming::Ignored));
    assert!(matches!(receiver.on_datagram(&[0x02, 0, 0, 0, 1], 0), Incoming::Ignored));
    assert!(receiver.ready_blocks(u128::MAX).is_empty());
}

#[test]
fn places_without_a_chunk_id_are_reported() {
    let mut receiver = BlockReceiver::new(10);
    let datagram = DataPacket::encode(u32::MAX, 0, 0, &[1]);
    assert!(matches!(receiver.on_datagram(&datagram, 0), Incoming::OutOfRange));
    assert_eq!(checked_chunk_id(u32::MAX, 0), None);
    assert_eq!(checked_chunk_id(1, 1), Some(PACKETS_PER_BLOCK as u32 + 1));
    assert_eq!(checked_chunk_id(u32::MAX / PACKETS_PER_BLOCK as u32, 255), Some(u32::MAX));
    assert_eq!(checked_chunk_id(u32::MAX / PACKETS_PER_BLOCK as u32, 256), None);
}

#[test]
fn complete_block_is_acknowledged_and_done() {
    let mut receiver = BlockReceiver::new(2);
    assert_eq!(receiver.total_blocks(), 1);
    deliver(&mut receiver, 0, &[1], 0);
    deliver(&mut receiver, 1, &[2], 0);
    assert!(matches!(
        receiver.on_datagram(&BlockEndPacket::encode(0, 2), 0),
        Incoming::BlockEnd
    ));
    assert!(receiver.ready_blocks(15 * MS - 1).is_empty());
    assert_eq!(receiver.ready_blocks(15 * MS), vec![0]);
    assert!(!receiver.is_done());
    let verdict = receiver.check_block(0, 15 * MS).unwrap();
    assert!(matches!(verdict.ack, BlockAck::Complete { block_id: 0 }));
    assert!(verdict.given_up.is_none());
    assert!(receiver.is_done());
    assert!(receiver.check_block(0, 16 * MS).is_none());
}

#[test]
fn late_datagrams_do_not_start_a_block_again() {
    let mut receiver = BlockReceiver::new(1);
    deliver(&mut receiver, 0, &[1], 0);
    receiver.check_block(0, 0).unwrap();
    let chunk = deliver(&mut receiver, 0, &[1], 5);
    assert_eq!(chunk.data, vec![1]);
    receiver.on_datagram(&BlockEndPacket::encode(0, 1), 6);
    assert!(receiver.ready_blocks(u128::MAX).is_empty());
    assert!(receiver.check_block(0, 7).is_none());
}

#[test]
fn missing_packets_are_asked_for_by_their_place() {
    let mut receiver = BlockReceiver::new(4);
    deliver(&mut receiver, 0, &[1], 0);
    deliver(&mut receiver, 2, &[3], 0);
    // Arrived, but damaged.
    let mut datagram = sealed(3, &[4]);
    datagram[12] ^= 0xff;
    let packet = packet_of(&mut receiver, &datagram, 0);
    assert!(open_packet(packet, &KEY, &NONCE).is_none());
    assert!(receiver.ready_blocks(200 * MS - 1).is_empty());
    assert_eq!(receiver.ready_blocks(200 * MS), vec![0]);
    match receiver.check_block(0, 200 * MS).unwrap().ack {
        BlockAck::Missing { block_id, missing } => {
            assert_eq!(block_id, 0);
            assert_eq!(missing, vec![1, 3]);
        }
        _ => panic!("the block is not complete"),
    }
    assert!(!receiver.is_done());
}

#[test]
fn a_block_is_given_up_after_too_many_rounds() {
    let mut receiver = BlockReceiver::new(2);
    deliver(&mut receiver, 1, &[2], 0);
    for round in 0..MAX_BLOCK_RETRY_ROUNDS {
        let verdict = receiver.check_block(0, round as u128).unwrap();
        assert!(matches!(verdict.ack, BlockAck::Missing { .. }));
        assert!(verdict.given_up.is_none());
    }
    let verdict = receiver.check_block(0, 1000).unwrap();
    assert!(matches!(verdict.ack, BlockAck::Complete { block_id: 0 }));
    assert_eq!(verdict.given_up, Some((MAX_BLOCK_RETRY_ROUNDS + 1, 1)));
    assert!(receiver.is_done());
}

#[test]
fn decisions_about_a_block() {
    let last = MAX_BLOCK_RETRY_ROUNDS;
    assert!(matches!(decide(4, true, vec![], 1).ack, BlockAck::Complete { block_id: 4 }));
    assert!(matches!(decide(4, false, vec![1], last).ack, BlockAck::Missing { block_id: 4, .. }));
    let given_up = decide(4, false, vec![1, 2], last + 1);
    assert!(matches!(given_up.ack, BlockAck::Complete { block_id: 4 }));
    assert_eq!(given_up.given_up, Some((last + 1, 2)));
    assert!(decide(4, true, vec![], last + 1).given_up.is_none());
}

#[test]
fn an_empty_file_is_done_at_once() {
    let receiver = BlockReceiver::new(0);
    assert!(receiver.is_done());
    assert_eq!(receiver.total_blocks(), 0);
}

#[test]
fn all_blocks_are_reported_once_when_the_transfer_is_over() {
    let chunks = PACKETS_PER_BLOCK as u32 + 1;
    let mut receiver = BlockReceiver::new(chunks);
    assert_eq!(receiver.total_blocks(), 2);
    for chunk_id in (0..chunks).rev() {
        deliver(&mut receiver, chunk_id, &[7], 0);
    }
    let verdict = receiver.check_block(1, 0).unwrap();
    assert!(matches!(verdict.ack, BlockAck::Complete { block_id: 1 }));
    assert!(!receiver.is_done());
    assert!(receiver.check_block(1, 1).is_none());
    assert!(!receiver.is_done());
    let verdict = receiver.check_block(0, 1).unwrap();
    assert!(matches!(verdict.ack, BlockAck::Complete { block_id: 0 }));
    assert!(receiver.is_done());
    assert!(receiver.check_block(0, 2).is_none());
}
