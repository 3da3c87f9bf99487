use secure_transfer::protocol::{
    AckReadError, BlockAck, BlockEndPacket, DataPacket, CTRL_BLOCK_ACK, CTRL_BLOCK_COMPLETE,
    TAG_BLOCK_END, TAG_DATA,
};

fn written(ack: &BlockAck) -> Vec<u8> {
    let mut stream = Vec::new();
    ack.write_to(&mut stream);
    stream
}

#[test]
fn data_packet_layout() {
    let datagram = DataPacket::encode(0x01020304, 0x0506, 0x1122334455667788, &[9, 8, 7]);
    assert_eq!(
        datagram,
        vec![
            TAG_DATA, 1, 2, 3, 4, 5, 6, 0, 0, 0, 3, 0x11, 0x22, 0x33, 0x44, 0x55, 0x66, 0x77, 0x88, 9,
            8, 7
        ]
    );
    assert_eq!(datagram.len(), DataPacket::HEADER_LEN + 3);
}

#[test]
fn data_packet_round_trip() {
    let payload: Vec<u8> = (0..1400u32).map(|i| (i % 251) as u8).collect();
    let datagram = DataPacket::encode(7, 255, u64::MAX, &payload);
    let decoded = DataPacket::decode(&datagram[1..]).unwrap();
    assert_eq!(decoded.block_id, 7);
    assert_eq!(decoded.packet_in_block, 255);
    assert_eq!(decoded.hash, u64::MAX);
    assert_eq!(decoded.payload, payload);
}

#[test]
fn data_packet_without_payload() {
    let datagram = DataPacket::encode(1, 2, 3, &[]);
    assert_eq!(datagram.len(), DataPacket::HEADER_LEN);
    let decoded = DataPacket::decode(&datagram[1..]).unwrap();
    assert!(decoded.payload.is_empty());
}

#[test]
fn truncated_data_packets_are_dropped() {
    let datagram = DataPacket::encode(1, 2, 3, &[4, 5, 6]);
    for n in 1..datagram.len() {
        assert!(DataPacket::decode(&datagram[1..n]).is_none());
    }
    assert!(DataPacket::decode(&[]).is_none());
}

#[test]
fn bytes_behind_the_payload_do_not_count() {
    let mut datagram = DataPacket::encode(1, 2, 3, &[4, 5, 6]);
    datagram.extend_from_slice(&[7, 7, 7, 7]);
    assert_eq!(DataPacket::decode(&datagram[1..]).unwrap().payload, vec![4, 5, 6]);
}

#[test]
fn a_huge_announced_size_is_refused() {
    let mut datagram = DataPacket::encode(1, 2, 3, &[4, 5, 6]);
    for byte in &mut datagram[7..11] {
        *byte = 0xff;
    }
    assert!(DataPacket::decode(&datagram[1..]).is_none());
}

#[test]
fn accepted_bodies_start_with_their_own_encoding() {
    let mut body = vec![0u8; 30];
    for (i, byte) in body.iter_mut().enumerate() {
        *byte = i as u8;
    }
    body[6..10].copy_from_slice(&[0, 0, 0, 5]);
    let decoded = DataPacket::decode(&body).unwrap();
    let again = DataPacket::encode(
        decoded.block_id,
        decoded.packet_in_block,
        decoded.hash,
        &decoded.payload,
    );
    assert_eq!(&again[1..], &body[..23]);
}

#[test]
fn block_end_layout() {
    let datagram = BlockEndPacket::encode(0x0a0b0c0d, 256);
    assert_eq!(datagram, vec![TAG_BLOCK_END, 0x0a, 0x0b, 0x0c, 0x0d, 0, 0, 1, 0]);
    assert_eq!(datagram.len(), BlockEndPacket::LEN);
}

#[test]
fn block_end_round_trip() {
    let datagram = BlockEndPacket::encode(77, 12);
    assert_eq!(BlockEndPacket::decode(&datagram[1..]), Some((77, 12)));
    let mut longer = datagram.clone();
    longer.push(1);
    assert_eq!(BlockEndPacket::decode(&longer[1..]), Some((77, 12)));
    assert_eq!(BlockEndPacket::decode(&datagram[1..8]), None);
}

#[test]
fn datagram_kinds_have_different_tags() {
    let data = DataPacket::encode(0, 0, 0, &[]);
    let end = BlockEndPacket::encode(0, 0);
    assert_ne!(data[0], end[0]);
}

#[test]
fn complete_ack_layout() {
    let ack = BlockAck::Complete { block_id: 0x01020304 };
    assert_eq!(written(&ack), vec![CTRL_BLOCK_COMPLETE, 1, 2, 3, 4]);
}

#[test]
fn missing_ack_layout() {
    let ack = BlockAck::Missing { block_id: 5, missing: vec![1, 0x0203] };
    assert_eq!(written(&ack), vec![CTRL_BLOCK_ACK, 0, 0, 0, 5, 0, 0, 0, 2, 0, 1, 2, 3]);
}

#[test]
fn acks_are_read_one_after_the_other() {
    let mut stream = Vec::new();
    BlockAck::Missing { block_id: 9, missing: vec![3, 1, 65535] }.write_to(&mut stream);
    BlockAck::Complete { block_id: 10 }.write_to(&mut stream);
    BlockAck::Missing { block_id: 11, missing: vec![] }.write_to(&mut stream);

    let mut rest: &[u8] = &stream;
    match BlockAck::read_from(&mut rest) {
        Ok(BlockAck::Missing { block_id, missing }) => {
            assert_eq!(block_id, 9);
            assert_eq!(missing, vec![3, 1, 65535]);
        }
        _ => panic!("expected a list of missing packets"),
    }
    assert!(matches!(
        BlockAck::read_from(&mut rest),
        Ok(BlockAck::Complete { block_id: 10 })
    ));
    match BlockAck::read_from(&mut rest) {
        Ok(BlockAck::Missing { block_id, missing }) => {
            assert_eq!(block_id, 11);
            assert!(missing.is_empty());
        }
        _ => panic!("expected a list of missing packets"),
    }
    assert!(rest.is_empty());
    assert!(matches!(
        BlockAck::read_from(&mut rest),
        Err(AckReadError::UnexpectedEof)
    ));
}

#[test]
fn a_torn_ack_is_read_up_to_the_end() {
    let message = written(&BlockAck::Missing { block_id: 9, missing: vec![3, 1] });
    for n in 0..message.len() {
        let mut rest: &[u8] = &message[..n];
        assert!(matches!(
            BlockAck::read_from(&mut rest),
            Err(AckReadError::UnexpectedEof)
        ));
        assert!(rest.is_empty());
    }
}

#[test]
fn an_unknown_control_tag_is_an_error() {
    let mut rest: &[u8] = &[0x42, 0, 0, 0, 1, 99];
    match BlockAck::read_from(&mut rest) {
        Err(e) => assert_eq!(e, AckReadError::UnknownTag(0x42)),
        Ok(_) => panic!("an unknown tag was accepted"),
    }
    assert_eq!(rest, &[99]);
}

#[test]
fn reading_what_is_wanted_reads_one_ack() {
    let mut stream = written(&BlockAck::Missing { block_id: 9, missing: vec![3, 1, 4] });
    let len = stream.len();
    stream.extend_from_slice(&written(&BlockAck::Complete { block_id: 1 }));

    let mut have = 0;
    let mut rounds = 0;
    loop {
        let wanted = BlockAck::bytes_wanted(&stream[..have]) as usize;
        if wanted == 0 {
            break;
        }
        have += wanted;
        rounds += 1;
        assert!(have <= len);
    }
    assert_eq!(have, len);
    assert_eq!(rounds, 3);
}

#[test]
fn nothing_more_is_wanted_behind_an_unknown_tag() {
    assert_eq!(BlockAck::bytes_wanted(&[]), 5);
    assert_eq!(BlockAck::bytes_wanted(&[0x42, 0, 0]), 2);
    assert_eq!(BlockAck::bytes_wanted(&[0x42, 0, 0, 0, 0]), 0);
    assert_eq!(BlockAck::bytes_wanted(&[CTRL_BLOCK_COMPLETE, 0, 0, 0, 0]), 0);
}
