//! Wire formats of the block-pipelined transport.
//!
//! Two channels carry two kinds of messages:
//!
//! - UDP: [`DataPacket`]s with encrypted file data, and [`BlockEndPacket`]s
//!   that mark the end of a block's first transmission.  Every datagram starts
//!   with a one-byte tag that tells the two apart.
//! - TCP: [`BlockAck`]s, which say of one block either which of its packets are
//!   missing or that it is complete.

use vstd::prelude::*;
use vstd::slice::{slice_subrange, slice_to_vec};
use crate::codec::{push_be, push_bytes, read_be};
#[allow(unused_imports)]
use crate::codec::{
    be_bytes, be_value, lemma_be_bytes_len, lemma_be_bytes_of_be_value,
    lemma_be_value_bound, lemma_be_value_of_be_bytes, lemma_byte_spans,
};

verus! {

/// First byte of a datagram with file data.
pub const TAG_DATA: u8 = 0x01;

/// First byte of a datagram that marks the end of a block.
pub const TAG_BLOCK_END: u8 = 0x02;

/// First byte of a control message that lists missing packets.
pub const CTRL_BLOCK_ACK: u8 = 0xB1;

/// First byte of a control message that reports a block as complete.
pub const CTRL_BLOCK_COMPLETE: u8 = 0xB2;

// ---------------------------------------------------------------------------
// Data packets
// ---------------------------------------------------------------------------

/// One packet of block-framed, encrypted file data.
///
/// After the tag byte: `[block_id:4][packet_in_block:2][payload size:4][hash:8]`
/// and the payload, all integers big-endian.
pub struct DataPacket;

/// Header bytes of a data packet behind its tag byte.
pub const DATA_FIXED: usize = 4 + 2 + 4 + 8;

/// What a data packet carries.
pub struct DecodedDataPacket {
    pub block_id: u32,
    pub packet_in_block: u16,
    pub hash: u64,
    pub payload: Vec<u8>,
}

/// A [`DecodedDataPacket`] with its payload as a sequence.
#[verifier::ext_equal]
pub struct DataPacketView {
    pub block_id: u32,
    pub packet_in_block: u16,
    pub hash: u64,
    pub payload: Seq<u8>,
}

impl View for DecodedDataPacket {
    type V = DataPacketView;

    open spec fn view(&self) -> DataPacketView {
        DataPacketView {
            block_id: self.block_id,
            packet_in_block: self.packet_in_block,
            hash: self.hash,
            payload: self.payload@,
        }
    }
}

/// The body of a data packet: everything behind its tag byte.  The size field
/// holds the 32 low-order bits of the payload's length.
pub open spec fn data_packet_body(p: DataPacketView) -> Seq<u8> {
    be_bytes(p.block_id as nat, 4) + be_bytes(p.packet_in_block as nat, 2) + be_bytes(
        p.payload.len(),
        4,
    ) + be_bytes(p.hash as nat, 8) + p.payload
}

/// The datagram that carries a data packet.
pub open spec fn data_packet_bytes(p: DataPacketView) -> Seq<u8> {
    seq![TAG_DATA] + data_packet_body(p)
}

/// The payload size that a body of at least [`DATA_FIXED`] bytes announces.
pub open spec fn announced_size(body: Seq<u8>) -> nat {
    be_value(body.subrange(6, 10))
}

/// A body is well formed if it holds the whole header and at least as many
/// payload bytes as the header announces.
pub open spec fn data_body_ok(body: Seq<u8>) -> bool {
    body.len() >= DATA_FIXED && body.len() >= DATA_FIXED + announced_size(body)
}

/// What a well-formed body carries; bytes behind the payload do not count.
pub open spec fn data_packet_of(body: Seq<u8>) -> DataPacketView {
    DataPacketView {
        block_id: be_value(body.subrange(0, 4)) as u32,
        packet_in_block: be_value(body.subrange(4, 6)) as u16,
        hash: be_value(body.subrange(10, 18)) as u64,
        payload: body.subrange(DATA_FIXED as int, DATA_FIXED + announced_size(body)),
    }
}

impl DataPacket {
    /// Length of the header, the tag byte counted.
    pub const HEADER_LEN: usize = 1 + 4 + 2 + 4 + 8;

    /// The datagram, tag byte first, that carries `payload`.
    pub fn encode(block_id: u32, packet_in_block: u16, hash: u64, payload: &[u8]) -> (out: Vec<u8>)
        ensures
            out@ == data_packet_bytes(
                DataPacketView { block_id, packet_in_block, hash, payload: payload@ },
            ),
    {
        let mut out: Vec<u8> = Vec::new();
        out.push(TAG_DATA);
        push_be(&mut out, block_id as u64, 4);
        push_be(&mut out, packet_in_block as u64, 2);
        push_be(&mut out, payload.len() as u64, 4);
        push_be(&mut out, hash, 8);
        push_bytes(&mut out, payload);
        proof {
            assert(out@ =~= data_packet_bytes(
                DataPacketView { block_id, packet_in_block, hash, payload: payload@ },
            ));
        }
        out
    }

    /// Decodes a body, that is a datagram without its tag byte.  A truncated
    /// body gives `None`: such a datagram is dropped and shows up as missing.
    pub fn decode(body: &[u8]) -> (r: Option<DecodedDataPacket>)
        ensures
            r is Some <==> data_body_ok(body@),
            r matches Some(p) ==> p@ == data_packet_of(body@),
    {
        if body.len() < DATA_FIXED {
            return None;
        }
        proof {
            lemma_byte_spans();
        }
        let block_id: u32 = read_be(body, 0, 4) as u32;
        let packet_in_block: u16 = read_be(body, 4, 2) as u16;
        let size: u32 = read_be(body, 6, 4) as u32;
        let hash: u64 = read_be(body, 10, 8);
        let size: usize = size as usize;
        if body.len() - DATA_FIXED < size {
            return None;
        }
        let payload = slice_to_vec(slice_subrange(body, DATA_FIXED, DATA_FIXED + size));
        Some(DecodedDataPacket { block_id, packet_in_block, hash, payload })
    }
}

/// Whatever payload of less than 4 GiB goes into a data packet comes out of it
/// again, together with its place and its hash, also if other bytes follow.
pub proof fn law_data_packet_round_trip(p: DataPacketView, rest: Seq<u8>)
    requires
        p.payload.len() < 0x1_0000_0000,
    ensures
        data_packet_bytes(p)[0] == TAG_DATA,
        data_packet_bytes(p).skip(1) =~= data_packet_body(p),
        data_body_ok(data_packet_body(p) + rest),
        data_packet_of(data_packet_body(p) + rest) =~= p,
{
    broadcast use lemma_be_bytes_len;

    lemma_byte_spans();
    let body = data_packet_body(p) + rest;
    let f0 = be_bytes(p.block_id as nat, 4);
    let f1 = be_bytes(p.packet_in_block as nat, 2);
    let f2 = be_bytes(p.payload.len(), 4);
    let f3 = be_bytes(p.hash as nat, 8);
    assert(body.subrange(0, 4) =~= f0);
    assert(body.subrange(4, 6) =~= f1);
    assert(body.subrange(6, 10) =~= f2);
    assert(body.subrange(10, 18) =~= f3);
    lemma_be_value_of_be_bytes(p.block_id as nat, 4);
    lemma_be_value_of_be_bytes(p.packet_in_block as nat, 2);
    lemma_be_value_of_be_bytes(p.payload.len(), 4);
    lemma_be_value_of_be_bytes(p.hash as nat, 8);
    assert(body.subrange(18, 18 + p.payload.len() as int) =~= p.payload);
}

/// Only one encoding is accepted: a well-formed body starts with the encoding
/// of what is decoded from it.
pub proof fn law_data_packet_canonical(body: Seq<u8>)
    requires
        data_body_ok(body),
    ensures
        data_packet_body(data_packet_of(body)) =~= body.take(
            (DATA_FIXED + announced_size(body)) as int,
        ),
{
    broadcast use lemma_be_bytes_len;

    lemma_byte_spans();
    let s0 = body.subrange(0, 4);
    let s1 = body.subrange(4, 6);
    let s2 = body.subrange(6, 10);
    let s3 = body.subrange(10, 18);
    lemma_be_value_bound(s0);
    lemma_be_value_bound(s1);
    lemma_be_value_bound(s2);
    lemma_be_value_bound(s3);
    lemma_be_bytes_of_be_value(s0);
    lemma_be_bytes_of_be_value(s1);
    lemma_be_bytes_of_be_value(s2);
    lemma_be_bytes_of_be_value(s3);
    let p = data_packet_of(body);
    assert(p.payload.len() == announced_size(body));
    assert(be_bytes(p.block_id as nat, 4) =~= s0);
    assert(be_bytes(p.packet_in_block as nat, 2) =~= s1);
    assert(be_bytes(p.payload.len(), 4) =~= s2);
    assert(be_bytes(p.hash as nat, 8) =~= s3);
}

// ---------------------------------------------------------------------------
// Block end packets
// ---------------------------------------------------------------------------

/// Sent right after the last packet of a block has gone out.  The receiver
/// does not depend on it: a block that goes idle is checked as well.
///
/// After the tag byte: `[block_id:4][total_packets:4]`, big-endian.
pub struct BlockEndPacket;

/// The body of a block end packet.
pub open spec fn block_end_body(block_id: u32, total_packets: u32) -> Seq<u8> {
    be_bytes(block_id as nat, 4) + be_bytes(total_packets as nat, 4)
}

/// The datagram that marks the end of a block.
pub open spec fn block_end_bytes(block_id: u32, total_packets: u32) -> Seq<u8> {
    seq![TAG_BLOCK_END] + block_end_body(block_id, total_packets)
}

/// What the body of a block end packet says.
pub open spec fn block_end_of(body: Seq<u8>) -> Option<(u32, u32)> {
    if body.len() < 8 {
        None
    } else {
        Some((be_value(body.subrange(0, 4)) as u32, be_value(body.subrange(4, 8)) as u32))
    }
}

impl BlockEndPacket {
    /// Length of the datagram.
    pub const LEN: usize = 1 + 4 + 4;

    /// The datagram that marks the end of a block of `total_packets` packets.
    pub fn encode(block_id: u32, total_packets: u32) -> (out: Vec<u8>)
        ensures
            out@ == block_end_bytes(block_id, total_packets),
    {
        let mut out: Vec<u8> = Vec::new();
        out.push(TAG_BLOCK_END);
        push_be(&mut out, block_id as u64, 4);
        push_be(&mut out, total_packets as u64, 4);
        proof {
            assert(out@ =~= block_end_bytes(block_id, total_packets));
        }
        out
    }

    /// Block id and packet count of a body; `None` if it is truncated.
    pub fn decode(body: &[u8]) -> (r: Option<(u32, u32)>)
        ensures
            r == block_end_of(body@),
    {
        if body.len() < 8 {
            return None;
        }
        proof {
            lemma_byte_spans();
        }
        let block_id: u32 = read_be(body, 0, 4) as u32;
        let total_packets: u32 = read_be(body, 4, 4) as u32;
        Some((block_id, total_packets))
    }
}

/// A block end packet says what was put into it, also if other bytes follow,
/// and its datagram has [`BlockEndPacket::LEN`] bytes.
pub proof fn law_block_end_round_trip(block_id: u32, total_packets: u32, rest: Seq<u8>)
    ensures
        block_end_bytes(block_id, total_packets)[0] == TAG_BLOCK_END,
        block_end_bytes(block_id, total_packets).skip(1) =~= block_end_body(
            block_id,
            total_packets,
        ),
        block_end_bytes(block_id, total_packets).len() == BlockEndPacket::LEN,
        block_end_of(block_end_body(block_id, total_packets) + rest) == Some(
            (block_id, total_packets),
        ),
{
    broadcast use lemma_be_bytes_len;

    lemma_byte_spans();
    let body = block_end_body(block_id, total_packets) + rest;
    assert(body.subrange(0, 4) =~= be_bytes(block_id as nat, 4));
    assert(body.subrange(4, 8) =~= be_bytes(total_packets as nat, 4));
    lemma_be_value_of_be_bytes(block_id as nat, 4);
    lemma_be_value_of_be_bytes(total_packets as nat, 4);
}

/// No datagram is both a data packet and a block end.
pub proof fn law_datagram_kinds_differ(p: DataPacketView, block_id: u32, total_packets: u32)
    ensures
        data_packet_bytes(p) != block_end_bytes(block_id, total_packets),
{
    assert(data_packet_bytes(p)[0] == TAG_DATA);
    assert(block_end_bytes(block_id, total_packets)[0] == TAG_BLOCK_END);
}

// ---------------------------------------------------------------------------
// Block acknowledgements
// ---------------------------------------------------------------------------

/// Control message from the receiver to the sender about a single block.
pub enum BlockAck {
    /// Packets of this block that never arrived, or failed their checksum.
    Missing { block_id: u32, missing: Vec<u16> },
    /// Every packet of this block has been received and verified.
    Complete { block_id: u32 },
}

/// A [`BlockAck`] with its packet ids as a sequence.
#[verifier::ext_equal]
pub enum BlockAckView {
    Missing { block_id: u32, missing: Seq<u16> },
    Complete { block_id: u32 },
}

impl View for BlockAck {
    type V = BlockAckView;

    open spec fn view(&self) -> BlockAckView {
        match self {
            BlockAck::Missing { block_id, missing } => BlockAckView::Missing {
                block_id: *block_id,
                missing: missing@,
            },
            BlockAck::Complete { block_id } => BlockAckView::Complete { block_id: *block_id },
        }
    }
}

/// Why no acknowledgement could be read.
#[derive(Debug, Clone, Copy, PartialEq, Eq, Structural)]
pub enum AckReadError {
    /// The stream ended in the middle of a message.
    UnexpectedEof,
    /// The message starts with a tag that is neither of the two known ones.
    UnknownTag(u8),
}

/// Packet ids, two bytes each, big-endian.
pub open spec fn ids_bytes(ids: Seq<u16>) -> Seq<u8>
    decreases ids.len(),
{
    if ids.len() == 0 {
        Seq::empty()
    } else {
        ids_bytes(ids.drop_last()) + be_bytes(ids.last() as nat, 2)
    }
}

/// The first `count` packet ids that a byte string holds.
pub open spec fn ids_of(s: Seq<u8>, count: nat) -> Seq<u16> {
    Seq::new(count, |i: int| be_value(s.subrange(2 * i, 2 * i + 2)) as u16)
}

/// The bytes of an acknowledgement.  The count field holds the 32 low-order
/// bits of the number of ids.
pub open spec fn ack_bytes(a: BlockAckView) -> Seq<u8> {
    match a {
        BlockAckView::Complete { block_id } => seq![CTRL_BLOCK_COMPLETE] + be_bytes(
            block_id as nat,
            4,
        ),
        BlockAckView::Missing { block_id, missing } => seq![CTRL_BLOCK_ACK] + be_bytes(
            block_id as nat,
            4,
        ) + be_bytes(missing.len(), 4) + ids_bytes(missing),
    }
}

/// The number of packet ids that a message of at least 9 bytes announces.
pub open spec fn ack_count(s: Seq<u8>) -> nat {
    be_value(s.subrange(5, 9))
}

/// What stands at the start of a byte stream: an acknowledgement and its
/// length in bytes, or the reason why there is none.
pub open spec fn ack_of(s: Seq<u8>) -> Result<(BlockAckView, nat), AckReadError> {
    if s.len() < 5 {
        Err(AckReadError::UnexpectedEof)
    } else {
        let block_id = be_value(s.subrange(1, 5)) as u32;
        if s[0] == CTRL_BLOCK_COMPLETE {
            Ok((BlockAckView::Complete { block_id }, 5))
        } else if s[0] == CTRL_BLOCK_ACK {
            if s.len() < 9 || s.len() < 9 + 2 * ack_count(s) {
                Err(AckReadError::UnexpectedEof)
            } else {
                Ok(
                    (
                        BlockAckView::Missing {
                            block_id,
                            missing: ids_of(s.skip(9), ack_count(s)),
                        },
                        9 + 2 * ack_count(s),
                    ),
                )
            }
        } else {
            Err(AckReadError::UnknownTag(s[0]))
        }
    }
}

/// How many bytes must follow `s` before it is worth another look: none if `s`
/// holds an acknowledgement or an unknown tag, else what completes the part of
/// the message that is known to come.
pub open spec fn ack_shortfall(s: Seq<u8>) -> int {
    if s.len() < 5 {
        5 - s.len()
    } else if s[0] != CTRL_BLOCK_ACK {
        0
    } else if s.len() < 9 {
        9 - s.len()
    } else if s.len() < 9 + 2 * ack_count(s) {
        9 + 2 * ack_count(s) - s.len()
    } else {
        0
    }
}

/// A list of ids takes two bytes per id, and each id stands at its place.
pub proof fn lemma_ids_bytes(ids: Seq<u16>)
    ensures
        ids_bytes(ids).len() == 2 * ids.len(),
        forall|i: int|
            0 <= i < ids.len() ==> #[trigger] ids_bytes(ids).subrange(2 * i, 2 * i + 2) =~= be_bytes(
                ids[i] as nat,
                2,
            ),
    decreases ids.len(),
{
    broadcast use lemma_be_bytes_len;

    if ids.len() > 0 {
        let init = ids.drop_last();
        lemma_ids_bytes(init);
        assert forall|i: int| 0 <= i < ids.len() implies #[trigger] ids_bytes(ids).subrange(
            2 * i,
            2 * i + 2,
        ) =~= be_bytes(ids[i] as nat, 2) by {
            if i < init.len() {
                assert(ids_bytes(ids).subrange(2 * i, 2 * i + 2) =~= ids_bytes(init).subrange(
                    2 * i,
                    2 * i + 2,
                ));
            }
        }
    }
}

impl BlockAck {
    /// Appends the message to `stream`.
    pub fn write_to(&self, stream: &mut Vec<u8>)
        ensures
            final(stream)@ == old(stream)@ + ack_bytes(self@),
    {
        match self {
            BlockAck::Complete { block_id } => {
                stream.push(CTRL_BLOCK_COMPLETE);
                push_be(stream, *block_id as u64, 4);
            },
            BlockAck::Missing { block_id, missing } => {
                stream.push(CTRL_BLOCK_ACK);
                push_be(stream, *block_id as u64, 4);
                push_be(stream, missing.len() as u64, 4);
                let ghost head = stream@;
                let mut i: usize = 0;
                proof {
                    assert(stream@ =~= head + ids_bytes(missing@.take(0)));
                }
                while i < missing.len()
                    invariant
                        i <= missing@.len(),
                        stream@ == head + ids_bytes(missing@.take(i as int)),
                    decreases missing@.len() - i,
                {
                    push_be(stream, missing[i] as u64, 2);
                    proof {
                        assert(missing@.take(i + 1).drop_last() =~= missing@.take(i as int));
                        assert(stream@ =~= head + ids_bytes(missing@.take(i + 1)));
                    }
                    i = i + 1;
                }
                proof {
                    assert(missing@.take(i as int) =~= missing@);
                }
            },
        }
        proof {
            assert(stream@ =~= old(stream)@ + ack_bytes(self@));
        }
    }

    /// Reads the message at the start of `stream` and moves `stream` behind it.
    /// An unknown tag is reported once it and the block id behind it have been
    /// read; a message that is not all there is read up to the end of the
    /// stream.
    pub fn read_from(stream: &mut &[u8]) -> (r: Result<BlockAck, AckReadError>)
        ensures
            match ack_of((*old(stream))@) {
                Ok((ack, len)) => {
                    &&& r matches Ok(a) && a@ == ack
                    &&& (*final(stream))@ == (*old(stream))@.skip(len as int)
                },
                Err(e) => {
                    &&& r == Err::<BlockAck, AckReadError>(e)
                    &&& (*final(stream))@ == match e {
                        AckReadError::UnexpectedEof => Seq::<u8>::empty(),
                        AckReadError::UnknownTag(_) => (*old(stream))@.skip(5),
                    }
                },
            },
    {
        let s: &[u8] = *stream;
        if s.len() < 5 {
            *stream = slice_subrange(s, s.len(), s.len());
            return Err(AckReadError::UnexpectedEof);
        }
        proof {
            lemma_byte_spans();
        }
        let tag: u8 = s[0];
        let block_id: u32 = read_be(s, 1, 4) as u32;
        if tag == CTRL_BLOCK_COMPLETE {
            *stream = slice_subrange(s, 5, s.len());
            return Ok(BlockAck::Complete { block_id });
        }
        if tag != CTRL_BLOCK_ACK {
            *stream = slice_subrange(s, 5, s.len());
            return Err(AckReadError::UnknownTag(tag));
        }
        if s.len() < 9 {
            *stream = slice_subrange(s, s.len(), s.len());
            return Err(AckReadError::UnexpectedEof);
        }
        let count: u64 = read_be(s, 5, 4);
        if ((s.len() - 9) as u64) < 2 * count {
            *stream = slice_subrange(s, s.len(), s.len());
            return Err(AckReadError::UnexpectedEof);
        }
        let count: usize = count as usize;
        let mut missing: Vec<u16> = Vec::new();
        let mut i: usize = 0;
        while i < count
            invariant
                i <= count,
                s@.len() >= 9 + 2 * count,
                s@.len() <= usize::MAX,
                missing@ == ids_of(s@.skip(9), i as nat),
            decreases count - i,
        {
            proof {
                lemma_byte_spans();
                assert(s@.subrange(9 + 2 * i, 9 + 2 * i + 2) =~= s@.skip(9).subrange(
                    2 * i,
                    2 * i + 2,
                ));
            }
            missing.push(read_be(s, 9 + 2 * i, 2) as u16);
            i = i + 1;
            proof {
                assert(missing@ =~= ids_of(s@.skip(9), i as nat));
            }
        }
        *stream = slice_subrange(s, 9 + 2 * count, s.len());
        Ok(BlockAck::Missing { block_id, missing })
    }

    /// How many more bytes to read from the control stream when `prefix` has
    /// been read: `0` once [`BlockAck::read_from`] can tell what it holds.
    pub fn bytes_wanted(prefix: &[u8]) -> (n: u64)
        ensures
            n == ack_shortfall(prefix@),
    {
        if prefix.len() < 5 {
            return (5 - prefix.len()) as u64;
        }
        if prefix[0] != CTRL_BLOCK_ACK {
            return 0;
        }
        if prefix.len() < 9 {
            return (9 - prefix.len()) as u64;
        }
        proof {
            lemma_byte_spans();
        }
        let count: u64 = read_be(prefix, 5, 4);
        let have: u64 = prefix.len() as u64;
        if have < 9 + 2 * count {
            9 + 2 * count - have
        } else {
            0
        }
    }
}

/// An acknowledgement with less than 2^32 ids is read back as it was written,
/// and what follows it in the stream is left for the next read.
pub proof fn law_ack_round_trip(a: BlockAckView, rest: Seq<u8>)
    requires
        a matches BlockAckView::Missing { missing, .. } ==> missing.len() < 0x1_0000_0000,
    ensures
        ack_of(ack_bytes(a) + rest) =~~= Ok::<_, AckReadError>((a, ack_bytes(a).len())),
        (ack_bytes(a) + rest).skip(ack_bytes(a).len() as int) =~= rest,
{
    broadcast use lemma_be_bytes_len;

    lemma_byte_spans();
    let s = ack_bytes(a) + rest;
    match a {
        BlockAckView::Complete { block_id } => {
            assert(s.subrange(1, 5) =~= be_bytes(block_id as nat, 4));
            lemma_be_value_of_be_bytes(block_id as nat, 4);
        },
        BlockAckView::Missing { block_id, missing } => {
            lemma_ids_bytes(missing);
            assert(s.subrange(1, 5) =~= be_bytes(block_id as nat, 4));
            assert(s.subrange(5, 9) =~= be_bytes(missing.len(), 4));
            lemma_be_value_of_be_bytes(block_id as nat, 4);
            lemma_be_value_of_be_bytes(missing.len(), 4);
            assert forall|i: int| 0 <= i < missing.len() implies ids_of(
                s.skip(9),
                missing.len(),
            )[i] == missing[i] by {
                assert(s.skip(9).subrange(2 * i, 2 * i + 2) =~= ids_bytes(missing).subrange(
                    2 * i,
                    2 * i + 2,
                ));
                lemma_be_value_of_be_bytes(missing[i] as nat, 2);
            }
            assert(ids_of(s.skip(9), missing.len()) =~= missing);
        },
    }
}

/// A control stream has been read far enough exactly when it no longer ends in
/// the middle of a message.
pub proof fn law_ack_shortfall(s: Seq<u8>)
    ensures
        ack_shortfall(s) >= 0,
        ack_shortfall(s) == 0 <==> ack_of(s) != Err::<(BlockAckView, nat), AckReadError>(
            AckReadError::UnexpectedEof,
        ),
{
}

/// Whatever part of a message has been read, no more is asked for than what is
/// left of it, and nothing is asked for exactly when it has been read in full.
pub proof fn law_ack_shortfall_stays_inside(a: BlockAckView, n: int)
    requires
        a matches BlockAckView::Missing { missing, .. } ==> missing.len() < 0x1_0000_0000,
        0 <= n <= ack_bytes(a).len(),
    ensures
        n + ack_shortfall(ack_bytes(a).take(n)) <= ack_bytes(a).len(),
        n == ack_bytes(a).len() <==> ack_shortfall(ack_bytes(a).take(n)) == 0,
{
    broadcast use lemma_be_bytes_len;

    lemma_byte_spans();
    let s = ack_bytes(a).take(n);
    match a {
        BlockAckView::Complete { .. } => {},
        BlockAckView::Missing { block_id, missing } => {
            lemma_ids_bytes(missing);
            if n >= 9 {
                assert(s.subrange(5, 9) =~= be_bytes(missing.len(), 4));
                lemma_be_value_of_be_bytes(missing.len(), 4);
            }
        },
    }
}

// ---------------------------------------------------------------------------
// Where each field stands
// ---------------------------------------------------------------------------

/// In the datagram of a data packet every field stands at its place: the tag,
/// block id, place in the block, payload size and hash, and behind them the
/// whole payload, to the last byte.
pub proof fn law_data_packet_layout(p: DataPacketView)
    ensures
        data_packet_bytes(p).len() == 19 + p.payload.len(),
        data_packet_bytes(p)[0] == 0x01u8,
        data_packet_bytes(p).subrange(1, 5) == be_bytes(p.block_id as nat, 4),
        data_packet_bytes(p).subrange(5, 7) == be_bytes(p.packet_in_block as nat, 2),
        data_packet_bytes(p).subrange(7, 11) == be_bytes(p.payload.len(), 4),
        data_packet_bytes(p).subrange(11, 19) == be_bytes(p.hash as nat, 8),
        data_packet_bytes(p).skip(19) == p.payload,
{
    broadcast use lemma_be_bytes_len;

    let d = data_packet_bytes(p);
    assert(d.subrange(1, 5) =~= be_bytes(p.block_id as nat, 4));
    assert(d.subrange(5, 7) =~= be_bytes(p.packet_in_block as nat, 2));
    assert(d.subrange(7, 11) =~= be_bytes(p.payload.len(), 4));
    assert(d.subrange(11, 19) =~= be_bytes(p.hash as nat, 8));
    assert(d.skip(19) =~= p.payload);
}

/// A body is taken for a data packet exactly if it holds its header and the
/// payload that the header announces, and every field is read from its place.
pub proof fn law_data_packet_fields(body: Seq<u8>)
    ensures
        data_body_ok(body) <==> 18 <= body.len() && 18 + be_value(body.subrange(6, 10))
            <= body.len(),
        data_body_ok(body) ==> {
            let p = data_packet_of(body);
            &&& p.block_id == be_value(body.subrange(0, 4))
            &&& p.packet_in_block == be_value(body.subrange(4, 6))
            &&& p.hash == be_value(body.subrange(10, 18))
            &&& p.payload.len() == be_value(body.subrange(6, 10))
            &&& forall|i: int|
                0 <= i < p.payload.len() ==> #[trigger] p.payload[i] == body[18 + i]
        },
{
    if data_body_ok(body) {
        lemma_byte_spans();
        lemma_be_value_bound(body.subrange(0, 4));
        lemma_be_value_bound(body.subrange(4, 6));
        lemma_be_value_bound(body.subrange(10, 18));
    }
}

/// In the datagram that ends a block the tag, the block id and the number of
/// packets stand at their places, and nothing else; and from a body they are
/// read from there, if it is long enough, and only then.
pub proof fn law_block_end_layout(block_id: u32, total_packets: u32, body: Seq<u8>)
    ensures
        block_end_bytes(block_id, total_packets).len() == 9,
        block_end_bytes(block_id, total_packets)[0] == 0x02u8,
        block_end_bytes(block_id, total_packets).subrange(1, 5) == be_bytes(block_id as nat, 4),
        block_end_bytes(block_id, total_packets).subrange(5, 9) == be_bytes(
            total_packets as nat,
            4,
        ),
        block_end_of(body) is Some <==> 8 <= body.len(),
        block_end_of(body) matches Some(end) ==> {
            &&& end.0 == be_value(body.subrange(0, 4))
            &&& end.1 == be_value(body.subrange(4, 8))
        },
{
    broadcast use lemma_be_bytes_len;

    let d = block_end_bytes(block_id, total_packets);
    assert(d.subrange(1, 5) =~= be_bytes(block_id as nat, 4));
    assert(d.subrange(5, 9) =~= be_bytes(total_packets as nat, 4));
    if 8 <= body.len() {
        lemma_byte_spans();
        lemma_be_value_bound(body.subrange(0, 4));
        lemma_be_value_bound(body.subrange(4, 8));
    }
}

/// In the bytes of an acknowledgement every field stands at its place, and every
/// missing id at that of its number.
pub proof fn law_ack_layout(a: BlockAckView)
    ensures
        a matches BlockAckView::Complete { block_id } ==> {
            &&& ack_bytes(a).len() == 5
            &&& ack_bytes(a)[0] == 0xB2u8
            &&& ack_bytes(a).skip(1) == be_bytes(block_id as nat, 4)
        },
        a matches BlockAckView::Missing { block_id, missing } ==> {
            &&& ack_bytes(a).len() == 9 + 2 * missing.len()
            &&& ack_bytes(a)[0] == 0xB1u8
            &&& ack_bytes(a).subrange(1, 5) == be_bytes(block_id as nat, 4)
            &&& ack_bytes(a).subrange(5, 9) == be_bytes(missing.len(), 4)
            &&& forall|i: int|
                0 <= i < missing.len() ==> ack_bytes(a).subrange(9 + 2 * i, 11 + 2 * i)
                    == be_bytes(#[trigger] missing[i] as nat, 2)
        },
{
    broadcast use lemma_be_bytes_len;

    match a {
        BlockAckView::Complete { block_id } => {
            assert(ack_bytes(a).skip(1) =~= be_bytes(block_id as nat, 4));
        },
        BlockAckView::Missing { block_id, missing } => {
            lemma_ids_bytes(missing);
            assert(ack_bytes(a).subrange(1, 5) =~= be_bytes(block_id as nat, 4));
            assert(ack_bytes(a).subrange(5, 9) =~= be_bytes(missing.len(), 4));
            assert forall|i: int| 0 <= i < missing.len() implies ack_bytes(a).subrange(
                9 + 2 * i,
                11 + 2 * i,
            ) == be_bytes(#[trigger] missing[i] as nat, 2) by {
                assert(ack_bytes(a).subrange(9 + 2 * i, 11 + 2 * i) =~= ids_bytes(
                    missing,
                ).subrange(2 * i, 2 * i + 2));
            }
        },
    }
}

/// What is read from a stream: each outcome comes of exactly the streams that
/// call for it, every field is read from its place, and as many ids as the
/// message announces, each from the place of its number.
pub proof fn law_ack_fields(s: Seq<u8>)
    ensures
        ack_of(s) == Err::<(BlockAckView, nat), _>(AckReadError::UnexpectedEof) <==> (s.len() < 5 || (
        s[0] == 0xB1u8 && (s.len() < 9 || s.len() < 9 + 2 * be_value(s.subrange(5, 9))))),
        ack_of(s) == Err::<(BlockAckView, nat), _>(AckReadError::UnknownTag(s[0])) <==> 5 <= s.len()
            && s[0] != 0xB1u8 && s[0] != 0xB2u8,
        ack_of(s) is Ok <==> 5 <= s.len() && (s[0] == 0xB2u8 || (s[0] == 0xB1u8 && 9 <= s.len() && 9
            + 2 * be_value(s.subrange(5, 9)) <= s.len())),
        ack_of(s) matches Ok((ack, len)) ==> match ack {
            BlockAckView::Complete { block_id } => {
                &&& s[0] == 0xB2u8
                &&& block_id == be_value(s.subrange(1, 5))
                &&& len == 5
            },
            BlockAckView::Missing { block_id, missing } => {
                &&& s[0] == 0xB1u8
                &&& block_id == be_value(s.subrange(1, 5))
                &&& missing.len() == be_value(s.subrange(5, 9))
                &&& len == 9 + 2 * missing.len()
                &&& forall|i: int|
                    0 <= i < missing.len() ==> #[trigger] missing[i] == be_value(
                        s.subrange(9 + 2 * i, 11 + 2 * i),
                    )
            },
        },
{
    if 5 <= s.len() {
        lemma_byte_spans();
        lemma_be_value_bound(s.subrange(1, 5));
        if let Ok((BlockAckView::Missing { missing, .. }, _)) = ack_of(s) {
            assert forall|i: int| 0 <= i < missing.len() implies #[trigger] missing[i] == be_value(
                s.subrange(9 + 2 * i, 11 + 2 * i),
            ) by {
                assert(s.skip(9).subrange(2 * i, 2 * i + 2) =~= s.subrange(9 + 2 * i, 11 + 2 * i));
                lemma_be_value_bound(s.subrange(9 + 2 * i, 11 + 2 * i));
            }
        }
    }
}

/// A read is asked to reach the end of the part of the message that is known to
/// come: first tag and block id, behind the tag of a list its count, and behind
/// the count the whole list.
pub proof fn law_ack_shortfall_reaches(s: Seq<u8>)
    ensures
        s.len() < 5 ==> s.len() + ack_shortfall(s) == 5,
        5 <= s.len() < 9 && s[0] == 0xB1u8 ==> s.len() + ack_shortfall(s) == 9,
        9 <= s.len() < 9 + 2 * be_value(s.subrange(5, 9)) && s[0] == 0xB1u8 ==> s.len()
            + ack_shortfall(s) == 9 + 2 * be_value(s.subrange(5, 9)),
        9 + 2 * be_value(s.subrange(5, 9)) <= s.len() && s[0] == 0xB1u8 ==> ack_shortfall(s) == 0,
        5 <= s.len() && s[0] != 0xB1u8 ==> ack_shortfall(s) == 0,
{
}

/// The mathematical forms keep everything that the packets hold.
pub proof fn law_messages_are_seen_whole(p: DecodedDataPacket, a: BlockAck)
    ensures
        p@.block_id == p.block_id,
        p@.packet_in_block == p.packet_in_block,
        p@.hash == p.hash,
        p@.payload == p.payload@,
        match a {
            BlockAck::Missing { block_id, missing } => {
                a@ matches BlockAckView::Missing { block_id: id, missing: ids } && id == block_id
                    && ids == missing@
            },
            BlockAck::Complete { block_id } => {
                a@ matches BlockAckView::Complete { block_id: id } && id == block_id
            },
        },
{
}

} // verus!
