//! The header that precedes the payload in every datagram.
//!
//! A header takes 18 bytes, integers in network byte order:
//!
//! | offset | field                                         |
//! |--------|-----------------------------------------------|
//! | 0      | packet type: 0 packet, 1 fragment, 2 heartbeat |
//! | 1      | delivery: 0 unreliable, 1 reliable            |
//! | 2      | ordering: 0 unordered, 1 sequenced, 2 ordered |
//! | 3      | 1 if an acknowledgment follows, else 0        |
//! | 4..6   | sequence number                               |
//! | 6..8   | acknowledgment: latest sequence received      |
//! | 8..12  | acknowledgment: mask of the 32 before it      |
//! | 12..14 | place in the sequenced or ordered stream      |
//! | 14..16 | fragment group                                |
//! | 16     | fragment index                                |
//! | 17     | fragment count                                |

use vstd::prelude::*;
use crate::acknowledgment::{AckBitfield, ItemIdentifier};
use crate::error::ErrorKind;
use crate::packet::{DeliveryGuarantee, OrderingGuarantee, PacketType};

verus! {

/// The length of a header in bytes.
pub const HEADER_SIZE: usize = 18;

/// What a datagram says about its payload.
#[derive(Clone, Copy, Debug, PartialEq, Eq)]
pub struct Header {
    pub packet_type: PacketType,
    pub delivery: DeliveryGuarantee,
    pub ordering: OrderingGuarantee,
    /// The sender's sequence number; meaningful for reliable packets.
    pub sequence: u16,
    /// What the sender has received; `None` while it has received nothing.
    pub ack: Option<AckBitfield>,
    /// The logical item that the payload belongs to.
    pub item: ItemIdentifier,
}

/// The byte that stands for a packet type.
pub open spec fn type_code(t: PacketType) -> u8 {
    match t {
        PacketType::Packet => 0,
        PacketType::Fragment => 1,
        PacketType::Heartbeat => 2,
    }
}

/// The byte that stands for a delivery guarantee.
pub open spec fn delivery_code(d: DeliveryGuarantee) -> u8 {
    match d {
        DeliveryGuarantee::Unreliable => 0,
        DeliveryGuarantee::Reliable => 1,
    }
}

/// The byte that stands for an ordering guarantee.
pub open spec fn ordering_code(o: OrderingGuarantee) -> u8 {
    match o {
        OrderingGuarantee::Unordered => 0,
        OrderingGuarantee::Sequenced => 1,
        OrderingGuarantee::Ordered => 2,
    }
}

/// The two bytes of `x`, most significant first.
pub open spec fn u16_bytes(x: u16) -> Seq<u8> {
    seq![(x / 256) as u8, (x % 256) as u8]
}

/// The four bytes of `x`, most significant first.
pub open spec fn u32_bytes(x: u32) -> Seq<u8> {
    seq![
        (x / 16777216) as u8,
        ((x / 65536) % 256) as u8,
        ((x / 256) % 256) as u8,
        (x % 256) as u8,
    ]
}

/// The number that two bytes stand for, most significant first.
pub open spec fn u16_value(hi: u8, lo: u8) -> u16 {
    (hi as int * 256 + lo as int) as u16
}

/// The number that four bytes stand for, most significant first.
pub open spec fn u32_value(b0: u8, b1: u8, b2: u8, b3: u8) -> u32 {
    (b0 as int * 16777216 + b1 as int * 65536 + b2 as int * 256 + b3 as int) as u32
}

/// The 18 bytes of a header. Without an acknowledgment its fields are zero.
pub open spec fn header_bytes(h: Header) -> Seq<u8> {
    let ack = match h.ack {
        Some(ack) => ack,
        None => AckBitfield { latest: 0, mask: 0 },
    };
    seq![
        type_code(h.packet_type),
        delivery_code(h.delivery),
        ordering_code(h.ordering),
        if h.ack is Some { 1u8 } else { 0u8 },
    ] + u16_bytes(h.sequence) + u16_bytes(ack.latest) + u32_bytes(ack.mask) + u16_bytes(
        h.item.arranging_id,
    ) + u16_bytes(h.item.group_id) + seq![h.item.fragment_index, h.item.fragment_total]
}

/// A datagram: the header's bytes, then the payload.
pub open spec fn encode_spec(h: Header, payload: Seq<u8>) -> Seq<u8> {
    header_bytes(h) + payload
}

/// What a datagram decodes to.
///
/// Fewer than 18 bytes are too short. A packet type above 2, a delivery
/// above 1, an ordering above 2 or an acknowledgment flag above 1 make the
/// header malformed. Where the flag is 0 the acknowledgment fields are
/// ignored.
pub open spec fn decode_spec(data: Seq<u8>) -> Result<(Header, Seq<u8>), ErrorKind> {
    if data.len() < HEADER_SIZE {
        Err(ErrorKind::ReceivedDataTooShort)
    } else if data[0] > 2 || data[1] > 1 || data[2] > 2 || data[3] > 1 {
        Err(ErrorKind::MalformedHeader)
    } else {
        Ok(
            (
                Header {
                    packet_type: if data[0] == 0 {
                        PacketType::Packet
                    } else if data[0] == 1 {
                        PacketType::Fragment
                    } else {
                        PacketType::Heartbeat
                    },
                    delivery: if data[1] == 0 {
                        DeliveryGuarantee::Unreliable
                    } else {
                        DeliveryGuarantee::Reliable
                    },
                    ordering: if data[2] == 0 {
                        OrderingGuarantee::Unordered
                    } else if data[2] == 1 {
                        OrderingGuarantee::Sequenced
                    } else {
                        OrderingGuarantee::Ordered
                    },
                    sequence: u16_value(data[4], data[5]),
                    ack: if data[3] == 1 {
                        Some(
                            AckBitfield {
                                latest: u16_value(data[6], data[7]),
                                mask: u32_value(data[8], data[9], data[10], data[11]),
                            },
                        )
                    } else {
                        None
                    },
                    item: ItemIdentifier {
                        arranging_id: u16_value(data[12], data[13]),
                        group_id: u16_value(data[14], data[15]),
                        fragment_index: data[16],
                        fragment_total: data[17],
                    },
                },
                data.subrange(HEADER_SIZE as int, data.len() as int),
            ),
        )
    }
}

/// The contents of what `decode` returns.
pub open spec fn decoded_view(r: Result<(Header, Vec<u8>), ErrorKind>) -> Result<
    (Header, Seq<u8>),
    ErrorKind,
> {
    match r {
        Ok((h, payload)) => Ok((h, payload@)),
        Err(e) => Err(e),
    }
}

/// Appends the two bytes of `x`.
fn push_u16(out: &mut Vec<u8>, x: u16)
    ensures
        final(out)@ == old(out)@ + u16_bytes(x),
{
    out.push((x / 256) as u8);
    out.push((x % 256) as u8);
    assert(out@ =~= old(out)@ + u16_bytes(x));
}

/// Appends the four bytes of `x`.
fn push_u32(out: &mut Vec<u8>, x: u32)
    ensures
        final(out)@ == old(out)@ + u32_bytes(x),
{
    out.push((x / 16777216) as u8);
    out.push(((x / 65536) % 256) as u8);
    out.push(((x / 256) % 256) as u8);
    out.push((x % 256) as u8);
    assert(out@ =~= old(out)@ + u32_bytes(x));
}

/// The number that two bytes stand for.
fn read_u16(hi: u8, lo: u8) -> (x: u16)
    ensures
        x == u16_value(hi, lo),
{
    (hi as u16) * 256 + lo as u16
}

/// The number that four bytes stand for.
fn read_u32(b0: u8, b1: u8, b2: u8, b3: u8) -> (x: u32)
    ensures
        x == u32_value(b0, b1, b2, b3),
{
    (b0 as u32) * 16777216 + (b1 as u32) * 65536 + (b2 as u32) * 256 + b3 as u32
}

/// The datagram that carries `payload` under `header`.
pub fn encode(header: &Header, payload: &[u8]) -> (out: Vec<u8>)
    ensures
        out@ == encode_spec(*header, payload@),
{
    let mut out: Vec<u8> = Vec::new();
    out.push(
        match header.packet_type {
            PacketType::Packet => 0u8,
            PacketType::Fragment => 1u8,
            PacketType::Heartbeat => 2u8,
        },
    );
    out.push(
        match header.delivery {
            DeliveryGuarantee::Unreliable => 0u8,
            DeliveryGuarantee::Reliable => 1u8,
        },
    );
    out.push(
        match header.ordering {
            OrderingGuarantee::Unordered => 0u8,
            OrderingGuarantee::Sequenced => 1u8,
            OrderingGuarantee::Ordered => 2u8,
        },
    );
    let ack = match header.ack {
        Some(ack) => {
            out.push(1u8);
            ack
        },
        None => {
            out.push(0u8);
            AckBitfield { latest: 0, mask: 0 }
        },
    };
    push_u16(&mut out, header.sequence);
    push_u16(&mut out, ack.latest);
    push_u32(&mut out, ack.mask);
    push_u16(&mut out, header.item.arranging_id);
    push_u16(&mut out, header.item.group_id);
    out.push(header.item.fragment_index);
    out.push(header.item.fragment_total);
    assert(out@ =~= header_bytes(*header));
    let mut i: usize = 0;
    while i < payload.len()
        invariant
            i <= payload@.len(),
            out@ == header_bytes(*header) + payload@.take(i as int),
        decreases payload@.len() - i,
    {
        out.push(payload[i]);
        i += 1;
        assert(header_bytes(*header) + payload@.take(i as int) =~= (header_bytes(*header)
            + payload@.take(i as int - 1)).push(payload@[i as int - 1]));
    }
    assert(payload@.take(payload@.len() as int) =~= payload@);
    out
}

/// Takes a datagram apart into its header and its payload.
pub fn decode(data: &[u8]) -> (r: Result<(Header, Vec<u8>), ErrorKind>)
    ensures
        decoded_view(r) == decode_spec(data@),
{
    if data.len() < HEADER_SIZE {
        return Err(ErrorKind::ReceivedDataTooShort);
    }
    if data[0] > 2 || data[1] > 1 || data[2] > 2 || data[3] > 1 {
        return Err(ErrorKind::MalformedHeader);
    }
    let packet_type = if data[0] == 0 {
        PacketType::Packet
    } else if data[0] == 1 {
        PacketType::Fragment
    } else {
        PacketType::Heartbeat
    };
    let delivery = if data[1] == 0 {
        DeliveryGuarantee::Unreliable
    } else {
        DeliveryGuarantee::Reliable
    };
    let ordering = if data[2] == 0 {
        OrderingGuarantee::Unordered
    } else if data[2] == 1 {
        OrderingGuarantee::Sequenced
    } else {
        OrderingGuarantee::Ordered
    };
    let ack = if data[3] == 1 {
        Some(
            AckBitfield {
                latest: read_u16(data[6], data[7]),
                mask: read_u32(data[8], data[9], data[10], data[11]),
            },
        )
    } else {
        None
    };
    let header = Header {
        packet_type,
        delivery,
        ordering,
        sequence: read_u16(data[4], data[5]),
        ack,
        item: ItemIdentifier {
            arranging_id: read_u16(data[12], data[13]),
            group_id: read_u16(data[14], data[15]),
            fragment_index: data[16],
            fragment_total: data[17],
        },
    };
    let mut payload: Vec<u8> = Vec::new();
    let mut i: usize = HEADER_SIZE;
    while i < data.len()
        invariant
            HEADER_SIZE <= i <= data@.len(),
            payload@ == data@.subrange(HEADER_SIZE as int, i as int),
        decreases data@.len() - i,
    {
        payload.push(data[i]);
        i += 1;
        assert(data@.subrange(HEADER_SIZE as int, i as int) =~= data@.subrange(
            HEADER_SIZE as int,
            i as int - 1,
        ).push(data@[i as int - 1]));
    }
    Ok((header, payload))
}

/// Decoding a datagram gives back the header and the payload that it was
/// encoded from.
pub proof fn lemma_decode_inverts_encode(h: Header, payload: Seq<u8>)
    ensures
        decode_spec(encode_spec(h, payload)) == Ok::<(Header, Seq<u8>), ErrorKind>((h, payload)),
        encode_spec(h, payload).len() == HEADER_SIZE + payload.len(),
{
    let data = encode_spec(h, payload);
    let head = header_bytes(h);
    assert(head.len() == 18);
    assert forall|i: int| 0 <= i < 18 implies data[i] == head[i] by {}
    assert(data.subrange(HEADER_SIZE as int, data.len() as int) =~= payload);
    let decoded = decode_spec(data)->Ok_0.0;
    assert(decoded.ack == h.ack);
    assert(decoded.item == h.item);
}

} // verus!
