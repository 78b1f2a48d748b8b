//! What the application hands over for sending and gets back on receipt.

use vstd::prelude::*;

verus! {

/// Whether a message is acknowledged and resent until it arrives.
#[derive(Clone, Copy, Debug, PartialEq, Eq, Structural)]
pub enum DeliveryGuarantee {
    /// Sent once; may be lost.
    Unreliable,
    /// Tracked until acknowledged; resent when considered lost.
    Reliable,
}

/// In what order received messages reach the application.
#[derive(Clone, Copy, Debug, PartialEq, Eq, Structural)]
pub enum OrderingGuarantee {
    /// Delivered as they arrive.
    Unordered,
    /// Only messages newer than the last delivered one are delivered.
    Sequenced,
    /// Delivered in the order in which they were sent.
    Ordered,
}

/// What a datagram carries.
#[derive(Clone, Copy, Debug, PartialEq, Eq, Structural)]
pub enum PacketType {
    /// A whole user payload.
    Packet,
    /// One piece of a payload that was split.
    Fragment,
    /// No payload: keeps the connection alive and carries acknowledgments.
    Heartbeat,
}

/// The remote endpoint of a connection: an IPv4 or an IPv6 socket address,
/// with every field that such an address has. The engine only carries it
/// along.
#[derive(Clone, Copy, Debug, PartialEq, Eq, Hash, Structural)]
pub enum Address {
    V4 { ip: u32, port: u16 },
    V6 { ip6: u128, port: u16, flowinfo: u32, scope_id: u32 },
}

/// A user message together with its endpoint and guarantees.
#[derive(Debug, PartialEq, Eq)]
pub struct Packet {
    addr: Address,
    payload: Vec<u8>,
    delivery: DeliveryGuarantee,
    ordering: OrderingGuarantee,
}

/// The mathematical content of a [`Packet`].
pub struct PacketView {
    pub addr: Address,
    pub payload: Seq<u8>,
    pub delivery: DeliveryGuarantee,
    pub ordering: OrderingGuarantee,
}

impl View for Packet {
    type V = PacketView;

    closed spec fn view(&self) -> PacketView {
        PacketView {
            addr: self.addr,
            payload: self.payload@,
            delivery: self.delivery,
            ordering: self.ordering,
        }
    }
}

impl Clone for Packet {
    fn clone(&self) -> (copy: Packet)
        ensures
            copy@ == self@,
    {
        Packet {
            addr: self.addr,
            payload: copy_bytes(self.payload.as_slice()),
            delivery: self.delivery,
            ordering: self.ordering,
        }
    }
}

impl Packet {
    /// A packet with the given guarantees.
    pub fn new(
        addr: Address,
        payload: Vec<u8>,
        delivery: DeliveryGuarantee,
        ordering: OrderingGuarantee,
    ) -> (p: Packet)
        ensures
            p@ == (PacketView { addr, payload: payload@, delivery, ordering }),
    {
        Packet { addr, payload, delivery, ordering }
    }

    /// May be lost, duplicated or arrive out of order.
    pub fn unreliable(addr: Address, payload: Vec<u8>) -> (p: Packet)
        ensures
            p@ == (PacketView {
                addr,
                payload: payload@,
                delivery: DeliveryGuarantee::Unreliable,
                ordering: OrderingGuarantee::Unordered,
            }),
    {
        Packet::new(addr, payload, DeliveryGuarantee::Unreliable, OrderingGuarantee::Unordered)
    }

    /// May be lost; of those that arrive only the newest is delivered.
    pub fn unreliable_sequenced(addr: Address, payload: Vec<u8>) -> (p: Packet)
        ensures
            p@ == (PacketView {
                addr,
                payload: payload@,
                delivery: DeliveryGuarantee::Unreliable,
                ordering: OrderingGuarantee::Sequenced,
            }),
    {
        Packet::new(addr, payload, DeliveryGuarantee::Unreliable, OrderingGuarantee::Sequenced)
    }

    /// Arrives, in no particular order.
    pub fn reliable_unordered(addr: Address, payload: Vec<u8>) -> (p: Packet)
        ensures
            p@ == (PacketView {
                addr,
                payload: payload@,
                delivery: DeliveryGuarantee::Reliable,
                ordering: OrderingGuarantee::Unordered,
            }),
    {
        Packet::new(addr, payload, DeliveryGuarantee::Reliable, OrderingGuarantee::Unordered)
    }

    /// Arrives, and is delivered in sending order.
    pub fn reliable_ordered(addr: Address, payload: Vec<u8>) -> (p: Packet)
        ensures
            p@ == (PacketView {
                addr,
                payload: payload@,
                delivery: DeliveryGuarantee::Reliable,
                ordering: OrderingGuarantee::Ordered,
            }),
    {
        Packet::new(addr, payload, DeliveryGuarantee::Reliable, OrderingGuarantee::Ordered)
    }

    /// Resent until acknowledged; delivered only while newer than the last
    /// delivered one.
    pub fn reliable_sequenced(addr: Address, payload: Vec<u8>) -> (p: Packet)
        ensures
            p@ == (PacketView {
                addr,
                payload: payload@,
                delivery: DeliveryGuarantee::Reliable,
                ordering: OrderingGuarantee::Sequenced,
            }),
    {
        Packet::new(addr, payload, DeliveryGuarantee::Reliable, OrderingGuarantee::Sequenced)
    }

    /// The endpoint this packet goes to or came from.
    pub fn addr(&self) -> (a: Address)
        ensures
            a == self@.addr,
    {
        self.addr
    }

    /// The same endpoint, under the name that events use.
    pub fn address(&self) -> (a: Address)
        ensures
            a == self@.addr,
    {
        self.addr()
    }

    /// The user's bytes.
    pub fn payload(&self) -> (bytes: &[u8])
        ensures
            bytes@ == self@.payload,
    {
        self.payload.as_slice()
    }

    /// Whether the packet is acknowledged and resent.
    pub fn delivery_guarantee(&self) -> (d: DeliveryGuarantee)
        ensures
            d == self@.delivery,
    {
        self.delivery
    }

    /// How the packet is ordered on receipt.
    pub fn order_guarantee(&self) -> (o: OrderingGuarantee)
        ensures
            o == self@.ordering,
    {
        self.ordering
    }
}

/// A payload about to be framed, with what the header has to say about it.
pub struct PacketInfo<'a> {
    pub packet_type: PacketType,
    pub payload: &'a [u8],
    pub delivery: DeliveryGuarantee,
    pub ordering: OrderingGuarantee,
}

impl<'a> PacketInfo<'a> {
    /// A payload that the application sends.
    pub fn user_packet(
        payload: &'a [u8],
        delivery: DeliveryGuarantee,
        ordering: OrderingGuarantee,
    ) -> (info: PacketInfo<'a>)
        ensures
            info.packet_type == PacketType::Packet,
            info.payload@ == payload@,
            info.delivery == delivery,
            info.ordering == ordering,
    {
        PacketInfo { packet_type: PacketType::Packet, payload, delivery, ordering }
    }

    /// A keep-alive: unreliable and unordered.
    pub fn heartbeat_packet(payload: &'a [u8]) -> (info: PacketInfo<'a>)
        ensures
            info.packet_type == PacketType::Heartbeat,
            info.payload@ == payload@,
            info.delivery == DeliveryGuarantee::Unreliable,
            info.ordering == OrderingGuarantee::Unordered,
    {
        PacketInfo {
            packet_type: PacketType::Heartbeat,
            payload,
            delivery: DeliveryGuarantee::Unreliable,
            ordering: OrderingGuarantee::Unordered,
        }
    }
}

/// The same items in the opposite order.
pub fn reversed<T>(items: Vec<T>) -> (out: Vec<T>)
    ensures
        out@ == items@.reverse(),
{
    let mut items = items;
    let ghost before = items@;
    let mut out: Vec<T> = Vec::new();
    while items.len() > 0
        invariant
            items@.len() <= before.len(),
            items@ == before.take(items@.len() as int),
            out@ == before.skip(items@.len() as int).reverse(),
        decreases items@.len(),
    {
        let ghost m = items@.len() as int;
        let item = items.pop().unwrap();
        out.push(item);
        assert(items@ =~= before.take(m - 1));
        assert(out@ =~= before.skip(m - 1).reverse());
    }
    assert(before.skip(0) =~= before);
    out
}

/// A copy of `bytes` that the caller owns.
pub fn copy_bytes(bytes: &[u8]) -> (out: Vec<u8>)
    ensures
        out@ == bytes@,
{
    let mut out: Vec<u8> = Vec::new();
    let mut i: usize = 0;
    while i < bytes.len()
        invariant
            i <= bytes.len(),
            out@ == bytes@.take(i as int),
        decreases bytes.len() - i,
    {
        out.push(bytes[i]);
        i += 1;
        assert(bytes@.take(i as int) =~= bytes@.take(i as int - 1).push(bytes@[i as int - 1]));
    }
    assert(bytes@.take(bytes.len() as int) =~= bytes@);
    out
}

} // verus!
