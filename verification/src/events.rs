//! What a connection hands to the outside: events for the application and
//! datagrams for the transport, queued on a [`Messenger`].

use vstd::prelude::*;
use crate::config::Config;
use crate::metrics::MetricsFrame;
use crate::packet::{copy_bytes, reversed, Address, Packet, PacketView};

verus! {

/// What a connection tells the application.
#[derive(Debug, PartialEq, Eq)]
pub enum SocketEvent {
    /// A message arrived.
    Packet(Packet),
    /// The connection has both sent and received.
    Connect(Address),
    /// The connection is dropped.
    Timeout(Address),
    /// An established connection is dropped.
    Disconnect(Address),
    /// The traffic counts of the interval that ended.
    Metrics(Address, MetricsFrame),
}

/// The mathematical content of a [`SocketEvent`].
pub enum SocketEventView {
    Packet(PacketView),
    Connect(Address),
    Timeout(Address),
    Disconnect(Address),
    Metrics(Address, MetricsFrame),
}

impl View for SocketEvent {
    type V = SocketEventView;

    open spec fn view(&self) -> SocketEventView {
        match self {
            SocketEvent::Packet(packet) => SocketEventView::Packet(packet@),
            SocketEvent::Connect(address) => SocketEventView::Connect(*address),
            SocketEvent::Timeout(address) => SocketEventView::Timeout(*address),
            SocketEvent::Disconnect(address) => SocketEventView::Disconnect(*address),
            SocketEvent::Metrics(address, frame) => SocketEventView::Metrics(*address, *frame),
        }
    }
}

impl SocketEventView {
    /// The endpoint that the event concerns.
    pub open spec fn address(self) -> Address {
        match self {
            SocketEventView::Packet(packet) => packet.addr,
            SocketEventView::Connect(address) => address,
            SocketEventView::Timeout(address) => address,
            SocketEventView::Disconnect(address) => address,
            SocketEventView::Metrics(address, _) => address,
        }
    }
}

impl Clone for SocketEvent {
    fn clone(&self) -> (copy: SocketEvent)
        ensures
            copy@ == self@,
    {
        match self {
            SocketEvent::Packet(packet) => SocketEvent::Packet(packet.clone()),
            SocketEvent::Connect(address) => SocketEvent::Connect(*address),
            SocketEvent::Timeout(address) => SocketEvent::Timeout(*address),
            SocketEvent::Disconnect(address) => SocketEvent::Disconnect(*address),
            SocketEvent::Metrics(address, frame) => SocketEvent::Metrics(*address, *frame),
        }
    }
}

impl SocketEvent {
    /// The endpoint that the event concerns.
    pub fn address(&self) -> (a: Address)
        ensures
            a == self@.address(),
    {
        match self {
            SocketEvent::Packet(packet) => packet.addr(),
            SocketEvent::Connect(address) => *address,
            SocketEvent::Timeout(address) => *address,
            SocketEvent::Disconnect(address) => *address,
            SocketEvent::Metrics(address, _) => *address,
        }
    }
}

/// Bytes on their way to an endpoint.
#[derive(Debug, PartialEq, Eq)]
pub struct Datagram {
    pub address: Address,
    pub payload: Vec<u8>,
}

/// The mathematical content of a [`Datagram`].
pub struct DatagramView {
    pub address: Address,
    pub payload: Seq<u8>,
}

impl View for Datagram {
    type V = DatagramView;

    open spec fn view(&self) -> DatagramView {
        DatagramView { address: self.address, payload: self.payload@ }
    }
}

impl Clone for Datagram {
    fn clone(&self) -> (copy: Datagram)
        ensures
            copy@ == self@,
    {
        Datagram { address: self.address, payload: copy_bytes(self.payload.as_slice()) }
    }
}

/// The contents of a list of events.
pub open spec fn event_views(events: Seq<SocketEvent>) -> Seq<SocketEventView> {
    events.map_values(|e: SocketEvent| e@)
}

/// The contents of a list of datagrams.
pub open spec fn datagram_views(datagrams: Seq<Datagram>) -> Seq<DatagramView> {
    datagrams.map_values(|d: Datagram| d@)
}

/// The contents of a list of packets.
pub open spec fn packet_views(packets: Seq<Packet>) -> Seq<PacketView> {
    packets.map_values(|p: Packet| p@)
}

/// The contents of a list of byte strings.
pub open spec fn byte_views(items: Seq<Vec<u8>>) -> Seq<Seq<u8>> {
    items.map_values(|bytes: Vec<u8>| bytes@)
}

/// The datagrams that carry each of `payloads` to `address`.
pub open spec fn addressed(address: Address, payloads: Seq<Seq<u8>>) -> Seq<DatagramView> {
    payloads.map_values(|payload: Seq<u8>| DatagramView { address, payload })
}

/// One `Packet` event for each of `packets`.
pub open spec fn packet_events(packets: Seq<PacketView>) -> Seq<SocketEventView> {
    packets.map_values(|packet: PacketView| SocketEventView::Packet(packet))
}

/// What a connection hands over: an event for the application or a
/// datagram for the transport.
#[derive(Debug, PartialEq, Eq)]
pub enum Emitted {
    Event(SocketEvent),
    Datagram(Datagram),
}

/// The mathematical content of an [`Emitted`].
pub enum EmittedView {
    Event(SocketEventView),
    Datagram(DatagramView),
}

impl View for Emitted {
    type V = EmittedView;

    open spec fn view(&self) -> EmittedView {
        match self {
            Emitted::Event(event) => EmittedView::Event(event@),
            Emitted::Datagram(datagram) => EmittedView::Datagram(datagram@),
        }
    }
}

impl Clone for Emitted {
    fn clone(&self) -> (copy: Emitted)
        ensures
            copy@ == self@,
    {
        match self {
            Emitted::Event(event) => Emitted::Event(event.clone()),
            Emitted::Datagram(datagram) => Emitted::Datagram(datagram.clone()),
        }
    }
}

/// The contents of a list of what was handed over.
pub open spec fn emitted_views(emitted: Seq<Emitted>) -> Seq<EmittedView> {
    emitted.map_values(|e: Emitted| e@)
}

/// The events, as they are handed over one after another.
pub open spec fn as_events(events: Seq<SocketEventView>) -> Seq<EmittedView> {
    events.map_values(|event: SocketEventView| EmittedView::Event(event))
}

/// The datagrams, as they are handed over one after another.
pub open spec fn as_datagrams(datagrams: Seq<DatagramView>) -> Seq<EmittedView> {
    datagrams.map_values(|datagram: DatagramView| EmittedView::Datagram(datagram))
}

/// The events among what was handed over, in their order.
pub open spec fn event_part(emitted: Seq<EmittedView>) -> Seq<SocketEventView>
    decreases emitted.len(),
{
    if emitted.len() == 0 {
        Seq::<SocketEventView>::empty()
    } else {
        match emitted.last() {
            EmittedView::Event(event) => event_part(emitted.drop_last()).push(event),
            EmittedView::Datagram(_) => event_part(emitted.drop_last()),
        }
    }
}

/// The datagrams among what was handed over, in their order.
pub open spec fn datagram_part(emitted: Seq<EmittedView>) -> Seq<DatagramView>
    decreases emitted.len(),
{
    if emitted.len() == 0 {
        Seq::<DatagramView>::empty()
    } else {
        match emitted.last() {
            EmittedView::Event(_) => datagram_part(emitted.drop_last()),
            EmittedView::Datagram(datagram) => datagram_part(emitted.drop_last()).push(datagram),
        }
    }
}

/// The mathematical content of a [`Messenger`].
pub struct MessengerView {
    pub config: Config,
    /// What was handed over and not yet taken: events and datagrams in the
    /// one order in which the connection handed them over.
    pub emitted: Seq<EmittedView>,
}

/// The context of every operation of a connection: it supplies the
/// configuration and records, in order, what the operation hands over. The
/// caller takes the record and does the sending.
pub struct Messenger {
    config: Config,
    emitted: Vec<Emitted>,
}

impl View for Messenger {
    type V = MessengerView;

    closed spec fn view(&self) -> MessengerView {
        MessengerView { config: self.config, emitted: emitted_views(self.emitted@) }
    }
}

/// Parts the record into its events and its datagrams, each in order.
fn part(emitted: Vec<Emitted>) -> (parts: (Vec<SocketEvent>, Vec<Datagram>))
    ensures
        event_views(parts.0@) == event_part(emitted_views(emitted@)),
        datagram_views(parts.1@) == datagram_part(emitted_views(emitted@)),
{
    let ghost all = emitted_views(emitted@);
    let n: usize = emitted.len();
    let mut rest = reversed(emitted);
    let mut events: Vec<SocketEvent> = Vec::new();
    let mut datagrams: Vec<Datagram> = Vec::new();
    proof {
        assert(emitted_views(rest@) =~= all.reverse());
        assert(all.reverse().take(n as int) =~= all.reverse());
        assert(all.take(0) =~= Seq::<EmittedView>::empty());
        assert(event_views(events@) =~= Seq::<SocketEventView>::empty());
        assert(datagram_views(datagrams@) =~= Seq::<DatagramView>::empty());
    }
    while rest.len() > 0
        invariant
            n == all.len(),
            rest@.len() <= n,
            emitted_views(rest@) == all.reverse().take(rest@.len() as int),
            event_views(events@) == event_part(all.take(n - rest@.len())),
            datagram_views(datagrams@) == datagram_part(all.take(n - rest@.len())),
        decreases rest@.len(),
    {
        let ghost m = rest@.len() as int;
        let ghost whole = rest@;
        let ghost seen_events = event_views(events@);
        let ghost seen_datagrams = datagram_views(datagrams@);
        let item = rest.pop().unwrap();
        proof {
            assert(emitted_views(whole)[m - 1] == whole[m - 1]@);
            assert(item@ == all[n - m]);
            assert(emitted_views(rest@) =~= all.reverse().take(m - 1));
            assert(all.take(n - m + 1).drop_last() =~= all.take(n - m));
            assert(all.take(n - m + 1).last() == all[n - m]);
        }
        match item {
            Emitted::Event(event) => {
                events.push(event);
                assert(event_views(events@) =~= seen_events.push(event@));
            },
            Emitted::Datagram(datagram) => {
                datagrams.push(datagram);
                assert(datagram_views(datagrams@) =~= seen_datagrams.push(datagram@));
            },
        }
    }
    assert(all.take(n as int) =~= all);
    (events, datagrams)
}

impl Messenger {
    /// A messenger to which nothing was handed over.
    pub fn new(config: Config) -> (m: Messenger)
        ensures
            m@ == (MessengerView { config, emitted: Seq::<EmittedView>::empty() }),
    {
        let m = Messenger { config, emitted: Vec::new() };
        assert(m@.emitted =~= Seq::<EmittedView>::empty());
        m
    }

    /// The configuration.
    pub fn config(&self) -> (config: Config)
        ensures
            config == self@.config,
    {
        self.config
    }

    /// Hands over an event of the connection to `address`.
    pub fn send_event(&mut self, address: &Address, event: SocketEvent)
        ensures
            final(self)@ == (MessengerView {
                emitted: old(self)@.emitted.push(EmittedView::Event(event@)),
                ..old(self)@
            }),
    {
        let item = Emitted::Event(event);
        self.emitted.push(item);
        assert(emitted_views(self.emitted@) =~= emitted_views(old(self).emitted@).push(item@));
    }

    /// Hands over `payload` for sending to `address`.
    pub fn send_packet(&mut self, address: &Address, payload: &[u8])
        ensures
            final(self)@ == (MessengerView {
                emitted: old(self)@.emitted.push(
                    EmittedView::Datagram(DatagramView { address: *address, payload: payload@ }),
                ),
                ..old(self)@
            }),
    {
        let item = Emitted::Datagram(Datagram { address: *address, payload: copy_bytes(payload) });
        self.emitted.push(item);
        assert(emitted_views(self.emitted@) =~= emitted_views(old(self).emitted@).push(item@));
    }

    /// Takes everything that was handed over, in the order in which it was
    /// handed over, and leaves the record empty.
    pub fn take(&mut self) -> (emitted: Vec<Emitted>)
        ensures
            emitted_views(emitted@) == old(self)@.emitted,
            final(self)@ == (MessengerView {
                emitted: Seq::<EmittedView>::empty(),
                ..old(self)@
            }),
    {
        let mut emitted: Vec<Emitted> = Vec::new();
        core::mem::swap(&mut emitted, &mut self.emitted);
        assert(emitted_views(self.emitted@) =~= Seq::<EmittedView>::empty());
        emitted
    }

    /// Takes the events that were handed over, oldest first, and leaves
    /// the datagrams in their order.
    pub fn take_events(&mut self) -> (events: Vec<SocketEvent>)
        ensures
            event_views(events@) == event_part(old(self)@.emitted),
            final(self)@ == (MessengerView {
                emitted: as_datagrams(datagram_part(old(self)@.emitted)),
                ..old(self)@
            }),
    {
        let (events, datagrams) = part(self.take());
        let ghost kept = datagram_views(datagrams@);
        let mut rest = reversed(datagrams);
        let ghost n = kept.len();
        proof {
            assert(datagram_views(rest@) =~= kept.reverse());
            assert(kept.reverse().take(n as int) =~= kept.reverse());
            assert(self@.emitted =~= as_datagrams(kept.take(0)));
        }
        while rest.len() > 0
            invariant
                n == kept.len(),
                rest@.len() <= n,
                datagram_views(rest@) == kept.reverse().take(rest@.len() as int),
                self@ == (MessengerView {
                    emitted: as_datagrams(kept.take(n - rest@.len())),
                    ..old(self)@
                }),
            decreases rest@.len(),
        {
            let ghost m = rest@.len() as int;
            let ghost whole = rest@;
            let ghost queued = self@.emitted;
            let datagram = rest.pop().unwrap();
            let item = Emitted::Datagram(datagram);
            self.emitted.push(item);
            proof {
                assert(datagram_views(whole)[m - 1] == whole[m - 1]@);
                assert(datagram@ == kept[n - m]);
                assert(datagram_views(rest@) =~= kept.reverse().take(m - 1));
                assert(self@.emitted =~= queued.push(item@));
                assert(as_datagrams(kept.take(n - m + 1)) =~= as_datagrams(kept.take(n - m)).push(
                    item@,
                ));
            }
        }
        assert(kept.take(n as int) =~= kept);
        events
    }

    /// Takes the datagrams that were handed over, oldest first, and leaves
    /// the events in their order.
    pub fn take_packets(&mut self) -> (packets: Vec<Datagram>)
        ensures
            datagram_views(packets@) == datagram_part(old(self)@.emitted),
            final(self)@ == (MessengerView {
                emitted: as_events(event_part(old(self)@.emitted)),
                ..old(self)@
            }),
    {
        let (events, datagrams) = part(self.take());
        let ghost kept = event_views(events@);
        let mut rest = reversed(events);
        let ghost n = kept.len();
        proof {
            assert(event_views(rest@) =~= kept.reverse());
            assert(kept.reverse().take(n as int) =~= kept.reverse());
            assert(self@.emitted =~= as_events(kept.take(0)));
        }
        while rest.len() > 0
            invariant
                n == kept.len(),
                rest@.len() <= n,
                event_views(rest@) == kept.reverse().take(rest@.len() as int),
                self@ == (MessengerView {
                    emitted: as_events(kept.take(n - rest@.len())),
                    ..old(self)@
                }),
            decreases rest@.len(),
        {
            let ghost m = rest@.len() as int;
            let ghost whole = rest@;
            let ghost queued = self@.emitted;
            let event = rest.pop().unwrap();
            let item = Emitted::Event(event);
            self.emitted.push(item);
            proof {
                assert(event_views(whole)[m - 1] == whole[m - 1]@);
                assert(event@ == kept[n - m]);
                assert(event_views(rest@) =~= kept.reverse().take(m - 1));
                assert(self@.emitted =~= queued.push(item@));
                assert(as_events(kept.take(n - m + 1)) =~= as_events(kept.take(n - m)).push(item@));
            }
        }
        assert(kept.take(n as int) =~= kept);
        datagrams
    }
}

} // verus!
