//! The per-peer connection: it frames what the application sends, takes
//! what the peer sent, and on each tick resends, keeps alive and reports.

use vstd::prelude::*;
use crate::acknowledgment::{
    elapsed, picked, record_views, AckBitfield, AcknowledgmentHandler, ItemIdentifier, Selection,
    SentPacket,
};
use crate::arranging::ArrangingSystem;
use crate::config::Config;
use crate::congestion::CongestionHandler;
use crate::connection_model::{
    datagrams_of, failures_of, fragment_item, handed, rtt_samples, ConnectionState,
    ConnectionView, Dispatch, DropReason, METRICS_INTERVAL,
};
use crate::error::ErrorKind;
use crate::events::{
    as_events, byte_views, packet_events, packet_views, DatagramView, EmittedView, Messenger,
    MessengerView, SocketEvent, SocketEventView,
};
use crate::fragmenter::{fragment_views, Fragment, Fragmentation};
use crate::header::{decode, encode, Header};
use crate::lifecycle::lemma_framing_keeps_life;
use crate::metrics::{time_between, MetricsFrame};
use crate::packet::{
    reversed, Address, DeliveryGuarantee, OrderingGuarantee, Packet, PacketInfo, PacketType,
    PacketView,
};

verus! {

/// The state that is kept for one remote endpoint.
pub struct VirtualConnection {
    remote_address: Address,
    last_heard: u64,
    last_sent: u64,
    last_metric: u64,
    ever_sent: bool,
    ever_recv: bool,
    dropped: bool,
    acknowledge_handler: AcknowledgmentHandler,
    congestion_handler: CongestionHandler,
    fragmentation: Fragmentation,
    arranging: ArrangingSystem,
    frame: MetricsFrame,
    next_group_id: u16,
    next_sequenced_id: u16,
    next_ordered_id: u16,
}

impl View for VirtualConnection {
    type V = ConnectionView;

    closed spec fn view(&self) -> ConnectionView {
        ConnectionView {
            remote_address: self.remote_address,
            last_heard: self.last_heard,
            last_sent: self.last_sent,
            last_metric: self.last_metric,
            ever_sent: self.ever_sent,
            ever_recv: self.ever_recv,
            dropped: self.dropped,
            acknowledgment: self.acknowledge_handler@,
            congestion: self.congestion_handler@,
            fragments: self.fragmentation@,
            arranging: self.arranging@,
            frame: self.frame,
            next_group_id: self.next_group_id,
            next_sequenced_id: self.next_sequenced_id,
            next_ordered_id: self.next_ordered_id,
        }
    }
}

/// The contents of what framing returns.
pub open spec fn framing_view(r: Result<Vec<Vec<u8>>, ErrorKind>) -> Result<
    Seq<Seq<u8>>,
    ErrorKind,
> {
    match r {
        Ok(datagrams) => Ok(byte_views(datagrams@)),
        Err(e) => Err(e),
    }
}

/// The contents of what taking a datagram returns.
pub open spec fn due_view(r: Result<Vec<Packet>, ErrorKind>) -> Result<Seq<PacketView>, ErrorKind> {
    match r {
        Ok(due) => Ok(packet_views(due@)),
        Err(e) => Err(e),
    }
}

/// Hands each of the datagrams that framing gave over for sending to
/// `address`, in order, and passes a framing failure on.
pub fn send_packets(
    messenger: &mut Messenger,
    address: &Address,
    packets: Result<Vec<Vec<u8>>, ErrorKind>,
) -> (r: Result<(), ErrorKind>)
    ensures
        final(messenger)@ == (MessengerView {
            emitted: old(messenger)@.emitted + handed(
                *address,
                datagrams_of(framing_view(packets)),
            ),
            ..old(messenger)@
        }),
        match packets {
            Ok(_) => r == Ok::<(), ErrorKind>(()),
            Err(e) => r == Err::<(), ErrorKind>(e),
        },
{
    match packets {
        Ok(datagrams) => {
            let ghost all = byte_views(datagrams@);
            let ghost start = messenger@;
            let mut i: usize = 0;
            assert(start.emitted + handed(*address, all.take(0)) =~= start.emitted);
            while i < datagrams.len()
                invariant
                    i <= datagrams@.len(),
                    all == byte_views(datagrams@),
                    messenger@ == (MessengerView {
                        emitted: start.emitted + handed(*address, all.take(i as int)),
                        ..start
                    }),
                decreases datagrams@.len() - i,
            {
                messenger.send_packet(address, datagrams[i].as_slice());
                i += 1;
                proof {
                    let item = EmittedView::Datagram(
                        DatagramView { address: *address, payload: all[i as int - 1] },
                    );
                    assert(handed(*address, all.take(i as int)) =~= handed(
                        *address,
                        all.take(i as int - 1),
                    ).push(item));
                    assert(start.emitted + handed(*address, all.take(i as int)) =~= (start.emitted
                        + handed(*address, all.take(i as int - 1))).push(item));
                }
            }
            assert(all.take(datagrams@.len() as int) =~= all);
            Ok(())
        },
        Err(e) => {
            assert(messenger@.emitted + handed(*address, Seq::<Seq<u8>>::empty())
                =~= messenger@.emitted);
            Err(e)
        },
    }
}

impl VirtualConnection {
    /// The invariants of the connection's parts.
    pub open spec fn wf(&self) -> bool {
        self@.wf()
    }

    /// A connection to `address` on which nothing has happened. The clocks
    /// of idleness, heartbeat and metrics start at `time`, so that the
    /// connection is neither dropped nor kept alive at once.
    pub fn new(address: Address, time: u64) -> (c: VirtualConnection)
        ensures
            c.wf(),
            c@ == ConnectionView::created(address, time),
    {
        VirtualConnection {
            remote_address: address,
            last_heard: time,
            last_sent: time,
            last_metric: time,
            ever_sent: false,
            ever_recv: false,
            dropped: false,
            acknowledge_handler: AcknowledgmentHandler::new(),
            congestion_handler: CongestionHandler::new(),
            fragmentation: Fragmentation::new(),
            arranging: ArrangingSystem::new(),
            frame: MetricsFrame::new(),
            next_group_id: 0,
            next_sequenced_id: 0,
            next_ordered_id: 0,
        }
    }

    /// A new connection to `address` for the owner of `messenger`.
    pub fn create_connection(messenger: &mut Messenger, address: Address, time: u64) -> (c:
        VirtualConnection)
        ensures
            c.wf(),
            c@ == ConnectionView::created(address, time),
            final(messenger)@ == old(messenger)@,
    {
        VirtualConnection::new(address, time)
    }

    /// The endpoint of this connection.
    pub fn remote_address(&self) -> (a: Address)
        ensures
            a == self@.remote_address,
    {
        self.remote_address
    }

    /// Whether the connection has both sent and received.
    pub fn is_established(&self) -> (r: bool)
        ensures
            r == self@.is_established(),
    {
        self.ever_sent && self.ever_recv
    }

    /// Where the connection stands in its life.
    pub fn state(&self) -> (s: ConnectionState)
        ensures
            s == self@.state(),
    {
        if self.dropped {
            ConnectionState::Dropped
        } else if self.is_established() {
            ConnectionState::Established
        } else {
            ConnectionState::Connecting
        }
    }

    /// The number of packets that await acknowledgment.
    pub fn packets_in_flight(&self) -> (n: usize)
        ensures
            n == self@.packets_in_flight(),
    {
        self.acknowledge_handler.pending_count()
    }

    /// The time since a datagram was last accepted from the peer.
    pub fn last_heard(&self, time: u64) -> (d: u64)
        ensures
            d == elapsed(time, self@.last_heard),
    {
        time.saturating_sub(self.last_heard)
    }

    /// The time since a datagram was last framed for the peer.
    pub fn last_sent(&self, time: u64) -> (d: u64)
        ensures
            d == elapsed(time, self@.last_sent),
    {
        time.saturating_sub(self.last_sent)
    }

    /// The traffic counted since the last report.
    pub fn metrics_frame(&self) -> (frame: MetricsFrame)
        ensures
            frame == self@.frame,
    {
        self.frame
    }

    /// Marks the connection as one that has sent, and says whether that
    /// established it.
    pub fn record_send(&mut self) -> (established_now: bool)
        ensures
            final(self)@ == (ConnectionView { ever_sent: true, ..old(self)@ }),
            established_now == (!old(self)@.is_established() && final(self)@.is_established()),
    {
        let was = self.is_established();
        self.ever_sent = true;
        !was && self.is_established()
    }

    /// Marks the connection as one that has received, and says whether
    /// that established it.
    pub fn record_recv(&mut self) -> (established_now: bool)
        ensures
            final(self)@ == (ConnectionView { ever_recv: true, ..old(self)@ }),
            established_now == (!old(self)@.is_established() && final(self)@.is_established()),
    {
        let was = self.is_established();
        self.ever_recv = true;
        !was && self.is_established()
    }

    /// Why the connection is to be dropped at `time`, if it is.
    pub fn drop_reason(&self, config: &Config, time: u64) -> (reason: Option<DropReason>)
        ensures
            reason == self@.drop_reason(*config, time),
    {
        if self.packets_in_flight() > config.max_packets_in_flight as usize {
            Some(DropReason::TooManyPacketsInFlight)
        } else if self.last_heard(time) >= config.idle_connection_timeout {
            Some(DropReason::IdleTimeout)
        } else {
            None
        }
    }

    /// Decides whether the connection is to be dropped: because more
    /// packets are in flight than allowed, or because nothing was received
    /// for the idle timeout. If so it queues `Timeout`, and `Disconnect`
    /// if the connection was established, and the connection is dropped
    /// for good.
    pub fn should_drop(&mut self, messenger: &mut Messenger, time: u64) -> (r: bool)
        ensures
            final(self)@ == old(self)@.drop_checked(old(messenger)@, time).connection,
            final(messenger)@ == old(self)@.drop_checked(old(messenger)@, time).messenger,
            r == old(self)@.drop_checked(old(messenger)@, time).result,
            old(self).wf() ==> final(self).wf(),
    {
        if self.dropped {
            return true;
        }
        let config = messenger.config();
        let should_drop = self.drop_reason(&config, time).is_some();
        if should_drop {
            let ghost start = messenger@;
            let address = self.remote_address;
            messenger.send_event(&address, SocketEvent::Timeout(address));
            if self.is_established() {
                messenger.send_event(&address, SocketEvent::Disconnect(address));
            }
            self.dropped = true;
            assert(messenger@.emitted =~= start.emitted + as_events(old(self)@.drop_events()));
        }
        should_drop
    }

    /// Frames one datagram and registers it if it is reliable.
    fn frame_single(
        &mut self,
        packet_type: PacketType,
        payload: &[u8],
        delivery: DeliveryGuarantee,
        ordering: OrderingGuarantee,
        item: ItemIdentifier,
        time: u64,
    ) -> (datagram: Vec<u8>)
        requires
            old(self).wf(),
        ensures
            final(self).wf(),
            final(self)@ == old(self)@.framed_single(
                packet_type,
                payload@,
                delivery,
                ordering,
                item,
                time,
            ).connection,
            seq![datagram@] == old(self)@.framed_single(
                packet_type,
                payload@,
                delivery,
                ordering,
                item,
                time,
            ).datagrams,
    {
        let ack = self.acknowledge_handler.ack_bitfield();
        let sequence: u16 = match delivery {
            DeliveryGuarantee::Reliable => self.acknowledge_handler.register_outgoing(
                packet_type,
                payload,
                delivery,
                ordering,
                Some(item),
                time,
            ),
            DeliveryGuarantee::Unreliable => 0,
        };
        let header = Header { packet_type, delivery, ordering, sequence, ack, item };
        let datagram = encode(&header, payload);
        self.last_sent = time;
        self.frame.record_sent(datagram.len());
        datagram
    }

    /// Frames an outgoing message at `time`: as one datagram, or split
    /// into fragments if it exceeds `fragment_size`. With
    /// `item_identifier` the message is a retransmission of that item.
    pub fn process_outgoing(
        &mut self,
        config: &Config,
        info: PacketInfo,
        item_identifier: Option<ItemIdentifier>,
        time: u64,
    ) -> (r: Result<Vec<Vec<u8>>, ErrorKind>)
        requires
            old(self).wf(),
        ensures
            final(self).wf(),
            final(self)@ == old(self)@.framed(
                *config,
                info.packet_type,
                info.payload@,
                info.delivery,
                info.ordering,
                item_identifier,
                time,
            ).connection,
            framing_view(r) == old(self)@.framed(
                *config,
                info.packet_type,
                info.payload@,
                info.delivery,
                info.ordering,
                item_identifier,
                time,
            ).result,
    {
        let item = match item_identifier {
            Some(item) => item,
            None => ItemIdentifier {
                arranging_id: match info.ordering {
                    OrderingGuarantee::Unordered => 0,
                    OrderingGuarantee::Sequenced => self.next_sequenced_id,
                    OrderingGuarantee::Ordered => self.next_ordered_id,
                },
                group_id: 0,
                fragment_index: 0,
                fragment_total: 0,
            },
        };
        let is_fragment = match info.packet_type {
            PacketType::Fragment => true,
            _ => false,
        };
        let single = is_fragment || info.payload.len() <= config.fragment_size as usize;
        let mut out: Vec<Vec<u8>> = Vec::new();
        if single {
            self.take_item(info.ordering, item_identifier);
            let datagram = self.frame_single(
                info.packet_type,
                info.payload,
                info.delivery,
                info.ordering,
                item,
                time,
            );
            out.push(datagram);
            assert(byte_views(out@) =~= seq![datagram@]);
            return Ok(out);
        }
        let group_id: u16 = self.next_group_id;
        let fragments = match Fragmentation::split(
            info.payload,
            config.fragment_size as usize,
            group_id,
        ) {
            Ok(fragments) => fragments,
            Err(_) => {
                return Err(ErrorKind::PayloadTooLarge);
            },
        };
        self.take_item(info.ordering, item_identifier);
        self.next_group_id = group_id.wrapping_add(1);
        let ghost start = self@;
        let ghost all = fragment_views(fragments@);
        let mut i: usize = 0;
        assert(byte_views(out@) =~= Seq::<Seq<u8>>::empty());
        assert(all.take(0) =~= Seq::empty());
        while i < fragments.len()
            invariant
                i <= fragments@.len(),
                all == fragment_views(fragments@),
                self.wf(),
                self@ == start.framed_fragments(
                    info.delivery,
                    info.ordering,
                    item.arranging_id,
                    all.take(i as int),
                    time,
                ).connection,
                byte_views(out@) == start.framed_fragments(
                    info.delivery,
                    info.ordering,
                    item.arranging_id,
                    all.take(i as int),
                    time,
                ).datagrams,
            decreases fragments@.len() - i,
        {
            let fragment = &fragments[i];
            let fragment_id = ItemIdentifier {
                arranging_id: item.arranging_id,
                group_id: fragment.group_id,
                fragment_index: fragment.index,
                fragment_total: fragment.total,
            };
            let ghost shown = byte_views(out@);
            let datagram = self.frame_single(
                PacketType::Fragment,
                fragment.payload.as_slice(),
                info.delivery,
                info.ordering,
                fragment_id,
                time,
            );
            out.push(datagram);
            i += 1;
            proof {
                assert(all.take(i as int).drop_last() =~= all.take(i as int - 1));
                assert(all.take(i as int).last() == fragment@);
                assert(fragment_id == fragment_item(item.arranging_id, fragment@));
                assert(byte_views(out@) =~= shown + seq![datagram@]);
            }
        }
        assert(all.take(fragments@.len() as int) =~= all);
        Ok(out)
    }

    /// Gives a new item the next place of its stream.
    fn take_item(&mut self, ordering: OrderingGuarantee, item_identifier: Option<ItemIdentifier>)
        ensures
            final(self)@ == old(self)@.with_item_taken(ordering, item_identifier),
            old(self).wf() ==> final(self).wf(),
    {
        if item_identifier.is_none() {
            match ordering {
                OrderingGuarantee::Unordered => {},
                OrderingGuarantee::Sequenced => {
                    self.next_sequenced_id = self.next_sequenced_id.wrapping_add(1);
                },
                OrderingGuarantee::Ordered => {
                    self.next_ordered_id = self.next_ordered_id.wrapping_add(1);
                },
            }
        }
    }

    /// Takes the peer's acknowledgment: the records it covers leave the
    /// flight, and each gives a round-trip sample.
    fn acknowledge(&mut self, ack: Option<AckBitfield>, time: u64)
        requires
            old(self).wf(),
        ensures
            final(self).wf(),
            final(self)@ == old(self)@.acknowledged(ack, time),
    {
        let ack = match ack {
            Some(ack) => ack,
            None => {
                return ;
            },
        };
        let ghost start = self@;
        let delivered = self.acknowledge_handler.process_incoming(ack);
        let ghost samples = rtt_samples(record_views(delivered@), time);
        let mut i: usize = 0;
        assert(samples.take(0) =~= Seq::<u64>::empty());
        while i < delivered.len()
            invariant
                i <= delivered@.len(),
                samples == rtt_samples(record_views(delivered@), time),
                self.wf(),
                self@ == (ConnectionView {
                    acknowledgment: start.acknowledgment.without(Selection::AcknowledgedBy(ack)),
                    congestion: start.congestion.after_acks(samples.take(i as int)),
                    frame: start.frame.with_all_rtts(samples.take(i as int)),
                    ..start
                }),
            decreases delivered@.len() - i,
        {
            let sample: u64 = time_between(time, delivered[i].sent_at);
            self.congestion_handler.on_ack(sample);
            self.frame.record_rtt(sample);
            i += 1;
            proof {
                assert(samples.take(i as int).drop_last() =~= samples.take(i as int - 1));
                assert(samples.take(i as int).last() == sample);
            }
        }
        assert(samples.take(delivered@.len() as int) =~= samples);
    }

    /// Hands a received payload to the arranging system.
    fn deliver(&mut self, header: &Header, payload: Vec<u8>) -> (due: Vec<Packet>)
        requires
            old(self).wf(),
        ensures
            final(self).wf(),
            final(self)@ == old(self)@.arranged(*header, payload@).connection,
            Ok::<Seq<PacketView>, ErrorKind>(packet_views(due@)) == old(self)@.arranged(
                *header,
                payload@,
            ).result,
    {
        let packet = Packet::new(self.remote_address, payload, header.delivery, header.ordering);
        self.arranging.arrange(header.item.arranging_id, packet)
    }

    /// Takes a datagram that arrived at `time` and hands out the messages
    /// that are now due, in delivery order.
    pub fn process_incoming(&mut self, payload: &[u8], time: u64) -> (r: Result<
        Vec<Packet>,
        ErrorKind,
    >)
        requires
            old(self).wf(),
        ensures
            final(self).wf(),
            final(self)@ == old(self)@.received(payload@, time).connection,
            due_view(r) == old(self)@.received(payload@, time).result,
    {
        let (header, body) = match decode(payload) {
            Ok(decoded) => decoded,
            Err(e) => {
                return Err(e);
            },
        };
        self.last_heard = time;
        self.frame.record_received(payload.len());
        self.acknowledge(header.ack, time);
        let reliable = match header.delivery {
            DeliveryGuarantee::Reliable => true,
            DeliveryGuarantee::Unreliable => false,
        };
        let none_due: Vec<Packet> = Vec::new();
        assert(packet_views(none_due@) =~= Seq::<PacketView>::empty());
        if reliable && self.acknowledge_handler.has_received(header.sequence) {
            return Ok(none_due);
        }
        if reliable {
            self.acknowledge_handler.note_received(header.sequence);
        }
        match header.packet_type {
            PacketType::Heartbeat => Ok(none_due),
            PacketType::Packet => Ok(self.deliver(&header, body)),
            PacketType::Fragment => {
                let fragment = Fragment {
                    group_id: header.item.group_id,
                    index: header.item.fragment_index,
                    total: header.item.fragment_total,
                    payload: body,
                };
                match self.fragmentation.accept(fragment) {
                    Err(e) => Err(e),
                    Ok(None) => Ok(none_due),
                    Ok(Some(whole)) => Ok(self.deliver(&header, whole)),
                }
            },
        }
    }

    /// Processes a received datagram and hands over the events that
    /// follow from it: `Connect` if it establishes the connection, then
    /// one `Packet` for each message that is due. A datagram that is
    /// refused does not end the connection.
    pub fn process_packet(&mut self, messenger: &mut Messenger, payload: &[u8], time: u64) -> (r:
        Result<(), ErrorKind>)
        requires
            old(self).wf(),
        ensures
            final(self).wf(),
            final(self)@ == old(self)@.packet_processed(
                old(messenger)@,
                payload@,
                time,
            ).connection,
            final(messenger)@ == old(self)@.packet_processed(
                old(messenger)@,
                payload@,
                time,
            ).messenger,
            r == old(self)@.packet_processed(old(messenger)@, payload@, time).result,
    {
        if self.dropped {
            return Ok(());
        }
        if payload.len() == 0 {
            return Err(ErrorKind::ReceivedDataTooShort);
        }
        let ghost start = messenger@;
        let address = self.remote_address;
        match self.process_incoming(payload, time) {
            Ok(packets) => {
                if self.record_recv() {
                    messenger.send_event(&address, SocketEvent::Connect(address));
                }
                let ghost connect = self@.connect_events(old(self)@);
                let ghost due = packet_views(packets@);
                let ghost n = due.len();
                let mut rest = reversed(packets);
                proof {
                    assert(messenger@.emitted =~= start.emitted + as_events(
                        connect + packet_events(due.take(0)),
                    ));
                    assert(packet_views(rest@) =~= due.reverse());
                    assert(due.reverse().take(n as int) =~= due.reverse());
                }
                while rest.len() > 0
                    invariant
                        n == due.len(),
                        rest@.len() <= n,
                        packet_views(rest@) == due.reverse().take(rest@.len() as int),
                        messenger@ == (MessengerView {
                            emitted: start.emitted + as_events(
                                connect + packet_events(due.take(n - rest@.len())),
                            ),
                            ..start
                        }),
                    decreases rest@.len(),
                {
                    let ghost m = rest@.len() as int;
                    let ghost whole = rest@;
                    let packet = rest.pop().unwrap();
                    proof {
                        assert(packet_views(whole)[m - 1] == whole[m - 1]@);
                        assert(packet@ == due[n - m]);
                        assert(packet_views(rest@) =~= due.reverse().take(m - 1));
                    }
                    messenger.send_event(&address, SocketEvent::Packet(packet));
                    proof {
                        let item = SocketEventView::Packet(due[n - m]);
                        assert(packet_events(due.take(n - m + 1)) =~= packet_events(
                            due.take(n - m),
                        ).push(item));
                        assert(start.emitted + as_events(
                            connect + packet_events(due.take(n - m + 1)),
                        ) =~= (start.emitted + as_events(
                            connect + packet_events(due.take(n - m)),
                        )).push(EmittedView::Event(item)));
                    }
                }
                assert(due.take(n as int) =~= due);
                Ok(())
            },
            Err(e) => Err(e),
        }
    }

    /// Processes a send request of the application: frames the message
    /// and hands its datagrams over, unless the send window is full. A
    /// request that cannot be framed changes nothing.
    pub fn process_event(&mut self, messenger: &mut Messenger, event: Packet, time: u64) -> (r:
        Result<Dispatch, ErrorKind>)
        requires
            old(self).wf(),
        ensures
            final(self).wf(),
            final(self)@ == old(self)@.event_processed(old(messenger)@, event@, time).connection,
            final(messenger)@ == old(self)@.event_processed(
                old(messenger)@,
                event@,
                time,
            ).messenger,
            r == old(self)@.event_processed(old(messenger)@, event@, time).result,
    {
        if self.dropped {
            return Ok(Dispatch::Closed);
        }
        if !self.congestion_handler.may_send(self.packets_in_flight()) {
            return Ok(Dispatch::Paused);
        }
        let ghost start = messenger@;
        let address = self.remote_address;
        let config = messenger.config();
        let info = PacketInfo::user_packet(
            event.payload(),
            event.delivery_guarantee(),
            event.order_guarantee(),
        );
        match self.process_outgoing(&config, info, None, time) {
            Ok(datagrams) => {
                if self.record_send() {
                    messenger.send_event(&address, SocketEvent::Connect(address));
                }
                proof {
                    lemma_framing_keeps_life(
                        old(self)@,
                        config,
                        PacketType::Packet,
                        event@.payload,
                        event@.delivery,
                        event@.ordering,
                        None,
                        time,
                    );
                    assert(messenger@.emitted =~= start.emitted + as_events(
                        self@.connect_events(old(self)@),
                    ));
                }
                let _ = send_packets(messenger, &address, Ok(datagrams));
                Ok(Dispatch::Sent)
            },
            Err(e) => Err(e),
        }
    }

    /// Takes the records that have waited longer than the resend
    /// threshold out of flight and counts them as lost.
    pub fn gather_dropped_packets(&mut self, config: &Config, time: u64) -> (lost: Vec<SentPacket>)
        requires
            old(self).wf(),
        ensures
            final(self).wf(),
            final(self)@ == old(self)@.with_losses_taken(*config, time),
            record_views(lost@) == old(self)@.acknowledgment.pending.filter(
                picked(old(self)@.expiry(*config, time)),
            ),
    {
        let threshold: u64 = self.congestion_handler.resend_threshold(
            config.rtt_resend_factor,
            config.initial_rtt,
        );
        let lost = self.acknowledge_handler.gather_dropped(time, threshold);
        if lost.len() > 0 {
            self.congestion_handler.on_loss();
        }
        self.frame.record_loss(lost.len());
        lost
    }

    /// The periodic tick: resends what has waited too long, sends a
    /// heartbeat if one is due, and reports the metrics once a second, in
    /// this order. It returns the reasons for which records could not be
    /// framed again.
    pub fn update(&mut self, messenger: &mut Messenger, time: u64) -> (failures: Vec<ErrorKind>)
        requires
            old(self).wf(),
        ensures
            final(self).wf(),
            final(self)@ == old(self)@.updated(old(messenger)@, time).connection,
            final(messenger)@ == old(self)@.updated(old(messenger)@, time).messenger,
            failures@ == old(self)@.updated(old(messenger)@, time).result,
    {
        let mut failures: Vec<ErrorKind> = Vec::new();
        if self.dropped {
            return failures;
        }
        let ghost start = messenger@;
        let config = messenger.config();
        let address = self.remote_address;
        let lost = self.gather_dropped_packets(&config, time);
        let ghost taken = self@;
        let ghost records = record_views(lost@);
        let mut i: usize = 0;
        proof {
            assert(records.take(0) =~= Seq::empty());
            assert(start.emitted + handed(address, Seq::<Seq<u8>>::empty()) =~= start.emitted);
        }
        while i < lost.len()
            invariant
                i <= lost@.len(),
                records == record_views(lost@),
                address == taken.remote_address,
                self.wf(),
                self@ == taken.resent(config, records.take(i as int), time).connection,
                failures@ == taken.resent(config, records.take(i as int), time).failures,
                messenger@ == (MessengerView {
                    emitted: start.emitted + handed(
                        address,
                        taken.resent(config, records.take(i as int), time).datagrams,
                    ),
                    ..start
                }),
            decreases lost@.len() - i,
        {
            let record = &lost[i];
            let ghost before = taken.resent(config, records.take(i as int), time);
            let ghost noted = failures@;
            let info = PacketInfo {
                packet_type: record.packet_type,
                payload: record.payload.as_slice(),
                delivery: DeliveryGuarantee::Reliable,
                ordering: record.ordering_guarantee,
            };
            let packets = self.process_outgoing(&config, info, record.item_identifier, time);
            let ghost framed = datagrams_of(framing_view(packets));
            let ghost failed = failures_of(framing_view(packets));
            match send_packets(messenger, &address, packets) {
                Ok(()) => {
                    assert(noted + failed =~= noted);
                },
                Err(e) => {
                    failures.push(e);
                    assert(noted + failed =~= noted.push(e));
                },
            }
            i += 1;
            proof {
                assert(records.take(i as int).drop_last() =~= records.take(i as int - 1));
                assert(records.take(i as int).last() == record@);
                assert(handed(address, before.datagrams + framed) =~= handed(
                    address,
                    before.datagrams,
                ) + handed(address, framed));
                assert(start.emitted + handed(address, before.datagrams + framed) =~= (
                start.emitted + handed(address, before.datagrams)) + handed(address, framed));
            }
        }
        assert(records.take(lost@.len() as int) =~= records);
        let heartbeat_due = match config.heartbeat_interval {
            Some(interval) => self.is_established() && self.last_sent(time) >= interval,
            None => false,
        };
        let ghost noted = failures@;
        if heartbeat_due {
            let empty: Vec<u8> = Vec::new();
            let packets = self.process_outgoing(
                &config,
                PacketInfo::heartbeat_packet(empty.as_slice()),
                None,
                time,
            );
            assert(empty@ =~= Seq::<u8>::empty());
            let ghost failed = failures_of(framing_view(packets));
            match send_packets(messenger, &address, packets) {
                Ok(()) => {
                    assert(noted + failed =~= noted);
                },
                Err(e) => {
                    failures.push(e);
                    assert(noted + failed =~= noted.push(e));
                },
            }
        } else {
            assert(messenger@.emitted + handed(address, Seq::<Seq<u8>>::empty())
                =~= messenger@.emitted);
            assert(noted + Seq::<ErrorKind>::empty() =~= noted);
        }
        if time.saturating_sub(self.last_metric) >= METRICS_INTERVAL {
            let snapshot = self.frame.take();
            messenger.send_event(&address, SocketEvent::Metrics(address, snapshot));
            self.last_metric = time;
        }
        failures
    }
}

} // verus!
