//! The connection as a state machine over plain values: what each
//! operation of a [`VirtualConnection`](crate::connection::VirtualConnection)
//! does to the connection and to the messenger.

use vstd::prelude::*;
use crate::acknowledgment::{
    distinct_sequences, elapsed, picked, window_holds, AckBitfield, AcknowledgmentView,
    ItemIdentifier, Selection, SentPacketView,
};
use crate::arranging::ArrangingView;
use crate::config::Config;
use crate::congestion::{CongestionView, INITIAL_WINDOW, MAX_WINDOW};
use crate::error::ErrorKind;
use crate::events::{
    addressed, as_datagrams, as_events, packet_events, EmittedView, MessengerView,
    SocketEventView,
};
use crate::fragmenter::{
    accept_spec, groups_partial, split_spec, splittable, FragmentView, Slots,
};
use crate::header::{decode_spec, encode_spec, Header};
use crate::metrics::{magnitude, MetricsFrame};
use crate::packet::{Address, DeliveryGuarantee, OrderingGuarantee, PacketType, PacketView};

verus! {

/// Metrics are reported when this many milliseconds have passed since the
/// last report.
pub const METRICS_INTERVAL: u64 = 1000;

/// Where a connection stands in its life.
#[derive(Clone, Copy, Debug, PartialEq, Eq, Structural)]
pub enum ConnectionState {
    /// It has not yet both sent and received.
    Connecting,
    /// It has sent and received.
    Established,
    /// It was found idle or overloaded; nothing more happens on it.
    Dropped,
}

/// Why a connection is to be dropped.
#[derive(Clone, Copy, Debug, PartialEq, Eq, Structural)]
pub enum DropReason {
    /// More packets are unacknowledged than the configuration allows.
    TooManyPacketsInFlight,
    /// Nothing was received for the idle timeout.
    IdleTimeout,
}

/// What became of a send request.
#[derive(Clone, Copy, Debug, PartialEq, Eq, Structural)]
pub enum Dispatch {
    /// Its datagrams are queued on the messenger.
    Sent,
    /// The send window is full: nothing was sent or stored.
    Paused,
    /// The connection is dropped: nothing was sent or stored.
    Closed,
}

/// The mathematical content of a connection.
pub struct ConnectionView {
    pub remote_address: Address,
    /// When a datagram was last accepted from the peer.
    pub last_heard: u64,
    /// When a datagram was last framed for the peer.
    pub last_sent: u64,
    /// When metrics were last reported.
    pub last_metric: u64,
    pub ever_sent: bool,
    pub ever_recv: bool,
    pub dropped: bool,
    pub acknowledgment: AcknowledgmentView,
    pub congestion: CongestionView,
    /// The partial fragment groups.
    pub fragments: Map<u16, Slots>,
    pub arranging: ArrangingView,
    /// The traffic counted since the last report.
    pub frame: MetricsFrame,
    /// The id of the next fragment group to send.
    pub next_group_id: u16,
    /// The place of the next sequenced message to send.
    pub next_sequenced_id: u16,
    /// The place of the next ordered message to send.
    pub next_ordered_id: u16,
}

/// A connection after framing, with the datagrams framed or the reason why
/// there are none.
pub struct Framed {
    pub connection: ConnectionView,
    pub result: Result<Seq<Seq<u8>>, ErrorKind>,
}

/// A connection after framing several datagrams, with the datagrams framed.
pub struct Batch {
    pub connection: ConnectionView,
    pub datagrams: Seq<Seq<u8>>,
}

/// A connection after resending records, with the datagrams framed and,
/// for each record that could not be framed, the reason.
pub struct Resent {
    pub connection: ConnectionView,
    pub datagrams: Seq<Seq<u8>>,
    pub failures: Seq<ErrorKind>,
}

/// A connection after taking a datagram, with the messages now due or the
/// reason why the datagram was refused.
pub struct Received {
    pub connection: ConnectionView,
    pub result: Result<Seq<PacketView>, ErrorKind>,
}

/// A connection and its messenger after an operation, with what the
/// operation returned.
pub struct Step<R> {
    pub connection: ConnectionView,
    pub messenger: MessengerView,
    pub result: R,
}

/// The round-trip times measured when `delivered` are acknowledged at `time`.
pub open spec fn rtt_samples(delivered: Seq<SentPacketView>, time: u64) -> Seq<u64> {
    delivered.map_values(|r: SentPacketView| magnitude(time, r.sent_at))
}

/// The item that fragment `fragment` of a message at place `arranging_id` is.
pub open spec fn fragment_item(arranging_id: u16, fragment: FragmentView) -> ItemIdentifier {
    ItemIdentifier {
        arranging_id,
        group_id: fragment.group_id,
        fragment_index: fragment.index,
        fragment_total: fragment.total,
    }
}

/// The datagrams of a framing that succeeded; none for one that failed.
pub open spec fn datagrams_of(result: Result<Seq<Seq<u8>>, ErrorKind>) -> Seq<Seq<u8>> {
    match result {
        Ok(datagrams) => datagrams,
        Err(_) => Seq::<Seq<u8>>::empty(),
    }
}

/// The reason of a framing that failed; none for one that succeeded.
pub open spec fn failures_of(result: Result<Seq<Seq<u8>>, ErrorKind>) -> Seq<ErrorKind> {
    match result {
        Ok(_) => Seq::<ErrorKind>::empty(),
        Err(e) => seq![e],
    }
}

/// The datagrams as they are handed over for sending to `address`, one
/// after another.
pub open spec fn handed(address: Address, datagrams: Seq<Seq<u8>>) -> Seq<EmittedView> {
    as_datagrams(addressed(address, datagrams))
}

impl ConnectionView {
    /// A connection as it is created at `time`: nothing sent, nothing
    /// heard, the clocks of idleness, heartbeat and metrics started.
    pub open spec fn created(address: Address, time: u64) -> ConnectionView {
        ConnectionView {
            remote_address: address,
            last_heard: time,
            last_sent: time,
            last_metric: time,
            ever_sent: false,
            ever_recv: false,
            dropped: false,
            acknowledgment: AcknowledgmentView {
                next_sequence: 0,
                pending: Seq::<SentPacketView>::empty(),
                remote: None,
            },
            congestion: CongestionView {
                window: INITIAL_WINDOW,
                threshold: MAX_WINDOW,
                credit: 0,
                smoothed_rtt: None,
            },
            fragments: Map::<u16, Slots>::empty(),
            arranging: ArrangingView {
                sequenced_latest: None,
                expected: 0,
                buffered: Map::<u16, PacketView>::empty(),
            },
            frame: MetricsFrame::empty(),
            next_group_id: 0,
            next_sequenced_id: 0,
            next_ordered_id: 0,
        }
    }

    /// The invariants of the parts.
    pub open spec fn wf(self) -> bool {
        &&& distinct_sequences(self.acknowledgment.pending)
        &&& self.congestion.wf()
        &&& groups_partial(self.fragments)
        &&& self.arranging.wf()
    }

    /// A connection is established once it has both sent and received.
    pub open spec fn is_established(self) -> bool {
        self.ever_sent && self.ever_recv
    }

    /// Where the connection stands in its life.
    pub open spec fn state(self) -> ConnectionState {
        if self.dropped {
            ConnectionState::Dropped
        } else if self.is_established() {
            ConnectionState::Established
        } else {
            ConnectionState::Connecting
        }
    }

    /// The number of packets that await acknowledgment.
    pub open spec fn packets_in_flight(self) -> nat {
        self.acknowledgment.pending.len()
    }

    /// Why the connection is to be dropped at `time`, if it is: too many
    /// packets in flight comes before idleness.
    pub open spec fn drop_reason(self, config: Config, time: u64) -> Option<DropReason> {
        if self.packets_in_flight() > config.max_packets_in_flight {
            Some(DropReason::TooManyPacketsInFlight)
        } else if elapsed(time, self.last_heard) >= config.idle_connection_timeout {
            Some(DropReason::IdleTimeout)
        } else {
            None
        }
    }

    /// The events that tell of the drop: `Timeout` always, `Disconnect`
    /// if the connection was established.
    pub open spec fn drop_events(self) -> Seq<SocketEventView> {
        if self.is_established() {
            seq![
                SocketEventView::Timeout(self.remote_address),
                SocketEventView::Disconnect(self.remote_address),
            ]
        } else {
            seq![SocketEventView::Timeout(self.remote_address)]
        }
    }

    /// The `Connect` event if the connection, not established before in
    /// the state `before`, is established now; else nothing.
    pub open spec fn connect_events(self, before: ConnectionView) -> Seq<SocketEventView> {
        if !before.is_established() && self.is_established() {
            seq![SocketEventView::Connect(self.remote_address)]
        } else {
            Seq::<SocketEventView>::empty()
        }
    }

    /// Checking whether the connection is to be dropped. A connection that
    /// is dropped stays so and tells nothing more.
    pub open spec fn drop_checked(self, messenger: MessengerView, time: u64) -> Step<bool> {
        if self.dropped {
            Step { connection: self, messenger, result: true }
        } else if self.drop_reason(messenger.config, time) is Some {
            Step {
                connection: ConnectionView { dropped: true, ..self },
                messenger: MessengerView {
                    emitted: messenger.emitted + as_events(self.drop_events()),
                    ..messenger
                },
                result: true,
            }
        } else {
            Step { connection: self, messenger, result: false }
        }
    }

    /// The item that an outgoing message is: the one it was when it was
    /// first sent, or a new one at the next place of its stream.
    pub open spec fn item_for(
        self,
        ordering: OrderingGuarantee,
        item_identifier: Option<ItemIdentifier>,
    ) -> ItemIdentifier {
        match item_identifier {
            Some(item) => item,
            None => ItemIdentifier {
                arranging_id: match ordering {
                    OrderingGuarantee::Unordered => 0,
                    OrderingGuarantee::Sequenced => self.next_sequenced_id,
                    OrderingGuarantee::Ordered => self.next_ordered_id,
                },
                group_id: 0,
                fragment_index: 0,
                fragment_total: 0,
            },
        }
    }

    /// The connection after a new item took the next place of its stream;
    /// a retransmission takes none.
    pub open spec fn with_item_taken(
        self,
        ordering: OrderingGuarantee,
        item_identifier: Option<ItemIdentifier>,
    ) -> ConnectionView {
        if item_identifier is Some {
            self
        } else {
            match ordering {
                OrderingGuarantee::Unordered => self,
                OrderingGuarantee::Sequenced => ConnectionView {
                    next_sequenced_id: self.next_sequenced_id.wrapping_add(1),
                    ..self
                },
                OrderingGuarantee::Ordered => ConnectionView {
                    next_ordered_id: self.next_ordered_id.wrapping_add(1),
                    ..self
                },
            }
        }
    }

    /// Framing one datagram at `time`. Its header carries the
    /// acknowledgment of what was received; a reliable one is registered
    /// and carries its sequence number.
    pub open spec fn framed_single(
        self,
        packet_type: PacketType,
        payload: Seq<u8>,
        delivery: DeliveryGuarantee,
        ordering: OrderingGuarantee,
        item: ItemIdentifier,
        time: u64,
    ) -> Batch {
        let reliable = delivery == DeliveryGuarantee::Reliable;
        let header = Header {
            packet_type,
            delivery,
            ordering,
            sequence: if reliable {
                self.acknowledgment.next_sequence
            } else {
                0
            },
            ack: self.acknowledgment.remote,
            item,
        };
        let datagram = encode_spec(header, payload);
        Batch {
            connection: ConnectionView {
                acknowledgment: if reliable {
                    self.acknowledgment.registered(
                        packet_type,
                        payload,
                        delivery,
                        ordering,
                        Some(item),
                        time,
                    )
                } else {
                    self.acknowledgment
                },
                last_sent: time,
                frame: self.frame.with_sent(datagram.len()),
                ..self
            },
            datagrams: seq![datagram],
        }
    }

    /// Framing each of `fragments` as a datagram of its own, in index
    /// order, under the guarantees of the message that was split.
    pub open spec fn framed_fragments(
        self,
        delivery: DeliveryGuarantee,
        ordering: OrderingGuarantee,
        arranging_id: u16,
        fragments: Seq<FragmentView>,
        time: u64,
    ) -> Batch
        decreases fragments.len(),
    {
        if fragments.len() == 0 {
            Batch { connection: self, datagrams: Seq::<Seq<u8>>::empty() }
        } else {
            let before = self.framed_fragments(
                delivery,
                ordering,
                arranging_id,
                fragments.drop_last(),
                time,
            );
            let last = before.connection.framed_single(
                PacketType::Fragment,
                fragments.last().payload,
                delivery,
                ordering,
                fragment_item(arranging_id, fragments.last()),
                time,
            );
            Batch { connection: last.connection, datagrams: before.datagrams + last.datagrams }
        }
    }

    /// Framing an outgoing message at `time`.
    ///
    /// A message that is a fragment itself or fits `fragment_size` goes
    /// out as one datagram. A longer one is split under a new group id and
    /// each fragment is framed with the message's own guarantees; it fails
    /// with `PayloadTooLarge`, and only then, if it cannot be split. Only
    /// reliable datagrams are registered. A failure changes nothing.
    pub open spec fn framed(
        self,
        config: Config,
        packet_type: PacketType,
        payload: Seq<u8>,
        delivery: DeliveryGuarantee,
        ordering: OrderingGuarantee,
        item_identifier: Option<ItemIdentifier>,
        time: u64,
    ) -> Framed {
        let item = self.item_for(ordering, item_identifier);
        let taken = self.with_item_taken(ordering, item_identifier);
        let too_large = Framed { connection: self, result: Err(ErrorKind::PayloadTooLarge) };
        if packet_type == PacketType::Fragment || payload.len() <= config.fragment_size {
            let single = taken.framed_single(packet_type, payload, delivery, ordering, item, time);
            Framed { connection: single.connection, result: Ok(single.datagrams) }
        } else if !splittable(payload.len(), config.fragment_size as nat) {
            too_large
        } else {
            let batch = (ConnectionView {
                next_group_id: self.next_group_id.wrapping_add(1),
                ..taken
            }).framed_fragments(
                delivery,
                ordering,
                item.arranging_id,
                split_spec(payload, config.fragment_size as nat, self.next_group_id),
                time,
            );
            Framed { connection: batch.connection, result: Ok(batch.datagrams) }
        }
    }

    /// Framing each of `records` again as the reliable item that it was,
    /// in order. A record that cannot be framed is given up, and the
    /// reason is kept.
    pub open spec fn resent(self, config: Config, records: Seq<SentPacketView>, time: u64) -> Resent
        decreases records.len(),
    {
        if records.len() == 0 {
            Resent {
                connection: self,
                datagrams: Seq::<Seq<u8>>::empty(),
                failures: Seq::<ErrorKind>::empty(),
            }
        } else {
            let before = self.resent(config, records.drop_last(), time);
            let last = before.connection.framed(
                config,
                records.last().packet_type,
                records.last().payload,
                DeliveryGuarantee::Reliable,
                records.last().ordering_guarantee,
                records.last().item_identifier,
                time,
            );
            Resent {
                connection: last.connection,
                datagrams: before.datagrams + datagrams_of(last.result),
                failures: before.failures + failures_of(last.result),
            }
        }
    }

    /// The connection after the peer's acknowledgment arrived at `time`:
    /// the records it covers are no longer in flight, and each of them
    /// gave a round-trip sample to the congestion handler and the metrics.
    pub open spec fn acknowledged(self, ack: Option<AckBitfield>, time: u64) -> ConnectionView {
        match ack {
            None => self,
            Some(ack) => {
                let rule = Selection::AcknowledgedBy(ack);
                let samples = rtt_samples(self.acknowledgment.pending.filter(picked(rule)), time);
                ConnectionView {
                    acknowledgment: self.acknowledgment.without(rule),
                    congestion: self.congestion.after_acks(samples),
                    frame: self.frame.with_all_rtts(samples),
                    ..self
                }
            },
        }
    }

    /// Handing a received payload to the arranging system.
    pub open spec fn arranged(self, header: Header, payload: Seq<u8>) -> Received {
        let arranged = self.arranging.arranged(
            header.item.arranging_id,
            PacketView {
                addr: self.remote_address,
                payload,
                delivery: header.delivery,
                ordering: header.ordering,
            },
        );
        Received {
            connection: ConnectionView { arranging: arranged.state, ..self },
            result: Ok(arranged.due),
        }
    }

    /// Taking a datagram that arrived at `time`.
    ///
    /// A datagram that does not decode is refused and changes nothing.
    /// Otherwise the peer was heard, its acknowledgment is processed, and
    /// a reliable datagram that was received before ends here as a
    /// duplicate. A new one is noted for acknowledgment. A heartbeat
    /// carries no message; a fragment goes to reassembly and, if it
    /// completes its group, the payload goes on like a whole one: to the
    /// arranging system, which says what is due.
    pub open spec fn received(self, data: Seq<u8>, time: u64) -> Received {
        match decode_spec(data) {
            Err(e) => Received { connection: self, result: Err(e) },
            Ok((header, body)) => {
                let reliable = header.delivery == DeliveryGuarantee::Reliable;
                let heard = (ConnectionView {
                    last_heard: time,
                    frame: self.frame.with_received(data.len()),
                    ..self
                }).acknowledged(header.ack, time);
                let none_due = Seq::<PacketView>::empty();
                if reliable && window_holds(self.acknowledgment.remote, header.sequence) {
                    Received { connection: heard, result: Ok(none_due) }
                } else {
                    let noted = if reliable {
                        ConnectionView {
                            acknowledgment: heard.acknowledgment.heard(header.sequence),
                            ..heard
                        }
                    } else {
                        heard
                    };
                    match header.packet_type {
                        PacketType::Heartbeat => Received { connection: noted, result: Ok(none_due) },
                        PacketType::Packet => noted.arranged(header, body),
                        PacketType::Fragment => {
                            let accepted = accept_spec(
                                noted.fragments,
                                FragmentView {
                                    group_id: header.item.group_id,
                                    index: header.item.fragment_index,
                                    total: header.item.fragment_total,
                                    payload: body,
                                },
                            );
                            let stored = ConnectionView { fragments: accepted.groups, ..noted };
                            match accepted.outcome {
                                Err(e) => Received { connection: stored, result: Err(e) },
                                Ok(None) => Received { connection: stored, result: Ok(none_due) },
                                Ok(Some(payload)) => stored.arranged(header, payload),
                            }
                        },
                    }
                }
            },
        }
    }

    /// Processing a received datagram: an empty one is refused as too
    /// short; one that is taken makes the connection one that has
    /// received, which is told by `Connect` if it establishes the
    /// connection, and each message due is told by a `Packet` event.
    pub open spec fn packet_processed(self, messenger: MessengerView, data: Seq<u8>, time: u64) -> Step<
        Result<(), ErrorKind>,
    > {
        if self.dropped {
            Step { connection: self, messenger, result: Ok(()) }
        } else if data.len() == 0 {
            Step { connection: self, messenger, result: Err(ErrorKind::ReceivedDataTooShort) }
        } else {
            let received = self.received(data, time);
            match received.result {
                Err(e) => Step { connection: received.connection, messenger, result: Err(e) },
                Ok(due) => {
                    let connection = ConnectionView { ever_recv: true, ..received.connection };
                    Step {
                        connection,
                        messenger: MessengerView {
                            emitted: messenger.emitted + as_events(
                                connection.connect_events(self) + packet_events(due),
                            ),
                            ..messenger
                        },
                        result: Ok(()),
                    }
                },
            }
        }
    }

    /// Processing a send request. It is refused while the send window is
    /// full. Else the message is framed; if that fails, nothing has
    /// changed and nothing is handed over. If it succeeds the connection
    /// is one that has sent, which is told by `Connect` if it establishes
    /// the connection, and after that the datagrams are handed over in
    /// order.
    pub open spec fn event_processed(
        self,
        messenger: MessengerView,
        event: PacketView,
        time: u64,
    ) -> Step<Result<Dispatch, ErrorKind>> {
        if self.dropped {
            Step { connection: self, messenger, result: Ok(Dispatch::Closed) }
        } else if self.packets_in_flight() >= self.congestion.window {
            Step { connection: self, messenger, result: Ok(Dispatch::Paused) }
        } else {
            let framed = self.framed(
                messenger.config,
                PacketType::Packet,
                event.payload,
                event.delivery,
                event.ordering,
                None,
                time,
            );
            match framed.result {
                Err(e) => Step { connection: self, messenger, result: Err(e) },
                Ok(datagrams) => {
                    let connection = ConnectionView { ever_sent: true, ..framed.connection };
                    Step {
                        connection,
                        messenger: MessengerView {
                            emitted: messenger.emitted + as_events(connection.connect_events(self))
                                + handed(self.remote_address, datagrams),
                            ..messenger
                        },
                        result: Ok(Dispatch::Sent),
                    }
                },
            }
        }
    }

    /// The connection after the records that have waited longer than the
    /// resend threshold were taken out of flight and counted as lost; a
    /// loss is reported to the congestion handler once.
    pub open spec fn with_losses_taken(self, config: Config, time: u64) -> ConnectionView {
        let rule = self.expiry(config, time);
        let lost = self.acknowledgment.pending.filter(picked(rule));
        ConnectionView {
            acknowledgment: self.acknowledgment.without(rule),
            congestion: if lost.len() > 0 {
                self.congestion.after_loss()
            } else {
                self.congestion
            },
            frame: self.frame.with_loss(lost.len()),
            ..self
        }
    }

    /// The rule that picks the records to resend at `time`.
    pub open spec fn expiry(self, config: Config, time: u64) -> Selection {
        Selection::Expired {
            now: time,
            threshold: self.congestion.resend_threshold(
                config.rtt_resend_factor,
                config.initial_rtt,
            ),
        }
    }

    /// Whether a heartbeat is due at `time`.
    pub open spec fn heartbeat_due(self, config: Config, time: u64) -> bool {
        match config.heartbeat_interval {
            Some(interval) => self.is_established() && elapsed(time, self.last_sent) >= interval,
            None => false,
        }
    }

    /// Whether metrics are due at `time`.
    pub open spec fn metrics_due(self, time: u64) -> bool {
        elapsed(time, self.last_metric) >= METRICS_INTERVAL
    }

    /// The periodic tick. It hands over, in this order: the datagrams of
    /// the records that have waited too long, resent as the items they
    /// were; a heartbeat, if the connection is established and has not
    /// sent for the heartbeat interval; the frame of metrics, which is
    /// then reset, if a second has passed since the last report. It
    /// returns the reasons for which records could not be framed again.
    pub open spec fn updated(self, messenger: MessengerView, time: u64) -> Step<Seq<ErrorKind>> {
        if self.dropped {
            Step { connection: self, messenger, result: Seq::<ErrorKind>::empty() }
        } else {
            let config = messenger.config;
            let lost = self.acknowledgment.pending.filter(picked(self.expiry(config, time)));
            let resent = self.with_losses_taken(config, time).resent(config, lost, time);
            let heartbeat = if resent.connection.heartbeat_due(config, time) {
                resent.connection.framed(
                    config,
                    PacketType::Heartbeat,
                    Seq::<u8>::empty(),
                    DeliveryGuarantee::Unreliable,
                    OrderingGuarantee::Unordered,
                    None,
                    time,
                )
            } else {
                Framed { connection: resent.connection, result: Ok(Seq::<Seq<u8>>::empty()) }
            };
            let sent = messenger.emitted + handed(self.remote_address, resent.datagrams) + handed(
                self.remote_address,
                datagrams_of(heartbeat.result),
            );
            let result = resent.failures + failures_of(heartbeat.result);
            if heartbeat.connection.metrics_due(time) {
                Step {
                    connection: ConnectionView {
                        frame: MetricsFrame::empty(),
                        last_metric: time,
                        ..heartbeat.connection
                    },
                    messenger: MessengerView {
                        emitted: sent.push(
                            EmittedView::Event(
                                SocketEventView::Metrics(
                                    self.remote_address,
                                    heartbeat.connection.frame,
                                ),
                            ),
                        ),
                        ..messenger
                    },
                    result,
                }
            } else {
                Step {
                    connection: heartbeat.connection,
                    messenger: MessengerView { emitted: sent, ..messenger },
                    result,
                }
            }
        }
    }
}

} // verus!
