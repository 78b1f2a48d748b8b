//! What holds of a connection over its life: when it is dropped, that a
//! dropped connection does nothing more, that a connection once
//! established stays so, that only a send that left establishes it, and in
//! which order a tick hands things over.

use vstd::prelude::*;
use crate::acknowledgment::{
    elapsed, lemma_selection_partitions, picked, spared, ItemIdentifier, Selection,
    SentPacketView,
};
use crate::config::Config;
use crate::connection_model::{datagrams_of, handed, ConnectionView, Dispatch};
use crate::error::ErrorKind;
use crate::events::{as_events, EmittedView, MessengerView, SocketEventView};
use crate::fragmenter::{split_spec, splittable, FragmentView};
use crate::header::decode_spec;
use crate::packet::{DeliveryGuarantee, OrderingGuarantee, PacketType, PacketView};

verus! {

/// Two states of a connection agree on the endpoint and on what the
/// connection has lived through.
pub open spec fn same_life(a: ConnectionView, b: ConnectionView) -> bool {
    &&& a.remote_address == b.remote_address
    &&& a.ever_sent == b.ever_sent
    &&& a.ever_recv == b.ever_recv
    &&& a.dropped == b.dropped
}

/// The number of packets in flight decides the drop at the limit: with
/// more in flight than `max_packets_in_flight` the connection is dropped,
/// which is told by `Timeout`, and by `Disconnect` after it exactly if the
/// connection was established; with no more in flight than the limit, and
/// the peer heard within the idle timeout, the connection stays and
/// nothing is told.
pub proof fn lemma_flight_limit_decides_drop(
    connection: ConnectionView,
    messenger: MessengerView,
    time: u64,
)
    requires
        !connection.dropped,
    ensures
        ({
            let step = connection.drop_checked(messenger, time);
            let limit = messenger.config.max_packets_in_flight;
            let timeout = EmittedView::Event(SocketEventView::Timeout(connection.remote_address));
            let disconnect = EmittedView::Event(
                SocketEventView::Disconnect(connection.remote_address),
            );
            &&& connection.packets_in_flight() > limit ==> {
                &&& step.result
                &&& step.connection == (ConnectionView { dropped: true, ..connection })
                &&& step.messenger.emitted == if connection.is_established() {
                    messenger.emitted.push(timeout).push(disconnect)
                } else {
                    messenger.emitted.push(timeout)
                }
            }
            &&& connection.packets_in_flight() <= limit && elapsed(time, connection.last_heard)
                < messenger.config.idle_connection_timeout ==> {
                &&& !step.result
                &&& step.connection == connection
                &&& step.messenger == messenger
            }
        }),
{
    let timeout = EmittedView::Event(SocketEventView::Timeout(connection.remote_address));
    let disconnect = EmittedView::Event(SocketEventView::Disconnect(connection.remote_address));
    if connection.packets_in_flight() > messenger.config.max_packets_in_flight {
        if connection.is_established() {
            assert(messenger.emitted + as_events(connection.drop_events())
                =~= messenger.emitted.push(timeout).push(disconnect));
        } else {
            assert(messenger.emitted + as_events(connection.drop_events())
                =~= messenger.emitted.push(timeout));
        }
    }
}

/// A connection is dropped exactly when the check says so, and the check
/// keeps saying so without telling it again.
pub proof fn lemma_drop_is_final(connection: ConnectionView, messenger: MessengerView, time: u64)
    ensures
        ({
            let step = connection.drop_checked(messenger, time);
            &&& step.result == step.connection.dropped
            &&& connection.dropped ==> step.connection == connection && step.messenger == messenger
            &&& forall|later: u64|
                step.result ==> #[trigger] step.connection.drop_checked(step.messenger, later) == step
        }),
{
}

/// On a dropped connection no operation changes the connection or hands
/// anything over.
pub proof fn lemma_dropped_does_nothing(
    connection: ConnectionView,
    messenger: MessengerView,
    data: Seq<u8>,
    event: PacketView,
    time: u64,
)
    requires
        connection.dropped,
    ensures
        connection.packet_processed(messenger, data, time).connection == connection,
        connection.packet_processed(messenger, data, time).messenger == messenger,
        connection.event_processed(messenger, event, time).connection == connection,
        connection.event_processed(messenger, event, time).messenger == messenger,
        connection.event_processed(messenger, event, time).result == Ok::<Dispatch, ErrorKind>(
            Dispatch::Closed,
        ),
        connection.updated(messenger, time).connection == connection,
        connection.updated(messenger, time).messenger == messenger,
        connection.updated(messenger, time).result == Seq::<ErrorKind>::empty(),
{
}

/// Framing fragments leaves the life of the connection as it is.
proof fn lemma_fragments_keep_life(
    connection: ConnectionView,
    delivery: DeliveryGuarantee,
    ordering: OrderingGuarantee,
    arranging_id: u16,
    fragments: Seq<FragmentView>,
    time: u64,
)
    ensures
        same_life(
            connection,
            connection.framed_fragments(delivery, ordering, arranging_id, fragments, time).connection,
        ),
    decreases fragments.len(),
{
    if fragments.len() > 0 {
        lemma_fragments_keep_life(
            connection,
            delivery,
            ordering,
            arranging_id,
            fragments.drop_last(),
            time,
        );
    }
}

/// Framing a message leaves the life of the connection as it is.
pub proof fn lemma_framing_keeps_life(
    connection: ConnectionView,
    config: Config,
    packet_type: PacketType,
    payload: Seq<u8>,
    delivery: DeliveryGuarantee,
    ordering: OrderingGuarantee,
    item_identifier: Option<ItemIdentifier>,
    time: u64,
)
    ensures
        same_life(
            connection,
            connection.framed(
                config,
                packet_type,
                payload,
                delivery,
                ordering,
                item_identifier,
                time,
            ).connection,
        ),
{
    let item = connection.item_for(ordering, item_identifier);
    let taken = connection.with_item_taken(ordering, item_identifier);
    let regrouped = ConnectionView {
        next_group_id: connection.next_group_id.wrapping_add(1),
        ..taken
    };
    lemma_fragments_keep_life(
        regrouped,
        delivery,
        ordering,
        item.arranging_id,
        split_spec(payload, config.fragment_size as nat, connection.next_group_id),
        time,
    );
}

/// Resending records leaves the life of the connection as it is.
pub proof fn lemma_resending_keeps_life(
    connection: ConnectionView,
    config: Config,
    records: Seq<SentPacketView>,
    time: u64,
)
    ensures
        same_life(connection, connection.resent(config, records, time).connection),
    decreases records.len(),
{
    if records.len() > 0 {
        lemma_resending_keeps_life(connection, config, records.drop_last(), time);
        let before = connection.resent(config, records.drop_last(), time).connection;
        lemma_framing_keeps_life(
            before,
            config,
            records.last().packet_type,
            records.last().payload,
            DeliveryGuarantee::Reliable,
            records.last().ordering_guarantee,
            records.last().item_identifier,
            time,
        );
    }
}

/// Taking a datagram leaves the life of the connection as it is.
pub proof fn lemma_receiving_keeps_life(connection: ConnectionView, data: Seq<u8>, time: u64)
    ensures
        same_life(connection, connection.received(data, time).connection),
{
}

/// A connection that is established stays established, and one that has
/// sent or received stays one that has, whatever is processed on it; only
/// the check for dropping ever marks it as dropped.
pub proof fn lemma_established_is_monotonic(
    connection: ConnectionView,
    messenger: MessengerView,
    data: Seq<u8>,
    event: PacketView,
    time: u64,
)
    ensures
        ({
            let received = connection.packet_processed(messenger, data, time).connection;
            let sent = connection.event_processed(messenger, event, time).connection;
            let ticked = connection.updated(messenger, time).connection;
            let checked = connection.drop_checked(messenger, time).connection;
            &&& connection.ever_sent ==> received.ever_sent && sent.ever_sent && ticked.ever_sent
                && checked.ever_sent
            &&& connection.ever_recv ==> received.ever_recv && sent.ever_recv && ticked.ever_recv
                && checked.ever_recv
            &&& connection.is_established() ==> received.is_established() && sent.is_established()
                && ticked.is_established() && checked.is_established()
            &&& received.dropped == connection.dropped
            &&& sent.dropped == connection.dropped
            &&& ticked.dropped == connection.dropped
        }),
{
    let config = messenger.config;
    lemma_receiving_keeps_life(connection, data, time);
    lemma_framing_keeps_life(
        connection,
        config,
        PacketType::Packet,
        event.payload,
        event.delivery,
        event.ordering,
        None,
        time,
    );
    let taken = connection.with_losses_taken(config, time);
    let lost = connection.acknowledgment.pending.filter(picked(connection.expiry(config, time)));
    lemma_resending_keeps_life(taken, config, lost, time);
    let resent = taken.resent(config, lost, time).connection;
    lemma_framing_keeps_life(
        resent,
        config,
        PacketType::Heartbeat,
        Seq::<u8>::empty(),
        DeliveryGuarantee::Unreliable,
        OrderingGuarantee::Unordered,
        None,
        time,
    );
}

/// Whether a message of `len` bytes can be framed: it fits one datagram or
/// can be split.
pub open spec fn can_be_framed(config: Config, len: nat) -> bool {
    len <= config.fragment_size || splittable(len, config.fragment_size as nat)
}

/// Only a send that left establishes a connection. A send request on a
/// connection that has room in its window is refused exactly if its
/// payload cannot be split, and then nothing has changed: the connection
/// has not sent, nothing is handed over, no `Connect` is told. Otherwise
/// the connection has sent, and what is handed over is `Connect`, exactly
/// if the connection had received and never sent, and after it the
/// datagrams.
pub proof fn lemma_only_a_send_that_left_establishes(
    connection: ConnectionView,
    messenger: MessengerView,
    event: PacketView,
    time: u64,
)
    requires
        !connection.dropped,
        connection.packets_in_flight() < connection.congestion.window,
    ensures
        ({
            let step = connection.event_processed(messenger, event, time);
            let framed = connection.framed(
                messenger.config,
                PacketType::Packet,
                event.payload,
                event.delivery,
                event.ordering,
                None,
                time,
            );
            let connect = EmittedView::Event(SocketEventView::Connect(connection.remote_address));
            let datagrams = handed(connection.remote_address, datagrams_of(framed.result));
            &&& !can_be_framed(messenger.config, event.payload.len()) ==> {
                &&& step.result == Err::<Dispatch, ErrorKind>(ErrorKind::PayloadTooLarge)
                &&& step.connection == connection
                &&& step.messenger == messenger
            }
            &&& can_be_framed(messenger.config, event.payload.len()) ==> {
                &&& step.result == Ok::<Dispatch, ErrorKind>(Dispatch::Sent)
                &&& step.connection.ever_sent
                &&& step.connection.ever_recv == connection.ever_recv
                &&& step.messenger.emitted == if connection.ever_recv && !connection.ever_sent {
                    messenger.emitted.push(connect) + datagrams
                } else {
                    messenger.emitted + datagrams
                }
            }
        }),
{
    lemma_framing_keeps_life(
        connection,
        messenger.config,
        PacketType::Packet,
        event.payload,
        event.delivery,
        event.ordering,
        None,
        time,
    );
    let framed = connection.framed(
        messenger.config,
        PacketType::Packet,
        event.payload,
        event.delivery,
        event.ordering,
        None,
        time,
    );
    let connect = EmittedView::Event(SocketEventView::Connect(connection.remote_address));
    let datagrams = handed(connection.remote_address, datagrams_of(framed.result));
    if can_be_framed(messenger.config, event.payload.len()) {
        let after = ConnectionView { ever_sent: true, ..framed.connection };
        if connection.ever_recv && !connection.ever_sent {
            assert(messenger.emitted + as_events(after.connect_events(connection))
                =~= messenger.emitted.push(connect));
        } else {
            assert(messenger.emitted + as_events(after.connect_events(connection))
                =~= messenger.emitted);
        }
    }
}

/// A tick hands over in one order: first the datagrams that it resends and
/// the heartbeat, and last of all, if metrics are due, the `Metrics`
/// event. What was handed over before the tick stays in front.
pub proof fn lemma_tick_hands_over_in_order(
    connection: ConnectionView,
    messenger: MessengerView,
    time: u64,
)
    ensures
        ({
            let after = connection.updated(messenger, time).messenger.emitted;
            let before = messenger.emitted;
            &&& after.len() >= before.len()
            &&& after.subrange(0, before.len() as int) == before
            &&& forall|i: int|
                before.len() <= i < after.len() - 1 ==> (#[trigger] after[i]) is Datagram
            &&& forall|i: int|
                before.len() <= i < after.len() && (#[trigger] after[i]) is Event ==> i
                    == after.len() - 1 && (after[i]->Event_0) is Metrics
        }),
{
    let after = connection.updated(messenger, time).messenger.emitted;
    let before = messenger.emitted;
    assert(after.subrange(0, before.len() as int) =~= before);
}

/// A datagram that is taken removes from flight exactly the records that
/// its acknowledgment covers: the others stay as they were and in their
/// order, none is added, and the number in flight falls by the number
/// covered. A further datagram with the same acknowledgment removes
/// nothing more.
pub proof fn lemma_datagram_acknowledges_exactly_once(
    connection: ConnectionView,
    messenger: MessengerView,
    data: Seq<u8>,
    time: u64,
)
    requires
        !connection.dropped,
        data.len() > 0,
        decode_spec(data) is Ok,
    ensures
        ({
            let after = connection.packet_processed(messenger, data, time).connection;
            let pending = connection.acknowledgment.pending;
            match decode_spec(data)->Ok_0.0.ack {
                Some(ack) => {
                    let rule = Selection::AcknowledgedBy(ack);
                    &&& after.acknowledgment.pending == pending.filter(spared(rule))
                    &&& after.packets_in_flight() == connection.packets_in_flight()
                        - pending.filter(picked(rule)).len()
                    &&& after.acknowledgment.pending.filter(picked(rule)).len() == 0
                    &&& after.acknowledgment.pending.filter(spared(rule))
                        == after.acknowledgment.pending
                },
                None => after.acknowledgment.pending == pending,
            }
        }),
{
    match decode_spec(data)->Ok_0.0.ack {
        Some(ack) => {
            lemma_selection_partitions(
                connection.acknowledgment.pending,
                Selection::AcknowledgedBy(ack),
            );
        },
        None => {},
    }
}

} // verus!
