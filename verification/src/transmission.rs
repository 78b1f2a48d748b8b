//! What a send puts on the wire and what a tick resends, stated datagram
//! by datagram.

use vstd::prelude::*;
use crate::acknowledgment::{
    elapsed, picked, spared, ItemIdentifier, Selection, SentPacketView,
};
use crate::arranging::advance;
use crate::config::Config;
use crate::congestion::lemma_loss_never_widens;
use crate::connection_model::{datagrams_of, fragment_item, handed, ConnectionView};
use crate::error::ErrorKind;
use crate::events::{DatagramView, EmittedView, MessengerView, SocketEventView};
use crate::fragmenter::{fragments_needed, piece, split_spec, splittable, FragmentView};
use crate::header::{decode_spec, encode_spec, Header};
use crate::lifecycle::{
    lemma_datagram_acknowledges_exactly_once, lemma_only_a_send_that_left_establishes,
};
use crate::packet::{DeliveryGuarantee, OrderingGuarantee, PacketType, PacketView};
use crate::reassembly::lemma_fragments_cover;

verus! {

/// The sequence number in the header of the datagram that is framed `i`
/// datagrams after the connection was in state `connection`: the next
/// free numbers in turn for reliable datagrams, 0 for unreliable ones.
pub open spec fn wire_sequence(connection: ConnectionView, delivery: DeliveryGuarantee, i: int) -> u16 {
    if delivery == DeliveryGuarantee::Reliable {
        advance(connection.acknowledgment.next_sequence, i)
    } else {
        0
    }
}

/// The datagram that carries fragment `fragment` of a message.
pub open spec fn fragment_datagram(
    connection: ConnectionView,
    delivery: DeliveryGuarantee,
    ordering: OrderingGuarantee,
    arranging_id: u16,
    fragment: FragmentView,
) -> Seq<u8> {
    encode_spec(
        Header {
            packet_type: PacketType::Fragment,
            delivery,
            ordering,
            sequence: wire_sequence(connection, delivery, fragment.index as int),
            ack: connection.acknowledgment.remote,
            item: fragment_item(arranging_id, fragment),
        },
        fragment.payload,
    )
}

/// A message that fits the fragment size goes out as exactly one
/// datagram: the header, then the payload unchanged.
pub proof fn lemma_small_message_is_one_datagram(
    connection: ConnectionView,
    config: Config,
    payload: Seq<u8>,
    delivery: DeliveryGuarantee,
    ordering: OrderingGuarantee,
    time: u64,
)
    requires
        payload.len() <= config.fragment_size,
    ensures
        connection.framed(
            config,
            PacketType::Packet,
            payload,
            delivery,
            ordering,
            None,
            time,
        ).result == Ok::<Seq<Seq<u8>>, ErrorKind>(
            seq![
                encode_spec(
                    Header {
                        packet_type: PacketType::Packet,
                        delivery,
                        ordering,
                        sequence: wire_sequence(connection, delivery, 0),
                        ack: connection.acknowledgment.remote,
                        item: connection.item_for(ordering, None),
                    },
                    payload,
                ),
            ],
        ),
{
}

/// Framing fragments whose indices count up from 0 gives one datagram for
/// each, in index order; reliable ones take the next sequence numbers in
/// turn. What the connection has received, reassembled and arranged is
/// untouched.
pub proof fn lemma_fragments_on_the_wire(
    connection: ConnectionView,
    delivery: DeliveryGuarantee,
    ordering: OrderingGuarantee,
    arranging_id: u16,
    fragments: Seq<FragmentView>,
    time: u64,
)
    requires
        fragments.len() <= 256,
        forall|i: int| 0 <= i < fragments.len() ==> (#[trigger] fragments[i]).index == i,
    ensures
        ({
            let batch = connection.framed_fragments(
                delivery,
                ordering,
                arranging_id,
                fragments,
                time,
            );
            &&& batch.datagrams.len() == fragments.len()
            &&& forall|i: int|
                0 <= i < fragments.len() ==> #[trigger] batch.datagrams[i] == fragment_datagram(
                    connection,
                    delivery,
                    ordering,
                    arranging_id,
                    fragments[i],
                )
            &&& batch.connection.acknowledgment.remote == connection.acknowledgment.remote
            &&& batch.connection.acknowledgment.next_sequence == wire_sequence(
                connection,
                delivery,
                fragments.len() as int,
            ) || delivery == DeliveryGuarantee::Unreliable
            &&& delivery == DeliveryGuarantee::Unreliable ==> batch.connection.acknowledgment
                == connection.acknowledgment
            &&& batch.connection.fragments == connection.fragments
            &&& batch.connection.arranging == connection.arranging
        }),
    decreases fragments.len(),
{
    if fragments.len() > 0 {
        let rest = fragments.drop_last();
        lemma_fragments_on_the_wire(connection, delivery, ordering, arranging_id, rest, time);
        let before = connection.framed_fragments(delivery, ordering, arranging_id, rest, time);
        let batch = connection.framed_fragments(delivery, ordering, arranging_id, fragments, time);
        let last = fragments.last();
        assert(last == fragments[fragments.len() - 1]);
        assert forall|i: int| 0 <= i < fragments.len() implies #[trigger] batch.datagrams[i]
            == fragment_datagram(connection, delivery, ordering, arranging_id, fragments[i]) by {
            if i < rest.len() {
                assert(batch.datagrams[i] == before.datagrams[i]);
                assert(rest[i] == fragments[i]);
            }
        }
    }
}

/// A message longer than the fragment size that can be split goes out as
/// one datagram for each fragment, in index order, all under one new group
/// id and with the same count; fragment `i` carries the bytes of the
/// payload from `i * fragment_size` on, at most `fragment_size` of them.
pub proof fn lemma_large_message_is_its_fragments(
    connection: ConnectionView,
    config: Config,
    payload: Seq<u8>,
    delivery: DeliveryGuarantee,
    ordering: OrderingGuarantee,
    time: u64,
)
    requires
        payload.len() > config.fragment_size,
        splittable(payload.len(), config.fragment_size as nat),
    ensures
        ({
            let framed = connection.framed(
                config,
                PacketType::Packet,
                payload,
                delivery,
                ordering,
                None,
                time,
            );
            let n = fragments_needed(payload.len(), config.fragment_size as nat);
            &&& framed.result is Ok
            &&& framed.result->Ok_0.len() == n
            &&& 2 <= n <= 255
            &&& forall|i: int|
                0 <= i < n ==> #[trigger] framed.result->Ok_0[i] == encode_spec(
                    Header {
                        packet_type: PacketType::Fragment,
                        delivery,
                        ordering,
                        sequence: wire_sequence(connection, delivery, i),
                        ack: connection.acknowledgment.remote,
                        item: ItemIdentifier {
                            arranging_id: connection.item_for(ordering, None).arranging_id,
                            group_id: connection.next_group_id,
                            fragment_index: i as u8,
                            fragment_total: n as u8,
                        },
                    },
                    piece(payload, config.fragment_size as nat, i as nat),
                )
        }),
{
    let max = config.fragment_size as nat;
    let n = fragments_needed(payload.len(), max);
    let fragments = split_spec(payload, max, connection.next_group_id);
    let taken = connection.with_item_taken(ordering, None);
    let regrouped = ConnectionView {
        next_group_id: connection.next_group_id.wrapping_add(1),
        ..taken
    };
    lemma_fragments_cover(payload.len(), max);
    assert(n >= 2) by {
        if n == 1 {
            assert(1 * max >= payload.len());
        }
    }
    lemma_fragments_on_the_wire(
        regrouped,
        delivery,
        ordering,
        connection.item_for(ordering, None).arranging_id,
        fragments,
        time,
    );
}

/// A lost packet is resent once. When the one record in flight has waited
/// longer than the resend threshold, fits one datagram, and no heartbeat
/// is configured, the tick hands over exactly one datagram: to the peer,
/// with the record's payload, type and ordering under the next sequence
/// number. After it one record is in flight, the one that was resent, and
/// a second tick at the same time resends nothing.
pub proof fn lemma_lost_packet_is_resent_once(
    connection: ConnectionView,
    messenger: MessengerView,
    record: SentPacketView,
    time: u64,
)
    requires
        !connection.dropped,
        connection.acknowledgment.pending == seq![record],
        record.item_identifier is Some,
        messenger.config.heartbeat_interval is None,
        !connection.metrics_due(time),
        record.packet_type == PacketType::Fragment || record.payload.len()
            <= messenger.config.fragment_size,
        elapsed(time, record.sent_at) > connection.congestion.resend_threshold(
            messenger.config.rtt_resend_factor,
            messenger.config.initial_rtt,
        ),
        connection.congestion.wf(),
    ensures
        ({
            let step = connection.updated(messenger, time);
            let sequence = connection.acknowledgment.next_sequence;
            let datagram = encode_spec(
                Header {
                    packet_type: record.packet_type,
                    delivery: DeliveryGuarantee::Reliable,
                    ordering: record.ordering_guarantee,
                    sequence,
                    ack: connection.acknowledgment.remote,
                    item: record.item_identifier->Some_0,
                },
                record.payload,
            );
            &&& step.messenger.emitted == messenger.emitted.push(
                EmittedView::Datagram(
                    DatagramView { address: connection.remote_address, payload: datagram },
                ),
            )
            &&& step.result == Seq::<ErrorKind>::empty()
            &&& step.connection.acknowledgment.pending == seq![
                SentPacketView {
                    sequence,
                    sent_at: time,
                    delivery: DeliveryGuarantee::Reliable,
                    ..record
                },
            ]
            &&& step.connection.packets_in_flight() == 1
            &&& step.connection.updated(step.messenger, time).messenger == step.messenger
            &&& step.connection.updated(step.messenger, time).connection.acknowledgment
                == step.connection.acknowledgment
        }),
{
    let config = messenger.config;
    let rule = connection.expiry(config, time);
    let pending = connection.acknowledgment.pending;
    reveal_with_fuel(Seq::filter, 2);
    assert(pending.drop_last() =~= Seq::<SentPacketView>::empty());
    assert(pending.last() == record);
    assert(pending.filter(picked(rule)) =~= seq![record]);
    assert(pending.filter(spared(rule)) =~= Seq::<SentPacketView>::empty());
    let taken = connection.with_losses_taken(config, time);
    let lost = seq![record];
    assert(lost.drop_last() =~= Seq::<SentPacketView>::empty());
    assert(taken.resent(config, lost.drop_last(), time).connection == taken);
    let resent = taken.resent(config, lost, time);
    let numbered = Selection::Numbered(connection.acknowledgment.next_sequence);
    assert(Seq::<SentPacketView>::empty().filter(spared(numbered)) =~= Seq::<
        SentPacketView,
    >::empty());
    let again = SentPacketView {
        sequence: connection.acknowledgment.next_sequence,
        sent_at: time,
        delivery: DeliveryGuarantee::Reliable,
        ..record
    };
    assert(resent.connection.acknowledgment.pending =~= seq![again]);
    let datagram = encode_spec(
        Header {
            packet_type: record.packet_type,
            delivery: DeliveryGuarantee::Reliable,
            ordering: record.ordering_guarantee,
            sequence: connection.acknowledgment.next_sequence,
            ack: connection.acknowledgment.remote,
            item: record.item_identifier->Some_0,
        },
        record.payload,
    );
    assert(resent.datagrams =~= seq![datagram]);
    assert(resent.failures =~= Seq::<ErrorKind>::empty());
    let item = EmittedView::Datagram(
        DatagramView { address: connection.remote_address, payload: datagram },
    );
    assert(messenger.emitted + handed(connection.remote_address, resent.datagrams) + handed(
        connection.remote_address,
        Seq::<Seq<u8>>::empty(),
    ) =~= messenger.emitted.push(item));
    let step = connection.updated(messenger, time);
    assert(step.connection == resent.connection);
    // The second tick: the resent record was sent at `time`, so it has not
    // waited at all.
    lemma_loss_never_widens(connection.congestion);
    let rule2 = step.connection.expiry(config, time);
    let pending2 = step.connection.acknowledgment.pending;
    assert(pending2.drop_last() =~= Seq::<SentPacketView>::empty());
    assert(pending2.last() == again);
    assert(!rule2.selects(again));
    assert(pending2.filter(picked(rule2)) =~= Seq::<SentPacketView>::empty());
    assert(pending2.filter(spared(rule2)) =~= pending2);
    let taken2 = step.connection.with_losses_taken(config, time);
    assert(taken2.acknowledgment == step.connection.acknowledgment);
    assert(step.messenger.emitted + handed(connection.remote_address, Seq::<Seq<u8>>::empty())
        + handed(connection.remote_address, Seq::<Seq<u8>>::empty()) =~= step.messenger.emitted);
}

/// When the acknowledgment of the one record in flight arrives, nothing is
/// in flight any more.
pub proof fn lemma_acknowledgment_empties_flight(
    connection: ConnectionView,
    messenger: MessengerView,
    record: SentPacketView,
    data: Seq<u8>,
    time: u64,
)
    requires
        !connection.dropped,
        connection.acknowledgment.pending == seq![record],
        data.len() > 0,
        decode_spec(data) is Ok,
        decode_spec(data)->Ok_0.0.ack is Some,
        decode_spec(data)->Ok_0.0.ack->Some_0.acknowledges(record.sequence),
    ensures
        connection.packet_processed(messenger, data, time).connection.packets_in_flight() == 0,
{
    let rule = Selection::AcknowledgedBy(decode_spec(data)->Ok_0.0.ack->Some_0);
    let pending = connection.acknowledgment.pending;
    reveal_with_fuel(Seq::filter, 2);
    assert(pending.drop_last() =~= Seq::<SentPacketView>::empty());
    assert(pending.last() == record);
    assert(pending.filter(spared(rule)) =~= Seq::<SentPacketView>::empty());
    lemma_datagram_acknowledges_exactly_once(connection, messenger, data, time);
}

/// What a send request hands over, on a connection that is not dropped
/// and has room in its window: `Connect` first if the send establishes
/// the connection, then the datagrams to the peer and nothing else. A
/// message within the fragment size is exactly one datagram, the header
/// followed by the payload unchanged; a longer one that can be split is
/// one datagram for each fragment in index order, under one group id and
/// one count.
pub proof fn lemma_send_hands_over_its_datagrams(
    connection: ConnectionView,
    messenger: MessengerView,
    event: PacketView,
    time: u64,
)
    requires
        !connection.dropped,
        connection.packets_in_flight() < connection.congestion.window,
    ensures
        ({
            let step = connection.event_processed(messenger, event, time);
            let config = messenger.config;
            let max = config.fragment_size as nat;
            let n = fragments_needed(event.payload.len(), max);
            let first = if connection.ever_recv && !connection.ever_sent {
                messenger.emitted.push(
                    EmittedView::Event(SocketEventView::Connect(connection.remote_address)),
                )
            } else {
                messenger.emitted
            };
            &&& event.payload.len() <= max ==> step.messenger.emitted == first.push(
                EmittedView::Datagram(
                    DatagramView {
                        address: connection.remote_address,
                        payload: encode_spec(
                            Header {
                                packet_type: PacketType::Packet,
                                delivery: event.delivery,
                                ordering: event.ordering,
                                sequence: wire_sequence(connection, event.delivery, 0),
                                ack: connection.acknowledgment.remote,
                                item: connection.item_for(event.ordering, None),
                            },
                            event.payload,
                        ),
                    },
                ),
            )
            &&& event.payload.len() > max && splittable(event.payload.len(), max) ==> {
                &&& step.messenger.emitted.len() == first.len() + n
                &&& step.messenger.emitted.subrange(0, first.len() as int) == first
                &&& forall|i: int|
                    0 <= i < n ==> #[trigger] step.messenger.emitted[first.len() + i]
                        == EmittedView::Datagram(
                        DatagramView {
                            address: connection.remote_address,
                            payload: encode_spec(
                                Header {
                                    packet_type: PacketType::Fragment,
                                    delivery: event.delivery,
                                    ordering: event.ordering,
                                    sequence: wire_sequence(connection, event.delivery, i),
                                    ack: connection.acknowledgment.remote,
                                    item: ItemIdentifier {
                                        arranging_id: connection.item_for(
                                            event.ordering,
                                            None,
                                        ).arranging_id,
                                        group_id: connection.next_group_id,
                                        fragment_index: i as u8,
                                        fragment_total: n as u8,
                                    },
                                },
                                piece(event.payload, max, i as nat),
                            ),
                        },
                    )
            }
        }),
{
    let config = messenger.config;
    let max = config.fragment_size as nat;
    let step = connection.event_processed(messenger, event, time);
    let framed = connection.framed(
        config,
        PacketType::Packet,
        event.payload,
        event.delivery,
        event.ordering,
        None,
        time,
    );
    let first = if connection.ever_recv && !connection.ever_sent {
        messenger.emitted.push(
            EmittedView::Event(SocketEventView::Connect(connection.remote_address)),
        )
    } else {
        messenger.emitted
    };
    lemma_only_a_send_that_left_establishes(connection, messenger, event, time);
    let datagrams = handed(connection.remote_address, datagrams_of(framed.result));
    if event.payload.len() <= max {
        lemma_small_message_is_one_datagram(
            connection,
            config,
            event.payload,
            event.delivery,
            event.ordering,
            time,
        );
        assert(step.messenger.emitted =~= first.push(datagrams[0]));
    } else if splittable(event.payload.len(), max) {
        lemma_large_message_is_its_fragments(
            connection,
            config,
            event.payload,
            event.delivery,
            event.ordering,
            time,
        );
        assert(step.messenger.emitted == first + datagrams);
        assert(step.messenger.emitted.subrange(0, first.len() as int) =~= first);
        assert forall|i: int|
            0 <= i < fragments_needed(event.payload.len(), max) implies #[trigger] step.messenger.emitted[first.len()
                + i] == datagrams[i] by {}
    }
}

} // verus!
