//! What the receiving connection makes of the datagrams of a message that
//! was split: whatever the order in which they arrive, the message is
//! delivered once, whole, by the datagram that arrives last.

use vstd::prelude::*;
use crate::acknowledgment::{
    lemma_noted_window, lemma_window_holds_only_received, noted_all, window_holds, AckBitfield,
};
use crate::config::Config;
use crate::connection_model::{fragment_item, ConnectionView, Step};
use crate::error::ErrorKind;
use crate::events::{as_events, packet_events, MessengerView};
use crate::fragmenter::{
    all_present, empty_slots, fragments_needed, piece, split_spec, splittable, FragmentView,
};
use crate::header::{decode_spec, encode_spec, lemma_decode_inverts_encode, Header};
use crate::packet::{DeliveryGuarantee, OrderingGuarantee, PacketType, PacketView};
use crate::reassembly::{
    groups_after, is_permutation, lemma_fragments_cover, lemma_pieces_make_payload,
    lemma_reassembly_in_any_order, outcome_at, shuffled,
};
use crate::transmission::{lemma_large_message_is_its_fragments, wire_sequence};

verus! {

/// A message that travels as fragments: its payload and guarantees, the
/// fragment size and group id under which it was split, and what the
/// headers of its datagrams carry.
pub struct SplitMessage {
    pub payload: Seq<u8>,
    pub fragment_size: nat,
    pub group_id: u16,
    pub delivery: DeliveryGuarantee,
    pub ordering: OrderingGuarantee,
    pub arranging_id: u16,
    /// The sequence number of each datagram, by fragment index.
    pub sequences: Seq<u16>,
    /// The acknowledgment that the datagrams carry.
    pub ack: Option<AckBitfield>,
}

impl SplitMessage {
    /// The number of fragments.
    pub open spec fn count(self) -> nat {
        fragments_needed(self.payload.len(), self.fragment_size)
    }

    /// The fragments in index order.
    pub open spec fn fragments(self) -> Seq<FragmentView> {
        split_spec(self.payload, self.fragment_size, self.group_id)
    }

    /// The message can be split, every datagram has a sequence number, and
    /// the sequence numbers of reliable datagrams differ from each other.
    pub open spec fn wf(self) -> bool {
        &&& splittable(self.payload.len(), self.fragment_size)
        &&& self.sequences.len() == self.count()
        &&& self.delivery == DeliveryGuarantee::Reliable ==> forall|i: int, j: int|
            0 <= i < j < self.count() ==> #[trigger] self.sequences[i] != #[trigger] self.sequences[j]
    }

    /// The datagram that carries fragment `i`.
    pub open spec fn datagram(self, i: int) -> Seq<u8> {
        encode_spec(
            Header {
                packet_type: PacketType::Fragment,
                delivery: self.delivery,
                ordering: self.ordering,
                sequence: self.sequences[i],
                ack: self.ack,
                item: fragment_item(self.arranging_id, self.fragments()[i]),
            },
            self.fragments()[i].payload,
        )
    }

    /// The datagrams in the order in which they arrive.
    pub open spec fn arriving(self, order: Seq<int>) -> Seq<Seq<u8>> {
        Seq::new(order.len(), |k: int| self.datagram(order[k]))
    }

    /// The sequence numbers in the order in which they arrive.
    pub open spec fn arriving_sequences(self, order: Seq<int>) -> Seq<u16> {
        Seq::new(order.len(), |k: int| self.sequences[order[k]])
    }

    /// The message as the connection to `receiver`'s peer delivers it.
    pub open spec fn packet(self, receiver: ConnectionView) -> PacketView {
        PacketView {
            addr: receiver.remote_address,
            payload: self.payload,
            delivery: self.delivery,
            ordering: self.ordering,
        }
    }

    /// The receiving connection can take the message: it holds no group
    /// of the message's id, and has received none of its reliable
    /// datagrams before.
    pub open spec fn is_new_to(self, receiver: ConnectionView) -> bool {
        &&& !receiver.dropped
        &&& !receiver.fragments.contains_key(self.group_id)
        &&& self.delivery == DeliveryGuarantee::Reliable ==> forall|i: int|
            0 <= i < self.count() ==> !window_holds(
                receiver.acknowledgment.remote,
                #[trigger] self.sequences[i],
            )
    }
}

/// The connection and the messenger after each of `datagrams` was
/// processed in turn.
pub open spec fn processed_all(
    connection: ConnectionView,
    messenger: MessengerView,
    datagrams: Seq<Seq<u8>>,
    time: u64,
) -> Step<()>
    decreases datagrams.len(),
{
    if datagrams.len() == 0 {
        Step { connection, messenger, result: () }
    } else {
        let before = processed_all(connection, messenger, datagrams.drop_last(), time);
        let step = before.connection.packet_processed(before.messenger, datagrams.last(), time);
        Step { connection: step.connection, messenger: step.messenger, result: () }
    }
}

/// Processing `datagrams[k]` after the datagrams before it.
pub open spec fn step_at(
    connection: ConnectionView,
    messenger: MessengerView,
    datagrams: Seq<Seq<u8>>,
    time: u64,
    k: int,
) -> Step<Result<(), ErrorKind>> {
    let before = processed_all(connection, messenger, datagrams.take(k), time);
    before.connection.packet_processed(before.messenger, datagrams[k], time)
}

/// The messages that are due when `datagrams[k]` of a split message was
/// processed: none before the last datagram; with the last, what the
/// arranging system lets pass of the whole message.
pub open spec fn due_at(
    receiver: ConnectionView,
    message: SplitMessage,
    k: int,
) -> Seq<PacketView> {
    if k < message.count() - 1 {
        Seq::<PacketView>::empty()
    } else {
        receiver.arranging.arranged(message.arranging_id, message.packet(receiver)).due
    }
}

/// What is known of the receiving connection after `k` datagrams of the
/// message arrived.
spec fn midway(
    receiver: ConnectionView,
    message: SplitMessage,
    order: Seq<int>,
    state: ConnectionView,
    k: int,
) -> bool {
    &&& !state.dropped
    &&& state.remote_address == receiver.remote_address
    &&& state.fragments == groups_after(
        receiver.fragments,
        shuffled(message.fragments(), order).take(k),
    )
    &&& state.arranging == receiver.arranging
    &&& state.acknowledgment.remote == if message.delivery == DeliveryGuarantee::Reliable {
        noted_all(receiver.acknowledgment.remote, message.arriving_sequences(order).take(k))
    } else {
        receiver.acknowledgment.remote
    }
}

/// One datagram of the message arrives.
proof fn lemma_one_arrives(
    receiver: ConnectionView,
    message: SplitMessage,
    order: Seq<int>,
    state: ConnectionView,
    messenger: MessengerView,
    time: u64,
    k: int,
)
    requires
        message.wf(),
        message.is_new_to(receiver),
        is_permutation(order, message.count()),
        0 <= k < message.count(),
        midway(receiver, message, order, state, k),
    ensures
        ({
            let step = state.packet_processed(messenger, message.arriving(order)[k], time);
            &&& step.result == Ok::<(), ErrorKind>(())
            &&& step.messenger == (MessengerView {
                emitted: messenger.emitted + as_events(
                    step.connection.connect_events(state) + packet_events(
                        due_at(receiver, message, k),
                    ),
                ),
                ..messenger
            })
            &&& k < message.count() - 1 ==> midway(receiver, message, order, step.connection, k + 1)
        }),
{
    let n = message.count();
    lemma_fragments_cover(message.payload.len(), message.fragment_size);
    let i = order[k];
    let fragment = message.fragments()[i];
    let header = Header {
        packet_type: PacketType::Fragment,
        delivery: message.delivery,
        ordering: message.ordering,
        sequence: message.sequences[i],
        ack: message.ack,
        item: fragment_item(message.arranging_id, fragment),
    };
    let data = message.arriving(order)[k];
    assert(data == encode_spec(header, fragment.payload));
    lemma_decode_inverts_encode(header, fragment.payload);
    let fed = shuffled(message.fragments(), order);
    assert(fed[k] == fragment);
    assert(fed.take(k + 1).drop_last() =~= fed.take(k));
    assert(fed.take(k + 1).last() == fragment);
    lemma_reassembly_in_any_order(
        receiver.fragments,
        message.payload,
        message.fragment_size,
        message.group_id,
        order,
    );
    assert(fed.len() == n);
    if k < n - 1 {
        assert(outcome_at(receiver.fragments, fed, k) == Ok::<Option<Seq<u8>>, ErrorKind>(None));
    } else {
        assert(outcome_at(receiver.fragments, fed, fed.len() - 1) == Ok::<
            Option<Seq<u8>>,
            ErrorKind,
        >(Some(message.payload)));
    }
    if message.delivery == DeliveryGuarantee::Reliable {
        let seqs = message.arriving_sequences(order);
        let s = message.sequences[i];
        lemma_window_holds_only_received(receiver.acknowledgment.remote, seqs.take(k), s);
        if seqs.take(k).contains(s) {
            let j = choose|j: int| 0 <= j < seqs.take(k).len() && seqs.take(k)[j] == s;
            assert(seqs[j] == message.sequences[order[j]]);
            assert(order[j] != order[k]);
            if order[j] < order[k] {
                assert(message.sequences[order[j]] != message.sequences[order[k]]);
            } else {
                assert(message.sequences[order[k]] != message.sequences[order[j]]);
            }
        }
        assert(!window_holds(state.acknowledgment.remote, s));
        assert(seqs.take(k + 1).drop_last() =~= seqs.take(k));
        assert(seqs.take(k + 1).last() == s);
    }
}

/// The state after `k` datagrams of the message arrived.
proof fn lemma_arrived_so_far(
    receiver: ConnectionView,
    messenger: MessengerView,
    message: SplitMessage,
    order: Seq<int>,
    time: u64,
    k: int,
)
    requires
        message.wf(),
        message.is_new_to(receiver),
        is_permutation(order, message.count()),
        0 <= k < message.count(),
    ensures
        midway(
            receiver,
            message,
            order,
            processed_all(receiver, messenger, message.arriving(order).take(k), time).connection,
            k,
        ),
    decreases k,
{
    let arriving = message.arriving(order);
    if k == 0 {
        assert(arriving.take(0) =~= Seq::<Seq<u8>>::empty());
        assert(shuffled(message.fragments(), order).take(0) =~= Seq::<FragmentView>::empty());
        assert(message.arriving_sequences(order).take(0) =~= Seq::<u16>::empty());
    } else {
        lemma_arrived_so_far(receiver, messenger, message, order, time, k - 1);
        let before = processed_all(receiver, messenger, arriving.take(k - 1), time);
        lemma_one_arrives(
            receiver,
            message,
            order,
            before.connection,
            before.messenger,
            time,
            k - 1,
        );
        assert(arriving.take(k).drop_last() =~= arriving.take(k - 1));
        assert(arriving.take(k).last() == arriving[k - 1]);
    }
}

/// The datagrams of a split message, processed in any order by a
/// connection to which the message is new, deliver the message exactly
/// once and whole: every datagram is taken without error; none but the
/// last hands over a `Packet` event; the last hands over what the
/// arranging system lets pass of the whole message, which for an
/// unordered message is the one `Packet` event with the payload byte for
/// byte.
pub proof fn lemma_split_message_is_delivered_once(
    receiver: ConnectionView,
    messenger: MessengerView,
    message: SplitMessage,
    order: Seq<int>,
    time: u64,
)
    requires
        message.wf(),
        message.is_new_to(receiver),
        is_permutation(order, message.count()),
    ensures
        forall|k: int|
            0 <= k < message.count() ==> {
                let before = processed_all(
                    receiver,
                    messenger,
                    message.arriving(order).take(k),
                    time,
                );
                let step = #[trigger] step_at(receiver, messenger, message.arriving(order), time, k);
                &&& step.result == Ok::<(), ErrorKind>(())
                &&& step.messenger.emitted == before.messenger.emitted + as_events(
                    step.connection.connect_events(before.connection) + packet_events(
                        due_at(receiver, message, k),
                    ),
                )
            },
        message.ordering == OrderingGuarantee::Unordered ==> due_at(
            receiver,
            message,
            message.count() - 1,
        ) == seq![message.packet(receiver)],
{
    assert forall|k: int| 0 <= k < message.count() implies {
        let before = processed_all(receiver, messenger, message.arriving(order).take(k), time);
        let step = #[trigger] step_at(receiver, messenger, message.arriving(order), time, k);
        &&& step.result == Ok::<(), ErrorKind>(())
        &&& step.messenger.emitted == before.messenger.emitted + as_events(
            step.connection.connect_events(before.connection) + packet_events(
                due_at(receiver, message, k),
            ),
        )
    } by {
        let before = processed_all(receiver, messenger, message.arriving(order).take(k), time);
        lemma_arrived_so_far(receiver, messenger, message, order, time, k);
        lemma_one_arrives(
            receiver,
            message,
            order,
            before.connection,
            before.messenger,
            time,
            k,
        );
    }
}

/// What a connection frames for a message that must be split, its peer
/// delivers once and whole, in whatever order the datagrams arrive, if
/// the peer holds no group of the message's id and has received none of
/// its sequence numbers.
pub proof fn lemma_framed_message_arrives_whole(
    sender: ConnectionView,
    config: Config,
    payload: Seq<u8>,
    delivery: DeliveryGuarantee,
    ordering: OrderingGuarantee,
    sent_at: u64,
    receiver: ConnectionView,
    messenger: MessengerView,
    order: Seq<int>,
    time: u64,
)
    requires
        payload.len() > config.fragment_size,
        splittable(payload.len(), config.fragment_size as nat),
        is_permutation(order, fragments_needed(payload.len(), config.fragment_size as nat)),
        !receiver.dropped,
        !receiver.fragments.contains_key(sender.next_group_id),
        delivery == DeliveryGuarantee::Reliable ==> forall|i: int|
            0 <= i < 255 ==> !window_holds(
                receiver.acknowledgment.remote,
                #[trigger] wire_sequence(sender, delivery, i),
            ),
    ensures
        ({
            let framed = sender.framed(
                config,
                PacketType::Packet,
                payload,
                delivery,
                ordering,
                None,
                sent_at,
            );
            let n = fragments_needed(payload.len(), config.fragment_size as nat);
            let arriving = Seq::new(n, |k: int| framed.result->Ok_0[order[k]]);
            let whole = PacketView { addr: receiver.remote_address, payload, delivery, ordering };
            &&& framed.result is Ok
            &&& framed.result->Ok_0.len() == n
            &&& forall|k: int|
                0 <= k < n ==> {
                    let before = processed_all(receiver, messenger, arriving.take(k), time);
                    let step = #[trigger] step_at(receiver, messenger, arriving, time, k);
                    &&& step.result == Ok::<(), ErrorKind>(())
                    &&& step.messenger.emitted == before.messenger.emitted + as_events(
                        step.connection.connect_events(before.connection) + packet_events(
                            if k < n - 1 {
                                Seq::<PacketView>::empty()
                            } else {
                                receiver.arranging.arranged(
                                    sender.item_for(ordering, None).arranging_id,
                                    whole,
                                ).due
                            },
                        ),
                    )
                }
        }),
{
    let max = config.fragment_size as nat;
    let n = fragments_needed(payload.len(), max);
    lemma_large_message_is_its_fragments(sender, config, payload, delivery, ordering, sent_at);
    let framed = sender.framed(config, PacketType::Packet, payload, delivery, ordering, None, sent_at);
    let message = SplitMessage {
        payload,
        fragment_size: max,
        group_id: sender.next_group_id,
        delivery,
        ordering,
        arranging_id: sender.item_for(ordering, None).arranging_id,
        sequences: Seq::new(n, |i: int| wire_sequence(sender, delivery, i)),
        ack: sender.acknowledgment.remote,
    };
    assert(message.wf());
    assert(message.is_new_to(receiver));
    let arriving = Seq::new(n, |k: int| framed.result->Ok_0[order[k]]);
    assert(arriving =~= message.arriving(order)) by {
        assert forall|k: int| 0 <= k < n implies arriving[k] == message.arriving(order)[k] by {
            let i = order[k];
            assert(message.fragments()[i].index == i as u8);
        }
    }
    lemma_split_message_is_delivered_once(receiver, messenger, message, order, time);
    assert forall|k: int| 0 <= k < n implies {
        let before = processed_all(receiver, messenger, arriving.take(k), time);
        let step = #[trigger] step_at(receiver, messenger, arriving, time, k);
        &&& step.result == Ok::<(), ErrorKind>(())
        &&& step.messenger.emitted == before.messenger.emitted + as_events(
            step.connection.connect_events(before.connection) + packet_events(
                due_at(receiver, message, k),
            ),
        )
    } by {
        assert(step_at(receiver, messenger, message.arriving(order), time, k) == step_at(
            receiver,
            messenger,
            arriving,
            time,
            k,
        ));
    }
}

/// A datagram is foreign to the message: it does not decode, or it is no
/// fragment of the message's group and, where both are reliable, carries
/// none of the message's sequence numbers.
pub open spec fn foreign_to(message: SplitMessage, data: Seq<u8>) -> bool {
    match decode_spec(data) {
        Err(_) => true,
        Ok((header, _)) => {
            &&& header.packet_type == PacketType::Fragment ==> header.item.group_id
                != message.group_id
            &&& header.delivery == DeliveryGuarantee::Reliable && message.delivery
                == DeliveryGuarantee::Reliable ==> forall|i: int|
                0 <= i < message.count() ==> #[trigger] message.sequences[i] != header.sequence
        },
    }
}

/// `stream` holds the datagrams of the message, datagram `i` at place
/// `places[i]` and each once, among datagrams that are foreign to it.
pub open spec fn holds_message(
    stream: Seq<Seq<u8>>,
    message: SplitMessage,
    places: Seq<int>,
) -> bool {
    &&& places.len() == message.count()
    &&& forall|i: int|
        0 <= i < places.len() ==> 0 <= #[trigger] places[i] < stream.len() && stream[places[i]]
            == message.datagram(i)
    &&& forall|i: int, j: int|
        0 <= i < j < places.len() ==> #[trigger] places[i] != #[trigger] places[j]
    &&& forall|p: int|
        0 <= p < stream.len() ==> is_place(places, p) || foreign_to(message, #[trigger] stream[p])
}

/// A datagram of the message stands at `p`.
pub open spec fn is_place(places: Seq<int>, p: int) -> bool {
    exists|i: int| 0 <= i < places.len() && #[trigger] places[i] == p
}

/// No datagram of the message stands after `p`.
pub open spec fn none_after(places: Seq<int>, p: int) -> bool {
    forall|i: int| 0 <= i < places.len() ==> #[trigger] places[i] <= p
}

/// The slots of the message's group when the datagrams before `p` arrived.
spec fn slots_before(message: SplitMessage, places: Seq<int>, p: int) -> Seq<Option<Seq<u8>>> {
    Seq::new(
        message.count(),
        |i: int|
            if places[i] < p {
                Some(message.fragments()[i].payload)
            } else {
                None
            },
    )
}

/// What is known of the receiving connection before the datagram at `p`
/// of the stream is processed.
spec fn amid(
    receiver: ConnectionView,
    message: SplitMessage,
    places: Seq<int>,
    state: ConnectionView,
    p: int,
) -> bool {
    &&& !state.dropped
    &&& state.remote_address == receiver.remote_address
    &&& !none_after(places, p - 1) ==> if is_before(places, p) {
        state.fragments.contains_key(message.group_id) && state.fragments[message.group_id]
            == slots_before(message, places, p)
    } else {
        !state.fragments.contains_key(message.group_id)
    }
    &&& message.delivery == DeliveryGuarantee::Reliable ==> forall|i: int|
        0 <= i < message.count() && window_holds(
            state.acknowledgment.remote,
            #[trigger] message.sequences[i],
        ) ==> places[i] < p
}

/// A datagram of the message stands before `p`.
spec fn is_before(places: Seq<int>, p: int) -> bool {
    exists|i: int| 0 <= i < places.len() && #[trigger] places[i] < p
}

/// The datagram at `p` of the stream is processed.
proof fn lemma_stream_step(
    receiver: ConnectionView,
    message: SplitMessage,
    stream: Seq<Seq<u8>>,
    places: Seq<int>,
    state: ConnectionView,
    messenger: MessengerView,
    time: u64,
    p: int,
)
    requires
        message.wf(),
        holds_message(stream, message, places),
        0 <= p < stream.len(),
        amid(receiver, message, places, state, p),
    ensures
        ({
            let step = state.packet_processed(messenger, stream[p], time);
            &&& amid(receiver, message, places, step.connection, p + 1)
            &&& is_place(places, p) ==> {
                &&& step.result == Ok::<(), ErrorKind>(())
                &&& step.messenger.emitted == messenger.emitted + as_events(
                    step.connection.connect_events(state) + packet_events(
                        if none_after(places, p) {
                            state.arranging.arranged(
                                message.arranging_id,
                                message.packet(receiver),
                            ).due
                        } else {
                            Seq::<PacketView>::empty()
                        },
                    ),
                )
            }
        }),
{
    let n = message.count();
    let g = message.group_id;
    lemma_fragments_cover(message.payload.len(), message.fragment_size);
    let data = stream[p];
    let step = state.packet_processed(messenger, data, time);
    if is_place(places, p) {
        let i = choose|i: int| 0 <= i < places.len() && #[trigger] places[i] == p;
        let fragment = message.fragments()[i];
        let header = Header {
            packet_type: PacketType::Fragment,
            delivery: message.delivery,
            ordering: message.ordering,
            sequence: message.sequences[i],
            ack: message.ack,
            item: fragment_item(message.arranging_id, fragment),
        };
        assert(data == encode_spec(header, fragment.payload));
        lemma_decode_inverts_encode(header, fragment.payload);
        assert(!none_after(places, p - 1));
        assert forall|j: int| 0 <= j < n && j != i implies (places[j] < p + 1) == (places[j] < p) by {
            if j < i {
                assert(places[j] != places[i]);
            } else {
                assert(places[i] != places[j]);
            }
        }
        let slots = if state.fragments.contains_key(g) {
            state.fragments[g]
        } else {
            empty_slots(n)
        };
        assert(slots =~= slots_before(message, places, p)) by {
            if !is_before(places, p) {
                assert forall|j: int| 0 <= j < n implies !(places[j] < p) by {}
            }
        }
        let filled = slots.update(i, Some(fragment.payload));
        assert(filled =~= slots_before(message, places, p + 1));
        assert(is_before(places, p + 1));
        if none_after(places, p) {
            let pieces = Seq::new(
                n,
                |j: int| Some(piece(message.payload, message.fragment_size, j as nat)),
            );
            assert(filled =~= pieces);
            lemma_pieces_make_payload(message.payload, message.fragment_size);
            assert(all_present(filled));
        } else {
            let j = choose|j: int| 0 <= j < places.len() && !(#[trigger] places[j] <= p);
            assert(filled[j] is None);
            assert(!all_present(filled));
            assert(!none_after(places, p));
        }
        if message.delivery == DeliveryGuarantee::Reliable {
            let s = message.sequences[i];
            assert(!window_holds(state.acknowledgment.remote, s));
            lemma_noted_window(state.acknowledgment.remote, s);
            assert forall|j: int|
                0 <= j < n && window_holds(
                    step.connection.acknowledgment.remote,
                    #[trigger] message.sequences[j],
                ) implies places[j] < p + 1 by {
                if j != i {
                    if j < i {
                        assert(message.sequences[j] != message.sequences[i]);
                    } else {
                        assert(message.sequences[i] != message.sequences[j]);
                    }
                    assert(window_holds(state.acknowledgment.remote, message.sequences[j]));
                }
            }
        }
    } else {
        assert(foreign_to(message, data));
        assert forall|j: int| 0 <= j < n implies (places[j] < p + 1) == (places[j] < p) by {
            if places[j] == p {
                assert(is_place(places, p));
            }
        }
        assert(is_before(places, p + 1) == is_before(places, p)) by {
            if is_before(places, p + 1) {
                let j = choose|j: int| 0 <= j < places.len() && #[trigger] places[j] < p + 1;
                assert(places[j] < p);
            }
            if is_before(places, p) {
                let j = choose|j: int| 0 <= j < places.len() && #[trigger] places[j] < p;
                assert(places[j] < p + 1);
            }
        }
        assert(none_after(places, p) == none_after(places, p - 1)) by {
            if none_after(places, p) {
                assert forall|j: int| 0 <= j < places.len() implies #[trigger] places[j] <= p
                    - 1 by {
                    if places[j] == p {
                        assert(is_place(places, p));
                    }
                }
            }
        }
        assert(slots_before(message, places, p + 1) =~= slots_before(message, places, p));
        if data.len() > 0 && decode_spec(data) is Ok {
            let header = decode_spec(data)->Ok_0.0;
            if header.delivery == DeliveryGuarantee::Reliable && message.delivery
                == DeliveryGuarantee::Reliable {
                lemma_noted_window(
                    state.acknowledgment.remote,
                    header.sequence,
                );
                assert forall|j: int|
                    0 <= j < n && window_holds(
                        step.connection.acknowledgment.remote,
                        #[trigger] message.sequences[j],
                    ) implies places[j] < p + 1 by {
                    assert(message.sequences[j] != header.sequence);
                    assert(window_holds(state.acknowledgment.remote, message.sequences[j]));
                }
            }
        }
    }
}

/// The state before the datagram at `p` of the stream is processed.
proof fn lemma_stream_so_far(
    receiver: ConnectionView,
    messenger: MessengerView,
    message: SplitMessage,
    stream: Seq<Seq<u8>>,
    places: Seq<int>,
    time: u64,
    p: int,
)
    requires
        message.wf(),
        message.is_new_to(receiver),
        holds_message(stream, message, places),
        0 <= p < stream.len(),
    ensures
        amid(
            receiver,
            message,
            places,
            processed_all(receiver, messenger, stream.take(p), time).connection,
            p,
        ),
    decreases p,
{
    if p == 0 {
        assert(stream.take(0) =~= Seq::<Seq<u8>>::empty());
        assert(!is_before(places, 0));
    } else {
        lemma_stream_so_far(receiver, messenger, message, stream, places, time, p - 1);
        let before = processed_all(receiver, messenger, stream.take(p - 1), time);
        lemma_stream_step(
            receiver,
            message,
            stream,
            places,
            before.connection,
            before.messenger,
            time,
            p - 1,
        );
        assert(stream.take(p).drop_last() =~= stream.take(p - 1));
        assert(stream.take(p).last() == stream[p - 1]);
    }
}

/// A split message is delivered once and whole also when its datagrams
/// arrive mixed with others: with the fragments of other groups, with
/// whole messages, with datagrams that are refused. Each of its datagrams
/// is taken without error; none but the one that arrives last hands over
/// a `Packet` event; the last hands over what the arranging system lets
/// pass of the whole message, which for an unordered message is the one
/// `Packet` event with the payload byte for byte.
pub proof fn lemma_interleaved_message_is_delivered_once(
    receiver: ConnectionView,
    messenger: MessengerView,
    message: SplitMessage,
    stream: Seq<Seq<u8>>,
    places: Seq<int>,
    time: u64,
)
    requires
        message.wf(),
        message.is_new_to(receiver),
        holds_message(stream, message, places),
    ensures
        forall|p: int|
            0 <= p < stream.len() && is_place(places, p) ==> {
                let before = processed_all(receiver, messenger, stream.take(p), time);
                let step = #[trigger] step_at(receiver, messenger, stream, time, p);
                &&& step.result == Ok::<(), ErrorKind>(())
                &&& step.messenger.emitted == before.messenger.emitted + as_events(
                    step.connection.connect_events(before.connection) + packet_events(
                        if none_after(places, p) {
                            before.connection.arranging.arranged(
                                message.arranging_id,
                                message.packet(receiver),
                            ).due
                        } else {
                            Seq::<PacketView>::empty()
                        },
                    ),
                )
            },
        forall|state: ConnectionView|
            message.ordering == OrderingGuarantee::Unordered ==> (#[trigger] state.arranging.arranged(
                message.arranging_id,
                message.packet(receiver),
            )).due == seq![message.packet(receiver)],
{
    assert forall|p: int| 0 <= p < stream.len() && is_place(places, p) implies {
        let before = processed_all(receiver, messenger, stream.take(p), time);
        let step = #[trigger] step_at(receiver, messenger, stream, time, p);
        &&& step.result == Ok::<(), ErrorKind>(())
        &&& step.messenger.emitted == before.messenger.emitted + as_events(
            step.connection.connect_events(before.connection) + packet_events(
                if none_after(places, p) {
                    before.connection.arranging.arranged(
                        message.arranging_id,
                        message.packet(receiver),
                    ).due
                } else {
                    Seq::<PacketView>::empty()
                },
            ),
        )
    } by {
        let before = processed_all(receiver, messenger, stream.take(p), time);
        lemma_stream_so_far(receiver, messenger, message, stream, places, time, p);
        lemma_stream_step(
            receiver,
            message,
            stream,
            places,
            before.connection,
            before.messenger,
            time,
            p,
        );
    }
}

/// A datagram touches no fragment group but its own: whatever is
/// processed, every group other than the one that the datagram names is
/// left as it was.
pub proof fn lemma_datagram_touches_only_its_group(
    connection: ConnectionView,
    messenger: MessengerView,
    data: Seq<u8>,
    time: u64,
    other: u16,
)
    requires
        decode_spec(data) is Ok ==> decode_spec(data)->Ok_0.0.item.group_id != other,
    ensures
        ({
            let after = connection.packet_processed(messenger, data, time).connection;
            &&& after.fragments.contains_key(other) == connection.fragments.contains_key(other)
            &&& connection.fragments.contains_key(other) ==> after.fragments[other]
                == connection.fragments[other]
        }),
{
}

} // verus!
