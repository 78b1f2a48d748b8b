use reliable_link::acknowledgment::{AckBitfield, ItemIdentifier};
use reliable_link::config::Config;
use reliable_link::connection::{send_packets, VirtualConnection};
use reliable_link::connection_model::{ConnectionState, Dispatch, DropReason};
use reliable_link::error::ErrorKind;
use reliable_link::events::{Datagram, Emitted, Messenger, SocketEvent};
use reliable_link::header::{decode, encode, Header};
use reliable_link::metrics::MetricsFrame;
use reliable_link::packet::{
    Address, DeliveryGuarantee, OrderingGuarantee, Packet, PacketInfo, PacketType,
};

fn alice() -> Address {
    Address::V4 { ip: 0x0a00_0001, port: 4000 }
}

fn bob() -> Address {
    Address::V6 { ip6: 0x2001_0db8 << 96 | 2, port: 5000, flowinfo: 7, scope_id: 3 }
}

fn config() -> Config {
    Config {
        max_packets_in_flight: 3,
        idle_connection_timeout: 5000,
        heartbeat_interval: None,
        fragment_size: 4,
        rtt_resend_factor: 2,
        initial_rtt: 250,
    }
}

fn roomy() -> Config {
    Config { max_packets_in_flight: 512, fragment_size: 1024, ..config() }
}

fn no_item() -> ItemIdentifier {
    ItemIdentifier { arranging_id: 0, group_id: 0, fragment_index: 0, fragment_total: 0 }
}

fn ack_datagram(latest: u16, mask: u32) -> Vec<u8> {
    let header = Header {
        packet_type: PacketType::Heartbeat,
        delivery: DeliveryGuarantee::Unreliable,
        ordering: OrderingGuarantee::Unordered,
        sequence: 0,
        ack: Some(AckBitfield { latest, mask }),
        item: no_item(),
    };
    encode(&header, &[])
}

fn plain_datagram(payload: &[u8]) -> Vec<u8> {
    let header = Header {
        packet_type: PacketType::Packet,
        delivery: DeliveryGuarantee::Unreliable,
        ordering: OrderingGuarantee::Unordered,
        sequence: 0,
        ack: None,
        item: no_item(),
    };
    encode(&header, payload)
}

fn payloads(datagrams: Vec<Datagram>) -> Vec<Vec<u8>> {
    datagrams.into_iter().map(|d| d.payload).collect()
}

fn received_payloads(events: &[SocketEvent]) -> Vec<Vec<u8>> {
    events
        .iter()
        .filter_map(|e| match e {
            SocketEvent::Packet(p) => Some(p.payload().to_vec()),
            _ => None,
        })
        .collect()
}

#[test]
fn new_connection_is_connecting() {
    let mut messenger = Messenger::new(config());
    let connection = VirtualConnection::create_connection(&mut messenger, bob(), 1000);
    assert_eq!(connection.state(), ConnectionState::Connecting);
    assert!(!connection.is_established());
    assert_eq!(connection.packets_in_flight(), 0);
    assert_eq!(connection.remote_address(), bob());
    assert_eq!(connection.last_heard(1500), 500);
    assert_eq!(connection.last_sent(900), 0);
    assert_eq!(connection.metrics_frame(), MetricsFrame::new());
    assert!(messenger.take_events().is_empty());
    assert!(messenger.take_packets().is_empty());
}

#[test]
fn connection_is_established_by_send_and_receive() {
    let mut messenger = Messenger::new(config());
    let mut connection = VirtualConnection::new(bob(), 0);
    assert!(!connection.record_send());
    assert!(!connection.is_established());
    assert!(connection.record_recv());
    assert!(connection.is_established());
    assert!(!connection.record_recv());
    assert!(!connection.record_send());
    assert_eq!(connection.state(), ConnectionState::Established);
    assert!(!connection.should_drop(&mut messenger, 10));
}

#[test]
fn idle_connection_is_dropped_at_the_timeout() {
    let mut messenger = Messenger::new(config());
    let mut connection = VirtualConnection::new(bob(), 1000);
    assert_eq!(connection.drop_reason(&config(), 5999), None);
    assert!(!connection.should_drop(&mut messenger, 5999));
    assert!(messenger.take_events().is_empty());
    assert_eq!(connection.drop_reason(&config(), 6000), Some(DropReason::IdleTimeout));
    assert!(connection.should_drop(&mut messenger, 6000));
    assert_eq!(messenger.take_events(), vec![SocketEvent::Timeout(bob())]);
    assert_eq!(connection.state(), ConnectionState::Dropped);
    assert!(connection.should_drop(&mut messenger, 6001));
    assert!(connection.should_drop(&mut messenger, 0));
    assert!(messenger.take_events().is_empty());
}

#[test]
fn connection_is_dropped_above_the_flight_limit_only() {
    let mut messenger = Messenger::new(config());
    let mut connection = VirtualConnection::new(bob(), 0);
    for _ in 0..2 {
        let sent = connection.process_event(&mut messenger, Packet::reliable_unordered(bob(), vec![1]), 1);
        assert_eq!(sent, Ok(Dispatch::Sent));
    }
    assert_eq!(connection.packets_in_flight(), 2);
    assert!(!connection.should_drop(&mut messenger, 2));
    connection.process_event(&mut messenger, Packet::reliable_unordered(bob(), vec![1]), 1).unwrap();
    assert_eq!(connection.packets_in_flight(), 3);
    assert!(!connection.should_drop(&mut messenger, 2));
    assert!(messenger.take_events().is_empty());
    connection.process_event(&mut messenger, Packet::reliable_unordered(bob(), vec![1]), 1).unwrap();
    assert_eq!(connection.packets_in_flight(), 4);
    assert_eq!(connection.drop_reason(&config(), 2), Some(DropReason::TooManyPacketsInFlight));
    assert!(connection.should_drop(&mut messenger, 2));
    assert_eq!(messenger.take_events(), vec![SocketEvent::Timeout(bob())]);
    assert_eq!(connection.state(), ConnectionState::Dropped);
}

#[test]
fn dropping_an_established_connection_also_disconnects() {
    let mut messenger = Messenger::new(config());
    let mut connection = VirtualConnection::new(bob(), 0);
    connection.process_packet(&mut messenger, &plain_datagram(b"hi"), 1).unwrap();
    for _ in 0..4 {
        connection.process_event(&mut messenger, Packet::reliable_unordered(bob(), vec![1]), 1).unwrap();
    }
    assert!(connection.is_established());
    messenger.take_events();
    assert!(connection.should_drop(&mut messenger, 2));
    assert_eq!(
        messenger.take_events(),
        vec![SocketEvent::Timeout(bob()), SocketEvent::Disconnect(bob())]
    );
}

#[test]
fn dropped_connection_does_nothing_more() {
    let mut messenger = Messenger::new(config());
    let mut connection = VirtualConnection::new(bob(), 0);
    assert!(connection.should_drop(&mut messenger, 5000));
    messenger.take_events();
    assert_eq!(
        connection.process_event(&mut messenger, Packet::unreliable(bob(), vec![1]), 5001),
        Ok(Dispatch::Closed)
    );
    assert_eq!(connection.process_packet(&mut messenger, &plain_datagram(b"x"), 5001), Ok(()));
    assert_eq!(connection.process_packet(&mut messenger, &[], 5001), Ok(()));
    connection.update(&mut messenger, 9000);
    assert!(messenger.take_events().is_empty());
    assert!(messenger.take_packets().is_empty());
    assert!(!connection.is_established());
}

#[test]
fn empty_payload_is_refused_without_dropping() {
    let mut messenger = Messenger::new(config());
    let mut connection = VirtualConnection::new(bob(), 0);
    assert_eq!(
        connection.process_packet(&mut messenger, &[], 100),
        Err(ErrorKind::ReceivedDataTooShort)
    );
    assert_eq!(
        connection.process_packet(&mut messenger, &[1, 2, 3], 100),
        Err(ErrorKind::ReceivedDataTooShort)
    );
    let mut malformed = plain_datagram(b"x");
    malformed[0] = 9;
    assert_eq!(
        connection.process_packet(&mut messenger, &malformed, 100),
        Err(ErrorKind::MalformedHeader)
    );
    assert_eq!(connection.state(), ConnectionState::Connecting);
    assert_eq!(connection.last_heard(100), 100);
    assert!(messenger.take_events().is_empty());
    assert!(!connection.should_drop(&mut messenger, 100));
}

#[test]
fn received_packet_is_reported_with_the_peer_address() {
    let mut messenger = Messenger::new(config());
    let mut connection = VirtualConnection::new(bob(), 0);
    connection.process_packet(&mut messenger, &plain_datagram(b"hello"), 40).unwrap();
    let events = messenger.take_events();
    assert_eq!(events, vec![SocketEvent::Packet(Packet::unreliable(bob(), b"hello".to_vec()))]);
    assert_eq!(events[0].address(), bob());
    assert_eq!(connection.last_heard(40), 0);
    assert_eq!(connection.metrics_frame().received_packets, 1);
    assert_eq!(connection.metrics_frame().received_bytes, 23);
}

#[test]
fn event_addresses() {
    let packet = Packet::reliable_ordered(alice(), vec![1]);
    assert_eq!(packet.address(), alice());
    assert_eq!(packet.addr(), alice());
    assert_eq!(packet.delivery_guarantee(), DeliveryGuarantee::Reliable);
    assert_eq!(packet.order_guarantee(), OrderingGuarantee::Ordered);
    assert_eq!(SocketEvent::Packet(packet).address(), alice());
    assert_eq!(SocketEvent::Connect(bob()).address(), bob());
    assert_eq!(SocketEvent::Timeout(bob()).address(), bob());
    assert_eq!(SocketEvent::Disconnect(alice()).address(), alice());
    assert_eq!(SocketEvent::Metrics(alice(), MetricsFrame::new()).address(), alice());
}

#[test]
fn exchange_establishes_both_sides_and_acknowledges() {
    let mut to_bob = Messenger::new(roomy());
    let mut to_alice = Messenger::new(roomy());
    let mut at_alice = VirtualConnection::new(bob(), 0);
    let mut at_bob = VirtualConnection::new(alice(), 0);

    let sent = at_alice.process_event(&mut to_bob, Packet::reliable_unordered(bob(), b"ping".to_vec()), 10);
    assert_eq!(sent, Ok(Dispatch::Sent));
    assert!(to_bob.take_events().is_empty());
    assert_eq!(at_alice.packets_in_flight(), 1);
    let wire = to_bob.take_packets();
    assert_eq!(wire.len(), 1);
    assert_eq!(wire[0].address, bob());

    at_bob.process_packet(&mut to_alice, &wire[0].payload, 20).unwrap();
    assert_eq!(
        to_alice.take_events(),
        vec![SocketEvent::Packet(Packet::reliable_unordered(alice(), b"ping".to_vec()))]
    );
    assert!(!at_bob.is_established());

    at_bob.process_event(&mut to_alice, Packet::unreliable(alice(), b"pong".to_vec()), 30).unwrap();
    assert_eq!(to_alice.take_events(), vec![SocketEvent::Connect(alice())]);
    assert!(at_bob.is_established());
    let reply = to_alice.take_packets();
    let (header, body) = decode(&reply[0].payload).unwrap();
    assert_eq!(header.ack, Some(AckBitfield { latest: 0, mask: 0 }));
    assert_eq!(body, b"pong".to_vec());

    at_alice.process_packet(&mut to_bob, &reply[0].payload, 50).unwrap();
    assert_eq!(
        to_bob.take_events(),
        vec![
            SocketEvent::Connect(bob()),
            SocketEvent::Packet(Packet::unreliable(bob(), b"pong".to_vec())),
        ]
    );
    assert_eq!(at_alice.packets_in_flight(), 0);
    assert_eq!(at_alice.metrics_frame().rtt_samples, 1);
    assert_eq!(at_alice.metrics_frame().rtt_total, 40);
    assert_eq!(at_alice.state(), ConnectionState::Established);
}

#[test]
fn framed_datagram_carries_sequence_and_acknowledgment() {
    let mut connection = VirtualConnection::new(bob(), 0);
    let mut messenger = Messenger::new(roomy());
    let from_bob = Header {
        packet_type: PacketType::Packet,
        delivery: DeliveryGuarantee::Reliable,
        ordering: OrderingGuarantee::Unordered,
        sequence: 7,
        ack: None,
        item: no_item(),
    };
    connection.process_packet(&mut messenger, &encode(&from_bob, b"x"), 1).unwrap();
    for expected in 0..3u16 {
        let out = connection
            .process_outgoing(
                &roomy(),
                PacketInfo::user_packet(b"abc", DeliveryGuarantee::Reliable, OrderingGuarantee::Ordered),
                None,
                5,
            )
            .unwrap();
        assert_eq!(out.len(), 1);
        let (header, body) = decode(&out[0]).unwrap();
        assert_eq!(
            header,
            Header {
                packet_type: PacketType::Packet,
                delivery: DeliveryGuarantee::Reliable,
                ordering: OrderingGuarantee::Ordered,
                sequence: expected,
                ack: Some(AckBitfield { latest: 7, mask: 0 }),
                item: ItemIdentifier { arranging_id: expected, ..no_item() },
            }
        );
        assert_eq!(body, b"abc".to_vec());
    }
    let out = connection
        .process_outgoing(&roomy(), PacketInfo::heartbeat_packet(&[]), None, 6)
        .unwrap();
    let (header, body) = decode(&out[0]).unwrap();
    assert_eq!(header.packet_type, PacketType::Heartbeat);
    assert_eq!(header.sequence, 0);
    assert!(body.is_empty());
    assert_eq!(connection.packets_in_flight(), 3);
    assert_eq!(connection.last_sent(6), 0);
}

#[test]
fn oversized_payload_travels_as_fragments() {
    let mut to_bob = Messenger::new(config());
    let mut to_alice = Messenger::new(config());
    let mut at_alice = VirtualConnection::new(bob(), 0);
    let mut at_bob = VirtualConnection::new(alice(), 0);
    let payload: Vec<u8> = (0..10).collect();
    at_alice.process_event(&mut to_bob, Packet::reliable_unordered(bob(), payload.clone()), 1).unwrap();
    let wire = payloads(to_bob.take_packets());
    assert_eq!(wire.len(), 3);
    assert_eq!(at_alice.packets_in_flight(), 3);
    for (i, datagram) in wire.iter().enumerate() {
        let (header, _) = decode(datagram).unwrap();
        assert_eq!(header.packet_type, PacketType::Fragment);
        assert_eq!(header.sequence, i as u16);
        assert_eq!(
            header.item,
            ItemIdentifier { arranging_id: 0, group_id: 0, fragment_index: i as u8, fragment_total: 3 }
        );
    }
    at_bob.process_packet(&mut to_alice, &wire[2], 2).unwrap();
    at_bob.process_packet(&mut to_alice, &wire[0], 2).unwrap();
    assert!(to_alice.take_events().is_empty());
    at_bob.process_packet(&mut to_alice, &wire[1], 2).unwrap();
    assert_eq!(
        to_alice.take_events(),
        vec![SocketEvent::Packet(Packet::reliable_unordered(alice(), payload))]
    );
    at_alice.process_event(&mut to_bob, Packet::reliable_unordered(bob(), vec![7; 5]), 3).unwrap();
    let (header, _) = decode(&to_bob.take_packets()[0].payload).unwrap();
    assert_eq!(header.item.group_id, 1);
}

#[test]
fn payload_too_large_is_refused_and_changes_nothing() {
    let mut messenger = Messenger::new(config());
    let mut connection = VirtualConnection::new(bob(), 0);
    assert_eq!(
        connection.process_event(&mut messenger, Packet::reliable_unordered(bob(), vec![0; 1021]), 1),
        Err(ErrorKind::PayloadTooLarge)
    );
    assert_eq!(
        connection.process_event(&mut messenger, Packet::unreliable(bob(), vec![0; 1021]), 1),
        Err(ErrorKind::PayloadTooLarge)
    );
    assert!(messenger.take().is_empty());
    assert_eq!(connection.packets_in_flight(), 0);
    assert_eq!(connection.metrics_frame(), MetricsFrame::new());
    assert_eq!(connection.last_sent(1), 1);
    assert_eq!(
        connection.process_event(&mut messenger, Packet::unreliable(bob(), vec![0; 1020]), 1),
        Ok(Dispatch::Sent)
    );
    assert_eq!(messenger.take_packets().len(), 255);
    assert_eq!(connection.packets_in_flight(), 0);
    assert_eq!(
        connection.process_event(&mut messenger, Packet::reliable_unordered(bob(), vec![0; 1020]), 1),
        Ok(Dispatch::Sent)
    );
    assert_eq!(messenger.take_packets().len(), 255);
    assert_eq!(connection.packets_in_flight(), 255);
}

#[test]
fn payload_within_the_fragment_size_is_never_refused() {
    let mut messenger = Messenger::new(roomy());
    let mut connection = VirtualConnection::new(bob(), 0);
    for payload in [vec![], vec![1, 2, 3], vec![9; 1024]] {
        assert_eq!(
            connection.process_event(&mut messenger, Packet::unreliable(bob(), payload.clone()), 1),
            Ok(Dispatch::Sent)
        );
        let wire = messenger.take_packets();
        assert_eq!(wire.len(), 1);
        let (header, body) = decode(&wire[0].payload).unwrap();
        assert_eq!(header.packet_type, PacketType::Packet);
        assert_eq!(body, payload);
    }
}

#[test]
fn failed_send_does_not_establish_the_connection() {
    let tiny = Config { fragment_size: 1, ..config() };
    let mut messenger = Messenger::new(tiny);
    let mut connection = VirtualConnection::new(bob(), 0);
    connection.process_packet(&mut messenger, &ack_datagram(0, 0), 1).unwrap();
    assert!(messenger.take().is_empty());
    assert_eq!(
        connection.process_event(&mut messenger, Packet::reliable_unordered(bob(), vec![0; 256]), 2),
        Err(ErrorKind::PayloadTooLarge)
    );
    assert!(!connection.is_established());
    assert_eq!(connection.state(), ConnectionState::Connecting);
    assert_eq!(connection.packets_in_flight(), 0);
    assert!(messenger.take().is_empty());
    assert_eq!(
        connection.process_event(&mut messenger, Packet::reliable_unordered(bob(), vec![5]), 3),
        Ok(Dispatch::Sent)
    );
    assert!(connection.is_established());
    let handed = messenger.take();
    assert_eq!(handed.len(), 2);
    assert_eq!(handed[0], Emitted::Event(SocketEvent::Connect(bob())));
    assert!(matches!(&handed[1], Emitted::Datagram(d) if d.address == bob()));
}

#[test]
fn oversized_unreliable_payload_travels_as_unregistered_fragments() {
    let mut to_bob = Messenger::new(config());
    let mut to_alice = Messenger::new(config());
    let mut at_alice = VirtualConnection::new(bob(), 0);
    let mut at_bob = VirtualConnection::new(alice(), 0);
    at_alice.process_event(&mut to_bob, Packet::unreliable(bob(), vec![1, 2, 3, 4, 5]), 1).unwrap();
    let wire = payloads(to_bob.take_packets());
    assert_eq!(wire.len(), 2);
    assert_eq!(at_alice.packets_in_flight(), 0);
    let bodies: Vec<Vec<u8>> = wire
        .iter()
        .enumerate()
        .map(|(i, datagram)| {
            let (header, body) = decode(datagram).unwrap();
            assert_eq!(header.packet_type, PacketType::Fragment);
            assert_eq!(header.delivery, DeliveryGuarantee::Unreliable);
            assert_eq!(header.sequence, 0);
            assert_eq!(
                header.item,
                ItemIdentifier { arranging_id: 0, group_id: 0, fragment_index: i as u8, fragment_total: 2 }
            );
            body
        })
        .collect();
    assert_eq!(bodies, vec![vec![1, 2, 3, 4], vec![5]]);
    at_bob.process_packet(&mut to_alice, &wire[1], 2).unwrap();
    assert!(to_alice.take_events().is_empty());
    at_bob.process_packet(&mut to_alice, &wire[0], 2).unwrap();
    assert_eq!(
        to_alice.take_events(),
        vec![SocketEvent::Packet(Packet::unreliable(alice(), vec![1, 2, 3, 4, 5]))]
    );
}

#[test]
fn tick_hands_over_resends_then_heartbeat_then_metrics() {
    let eager = Config { heartbeat_interval: Some(0), ..roomy() };
    let mut messenger = Messenger::new(eager);
    let mut connection = VirtualConnection::new(bob(), 0);
    connection.process_packet(&mut messenger, &plain_datagram(b"x"), 0).unwrap();
    connection.process_event(&mut messenger, Packet::reliable_unordered(bob(), b"lost".to_vec()), 0).unwrap();
    assert_eq!(messenger.take().len(), 3);
    let failures = connection.update(&mut messenger, 1000);
    assert!(failures.is_empty());
    let handed = messenger.take();
    assert_eq!(handed.len(), 3);
    match &handed[0] {
        Emitted::Datagram(d) => {
            let (header, body) = decode(&d.payload).unwrap();
            assert_eq!(header.packet_type, PacketType::Packet);
            assert_eq!(header.sequence, 1);
            assert_eq!(body, b"lost".to_vec());
        }
        other => panic!("expected the resent datagram, got {:?}", other),
    }
    match &handed[1] {
        Emitted::Datagram(d) => {
            let (header, _) = decode(&d.payload).unwrap();
            assert_eq!(header.packet_type, PacketType::Heartbeat);
        }
        other => panic!("expected the heartbeat, got {:?}", other),
    }
    match &handed[2] {
        Emitted::Event(SocketEvent::Metrics(address, frame)) => {
            assert_eq!(*address, bob());
            assert_eq!(frame.sent_packets, 3);
            assert_eq!(frame.lost_packets, 1);
        }
        other => panic!("expected the metrics, got {:?}", other),
    }
}

#[test]
fn connect_is_handed_over_before_the_datagrams() {
    let mut messenger = Messenger::new(config());
    let mut connection = VirtualConnection::new(bob(), 0);
    connection.process_packet(&mut messenger, &ack_datagram(0, 0), 1).unwrap();
    connection.process_event(&mut messenger, Packet::unreliable(bob(), vec![1, 2, 3, 4, 5]), 2).unwrap();
    let handed = messenger.take();
    assert_eq!(handed.len(), 3);
    assert_eq!(handed[0], Emitted::Event(SocketEvent::Connect(bob())));
    assert!(matches!(handed[1], Emitted::Datagram(_)));
    assert!(matches!(handed[2], Emitted::Datagram(_)));
}

#[test]
fn tick_reports_a_record_that_cannot_be_framed_again() {
    let mut messenger = Messenger::new(roomy());
    let mut connection = VirtualConnection::new(bob(), 0);
    connection.process_event(&mut messenger, Packet::reliable_unordered(bob(), vec![0; 1021]), 0).unwrap();
    connection.process_event(&mut messenger, Packet::reliable_unordered(bob(), vec![7]), 0).unwrap();
    assert_eq!(messenger.take_packets().len(), 2);
    let mut narrow = Messenger::new(config());
    let failures = connection.update(&mut narrow, 501);
    assert_eq!(failures, vec![ErrorKind::PayloadTooLarge]);
    let resent = payloads(narrow.take_packets());
    assert_eq!(resent.len(), 1);
    assert_eq!(decode(&resent[0]).unwrap().1, vec![7]);
    assert_eq!(connection.packets_in_flight(), 1);
}

#[test]
fn taking_one_kind_leaves_the_other_in_order() {
    let mut messenger = Messenger::new(config());
    messenger.send_packet(&bob(), &[1]);
    messenger.send_event(&bob(), SocketEvent::Connect(bob()));
    messenger.send_packet(&alice(), &[2]);
    messenger.send_event(&bob(), SocketEvent::Timeout(bob()));
    assert_eq!(
        messenger.take_events(),
        vec![SocketEvent::Connect(bob()), SocketEvent::Timeout(bob())]
    );
    assert_eq!(
        messenger.take(),
        vec![
            Emitted::Datagram(Datagram { address: bob(), payload: vec![1] }),
            Emitted::Datagram(Datagram { address: alice(), payload: vec![2] }),
        ]
    );
    messenger.send_event(&bob(), SocketEvent::Connect(bob()));
    messenger.send_packet(&bob(), &[3]);
    assert_eq!(messenger.take_packets(), vec![Datagram { address: bob(), payload: vec![3] }]);
    assert_eq!(messenger.take(), vec![Emitted::Event(SocketEvent::Connect(bob()))]);
    assert!(messenger.take().is_empty());
}

#[test]
fn conflicting_fragment_is_refused_without_dropping() {
    let mut messenger = Messenger::new(config());
    let mut connection = VirtualConnection::new(bob(), 0);
    let fragment = |sequence: u16, index: u8, total: u8| {
        encode(
            &Header {
                packet_type: PacketType::Fragment,
                delivery: DeliveryGuarantee::Reliable,
                ordering: OrderingGuarantee::Unordered,
                sequence,
                ack: None,
                item: ItemIdentifier { arranging_id: 0, group_id: 3, fragment_index: index, fragment_total: total },
            },
            &[index],
        )
    };
    assert_eq!(connection.process_packet(&mut messenger, &fragment(0, 0, 2), 1), Ok(()));
    assert_eq!(
        connection.process_packet(&mut messenger, &fragment(1, 1, 3), 1),
        Err(ErrorKind::FragmentGroupMismatch)
    );
    assert!(messenger.take_events().is_empty());
    assert_eq!(connection.process_packet(&mut messenger, &fragment(2, 1, 2), 1), Ok(()));
    assert_eq!(received_payloads(&messenger.take_events()), vec![vec![0, 1]]);
    assert!(!connection.should_drop(&mut messenger, 2));
}

#[test]
fn duplicate_reliable_datagram_is_delivered_once() {
    let mut to_bob = Messenger::new(roomy());
    let mut to_alice = Messenger::new(roomy());
    let mut at_alice = VirtualConnection::new(bob(), 0);
    let mut at_bob = VirtualConnection::new(alice(), 0);
    at_alice.process_event(&mut to_bob, Packet::reliable_unordered(bob(), vec![1]), 1).unwrap();
    let wire = payloads(to_bob.take_packets());
    at_bob.process_packet(&mut to_alice, &wire[0], 2).unwrap();
    at_bob.process_packet(&mut to_alice, &wire[0], 3).unwrap();
    assert_eq!(received_payloads(&to_alice.take_events()), vec![vec![1]]);
}

#[test]
fn sequenced_messages_arrive_newest_only() {
    let mut to_bob = Messenger::new(roomy());
    let mut to_alice = Messenger::new(roomy());
    let mut at_alice = VirtualConnection::new(bob(), 0);
    let mut at_bob = VirtualConnection::new(alice(), 0);
    for i in 0..3u8 {
        at_alice.process_event(&mut to_bob, Packet::unreliable_sequenced(bob(), vec![i]), 1).unwrap();
    }
    let wire = payloads(to_bob.take_packets());
    at_bob.process_packet(&mut to_alice, &wire[1], 2).unwrap();
    at_bob.process_packet(&mut to_alice, &wire[0], 2).unwrap();
    at_bob.process_packet(&mut to_alice, &wire[2], 2).unwrap();
    assert_eq!(received_payloads(&to_alice.take_events()), vec![vec![1], vec![2]]);
}

#[test]
fn ordered_messages_arrive_in_sending_order() {
    let mut to_bob = Messenger::new(roomy());
    let mut to_alice = Messenger::new(roomy());
    let mut at_alice = VirtualConnection::new(bob(), 0);
    let mut at_bob = VirtualConnection::new(alice(), 0);
    for i in 0..3u8 {
        at_alice.process_event(&mut to_bob, Packet::reliable_ordered(bob(), vec![i]), 1).unwrap();
    }
    let wire = payloads(to_bob.take_packets());
    at_bob.process_packet(&mut to_alice, &wire[2], 2).unwrap();
    assert!(to_alice.take_events().is_empty());
    at_bob.process_packet(&mut to_alice, &wire[0], 2).unwrap();
    assert_eq!(received_payloads(&to_alice.take_events()), vec![vec![0]]);
    at_bob.process_packet(&mut to_alice, &wire[1], 2).unwrap();
    assert_eq!(received_payloads(&to_alice.take_events()), vec![vec![1], vec![2]]);
}

#[test]
fn lost_packet_is_resent_on_the_tick_and_then_acknowledged() {
    let mut messenger = Messenger::new(roomy());
    let mut connection = VirtualConnection::new(bob(), 0);
    for i in 0..5u8 {
        connection.process_event(&mut messenger, Packet::reliable_unordered(bob(), vec![i]), 0).unwrap();
    }
    connection.process_packet(&mut messenger, &ack_datagram(4, 0b1111), 100).unwrap();
    assert_eq!(connection.packets_in_flight(), 0);
    connection.process_event(&mut messenger, Packet::reliable_ordered(bob(), b"five".to_vec()), 1000).unwrap();
    let first = payloads(messenger.take_packets()).pop().unwrap();
    let (sent, _) = decode(&first).unwrap();
    assert_eq!(sent.sequence, 5);

    connection.update(&mut messenger, 1200);
    assert!(messenger.take_packets().is_empty());
    connection.update(&mut messenger, 1201);
    let resent = payloads(messenger.take_packets());
    assert_eq!(resent.len(), 1);
    let (header, body) = decode(&resent[0]).unwrap();
    assert_eq!(header.sequence, 6);
    assert_eq!(header.delivery, DeliveryGuarantee::Reliable);
    assert_eq!(header.ordering, OrderingGuarantee::Ordered);
    assert_eq!(header.item, sent.item);
    assert_eq!(body, b"five".to_vec());
    assert_eq!(connection.packets_in_flight(), 1);

    connection.update(&mut messenger, 1202);
    assert!(messenger.take_packets().is_empty());
    connection.process_packet(&mut messenger, &ack_datagram(6, 0), 1250).unwrap();
    assert_eq!(connection.packets_in_flight(), 0);
}

#[test]
fn resent_ordered_message_is_delivered_once() {
    let mut to_bob = Messenger::new(roomy());
    let mut to_alice = Messenger::new(roomy());
    let mut at_alice = VirtualConnection::new(bob(), 0);
    let mut at_bob = VirtualConnection::new(alice(), 0);
    at_alice.process_event(&mut to_bob, Packet::reliable_ordered(bob(), vec![1]), 0).unwrap();
    at_alice.update(&mut to_bob, 501);
    let wire = payloads(to_bob.take_packets());
    assert_eq!(wire.len(), 2);
    at_bob.process_packet(&mut to_alice, &wire[0], 600).unwrap();
    at_bob.process_packet(&mut to_alice, &wire[1], 601).unwrap();
    assert_eq!(received_payloads(&to_alice.take_events()), vec![vec![1]]);
}

#[test]
fn tick_counts_losses_and_narrows_the_window() {
    let mut messenger = Messenger::new(roomy());
    let mut connection = VirtualConnection::new(bob(), 0);
    for _ in 0..3 {
        connection.process_event(&mut messenger, Packet::reliable_unordered(bob(), vec![1]), 0).unwrap();
    }
    messenger.take_packets();
    let lost = connection.gather_dropped_packets(&roomy(), 501);
    assert_eq!(lost.len(), 3);
    assert_eq!(connection.packets_in_flight(), 0);
    assert_eq!(connection.metrics_frame().lost_packets, 3);
    for _ in 0..8 {
        connection.process_event(&mut messenger, Packet::reliable_unordered(bob(), vec![1]), 502).unwrap();
    }
    assert_eq!(
        connection.process_event(&mut messenger, Packet::reliable_unordered(bob(), vec![1]), 502),
        Ok(Dispatch::Paused)
    );
}

#[test]
fn full_window_pauses_sending() {
    let mut messenger = Messenger::new(roomy());
    let mut connection = VirtualConnection::new(bob(), 0);
    for _ in 0..16 {
        assert_eq!(
            connection.process_event(&mut messenger, Packet::reliable_unordered(bob(), vec![1]), 1),
            Ok(Dispatch::Sent)
        );
    }
    assert_eq!(messenger.take_packets().len(), 16);
    assert_eq!(
        connection.process_event(&mut messenger, Packet::unreliable(bob(), vec![1]), 1),
        Ok(Dispatch::Paused)
    );
    assert!(messenger.take_packets().is_empty());
    assert_eq!(connection.packets_in_flight(), 16);
    connection.process_packet(&mut messenger, &ack_datagram(0, 0), 2).unwrap();
    assert_eq!(
        connection.process_event(&mut messenger, Packet::unreliable(bob(), vec![1]), 3),
        Ok(Dispatch::Sent)
    );
}

#[test]
fn heartbeat_is_sent_when_established_and_silent() {
    let with_heartbeat = Config { heartbeat_interval: Some(1000), ..roomy() };
    let mut messenger = Messenger::new(with_heartbeat);
    let mut connection = VirtualConnection::new(bob(), 0);
    connection.update(&mut messenger, 2000);
    assert!(messenger.take_packets().is_empty());
    connection.process_packet(&mut messenger, &plain_datagram(b"x"), 2000).unwrap();
    connection.process_event(&mut messenger, Packet::unreliable(bob(), vec![1]), 2000).unwrap();
    messenger.take_packets();
    connection.update(&mut messenger, 2999);
    assert!(messenger.take_packets().is_empty());
    connection.update(&mut messenger, 3000);
    let wire = messenger.take_packets();
    assert_eq!(wire.len(), 1);
    assert_eq!(wire[0].address, bob());
    let (header, body) = decode(&wire[0].payload).unwrap();
    assert_eq!(header.packet_type, PacketType::Heartbeat);
    assert_eq!(header.delivery, DeliveryGuarantee::Unreliable);
    assert!(body.is_empty());
    connection.update(&mut messenger, 3001);
    assert!(messenger.take_packets().is_empty());
}

#[test]
fn heartbeat_keeps_the_peer_from_idling_out() {
    let mut messenger = Messenger::new(roomy());
    let mut connection = VirtualConnection::new(bob(), 0);
    connection.process_packet(&mut messenger, &ack_datagram(9, 0), 4000).unwrap();
    assert!(messenger.take_events().is_empty());
    assert!(!connection.should_drop(&mut messenger, 8999));
    assert!(connection.should_drop(&mut messenger, 9000));
}

#[test]
fn metrics_are_reported_once_a_second() {
    let mut messenger = Messenger::new(roomy());
    let mut connection = VirtualConnection::new(bob(), 0);
    connection.process_event(&mut messenger, Packet::unreliable(bob(), vec![0; 5]), 10).unwrap();
    connection.update(&mut messenger, 999);
    assert!(messenger.take_events().is_empty());
    connection.update(&mut messenger, 1000);
    let counted = MetricsFrame { sent_packets: 1, sent_bytes: 23, ..MetricsFrame::new() };
    assert_eq!(messenger.take_events(), vec![SocketEvent::Metrics(bob(), counted)]);
    assert_eq!(connection.metrics_frame(), MetricsFrame::new());
    connection.update(&mut messenger, 1999);
    assert!(messenger.take_events().is_empty());
    connection.update(&mut messenger, 2000);
    assert_eq!(messenger.take_events(), vec![SocketEvent::Metrics(bob(), MetricsFrame::new())]);
}

#[test]
fn send_packets_queues_in_order_and_passes_failures_on() {
    let mut messenger = Messenger::new(config());
    assert_eq!(send_packets(&mut messenger, &bob(), Ok(vec![vec![1], vec![2, 3]])), Ok(()));
    assert_eq!(
        send_packets(&mut messenger, &alice(), Err(ErrorKind::PayloadTooLarge)),
        Err(ErrorKind::PayloadTooLarge)
    );
    assert_eq!(
        messenger.take_packets(),
        vec![
            Datagram { address: bob(), payload: vec![1] },
            Datagram { address: bob(), payload: vec![2, 3] },
        ]
    );
    assert_eq!(messenger.config(), config());
}

#[test]
fn interleaved_groups_are_reassembled_apart() {
    let mut to_bob = Messenger::new(config());
    let mut to_alice = Messenger::new(config());
    let mut at_alice = VirtualConnection::new(bob(), 0);
    let mut at_bob = VirtualConnection::new(alice(), 0);
    let first: Vec<u8> = (0..10).collect();
    let second: Vec<u8> = (100..109).collect();
    at_alice.process_event(&mut to_bob, Packet::reliable_unordered(bob(), first.clone()), 1).unwrap();
    at_alice.process_event(&mut to_bob, Packet::unreliable(bob(), second.clone()), 1).unwrap();
    let wire = payloads(to_bob.take_packets());
    assert_eq!(wire.len(), 6);
    for &i in [5usize, 0, 3, 2].iter() {
        at_bob.process_packet(&mut to_alice, &wire[i], 2).unwrap();
        assert!(to_alice.take_events().is_empty());
    }
    assert_eq!(at_bob.process_packet(&mut to_alice, &[1, 2, 3], 2), Err(ErrorKind::ReceivedDataTooShort));
    at_bob.process_packet(&mut to_alice, &wire[1], 2).unwrap();
    assert_eq!(
        to_alice.take_events(),
        vec![SocketEvent::Packet(Packet::reliable_unordered(alice(), first))]
    );
    at_bob.process_packet(&mut to_alice, &wire[4], 2).unwrap();
    assert_eq!(
        to_alice.take_events(),
        vec![SocketEvent::Packet(Packet::unreliable(alice(), second))]
    );
}
