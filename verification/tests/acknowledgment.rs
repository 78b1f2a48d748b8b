use reliable_link::acknowledgment::{
    AckBitfield, AcknowledgmentHandler, ItemIdentifier, Selection, SentPacket,
};
use reliable_link::packet::{DeliveryGuarantee, OrderingGuarantee, PacketType};
use reliable_link::sequence::{distance, sequence_greater_than, sequence_less_than};

fn register(handler: &mut AcknowledgmentHandler, payload: &[u8], time: u64) -> u16 {
    handler.register_outgoing(
        PacketType::Packet,
        payload,
        DeliveryGuarantee::Reliable,
        OrderingGuarantee::Unordered,
        None,
        time,
    )
}

fn sequences(records: &[SentPacket]) -> Vec<u16> {
    records.iter().map(|r| r.sequence).collect()
}

#[test]
fn sequence_order_wraps_around() {
    assert!(sequence_greater_than(1, 0));
    assert!(!sequence_greater_than(0, 1));
    assert!(sequence_greater_than(0, 65535));
    assert!(sequence_less_than(65535, 0));
    assert!(!sequence_greater_than(7, 7));
    assert!(sequence_greater_than(32767, 0));
    assert!(!sequence_greater_than(32768, 0));
    assert!(!sequence_greater_than(0, 32768));
}

#[test]
fn distance_is_modular() {
    assert_eq!(distance(0, 5), 5);
    assert_eq!(distance(65535, 0), 1);
    assert_eq!(distance(0, 65535), 65535);
    assert_eq!(distance(9, 9), 0);
}

#[test]
fn registering_assigns_consecutive_sequence_numbers() {
    let mut handler = AcknowledgmentHandler::new();
    assert_eq!(handler.local_sequence_num(), 0);
    assert_eq!(register(&mut handler, b"a", 10), 0);
    assert_eq!(register(&mut handler, b"b", 11), 1);
    assert_eq!(register(&mut handler, b"c", 12), 2);
    assert_eq!(handler.local_sequence_num(), 3);
    assert_eq!(handler.pending_count(), 3);
}

#[test]
fn registered_record_keeps_what_was_sent() {
    let mut handler = AcknowledgmentHandler::new();
    let item = ItemIdentifier { arranging_id: 4, group_id: 9, fragment_index: 1, fragment_total: 3 };
    let sequence = handler.register_outgoing(
        PacketType::Fragment,
        &[1, 2, 3],
        DeliveryGuarantee::Reliable,
        OrderingGuarantee::Ordered,
        Some(item),
        77,
    );
    let taken = handler.extract(&Selection::Numbered(sequence));
    assert_eq!(
        taken,
        vec![SentPacket {
            sequence: 0,
            packet_type: PacketType::Fragment,
            payload: vec![1, 2, 3],
            sent_at: 77,
            delivery: DeliveryGuarantee::Reliable,
            ordering_guarantee: OrderingGuarantee::Ordered,
            item_identifier: Some(item),
        }]
    );
    assert_eq!(handler.pending_count(), 0);
}

#[test]
fn bitfield_covers_latest_and_marked_predecessors() {
    let ack = AckBitfield { latest: 4, mask: 0b0101 };
    assert!(ack.covers(4));
    assert!(ack.covers(3));
    assert!(!ack.covers(2));
    assert!(ack.covers(1));
    assert!(!ack.covers(0));
    assert!(!ack.covers(5));
}

#[test]
fn bitfield_reaches_back_thirty_two_numbers_across_the_wrap() {
    let ack = AckBitfield { latest: 3, mask: 0x8000_0008 };
    assert!(ack.covers(3));
    assert!(ack.covers(65535));
    assert!(ack.covers(65507));
    assert!(!ack.covers(65506));
    assert!(!ack.covers(0));
}

#[test]
fn acknowledged_records_are_removed_exactly_once() {
    let mut handler = AcknowledgmentHandler::new();
    for i in 0..5u8 {
        register(&mut handler, &[i], 100);
    }
    let ack = AckBitfield { latest: 4, mask: 0b0101 };
    let delivered = handler.process_incoming(ack);
    assert_eq!(sequences(&delivered), vec![1, 3, 4]);
    assert_eq!(handler.pending_count(), 2);
    let again = handler.process_incoming(ack);
    assert!(again.is_empty());
    assert_eq!(handler.pending_count(), 2);
    let rest = handler.process_incoming(AckBitfield { latest: 2, mask: 0b10 });
    assert_eq!(sequences(&rest), vec![0, 2]);
    assert_eq!(handler.pending_count(), 0);
}

#[test]
fn unknown_acknowledgment_is_ignored() {
    let mut handler = AcknowledgmentHandler::new();
    register(&mut handler, b"x", 1);
    let delivered = handler.process_incoming(AckBitfield { latest: 500, mask: 0xffff_ffff });
    assert!(delivered.is_empty());
    assert_eq!(handler.pending_count(), 1);
}

#[test]
fn gather_dropped_takes_only_records_older_than_threshold() {
    let mut handler = AcknowledgmentHandler::new();
    register(&mut handler, b"old", 100);
    register(&mut handler, b"edge", 500);
    register(&mut handler, b"new", 900);
    let dropped = handler.gather_dropped(1000, 500);
    assert_eq!(sequences(&dropped), vec![0]);
    assert_eq!(dropped[0].payload, b"old".to_vec());
    assert_eq!(handler.pending_count(), 2);
    assert!(handler.gather_dropped(1000, 500).is_empty());
    let later = handler.gather_dropped(1001, 500);
    assert_eq!(sequences(&later), vec![1]);
}

#[test]
fn gather_dropped_tolerates_a_clock_behind_the_send_time() {
    let mut handler = AcknowledgmentHandler::new();
    register(&mut handler, b"x", 1000);
    assert!(handler.gather_dropped(10, 0).is_empty());
    assert_eq!(handler.pending_count(), 1);
}

#[test]
fn lost_packet_is_gathered_once_resent_and_acknowledged() {
    let mut handler = AcknowledgmentHandler::new();
    for i in 0..5u8 {
        register(&mut handler, &[i], 0);
    }
    handler.process_incoming(AckBitfield { latest: 4, mask: 0b1111 });
    assert_eq!(handler.pending_count(), 0);
    assert_eq!(register(&mut handler, b"five", 10), 5);
    let dropped = handler.gather_dropped(1000, 500);
    assert_eq!(sequences(&dropped), vec![5]);
    assert!(handler.gather_dropped(1000, 500).is_empty());
    let resent = handler.register_outgoing(
        dropped[0].packet_type,
        &dropped[0].payload,
        dropped[0].delivery,
        dropped[0].ordering_guarantee,
        dropped[0].item_identifier,
        1000,
    );
    assert_eq!(resent, 6);
    assert_eq!(handler.pending_count(), 1);
    let delivered = handler.process_incoming(AckBitfield { latest: 6, mask: 0 });
    assert_eq!(sequences(&delivered), vec![6]);
    assert_eq!(handler.pending_count(), 0);
}

#[test]
fn nothing_is_acknowledged_before_anything_was_received() {
    let handler = AcknowledgmentHandler::new();
    assert_eq!(handler.ack_bitfield(), None);
    assert!(!handler.has_received(0));
}

#[test]
fn receive_window_marks_predecessors() {
    let mut handler = AcknowledgmentHandler::new();
    handler.note_received(10);
    assert_eq!(handler.ack_bitfield(), Some(AckBitfield { latest: 10, mask: 0 }));
    handler.note_received(9);
    assert_eq!(handler.ack_bitfield(), Some(AckBitfield { latest: 10, mask: 1 }));
    handler.note_received(12);
    assert_eq!(handler.ack_bitfield(), Some(AckBitfield { latest: 12, mask: 0b110 }));
    assert!(handler.has_received(12));
    assert!(!handler.has_received(11));
    assert!(handler.has_received(10));
    assert!(handler.has_received(9));
    handler.note_received(12);
    assert_eq!(handler.ack_bitfield(), Some(AckBitfield { latest: 12, mask: 0b110 }));
}

#[test]
fn receive_window_wraps_and_forgets_what_is_out_of_reach() {
    let mut handler = AcknowledgmentHandler::new();
    handler.note_received(65535);
    handler.note_received(0);
    assert_eq!(handler.ack_bitfield(), Some(AckBitfield { latest: 0, mask: 1 }));
    handler.note_received(32);
    assert_eq!(handler.ack_bitfield(), Some(AckBitfield { latest: 32, mask: 0x8000_0000 }));
    handler.note_received(100);
    assert_eq!(handler.ack_bitfield(), Some(AckBitfield { latest: 100, mask: 0 }));
    handler.note_received(60);
    assert_eq!(handler.ack_bitfield(), Some(AckBitfield { latest: 100, mask: 0 }));
    handler.note_received(68);
    assert_eq!(handler.ack_bitfield(), Some(AckBitfield { latest: 100, mask: 0x8000_0000 }));
}

#[test]
fn reused_sequence_number_displaces_the_stale_record() {
    let mut handler = AcknowledgmentHandler::new();
    for _ in 0..65536u32 {
        register(&mut handler, b"", 0);
        handler.extract(&Selection::Expired { now: 1, threshold: 0 });
    }
    assert_eq!(handler.local_sequence_num(), 0);
    register(&mut handler, b"first", 5);
    for _ in 0..65535u32 {
        let s = register(&mut handler, b"", 5);
        handler.extract(&Selection::Numbered(s));
    }
    assert_eq!(handler.pending_count(), 1);
    assert_eq!(register(&mut handler, b"second", 6), 0);
    assert_eq!(handler.pending_count(), 1);
    let left = handler.extract(&Selection::Numbered(0));
    assert_eq!(left[0].payload, b"second".to_vec());
}
