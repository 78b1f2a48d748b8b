use reliable_link::arranging::ArrangingSystem;
use reliable_link::packet::{Address, Packet};

fn peer() -> Address {
    Address::V4 { ip: 1, port: 9000 }
}

fn payloads(packets: &[Packet]) -> Vec<Vec<u8>> {
    packets.iter().map(|p| p.payload().to_vec()).collect()
}

#[test]
fn unordered_messages_pass_as_they_come() {
    let mut system = ArrangingSystem::new();
    let due = system.arrange(9, Packet::reliable_unordered(peer(), vec![1]));
    assert_eq!(payloads(&due), vec![vec![1]]);
    let due = system.arrange(3, Packet::unreliable(peer(), vec![2]));
    assert_eq!(payloads(&due), vec![vec![2]]);
}

#[test]
fn sequenced_messages_pass_only_while_newer() {
    let mut system = ArrangingSystem::new();
    assert_eq!(system.arrange(5, Packet::unreliable_sequenced(peer(), vec![5])).len(), 1);
    assert_eq!(system.arrange(3, Packet::unreliable_sequenced(peer(), vec![3])).len(), 0);
    assert_eq!(system.arrange(5, Packet::unreliable_sequenced(peer(), vec![5])).len(), 0);
    assert_eq!(system.arrange(6, Packet::reliable_sequenced(peer(), vec![6])).len(), 1);
}

#[test]
fn sequenced_order_survives_the_wrap() {
    let mut system = ArrangingSystem::new();
    assert_eq!(system.arrange(65535, Packet::unreliable_sequenced(peer(), vec![])).len(), 1);
    assert_eq!(system.arrange(0, Packet::unreliable_sequenced(peer(), vec![])).len(), 1);
    assert_eq!(system.arrange(65535, Packet::unreliable_sequenced(peer(), vec![])).len(), 0);
}

#[test]
fn ordered_messages_wait_for_their_turn() {
    let mut system = ArrangingSystem::new();
    assert!(system.arrange(2, Packet::reliable_ordered(peer(), vec![2])).is_empty());
    assert!(system.arrange(1, Packet::reliable_ordered(peer(), vec![1])).is_empty());
    assert!(system.arrange(4, Packet::reliable_ordered(peer(), vec![4])).is_empty());
    assert_eq!(system.buffered_count(), 3);
    let due = system.arrange(0, Packet::reliable_ordered(peer(), vec![0]));
    assert_eq!(payloads(&due), vec![vec![0], vec![1], vec![2]]);
    assert_eq!(system.buffered_count(), 1);
    let due = system.arrange(3, Packet::reliable_ordered(peer(), vec![3]));
    assert_eq!(payloads(&due), vec![vec![3], vec![4]]);
    assert_eq!(system.buffered_count(), 0);
}

#[test]
fn ordered_duplicates_are_discarded() {
    let mut system = ArrangingSystem::new();
    assert_eq!(system.arrange(0, Packet::reliable_ordered(peer(), vec![0])).len(), 1);
    assert!(system.arrange(0, Packet::reliable_ordered(peer(), vec![0])).is_empty());
    assert!(system.arrange(2, Packet::reliable_ordered(peer(), vec![2])).is_empty());
    assert!(system.arrange(2, Packet::reliable_ordered(peer(), vec![9])).is_empty());
    assert_eq!(system.buffered_count(), 1);
    let due = system.arrange(1, Packet::reliable_ordered(peer(), vec![1]));
    assert_eq!(payloads(&due), vec![vec![1], vec![2]]);
}
