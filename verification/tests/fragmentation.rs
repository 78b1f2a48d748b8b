use reliable_link::error::ErrorKind;
use reliable_link::fragmenter::{Fragment, Fragmentation};

fn bytes(n: usize) -> Vec<u8> {
    (0..n).map(|i| (i % 251) as u8).collect()
}

fn fragment(group_id: u16, index: u8, total: u8, payload: &[u8]) -> Fragment {
    Fragment { group_id, index, total, payload: payload.to_vec() }
}

#[test]
fn split_cuts_payload_in_order() {
    let payload: Vec<u8> = (0..10).collect();
    let fragments = Fragmentation::split(&payload, 4, 7).unwrap();
    assert_eq!(
        fragments,
        vec![
            fragment(7, 0, 3, &[0, 1, 2, 3]),
            fragment(7, 1, 3, &[4, 5, 6, 7]),
            fragment(7, 2, 3, &[8, 9]),
        ]
    );
}

#[test]
fn split_of_exact_multiple_has_no_empty_tail() {
    let payload: Vec<u8> = (0..8).collect();
    let fragments = Fragmentation::split(&payload, 4, 1).unwrap();
    assert_eq!(fragments.len(), 2);
    assert_eq!(fragments[1], fragment(1, 1, 2, &[4, 5, 6, 7]));
}

#[test]
fn split_of_empty_payload_is_one_empty_fragment() {
    assert_eq!(Fragmentation::split(&[], 4, 3).unwrap(), vec![fragment(3, 0, 1, &[])]);
    assert_eq!(Fragmentation::split(&[], 0, 3).unwrap(), vec![fragment(3, 0, 1, &[])]);
}

#[test]
fn split_fails_beyond_the_fragment_count() {
    assert_eq!(Fragmentation::split(&bytes(1021), 4, 0), Err(ErrorKind::PayloadTooLarge));
    assert_eq!(Fragmentation::split(&bytes(1), 0, 0), Err(ErrorKind::PayloadTooLarge));
    let most = Fragmentation::split(&bytes(1020), 4, 0).unwrap();
    assert_eq!(most.len(), 255);
    assert_eq!(most[254].index, 254);
    assert_eq!(most[254].total, 255);
}

#[test]
fn fragments_reassemble_in_any_order() {
    let payload = bytes(1000);
    let orders: [[usize; 4]; 4] = [[0, 1, 2, 3], [3, 2, 1, 0], [2, 0, 3, 1], [1, 3, 0, 2]];
    for order in orders.iter() {
        let fragments = Fragmentation::split(&payload, 300, 42).unwrap();
        assert_eq!(fragments.len(), 4);
        let mut engine = Fragmentation::new();
        for (k, &i) in order.iter().enumerate() {
            let outcome = engine.accept(fragments[i].clone()).unwrap();
            if k < 3 {
                assert_eq!(outcome, None);
                assert_eq!(engine.partial_groups(), 1);
            } else {
                assert_eq!(outcome, Some(payload.clone()));
                assert_eq!(engine.partial_groups(), 0);
            }
        }
    }
}

#[test]
fn single_fragment_completes_at_once() {
    let mut engine = Fragmentation::new();
    assert_eq!(engine.accept(fragment(5, 0, 1, b"whole")), Ok(Some(b"whole".to_vec())));
    assert_eq!(engine.partial_groups(), 0);
}

#[test]
fn group_with_missing_index_never_completes() {
    let payload = bytes(90);
    let fragments = Fragmentation::split(&payload, 30, 8).unwrap();
    let mut engine = Fragmentation::new();
    for _ in 0..20 {
        assert_eq!(engine.accept(fragments[0].clone()), Ok(None));
        assert_eq!(engine.accept(fragments[2].clone()), Ok(None));
    }
    assert_eq!(engine.partial_groups(), 1);
    assert_eq!(engine.accept(fragments[1].clone()), Ok(Some(payload)));
}

#[test]
fn duplicate_index_overwrites() {
    let mut engine = Fragmentation::new();
    assert_eq!(engine.accept(fragment(1, 0, 2, b"old")), Ok(None));
    assert_eq!(engine.accept(fragment(1, 0, 2, b"new")), Ok(None));
    assert_eq!(engine.accept(fragment(1, 1, 2, b"!")), Ok(Some(b"new!".to_vec())));
}

#[test]
fn groups_are_kept_apart() {
    let mut engine = Fragmentation::new();
    assert_eq!(engine.accept(fragment(1, 0, 2, b"a")), Ok(None));
    assert_eq!(engine.accept(fragment(2, 1, 2, b"d")), Ok(None));
    assert_eq!(engine.partial_groups(), 2);
    assert_eq!(engine.accept(fragment(2, 0, 2, b"c")), Ok(Some(b"cd".to_vec())));
    assert_eq!(engine.accept(fragment(1, 1, 2, b"b")), Ok(Some(b"ab".to_vec())));
}

#[test]
fn conflicting_count_is_a_mismatch_and_changes_nothing() {
    let mut engine = Fragmentation::new();
    assert_eq!(engine.accept(fragment(1, 0, 3, b"a")), Ok(None));
    assert_eq!(engine.accept(fragment(1, 1, 4, b"b")), Err(ErrorKind::FragmentGroupMismatch));
    assert_eq!(engine.partial_groups(), 1);
    assert_eq!(engine.accept(fragment(1, 1, 3, b"b")), Ok(None));
    assert_eq!(engine.accept(fragment(1, 2, 3, b"c")), Ok(Some(b"abc".to_vec())));
}

#[test]
fn index_beyond_count_is_a_mismatch() {
    let mut engine = Fragmentation::new();
    assert_eq!(engine.accept(fragment(1, 3, 3, b"a")), Err(ErrorKind::FragmentGroupMismatch));
    assert_eq!(engine.accept(fragment(1, 0, 0, b"a")), Err(ErrorKind::FragmentGroupMismatch));
    assert_eq!(engine.partial_groups(), 0);
}
