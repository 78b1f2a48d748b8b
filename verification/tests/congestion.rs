use reliable_link::congestion::{CongestionHandler, INITIAL_WINDOW, MAX_WINDOW, MIN_WINDOW};

#[test]
fn new_handler_starts_with_the_initial_window() {
    let handler = CongestionHandler::new();
    assert_eq!(handler.window(), 16);
    assert_eq!(INITIAL_WINDOW, 16);
    assert_eq!(handler.smoothed_rtt(), None);
    assert!(handler.may_send(15));
    assert!(!handler.may_send(16));
}

#[test]
fn acknowledgment_widens_the_window_in_slow_start() {
    let mut handler = CongestionHandler::new();
    handler.on_ack(100);
    assert_eq!(handler.window(), 17);
    handler.on_ack(100);
    assert_eq!(handler.window(), 18);
}

#[test]
fn loss_halves_the_window() {
    let mut handler = CongestionHandler::new();
    handler.on_ack(100);
    handler.on_loss();
    assert_eq!(handler.window(), 8);
    handler.on_loss();
    assert_eq!(handler.window(), 4);
    handler.on_loss();
    handler.on_loss();
    handler.on_loss();
    assert_eq!(handler.window(), MIN_WINDOW);
    assert_eq!(MIN_WINDOW, 2);
}

#[test]
fn after_a_loss_the_window_grows_once_per_window_of_acknowledgments() {
    let mut handler = CongestionHandler::new();
    handler.on_loss();
    assert_eq!(handler.window(), 8);
    for _ in 0..7 {
        handler.on_ack(50);
        assert_eq!(handler.window(), 8);
    }
    handler.on_ack(50);
    assert_eq!(handler.window(), 9);
    for _ in 0..8 {
        handler.on_ack(50);
        assert_eq!(handler.window(), 9);
    }
    handler.on_ack(50);
    assert_eq!(handler.window(), 10);
}

#[test]
fn window_never_exceeds_the_maximum() {
    let mut handler = CongestionHandler::new();
    for _ in 0..5000 {
        handler.on_ack(1);
    }
    assert_eq!(handler.window(), MAX_WINDOW);
    assert_eq!(MAX_WINDOW, 1024);
}

#[test]
fn round_trip_estimate_is_a_moving_average() {
    let mut handler = CongestionHandler::new();
    handler.on_ack(100);
    assert_eq!(handler.smoothed_rtt(), Some(100));
    handler.on_ack(180);
    assert_eq!(handler.smoothed_rtt(), Some(110));
    handler.on_ack(0);
    assert_eq!(handler.smoothed_rtt(), Some(96));
    let mut large = CongestionHandler::new();
    large.on_ack(u64::MAX);
    large.on_ack(u64::MAX);
    assert_eq!(large.smoothed_rtt(), Some(u64::MAX));
}

#[test]
fn resend_threshold_scales_the_estimate() {
    let mut handler = CongestionHandler::new();
    assert_eq!(handler.resend_threshold(2, 250), 500);
    handler.on_ack(100);
    handler.on_ack(180);
    assert_eq!(handler.resend_threshold(2, 250), 220);
    assert_eq!(handler.resend_threshold(0, 250), 0);
    assert_eq!(handler.resend_threshold(u64::MAX, 250), u64::MAX);
}
