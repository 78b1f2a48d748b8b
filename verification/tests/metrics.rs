use reliable_link::config::Config;
use reliable_link::metrics::{smoothing_divisor, time_between, MetricsFrame, FACTOR};

fn empty() -> MetricsFrame {
    MetricsFrame {
        sent_packets: 0,
        sent_bytes: 0,
        received_packets: 0,
        received_bytes: 0,
        lost_packets: 0,
        rtt_samples: 0,
        rtt_total: 0,
    }
}

#[test]
fn new_frame_is_empty() {
    assert_eq!(MetricsFrame::new(), empty());
}

#[test]
fn ten_packets_of_a_hundred_bytes_are_counted() {
    let mut frame = MetricsFrame::new();
    for _ in 0..10 {
        frame.record_sent(100);
    }
    assert_eq!(frame.sent_packets, 10);
    assert_eq!(frame.sent_bytes, 1000);
    assert_eq!(frame.received_packets, 0);
}

#[test]
fn frame_counts_each_kind_apart() {
    let mut frame = MetricsFrame::new();
    frame.record_received(40);
    frame.record_received(2);
    frame.record_loss(3);
    frame.record_rtt(20);
    frame.record_rtt(30);
    assert_eq!(
        frame,
        MetricsFrame {
            sent_packets: 0,
            sent_bytes: 0,
            received_packets: 2,
            received_bytes: 42,
            lost_packets: 3,
            rtt_samples: 2,
            rtt_total: 50,
        }
    );
}

#[test]
fn counters_stop_at_the_largest_value() {
    let mut frame = MetricsFrame::new();
    frame.record_rtt(u64::MAX);
    frame.record_rtt(5);
    assert_eq!(frame.rtt_total, u64::MAX);
    assert_eq!(frame.rtt_samples, 2);
}

#[test]
fn take_hands_out_the_frame_and_resets_it() {
    let mut frame = MetricsFrame::new();
    frame.record_sent(7);
    let snapshot = frame.take();
    assert_eq!(snapshot.sent_packets, 1);
    assert_eq!(snapshot.sent_bytes, 7);
    assert_eq!(frame, empty());
    assert_eq!(frame.take(), empty());
}

#[test]
fn time_between_is_a_magnitude() {
    assert_eq!(time_between(10, 4), 6);
    assert_eq!(time_between(4, 10), 6);
    assert_eq!(time_between(5, 5), 0);
}

#[test]
fn default_config_has_the_standard_settings() {
    let config = Config::default();
    assert_eq!(config.max_packets_in_flight, 512);
    assert_eq!(config.idle_connection_timeout, 5000);
    assert_eq!(config.heartbeat_interval, None);
    assert_eq!(config.fragment_size, 1024);
    assert_eq!(config.rtt_resend_factor, 2);
    assert_eq!(config.initial_rtt, 250);
}

#[test]
fn smoothing_divisor_warms_up_to_the_factor() {
    assert_eq!(FACTOR, 2);
    assert_eq!(smoothing_divisor(0), 0);
    assert_eq!(smoothing_divisor(1), 1);
    assert_eq!(smoothing_divisor(2), 2);
    assert_eq!(smoothing_divisor(3), 2);
    assert_eq!(smoothing_divisor(u32::MAX), 2);
}
