//! The settings that every operation of a connection reads.

use vstd::prelude::*;

verus! {

/// Limits and intervals of a connection. Times are in milliseconds.
#[derive(Clone, Copy, Debug, PartialEq, Eq)]
pub struct Config {
    /// A connection with more unacknowledged packets than this is dropped.
    pub max_packets_in_flight: u16,
    /// A connection that has received nothing for this long is dropped.
    pub idle_connection_timeout: u64,
    /// After this long without sending, an established connection sends a
    /// heartbeat; `None` sends none.
    pub heartbeat_interval: Option<u64>,
    /// The most payload bytes that one datagram carries; a longer payload
    /// is split into fragments of this size.
    pub fragment_size: u16,
    /// A packet unacknowledged for this many round-trip times is resent.
    pub rtt_resend_factor: u64,
    /// The round-trip time assumed until one was measured.
    pub initial_rtt: u64,
}

impl Config {
    /// The settings of a connection that was given none.
    pub open spec fn standard() -> Config {
        Config {
            max_packets_in_flight: 512,
            idle_connection_timeout: 5000,
            heartbeat_interval: None,
            fragment_size: 1024,
            rtt_resend_factor: 2,
            initial_rtt: 250,
        }
    }
}

impl Default for Config {
    fn default() -> (config: Config)
        ensures
            config == Config::standard(),
    {
        Config {
            max_packets_in_flight: 512,
            idle_connection_timeout: 5000,
            heartbeat_interval: None,
            fragment_size: 1024,
            rtt_resend_factor: 2,
            initial_rtt: 250,
        }
    }
}

} // verus!
