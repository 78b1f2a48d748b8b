//! Raw traffic counts of the current reporting interval.
//!
//! The frame holds integers only. Turning a frame into rates and smoothing
//! them against earlier intervals is left to the caller that receives the
//! frame.

use vstd::prelude::*;

verus! {

/// What was counted since the last report.
#[derive(Clone, Copy, Debug, PartialEq, Eq, Structural)]
pub struct MetricsFrame {
    /// Datagrams handed to the transport.
    pub sent_packets: u64,
    /// Their bytes, headers included.
    pub sent_bytes: u64,
    /// Datagrams received.
    pub received_packets: u64,
    /// Their bytes, headers included.
    pub received_bytes: u64,
    /// Packets given up as dropped and resent.
    pub lost_packets: u64,
    /// The number of round-trip samples.
    pub rtt_samples: u64,
    /// The sum of the round-trip samples in milliseconds.
    pub rtt_total: u64,
}

/// The weight of a new interval in the smoothed report never falls below
/// one in this many.
pub const FACTOR: u32 = 2;

/// The divisor by which a new frame's distance from the running average is
/// weighed, once `intervals` frames were reported, this one included: the
/// number of frames during warm-up, then [`FACTOR`].
pub open spec fn divisor_after(intervals: u32) -> u32 {
    if intervals < FACTOR {
        intervals
    } else {
        FACTOR
    }
}

/// The divisor of the moving average for the frame that is number
/// `intervals`. It is zero only for `intervals == 0`, before any frame.
pub fn smoothing_divisor(intervals: u32) -> (divisor: u32)
    ensures
        divisor == divisor_after(intervals),
        intervals > 0 ==> 1 <= divisor <= FACTOR,
{
    if intervals < FACTOR {
        intervals
    } else {
        FACTOR
    }
}

/// `a + b`, or the largest `u64` where the sum exceeds it.
pub open spec fn capped_sum(a: u64, b: int) -> u64 {
    if a + b > u64::MAX {
        u64::MAX
    } else {
        (a + b) as u64
    }
}

/// The distance between two points in time, whichever is later.
pub open spec fn magnitude(a: u64, b: u64) -> u64 {
    if a >= b {
        (a - b) as u64
    } else {
        (b - a) as u64
    }
}

/// The distance between two points in time, whichever is later.
pub fn time_between(a: u64, b: u64) -> (d: u64)
    ensures
        d == magnitude(a, b),
{
    if a >= b {
        a - b
    } else {
        b - a
    }
}

impl MetricsFrame {
    /// The frame in which nothing was counted.
    pub open spec fn empty() -> MetricsFrame {
        MetricsFrame {
            sent_packets: 0,
            sent_bytes: 0,
            received_packets: 0,
            received_bytes: 0,
            lost_packets: 0,
            rtt_samples: 0,
            rtt_total: 0,
        }
    }

    /// The frame after a datagram of `bytes` bytes was sent.
    pub open spec fn with_sent(self, bytes: nat) -> MetricsFrame {
        MetricsFrame {
            sent_packets: capped_sum(self.sent_packets, 1),
            sent_bytes: capped_sum(self.sent_bytes, bytes as int),
            ..self
        }
    }

    /// The frame after one datagram was sent for each length in `sizes`.
    pub open spec fn with_all_sent(self, sizes: Seq<nat>) -> MetricsFrame
        decreases sizes.len(),
    {
        if sizes.len() == 0 {
            self
        } else {
            self.with_all_sent(sizes.drop_last()).with_sent(sizes.last())
        }
    }

    /// The frame after a datagram of `bytes` bytes was received.
    pub open spec fn with_received(self, bytes: nat) -> MetricsFrame {
        MetricsFrame {
            received_packets: capped_sum(self.received_packets, 1),
            received_bytes: capped_sum(self.received_bytes, bytes as int),
            ..self
        }
    }

    /// The frame after `count` packets were given up as dropped.
    pub open spec fn with_loss(self, count: nat) -> MetricsFrame {
        MetricsFrame { lost_packets: capped_sum(self.lost_packets, count as int), ..self }
    }

    /// The frame after a round trip of `sample` milliseconds was measured.
    pub open spec fn with_rtt(self, sample: u64) -> MetricsFrame {
        MetricsFrame {
            rtt_samples: capped_sum(self.rtt_samples, 1),
            rtt_total: capped_sum(self.rtt_total, sample as int),
            ..self
        }
    }

    /// The frame after one round trip was measured for each of `samples`.
    pub open spec fn with_all_rtts(self, samples: Seq<u64>) -> MetricsFrame
        decreases samples.len(),
    {
        if samples.len() == 0 {
            self
        } else {
            self.with_all_rtts(samples.drop_last()).with_rtt(samples.last())
        }
    }

    /// A frame in which nothing was counted.
    pub fn new() -> (frame: MetricsFrame)
        ensures
            frame == MetricsFrame::empty(),
    {
        MetricsFrame {
            sent_packets: 0,
            sent_bytes: 0,
            received_packets: 0,
            received_bytes: 0,
            lost_packets: 0,
            rtt_samples: 0,
            rtt_total: 0,
        }
    }

    /// Counts a datagram of `bytes` bytes that was sent.
    pub fn record_sent(&mut self, bytes: usize)
        ensures
            *final(self) == old(self).with_sent(bytes as nat),
    {
        self.sent_packets = self.sent_packets.saturating_add(1);
        self.sent_bytes = self.sent_bytes.saturating_add(bytes as u64);
    }

    /// Counts a datagram of `bytes` bytes that was received.
    pub fn record_received(&mut self, bytes: usize)
        ensures
            *final(self) == old(self).with_received(bytes as nat),
    {
        self.received_packets = self.received_packets.saturating_add(1);
        self.received_bytes = self.received_bytes.saturating_add(bytes as u64);
    }

    /// Counts `count` packets that were given up as dropped.
    pub fn record_loss(&mut self, count: usize)
        ensures
            *final(self) == old(self).with_loss(count as nat),
    {
        self.lost_packets = self.lost_packets.saturating_add(count as u64);
    }

    /// Counts a round trip that took `sample` milliseconds.
    pub fn record_rtt(&mut self, sample: u64)
        ensures
            *final(self) == old(self).with_rtt(sample),
    {
        self.rtt_samples = self.rtt_samples.saturating_add(1);
        self.rtt_total = self.rtt_total.saturating_add(sample);
    }

    /// Hands out what was counted and starts the next interval with an
    /// empty frame.
    pub fn take(&mut self) -> (snapshot: MetricsFrame)
        ensures
            snapshot == *old(self),
            *final(self) == MetricsFrame::empty(),
    {
        let snapshot = *self;
        *self = MetricsFrame::new();
        snapshot
    }
}

} // verus!
