//! The send window: how many packets may be in flight at once, and the
//! round-trip estimate from which the resend delay is taken.
//!
//! The window follows additive increase and multiplicative decrease. Below
//! the slow-start threshold every acknowledgment widens it by one packet;
//! above, it widens by one packet for each full window of acknowledgments.
//! A loss halves it. The round-trip estimate is a moving average in which a
//! new sample weighs one eighth.

use vstd::prelude::*;

verus! {

/// The window never shrinks below this many packets.
pub const MIN_WINDOW: u32 = 2;

/// The window never grows beyond this many packets.
pub const MAX_WINDOW: u32 = 1024;

/// The window of a new connection.
pub const INITIAL_WINDOW: u32 = 16;

/// The mathematical content of a [`CongestionHandler`].
pub struct CongestionView {
    /// How many packets may be in flight.
    pub window: u32,
    /// Below this the window grows with every acknowledgment.
    pub threshold: u32,
    /// Acknowledgments counted towards the next growth above the threshold.
    pub credit: u32,
    /// The smoothed round-trip time in milliseconds; `None` before the
    /// first sample.
    pub smoothed_rtt: Option<u64>,
}

/// The window one packet wider, as far as the maximum allows.
pub open spec fn widened(window: u32) -> u32 {
    if window < MAX_WINDOW {
        (window + 1) as u32
    } else {
        window
    }
}

/// The round-trip estimate after a sample.
pub open spec fn smoothed(estimate: Option<u64>, sample: u64) -> u64 {
    match estimate {
        Some(rtt) => ((7 * rtt + sample) / 8) as u64,
        None => sample,
    }
}

impl CongestionView {
    /// The window stays within its bounds, and the credit below the window.
    pub open spec fn wf(self) -> bool {
        &&& MIN_WINDOW <= self.window <= MAX_WINDOW
        &&& MIN_WINDOW <= self.threshold <= MAX_WINDOW
        &&& self.credit < self.window
    }

    /// The state after an acknowledgment arrived `sample` milliseconds
    /// after its packet was sent.
    pub open spec fn after_ack(self, sample: u64) -> CongestionView {
        let rtt = Some(smoothed(self.smoothed_rtt, sample));
        if self.window < self.threshold {
            CongestionView { window: widened(self.window), smoothed_rtt: rtt, ..self }
        } else if self.credit + 1 >= self.window {
            CongestionView { window: widened(self.window), credit: 0, smoothed_rtt: rtt, ..self }
        } else {
            CongestionView { credit: (self.credit + 1) as u32, smoothed_rtt: rtt, ..self }
        }
    }

    /// The state after a loss was detected.
    pub open spec fn after_loss(self) -> CongestionView {
        let half = if self.window / 2 >= MIN_WINDOW {
            self.window / 2
        } else {
            MIN_WINDOW
        };
        CongestionView { window: half, threshold: half, credit: 0, ..self }
    }

    /// The state after one acknowledgment for each of `samples`.
    pub open spec fn after_acks(self, samples: Seq<u64>) -> CongestionView
        decreases samples.len(),
    {
        if samples.len() == 0 {
            self
        } else {
            self.after_acks(samples.drop_last()).after_ack(samples.last())
        }
    }

    /// How long a packet may stay unacknowledged before it is resent:
    /// `factor` times the round-trip estimate, or times `initial_rtt`
    /// while there is no estimate; capped at the largest `u64`.
    pub open spec fn resend_threshold(self, factor: u64, initial_rtt: u64) -> u64 {
        let rtt = match self.smoothed_rtt {
            Some(rtt) => rtt,
            None => initial_rtt,
        };
        if rtt * factor > u64::MAX {
            u64::MAX
        } else {
            (rtt * factor) as u64
        }
    }
}

/// Decides whether a new packet may be sent now, from acknowledgments and
/// losses.
pub struct CongestionHandler {
    window: u32,
    threshold: u32,
    credit: u32,
    smoothed_rtt: Option<u64>,
}

impl View for CongestionHandler {
    type V = CongestionView;

    closed spec fn view(&self) -> CongestionView {
        CongestionView {
            window: self.window,
            threshold: self.threshold,
            credit: self.credit,
            smoothed_rtt: self.smoothed_rtt,
        }
    }
}

impl CongestionHandler {
    /// A handler in slow start, with the initial window and no estimate.
    pub fn new() -> (h: CongestionHandler)
        ensures
            h@.wf(),
            h@ == (CongestionView {
                window: INITIAL_WINDOW,
                threshold: MAX_WINDOW,
                credit: 0,
                smoothed_rtt: None,
            }),
    {
        CongestionHandler {
            window: INITIAL_WINDOW,
            threshold: MAX_WINDOW,
            credit: 0,
            smoothed_rtt: None,
        }
    }

    /// Takes note of an acknowledgment that arrived `rtt_sample`
    /// milliseconds after its packet was sent. The window does not shrink.
    pub fn on_ack(&mut self, rtt_sample: u64)
        requires
            old(self)@.wf(),
        ensures
            final(self)@ == old(self)@.after_ack(rtt_sample),
            final(self)@.wf(),
            final(self)@.window >= old(self)@.window,
    {
        let estimate: u64 = match self.smoothed_rtt {
            Some(rtt) => {
                let sum: u128 = 7 * (rtt as u128) + rtt_sample as u128;
                (sum / 8) as u64
            },
            None => rtt_sample,
        };
        self.smoothed_rtt = Some(estimate);
        if self.window < self.threshold {
            if self.window < MAX_WINDOW {
                self.window = self.window + 1;
            }
        } else if self.credit + 1 >= self.window {
            if self.window < MAX_WINDOW {
                self.window = self.window + 1;
            }
            self.credit = 0;
        } else {
            self.credit = self.credit + 1;
        }
    }

    /// Takes note of a loss. The window does not grow.
    pub fn on_loss(&mut self)
        requires
            old(self)@.wf(),
        ensures
            final(self)@ == old(self)@.after_loss(),
            final(self)@.wf(),
            final(self)@.window <= old(self)@.window,
    {
        let half: u32 = if self.window / 2 >= MIN_WINDOW {
            self.window / 2
        } else {
            MIN_WINDOW
        };
        self.window = half;
        self.threshold = half;
        self.credit = 0;
    }

    /// Whether a new packet may be sent while `in_flight` packets await
    /// acknowledgment.
    pub fn may_send(&self, in_flight: usize) -> (r: bool)
        ensures
            r == (in_flight < self@.window),
    {
        in_flight < self.window as usize
    }

    /// The smoothed round-trip time in milliseconds.
    pub fn smoothed_rtt(&self) -> (rtt: Option<u64>)
        ensures
            rtt == self@.smoothed_rtt,
    {
        self.smoothed_rtt
    }

    /// The window in packets.
    pub fn window(&self) -> (w: u32)
        ensures
            w == self@.window,
    {
        self.window
    }

    /// How long a packet may stay unacknowledged before it is resent.
    pub fn resend_threshold(&self, factor: u64, initial_rtt: u64) -> (t: u64)
        ensures
            t == self@.resend_threshold(factor, initial_rtt),
    {
        let rtt: u64 = match self.smoothed_rtt {
            Some(rtt) => rtt,
            None => initial_rtt,
        };
        match rtt.checked_mul(factor) {
            Some(t) => t,
            None => u64::MAX,
        }
    }
}

/// A loss never widens the window, and leaves it within its bounds.
pub proof fn lemma_loss_never_widens(state: CongestionView)
    requires
        state.wf(),
    ensures
        state.after_loss().window <= state.window,
        state.after_loss().wf(),
{
}

/// However many acknowledgments arrive without a loss between them, the
/// window is never narrower than before.
pub proof fn lemma_acks_never_narrow(state: CongestionView, samples: Seq<u64>)
    requires
        state.wf(),
    ensures
        state.after_acks(samples).window >= state.window,
        state.after_acks(samples).wf(),
    decreases samples.len(),
{
    if samples.len() > 0 {
        lemma_acks_never_narrow(state, samples.drop_last());
    }
}

/// The round-trip estimate stays between its previous value and the sample.
pub proof fn lemma_estimate_between(estimate: u64, sample: u64)
    ensures
        estimate <= sample ==> estimate <= smoothed(Some(estimate), sample) <= sample,
        sample <= estimate ==> sample <= smoothed(Some(estimate), sample) <= estimate,
{
}

} // verus!
