//! Delivery order on the receiving side: sequenced messages are delivered
//! only while they are newer than the last one delivered, ordered messages
//! wait until every message before them was delivered.

use std::collections::HashMap;
use vstd::prelude::*;
use crate::events::packet_views;
use crate::packet::{OrderingGuarantee, Packet, PacketView};
use crate::sequence::{forward_distance, newer_than, sequence_greater_than};

verus! {

broadcast use vstd::std_specs::hash::group_hash_axioms;

/// The id that lies `steps` after `id`, wrapping at 65536.
pub open spec fn advance(id: u16, steps: int) -> u16 {
    ((id + steps) % 65536) as u16
}

/// The ids of the `n` places from `start` on.
pub open spec fn run_ids(start: u16, n: nat) -> Set<u16> {
    Set::new(|id: u16| exists|i: int| 0 <= i < n && id == advance(start, i))
}

/// `buffered` holds the `n` places from `start` on and lacks the next one.
pub open spec fn is_run(buffered: Map<u16, PacketView>, start: u16, n: nat) -> bool {
    &&& forall|i: int| 0 <= i < n ==> buffered.contains_key(#[trigger] advance(start, i))
    &&& !buffered.contains_key(advance(start, n as int))
}

/// The packets at the `n` places from `start` on, in that order.
pub open spec fn run_packets(buffered: Map<u16, PacketView>, start: u16, n: nat) -> Seq<
    PacketView,
> {
    Seq::new(n, |i: int| buffered[advance(start, i)])
}

/// Whether a sequenced message with place `id` is delivered when the last
/// delivered one had place `latest`.
pub open spec fn sequenced_passes(latest: Option<u16>, id: u16) -> bool {
    match latest {
        Some(latest) => newer_than(id, latest),
        None => true,
    }
}

/// The mathematical content of an [`ArrangingSystem`].
pub struct ArrangingView {
    /// The place of the sequenced message delivered last.
    pub sequenced_latest: Option<u16>,
    /// The place of the ordered message to deliver next.
    pub expected: u16,
    /// The ordered messages that arrived ahead of their turn, by place.
    pub buffered: Map<u16, PacketView>,
}

/// The number of places from `start` on that `buffered` holds without a
/// gap.
pub open spec fn run_length(buffered: Map<u16, PacketView>, start: u16) -> nat {
    choose|n: nat| is_run(buffered, start, n)
}

/// What a received message leads to: the state afterwards and the messages
/// that are due, in delivery order.
pub struct Arranged {
    pub state: ArrangingView,
    pub due: Seq<PacketView>,
}

impl ArrangingView {
    /// Every buffered message lies ahead of the expected one.
    pub open spec fn wf(self) -> bool {
        forall|id: u16| #[trigger] self.buffered.contains_key(id) ==> newer_than(id, self.expected)
    }

    /// Taking a received message with its place in its stream.
    ///
    /// An unordered message is due at once. A sequenced message is due if
    /// it is newer than the last sequenced one delivered. An ordered
    /// message at the expected place is due together with the buffered
    /// ones that follow it without a gap; one ahead of its turn is
    /// buffered; one that was delivered or buffered before is discarded.
    pub open spec fn arranged(self, id: u16, packet: PacketView) -> Arranged {
        match packet.ordering {
            OrderingGuarantee::Unordered => Arranged { state: self, due: seq![packet] },
            OrderingGuarantee::Sequenced => if sequenced_passes(self.sequenced_latest, id) {
                Arranged {
                    state: ArrangingView { sequenced_latest: Some(id), ..self },
                    due: seq![packet],
                }
            } else {
                Arranged { state: self, due: Seq::<PacketView>::empty() }
            },
            OrderingGuarantee::Ordered => if id == self.expected {
                let start = advance(id, 1);
                let n = run_length(self.buffered, start);
                Arranged {
                    state: ArrangingView {
                        expected: advance(start, n as int),
                        buffered: self.buffered.remove_keys(run_ids(start, n)),
                        ..self
                    },
                    due: seq![packet] + run_packets(self.buffered, start, n),
                }
            } else if newer_than(id, self.expected) && !self.buffered.contains_key(id) {
                Arranged {
                    state: ArrangingView { buffered: self.buffered.insert(id, packet), ..self },
                    due: Seq::<PacketView>::empty(),
                }
            } else {
                Arranged { state: self, due: Seq::<PacketView>::empty() }
            },
        }
    }
}

/// A run has one length: where `buffered` holds `n` places from `start` on
/// and lacks the next, `n` is the run's length.
pub proof fn lemma_run_length(buffered: Map<u16, PacketView>, start: u16, n: nat)
    requires
        is_run(buffered, start, n),
    ensures
        run_length(buffered, start) == n,
{
    let m = run_length(buffered, start);
    assert(is_run(buffered, start, m));
    if m < n {
        assert(buffered.contains_key(advance(start, m as int)));
    } else if n < m {
        assert(buffered.contains_key(advance(start, n as int)));
    }
}

/// Decides which received messages reach the application, and when.
pub struct ArrangingSystem {
    sequenced_latest: Option<u16>,
    expected: u16,
    buffered: HashMap<u16, Packet>,
}

impl View for ArrangingSystem {
    type V = ArrangingView;

    closed spec fn view(&self) -> ArrangingView {
        ArrangingView {
            sequenced_latest: self.sequenced_latest,
            expected: self.expected,
            buffered: self.buffered@.map_values(|p: Packet| p@),
        }
    }
}

impl ArrangingSystem {
    /// A system that has delivered nothing and expects the ordered message
    /// at place 0.
    pub fn new() -> (a: ArrangingSystem)
        ensures
            a@.wf(),
            a@ == (ArrangingView {
                sequenced_latest: None,
                expected: 0,
                buffered: Map::<u16, PacketView>::empty(),
            }),
    {
        let a = ArrangingSystem { sequenced_latest: None, expected: 0, buffered: HashMap::new() };
        assert(a@.buffered =~= Map::<u16, PacketView>::empty());
        a
    }

    /// Takes a received message with its place in its stream and hands out
    /// the messages that are now due, in delivery order.
    pub fn arrange(&mut self, id: u16, packet: Packet) -> (due: Vec<Packet>)
        requires
            old(self)@.wf(),
        ensures
            final(self)@.wf(),
            final(self)@ == old(self)@.arranged(id, packet@).state,
            packet_views(due@) == old(self)@.arranged(id, packet@).due,
    {
        let mut due: Vec<Packet> = Vec::new();
        let ghost before = self@;
        match packet.order_guarantee() {
            OrderingGuarantee::Unordered => {
                due.push(packet);
                assert(packet_views(due@) =~= seq![packet@]);
            },
            OrderingGuarantee::Sequenced => {
                let passes = match self.sequenced_latest {
                    Some(latest) => sequence_greater_than(id, latest),
                    None => true,
                };
                if passes {
                    self.sequenced_latest = Some(id);
                    due.push(packet);
                    assert(packet_views(due@) =~= seq![packet@]);
                } else {
                    assert(packet_views(due@) =~= Seq::<PacketView>::empty());
                }
            },
            OrderingGuarantee::Ordered => {
                if id == self.expected {
                    due.push(packet);
                    let start: u16 = id.wrapping_add(1);
                    let mut next: u16 = start;
                    let ghost mut n: nat = 0;
                    assert(packet_views(due@) =~= seq![packet@] + run_packets(
                        before.buffered,
                        start,
                        0,
                    ));
                    assert(self@.buffered =~= before.buffered.remove_keys(run_ids(start, 0)));
                    loop
                        invariant
                            start == advance(id, 1),
                            id == before.expected,
                            before.wf(),
                            n <= 32767,
                            next == advance(start, n as int),
                            due@.len() == n + 1,
                            forall|i: int|
                                0 <= i < n ==> before.buffered.contains_key(
                                    #[trigger] advance(start, i),
                                ),
                            packet_views(due@) == seq![packet@] + run_packets(
                                before.buffered,
                                start,
                                n,
                            ),
                            self@.buffered == before.buffered.remove_keys(run_ids(start, n)),
                            self@.sequenced_latest == before.sequenced_latest,
                            self.buffered@.dom().finite(),
                        ensures
                            !before.buffered.contains_key(next),
                        decreases self.buffered@.len(),
                    {
                        let ghost current = self.buffered@;
                        let ghost shown = packet_views(due@);
                        let ghost view_now = self@.buffered;
                        proof {
                            assert(view_now.dom() =~= current.dom());
                        }
                        match self.buffered.remove(&next) {
                            Some(p) => {
                                proof {
                                    assert(current.contains_key(next) && current[next] == p);
                                    assert(view_now.contains_key(next));
                                    assert(view_now[next] == p@);
                                    assert(before.buffered.contains_key(next));
                                    assert(before.buffered[next] == p@);
                                    assert(newer_than(next, id));
                                    current.lemma_remove_key_len(next);
                                    assert(self@.buffered =~= view_now.remove(next));
                                }
                                due.push(p);
                                proof {
                                    assert(packet_views(due@) =~= shown.push(p@));
                                    assert(shown.push(p@) =~= seq![packet@] + run_packets(
                                        before.buffered,
                                        start,
                                        n + 1,
                                    ));
                                    assert(run_ids(start, n + 1) =~= run_ids(start, n).insert(next));
                                    assert(self@.buffered =~= before.buffered.remove_keys(
                                        run_ids(start, n + 1),
                                    ));
                                    n = n + 1;
                                }
                                next = next.wrapping_add(1);
                            },
                            None => {
                                proof {
                                    assert(!current.contains_key(next));
                                    assert(!view_now.contains_key(next));
                                    assert(self@.buffered =~= view_now);
                                    if before.buffered.contains_key(next) {
                                        assert(run_ids(start, n).contains(next));
                                        let i = choose|i: int|
                                            0 <= i < n && next == advance(start, i);
                                        assert(false);
                                    }
                                }
                                break ;
                            },
                        }
                    }
                    self.expected = next;
                    proof {
                        lemma_run_length(before.buffered, start, n);
                        assert forall|other: u16| #[trigger]
                            self@.buffered.contains_key(other) implies newer_than(other, next) by {
                            assert(before.buffered.contains_key(other));
                            assert(!run_ids(start, n).contains(other));
                            assert(newer_than(other, id));
                            let d = forward_distance(id, other);
                            assert(other == advance(id, d));
                            if d <= n + 1 {
                                if d == n + 1 {
                                    assert(other == next);
                                } else {
                                    assert(other == advance(start, d - 1));
                                    assert(run_ids(start, n).contains(other));
                                }
                            }
                            assert(forward_distance(next, other) == d - (n + 1));
                        }
                    }
                } else if sequence_greater_than(id, self.expected)
                    && !self.buffered.contains_key(&id) {
                    self.buffered.insert(id, packet);
                    assert(self@.buffered =~= before.buffered.insert(id, packet@));
                    assert(packet_views(due@) =~= Seq::<PacketView>::empty());
                } else {
                    assert(self@.buffered.contains_key(id) == self.buffered@.contains_key(id));
                    assert(packet_views(due@) =~= Seq::<PacketView>::empty());
                }
            },
        }
        due
    }

    /// The number of ordered messages that wait for an earlier one.
    pub fn buffered_count(&self) -> (n: usize)
        ensures
            n == self@.buffered.dom().len(),
    {
        assert(self@.buffered.dom() =~= self.buffered@.dom());
        self.buffered.len()
    }
}

} // verus!
