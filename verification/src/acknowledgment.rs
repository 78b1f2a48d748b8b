//! Bookkeeping of packets that were sent and await acknowledgment, and of
//! the remote sequence numbers that were received and are to be
//! acknowledged in turn.

use vstd::prelude::*;
use crate::packet::{copy_bytes, reversed, DeliveryGuarantee, OrderingGuarantee, PacketType};
use crate::sequence::{distance, forward_distance, newer_than, HALF_RANGE};

verus! {

/// How many sequence numbers before the latest one an acknowledgment covers.
pub const REDUNDANT_PACKET_ACKS_SIZE: u16 = 32;

/// Whether bit `i` of `mask` is set, bit 0 being the least significant.
pub open spec fn mask_bit(mask: u32, i: u32) -> bool {
    (mask >> i) & 1 == 1
}

/// An acknowledgment as it travels in a header: the latest sequence number
/// that the sender of the acknowledgment received, and one bit for each of
/// the 32 numbers before it.
#[derive(Clone, Copy, Debug, PartialEq, Eq, Structural)]
pub struct AckBitfield {
    /// The latest sequence number received.
    pub latest: u16,
    /// Counting bits from 1 at the least significant end, bit `i` set means
    /// that sequence number `latest - i` was received.
    pub mask: u32,
}

impl AckBitfield {
    /// Whether this acknowledgment says that `sequence` was received.
    pub open spec fn acknowledges(self, sequence: u16) -> bool {
        let back = forward_distance(sequence, self.latest);
        back == 0 || (1 <= back <= REDUNDANT_PACKET_ACKS_SIZE as int && mask_bit(
            self.mask,
            (back - 1) as u32,
        ))
    }

    /// Whether this acknowledgment says that `sequence` was received.
    pub fn covers(&self, sequence: u16) -> (r: bool)
        ensures
            r == self.acknowledges(sequence),
    {
        let back: u16 = distance(sequence, self.latest);
        if back == 0 {
            true
        } else if back <= REDUNDANT_PACKET_ACKS_SIZE {
            let shift: u32 = (back - 1) as u32;
            (self.mask >> shift) & 1 == 1
        } else {
            false
        }
    }
}

/// What ties a wire packet to the logical item it belongs to, so that a
/// retransmission is recognised as the same item.
#[derive(Clone, Copy, Debug, PartialEq, Eq, Structural)]
pub struct ItemIdentifier {
    /// The item's place in its sequenced or ordered stream.
    pub arranging_id: u16,
    /// The fragment group that the item belongs to.
    pub group_id: u16,
    /// The item's index within its fragment group.
    pub fragment_index: u8,
    /// The number of fragments in the group.
    pub fragment_total: u8,
}

/// A packet that was sent and is not yet known to have arrived.
#[derive(Debug, PartialEq, Eq)]
pub struct SentPacket {
    pub sequence: u16,
    pub packet_type: PacketType,
    pub payload: Vec<u8>,
    /// When the packet was sent, in milliseconds.
    pub sent_at: u64,
    pub delivery: DeliveryGuarantee,
    pub ordering_guarantee: OrderingGuarantee,
    pub item_identifier: Option<ItemIdentifier>,
}

/// The mathematical content of a [`SentPacket`].
pub struct SentPacketView {
    pub sequence: u16,
    pub packet_type: PacketType,
    pub payload: Seq<u8>,
    pub sent_at: u64,
    pub delivery: DeliveryGuarantee,
    pub ordering_guarantee: OrderingGuarantee,
    pub item_identifier: Option<ItemIdentifier>,
}

impl View for SentPacket {
    type V = SentPacketView;

    open spec fn view(&self) -> SentPacketView {
        SentPacketView {
            sequence: self.sequence,
            packet_type: self.packet_type,
            payload: self.payload@,
            sent_at: self.sent_at,
            delivery: self.delivery,
            ordering_guarantee: self.ordering_guarantee,
            item_identifier: self.item_identifier,
        }
    }
}

impl Clone for SentPacket {
    fn clone(&self) -> (copy: SentPacket)
        ensures
            copy@ == self@,
    {
        SentPacket {
            sequence: self.sequence,
            packet_type: self.packet_type,
            payload: copy_bytes(self.payload.as_slice()),
            sent_at: self.sent_at,
            delivery: self.delivery,
            ordering_guarantee: self.ordering_guarantee,
            item_identifier: self.item_identifier,
        }
    }
}

/// The contents of a list of records.
pub open spec fn record_views(records: Seq<SentPacket>) -> Seq<SentPacketView> {
    records.map_values(|r: SentPacket| r@)
}

/// The time that has passed since `then`; zero if `then` lies ahead of `now`.
pub open spec fn elapsed(now: u64, then: u64) -> int {
    if now >= then {
        now - then
    } else {
        0
    }
}

/// A rule that picks records out of the pending ones.
#[derive(Clone, Copy, Debug)]
pub enum Selection {
    /// The records that an acknowledgment covers.
    AcknowledgedBy(AckBitfield),
    /// The records sent more than `threshold` milliseconds before `now`.
    Expired { now: u64, threshold: u64 },
    /// The record with the given sequence number.
    Numbered(u16),
}

impl Selection {
    /// Whether the rule picks `record`.
    pub open spec fn selects(self, record: SentPacketView) -> bool {
        match self {
            Selection::AcknowledgedBy(ack) => ack.acknowledges(record.sequence),
            Selection::Expired { now, threshold } => elapsed(now, record.sent_at) > threshold,
            Selection::Numbered(sequence) => record.sequence == sequence,
        }
    }

    /// Whether the rule picks `record`.
    pub fn picks(&self, record: &SentPacket) -> (r: bool)
        ensures
            r == self.selects(record@),
    {
        match self {
            Selection::AcknowledgedBy(ack) => ack.covers(record.sequence),
            Selection::Expired { now, threshold } => {
                *now >= record.sent_at && *now - record.sent_at > *threshold
            },
            Selection::Numbered(sequence) => record.sequence == *sequence,
        }
    }
}

/// The predicate "picked by `rule`".
pub open spec fn picked(rule: Selection) -> spec_fn(SentPacketView) -> bool {
    |r: SentPacketView| rule.selects(r)
}

/// The predicate "left alone by `rule`".
pub open spec fn spared(rule: Selection) -> spec_fn(SentPacketView) -> bool {
    |r: SentPacketView| !rule.selects(r)
}

/// No two records carry the same sequence number.
pub open spec fn distinct_sequences(records: Seq<SentPacketView>) -> bool {
    forall|i: int, j: int|
        0 <= i < j < records.len() ==> (#[trigger] records[i]).sequence != (
        #[trigger] records[j]).sequence
}

/// The latest sequence number received once `sequence` arrived: it moves
/// forward if `sequence` is newer.
pub open spec fn latest_after(window: Option<AckBitfield>, sequence: u16) -> u16 {
    match window {
        Some(w) => if newer_than(sequence, w.latest) {
            sequence
        } else {
            w.latest
        },
        None => sequence,
    }
}

/// The window of received sequence numbers once `sequence` arrived.
///
/// A newer number becomes the latest one, and the mask moves up by the
/// distance, the former latest number taking its bit. An older number
/// within reach of the mask sets its bit. What
/// [`lemma_noted_window`] states of the result says the same without bits.
pub open spec fn noted(window: Option<AckBitfield>, sequence: u16) -> AckBitfield {
    match window {
        None => AckBitfield { latest: sequence, mask: 0 },
        Some(w) => {
            let ahead = forward_distance(w.latest, sequence);
            let back = forward_distance(sequence, w.latest);
            if ahead == 0 {
                w
            } else if ahead < HALF_RANGE {
                AckBitfield {
                    latest: sequence,
                    mask: if ahead > REDUNDANT_PACKET_ACKS_SIZE {
                        0
                    } else if ahead == REDUNDANT_PACKET_ACKS_SIZE {
                        1u32 << 31
                    } else {
                        (w.mask << (ahead as u32)) | (1u32 << ((ahead - 1) as u32))
                    },
                }
            } else if back <= REDUNDANT_PACKET_ACKS_SIZE {
                AckBitfield { latest: w.latest, mask: w.mask | (1u32 << ((back - 1) as u32)) }
            } else {
                w
            }
        },
    }
}

/// Whether `window` records `sequence` as received.
pub open spec fn window_holds(window: Option<AckBitfield>, sequence: u16) -> bool {
    match window {
        Some(w) => w.acknowledges(sequence),
        None => false,
    }
}

/// The mathematical content of an [`AcknowledgmentHandler`].
pub struct AcknowledgmentView {
    /// The sequence number that the next registered packet gets.
    pub next_sequence: u16,
    /// The records in flight, oldest registration first.
    pub pending: Seq<SentPacketView>,
    /// What was received from the peer; `None` before the first packet.
    pub remote: Option<AckBitfield>,
}

impl AcknowledgmentView {
    /// The state after a packet was registered: it gets the next sequence
    /// number and joins the records in flight, displacing a record that
    /// still held the same number.
    pub open spec fn registered(
        self,
        packet_type: PacketType,
        payload: Seq<u8>,
        delivery: DeliveryGuarantee,
        ordering_guarantee: OrderingGuarantee,
        item_identifier: Option<ItemIdentifier>,
        time: u64,
    ) -> AcknowledgmentView {
        AcknowledgmentView {
            next_sequence: self.next_sequence.wrapping_add(1),
            pending: self.pending.filter(spared(Selection::Numbered(self.next_sequence))).push(
                SentPacketView {
                    sequence: self.next_sequence,
                    packet_type,
                    payload,
                    sent_at: time,
                    delivery,
                    ordering_guarantee,
                    item_identifier,
                },
            ),
            ..self
        }
    }

    /// The state after the records that `rule` picks were taken out.
    pub open spec fn without(self, rule: Selection) -> AcknowledgmentView {
        AcknowledgmentView { pending: self.pending.filter(spared(rule)), ..self }
    }

    /// The state after the peer's packet `sequence` arrived.
    pub open spec fn heard(self, sequence: u16) -> AcknowledgmentView {
        AcknowledgmentView { remote: Some(noted(self.remote, sequence)), ..self }
    }
}

/// Tracks every sent packet until it is acknowledged or given up as
/// dropped, and the received sequence numbers to acknowledge.
pub struct AcknowledgmentHandler {
    sequence_number: u16,
    pending: Vec<SentPacket>,
    heard: bool,
    remote_latest: u16,
    remote_mask: u32,
}

impl View for AcknowledgmentHandler {
    type V = AcknowledgmentView;

    closed spec fn view(&self) -> AcknowledgmentView {
        AcknowledgmentView {
            next_sequence: self.sequence_number,
            pending: record_views(self.pending@),
            remote: if self.heard {
                Some(AckBitfield { latest: self.remote_latest, mask: self.remote_mask })
            } else {
                None
            },
        }
    }
}

/// Moving the mask up by `d` and setting the bit below: bit `d - 1` is
/// set, and each bit from `d` up is the one that stood `d` places lower.
proof fn lemma_mask_shift(mask: u32, d: u32, j: u32)
    by (bit_vector)
    requires
        1 <= d < 32,
        j < 32,
    ensures
        mask_bit((mask << d) | (1u32 << ((d - 1) as u32)), j) == (j == d - 1 || (j >= d && mask_bit(
            mask,
            (j - d) as u32,
        ))),
{
}

/// Setting bit `k` changes no other bit; a mask of one bit has that bit
/// only, and the zero mask has none.
proof fn lemma_mask_set(mask: u32, k: u32, j: u32)
    by (bit_vector)
    requires
        k < 32,
        j < 32,
    ensures
        mask_bit(mask | (1u32 << k), j) == (j == k || mask_bit(mask, j)),
        mask_bit(1u32 << k, j) == (j == k),
        !mask_bit(0u32, j),
{
}

impl AcknowledgmentHandler {
    /// The handler's invariant: sequence numbers in flight are distinct.
    pub open spec fn wf(&self) -> bool {
        distinct_sequences(self@.pending)
    }

    /// A handler with nothing in flight and nothing received, whose first
    /// packet gets sequence number 0.
    pub fn new() -> (h: AcknowledgmentHandler)
        ensures
            h.wf(),
            h@ == (AcknowledgmentView {
                next_sequence: 0,
                pending: Seq::<SentPacketView>::empty(),
                remote: None::<AckBitfield>,
            }),
    {
        let h = AcknowledgmentHandler {
            sequence_number: 0,
            pending: Vec::new(),
            heard: false,
            remote_latest: 0,
            remote_mask: 0,
        };
        assert(h@.pending =~= Seq::<SentPacketView>::empty());
        h
    }

    /// The sequence number that the next registered packet gets.
    pub fn local_sequence_num(&self) -> (s: u16)
        ensures
            s == self@.next_sequence,
    {
        self.sequence_number
    }

    /// The number of packets in flight.
    pub fn pending_count(&self) -> (n: usize)
        ensures
            n == self@.pending.len(),
    {
        self.pending.len()
    }

    /// The acknowledgment to put into the next outgoing header; `None`
    /// while nothing was received.
    pub fn ack_bitfield(&self) -> (ack: Option<AckBitfield>)
        ensures
            ack == self@.remote,
    {
        if self.heard {
            Some(AckBitfield { latest: self.remote_latest, mask: self.remote_mask })
        } else {
            None
        }
    }

    /// Whether `sequence` is recorded as received from the peer.
    pub fn has_received(&self, sequence: u16) -> (r: bool)
        ensures
            r == window_holds(self@.remote, sequence),
    {
        match self.ack_bitfield() {
            Some(w) => w.covers(sequence),
            None => false,
        }
    }

    /// Takes the records that `rule` picks out of the pending ones, keeping
    /// the order in both parts.
    pub fn extract(&mut self, rule: &Selection) -> (taken: Vec<SentPacket>)
        ensures
            record_views(taken@) == old(self)@.pending.filter(picked(*rule)),
            final(self)@ == old(self)@.without(*rule),
            final(self)@.pending.len() == old(self)@.pending.len() - taken@.len(),
            old(self).wf() ==> final(self).wf(),
    {
        let ghost before = self@.pending;
        let mut source: Vec<SentPacket> = Vec::new();
        core::mem::swap(&mut source, &mut self.pending);
        let n: usize = source.len();
        proof {
            reveal(Seq::filter);
            assert(before.take(n as int) =~= before);
            assert(before.skip(n as int) =~= Seq::<SentPacketView>::empty());
        }
        // The records leave `source` from its end, so both parts are built
        // back to front and turned round afterwards.
        let mut kept_rev: Vec<SentPacket> = Vec::new();
        let mut taken_rev: Vec<SentPacket> = Vec::new();
        while source.len() > 0
            invariant
                n == before.len(),
                source@.len() <= n,
                record_views(source@) == before.take(source@.len() as int),
                record_views(kept_rev@).reverse() == before.skip(source@.len() as int).filter(
                    spared(*rule),
                ),
                record_views(taken_rev@).reverse() == before.skip(source@.len() as int).filter(
                    picked(*rule),
                ),
            decreases source@.len(),
        {
            let ghost m = source@.len() as int;
            let ghost whole = source@;
            let r = source.pop().unwrap();
            proof {
                assert(record_views(whole)[m - 1] == whole[m - 1]@);
                assert(r@ == before[m - 1]);
                assert(record_views(source@) =~= before.take(m - 1));
                lemma_filter_cons(before.skip(m - 1), spared(*rule));
                lemma_filter_cons(before.skip(m - 1), picked(*rule));
                assert(before.skip(m - 1).skip(1) =~= before.skip(m));
            }
            if rule.picks(&r) {
                let ghost prev = record_views(taken_rev@);
                taken_rev.push(r);
                assert(record_views(taken_rev@) =~= prev.push(r@));
                assert(prev.push(r@).reverse() =~= seq![r@] + prev.reverse());
            } else {
                let ghost prev = record_views(kept_rev@);
                kept_rev.push(r);
                assert(record_views(kept_rev@) =~= prev.push(r@));
                assert(prev.push(r@).reverse() =~= seq![r@] + prev.reverse());
            }
        }
        assert(before.skip(0) =~= before);
        let ghost kept_views = record_views(kept_rev@);
        let ghost taken_views = record_views(taken_rev@);
        let kept = reversed(kept_rev);
        let taken = reversed(taken_rev);
        assert(record_views(kept@) =~= kept_views.reverse());
        assert(record_views(taken@) =~= taken_views.reverse());
        self.pending = kept;
        proof {
            lemma_selection_partitions(before, *rule);
            if old(self).wf() {
                lemma_filter_keeps_distinct(before, spared(*rule));
            }
        }
        taken
    }

    /// Assigns the next sequence number to a packet being sent and keeps
    /// its record until it is acknowledged or gathered as dropped. A record
    /// that still held the same number from 65536 packets ago is discarded.
    pub fn register_outgoing(
        &mut self,
        packet_type: PacketType,
        payload: &[u8],
        delivery: DeliveryGuarantee,
        ordering_guarantee: OrderingGuarantee,
        item_identifier: Option<ItemIdentifier>,
        time: u64,
    ) -> (sequence: u16)
        requires
            old(self).wf(),
        ensures
            final(self).wf(),
            sequence == old(self)@.next_sequence,
            final(self)@ == old(self)@.registered(
                packet_type,
                payload@,
                delivery,
                ordering_guarantee,
                item_identifier,
                time,
            ),
    {
        let sequence: u16 = self.sequence_number;
        let rule = Selection::Numbered(sequence);
        let _stale = self.extract(&rule);
        let record = SentPacket {
            sequence,
            packet_type,
            payload: copy_bytes(payload),
            sent_at: time,
            delivery,
            ordering_guarantee,
            item_identifier,
        };
        let ghost rest = self@.pending;
        self.pending.push(record);
        self.sequence_number = sequence.wrapping_add(1);
        proof {
            assert(self@.pending =~= rest.push(record@));
            assert forall|i: int| 0 <= i < rest.len() implies (#[trigger] rest[i]).sequence
                != sequence by {
                old(self)@.pending.lemma_filter_pred(spared(rule), i);
            }
        }
        sequence
    }

    /// Removes the records that `ack` covers and hands them back as
    /// delivered, oldest registration first. Sequence numbers that are not
    /// in flight are passed over.
    pub fn process_incoming(&mut self, ack: AckBitfield) -> (delivered: Vec<SentPacket>)
        ensures
            record_views(delivered@) == old(self)@.pending.filter(
                picked(Selection::AcknowledgedBy(ack)),
            ),
            final(self)@ == old(self)@.without(Selection::AcknowledgedBy(ack)),
            final(self)@.pending.len() == old(self)@.pending.len() - delivered@.len(),
            old(self).wf() ==> final(self).wf(),
    {
        let rule = Selection::AcknowledgedBy(ack);
        self.extract(&rule)
    }

    /// Removes the records that were sent more than `resend_threshold`
    /// milliseconds before `now` and hands them to the caller, who resends
    /// them. A record leaves here once: it comes back only by being
    /// registered again.
    pub fn gather_dropped(&mut self, now: u64, resend_threshold: u64) -> (dropped: Vec<SentPacket>)
        ensures
            record_views(dropped@) == old(self)@.pending.filter(
                picked(Selection::Expired { now, threshold: resend_threshold }),
            ),
            final(self)@ == old(self)@.without(
                Selection::Expired { now, threshold: resend_threshold },
            ),
            final(self)@.pending.len() == old(self)@.pending.len() - dropped@.len(),
            old(self).wf() ==> final(self).wf(),
    {
        let rule = Selection::Expired { now, threshold: resend_threshold };
        self.extract(&rule)
    }

    /// Records that the peer's packet `sequence` arrived.
    pub fn note_received(&mut self, sequence: u16)
        ensures
            final(self)@ == old(self)@.heard(sequence),
            old(self).wf() ==> final(self).wf(),
    {
        if !self.heard {
            self.heard = true;
            self.remote_latest = sequence;
            self.remote_mask = 0;
            return ;
        }
        let ahead: u16 = distance(self.remote_latest, sequence);
        if ahead == 0 {
        } else if ahead < HALF_RANGE {
            let mask: u32 = self.remote_mask;
            if ahead > REDUNDANT_PACKET_ACKS_SIZE {
                self.remote_mask = 0;
            } else if ahead == REDUNDANT_PACKET_ACKS_SIZE {
                self.remote_mask = 1u32 << 31;
            } else {
                let d: u32 = ahead as u32;
                self.remote_mask = (mask << d) | (1u32 << (d - 1));
            }
            self.remote_latest = sequence;
        } else {
            let back: u16 = distance(sequence, self.remote_latest);
            if back <= REDUNDANT_PACKET_ACKS_SIZE {
                let k: u32 = (back - 1) as u32;
                self.remote_mask = self.remote_mask | (1u32 << k);
            }
        }
    }
}

/// What the window holds once `sequence` arrived: `sequence` itself and
/// what it held before, as far as that lies within 32 numbers of the
/// latest one.
pub proof fn lemma_noted_window(window: Option<AckBitfield>, sequence: u16)
    ensures
        noted(window, sequence).latest == latest_after(window, sequence),
        forall|t: u16| #[trigger]
            noted(window, sequence).acknowledges(t) <==> (t == sequence || window_holds(window, t))
                && forward_distance(t, latest_after(window, sequence))
                <= REDUNDANT_PACKET_ACKS_SIZE as int,
{
    let after = noted(window, sequence);
    match window {
        None => {
            assert forall|t: u16| 1 <= forward_distance(t, sequence) <= 32 implies !mask_bit(
                0u32,
                (forward_distance(t, sequence) - 1) as u32,
            ) by {
                lemma_mask_set(0u32, 0u32, (forward_distance(t, sequence) - 1) as u32);
            }
        },
        Some(w) => {
            let ahead = forward_distance(w.latest, sequence);
            let back = forward_distance(sequence, w.latest);
            if ahead == 0 {
            } else if ahead < HALF_RANGE {
                assert forall|t: u16| 1 <= forward_distance(t, sequence) <= 32 implies (mask_bit(
                    after.mask,
                    (forward_distance(t, sequence) - 1) as u32,
                ) <==> w.acknowledges(t)) by {
                    let j = (forward_distance(t, sequence) - 1) as u32;
                    if ahead > 32 {
                        lemma_mask_set(0u32, 0u32, j);
                    } else if ahead == 32 {
                        lemma_mask_set(0u32, 31u32, j);
                    } else {
                        lemma_mask_shift(w.mask, ahead as u32, j);
                    }
                }
            } else if back <= 32 {
                assert forall|t: u16| 1 <= forward_distance(t, w.latest) <= 32 implies (mask_bit(
                    after.mask,
                    (forward_distance(t, w.latest) - 1) as u32,
                ) <==> (t == sequence || mask_bit(
                    w.mask,
                    (forward_distance(t, w.latest) - 1) as u32,
                ))) by {
                    lemma_mask_set(
                        w.mask,
                        (back - 1) as u32,
                        (forward_distance(t, w.latest) - 1) as u32,
                    );
                }
            }
        },
    }
}

/// The window after the peer's packets `sequences` arrived one after
/// another.
pub open spec fn noted_all(window: Option<AckBitfield>, sequences: Seq<u16>) -> Option<
    AckBitfield,
>
    decreases sequences.len(),
{
    if sequences.len() == 0 {
        window
    } else {
        Some(noted(noted_all(window, sequences.drop_last()), sequences.last()))
    }
}

/// The window acknowledges only what arrived: a sequence number that it
/// holds was held at the start or is one of those that arrived since.
pub proof fn lemma_window_holds_only_received(
    window: Option<AckBitfield>,
    sequences: Seq<u16>,
    t: u16,
)
    ensures
        window_holds(noted_all(window, sequences), t) ==> window_holds(window, t)
            || sequences.contains(t),
    decreases sequences.len(),
{
    if sequences.len() > 0 {
        let before = noted_all(window, sequences.drop_last());
        lemma_window_holds_only_received(window, sequences.drop_last(), t);
        lemma_noted_window(before, sequences.last());
        assert(window_holds(Some(noted(before, sequences.last())), t) == noted(
            before,
            sequences.last(),
        ).acknowledges(t));
        if window_holds(noted_all(window, sequences), t) {
            if t == sequences.last() {
                assert(sequences[sequences.len() - 1] == t);
            } else if sequences.drop_last().contains(t) {
                let k = choose|k: int|
                    0 <= k < sequences.drop_last().len() && sequences.drop_last()[k] == t;
                assert(sequences[k] == t);
            }
        }
    }
}

/// Filtering a sequence that starts with `s[0]` filters the rest and puts
/// `s[0]` in front where the predicate holds of it.
proof fn lemma_filter_cons(s: Seq<SentPacketView>, pred: spec_fn(SentPacketView) -> bool)
    requires
        s.len() > 0,
    ensures
        s.filter(pred) == if pred(s[0]) {
            seq![s[0]] + s.skip(1).filter(pred)
        } else {
            s.skip(1).filter(pred)
        },
{
    assert(s =~= seq![s[0]] + s.skip(1));
    Seq::filter_distributes_over_add(seq![s[0]], s.skip(1), pred);
    reveal_with_fuel(Seq::filter, 2);
    assert(seq![s[0]].drop_last() =~= Seq::<SentPacketView>::empty());
    assert(seq![s[0]].filter(pred) =~= if pred(s[0]) {
        seq![s[0]]
    } else {
        Seq::<SentPacketView>::empty()
    });
    assert(Seq::<SentPacketView>::empty() + s.skip(1).filter(pred) =~= s.skip(1).filter(pred));
}

/// Records that were distinct stay distinct when some are filtered out.
pub proof fn lemma_filter_keeps_distinct(
    s: Seq<SentPacketView>,
    pred: spec_fn(SentPacketView) -> bool,
)
    requires
        distinct_sequences(s),
    ensures
        distinct_sequences(s.filter(pred)),
    decreases s.len(),
{
    reveal(Seq::filter);
    if s.len() > 0 {
        let rest = s.drop_last();
        lemma_filter_keeps_distinct(rest, pred);
        let f = rest.filter(pred);
        if pred(s.last()) {
            assert forall|i: int, j: int| 0 <= i < j < f.push(s.last()).len() implies (
            #[trigger] f.push(s.last())[i]).sequence != (#[trigger] f.push(
                s.last(),
            )[j]).sequence by {
                if j == f.len() {
                    rest.lemma_filter_contains_rev(pred, f[i]);
                    let k = choose|k: int| 0 <= k < rest.len() && rest[k] == f[i];
                    assert(s[k] == f[i]);
                    assert(s[s.len() - 1] == s.last());
                }
            }
        }
    }
}


/// Taking the records that a rule picks splits the records in flight in
/// two parts that together hold every record exactly once. So the number in
/// flight goes down by exactly the number taken; what is taken is what the
/// rule picks and what stays is what it spares; and applying the same rule
/// to what stayed takes nothing more. With the rule of an acknowledgment
/// this says that every acknowledged record is removed exactly once, with
/// the rule of expiry that no record is gathered twice.
pub proof fn lemma_selection_partitions(pending: Seq<SentPacketView>, rule: Selection)
    ensures
        pending.filter(spared(rule)).len() == pending.len() - pending.filter(picked(rule)).len(),
        pending.to_multiset() == pending.filter(picked(rule)).to_multiset().add(
            pending.filter(spared(rule)).to_multiset(),
        ),
        forall|i: int|
            0 <= i < pending.filter(picked(rule)).len() ==> rule.selects(
                #[trigger] pending.filter(picked(rule))[i],
            ),
        forall|i: int|
            0 <= i < pending.filter(spared(rule)).len() ==> !rule.selects(
                #[trigger] pending.filter(spared(rule))[i],
            ),
        pending.filter(spared(rule)).filter(picked(rule)) == Seq::<SentPacketView>::empty(),
        pending.filter(spared(rule)).filter(spared(rule)) == pending.filter(spared(rule)),
    decreases pending.len(),
{
    let taken = pending.filter(picked(rule));
    let kept = pending.filter(spared(rule));
    assert forall|i: int| 0 <= i < taken.len() implies rule.selects(#[trigger] taken[i]) by {
        pending.lemma_filter_pred(picked(rule), i);
    }
    assert forall|i: int| 0 <= i < kept.len() implies !rule.selects(#[trigger] kept[i]) by {
        pending.lemma_filter_pred(spared(rule), i);
    }
    lemma_filter_none(kept, picked(rule));
    lemma_filter_all(kept, spared(rule));
    broadcast use vstd::multiset::group_multiset_axioms;

    if pending.len() == 0 {
        reveal(Seq::filter);
        pending.to_multiset_ensures();
        assert forall|r: SentPacketView| pending.to_multiset().count(r) == 0 by {
            assert(!pending.contains(r));
        }
        assert(taken.to_multiset().add(kept.to_multiset()) =~= pending.to_multiset());
    } else {
        let rest = pending.drop_last();
        let last = pending.last();
        lemma_selection_partitions(rest, rule);
        assert(pending =~= rest.push(last));
        rest.lemma_filter_push(last, picked(rule));
        rest.lemma_filter_push(last, spared(rule));
        vstd::seq_lib::to_multiset_build(rest, last);
        vstd::seq_lib::to_multiset_build(rest.filter(picked(rule)), last);
        vstd::seq_lib::to_multiset_build(rest.filter(spared(rule)), last);
        assert(taken.to_multiset().add(kept.to_multiset()) =~= pending.to_multiset());
    }
}

/// A filter takes nothing from a sequence whose elements all fail it.
proof fn lemma_filter_none(s: Seq<SentPacketView>, pred: spec_fn(SentPacketView) -> bool)
    requires
        forall|i: int| 0 <= i < s.len() ==> !pred(#[trigger] s[i]),
    ensures
        s.filter(pred) == Seq::<SentPacketView>::empty(),
    decreases s.len(),
{
    reveal(Seq::filter);
    if s.len() > 0 {
        lemma_filter_none(s.drop_last(), pred);
    }
}

/// A filter keeps a sequence whose elements all pass it.
proof fn lemma_filter_all(s: Seq<SentPacketView>, pred: spec_fn(SentPacketView) -> bool)
    requires
        forall|i: int| 0 <= i < s.len() ==> pred(#[trigger] s[i]),
    ensures
        s.filter(pred) == s,
    decreases s.len(),
{
    reveal(Seq::filter);
    if s.len() > 0 {
        lemma_filter_all(s.drop_last(), pred);
        assert(s.drop_last().push(s.last()) =~= s);
    }
}

} // verus!
