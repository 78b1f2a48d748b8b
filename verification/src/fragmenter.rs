//! Splitting payloads that exceed a datagram into numbered fragments, and
//! putting received fragments back together.

use std::collections::HashMap;
use vstd::prelude::*;
use crate::error::ErrorKind;
use crate::packet::copy_bytes;

verus! {

broadcast use vstd::std_specs::hash::group_hash_axioms;

/// The largest number of fragments that the count field of a header holds.
pub const MAX_FRAGMENTS: usize = 255;

/// One piece of a payload that was split.
#[derive(Debug, PartialEq, Eq)]
pub struct Fragment {
    /// Shared by the fragments of one payload.
    pub group_id: u16,
    /// The fragment's place in the payload, from 0.
    pub index: u8,
    /// The number of fragments in the group.
    pub total: u8,
    pub payload: Vec<u8>,
}

/// The mathematical content of a [`Fragment`].
pub struct FragmentView {
    pub group_id: u16,
    pub index: u8,
    pub total: u8,
    pub payload: Seq<u8>,
}

impl View for Fragment {
    type V = FragmentView;

    open spec fn view(&self) -> FragmentView {
        FragmentView {
            group_id: self.group_id,
            index: self.index,
            total: self.total,
            payload: self.payload@,
        }
    }
}

impl Clone for Fragment {
    fn clone(&self) -> (copy: Fragment)
        ensures
            copy@ == self@,
    {
        Fragment {
            group_id: self.group_id,
            index: self.index,
            total: self.total,
            payload: copy_bytes(self.payload.as_slice()),
        }
    }
}

/// The contents of a list of fragments.
pub open spec fn fragment_views(fragments: Seq<Fragment>) -> Seq<FragmentView> {
    fragments.map_values(|f: Fragment| f@)
}

/// The number of fragments that a payload of `len` bytes is split into when
/// a fragment holds at most `max` bytes. An empty payload travels as one
/// empty fragment.
pub open spec fn fragments_needed(len: nat, max: nat) -> nat
    recommends
        len == 0 || max > 0,
{
    if len == 0 {
        1
    } else if len % max > 0 {
        len / max + 1
    } else {
        len / max
    }
}

/// Whether a payload of `len` bytes can be split into fragments of at most
/// `max` bytes whose number fits the count field.
pub open spec fn splittable(len: nat, max: nat) -> bool {
    len == 0 || (max > 0 && fragments_needed(len, max) <= MAX_FRAGMENTS)
}

/// The bytes of `payload` that fragment `i` carries.
pub open spec fn piece(payload: Seq<u8>, max: nat, i: nat) -> Seq<u8> {
    let start = if i * max < payload.len() {
        i * max
    } else {
        payload.len()
    };
    let end = if (i + 1) * max < payload.len() {
        (i + 1) * max
    } else {
        payload.len()
    };
    payload.subrange(start as int, end as int)
}

/// The fragments of `payload`, in index order.
pub open spec fn split_spec(payload: Seq<u8>, max: nat, group_id: u16) -> Seq<FragmentView> {
    Seq::new(
        fragments_needed(payload.len(), max),
        |i: int|
            FragmentView {
                group_id,
                index: i as u8,
                total: fragments_needed(payload.len(), max) as u8,
                payload: piece(payload, max, i as nat),
            },
    )
}

/// The places of a group's fragments: `None` where a fragment is missing.
pub type Slots = Seq<Option<Seq<u8>>>;

/// The slots of a group of `total` fragments of which none has arrived.
pub open spec fn empty_slots(total: nat) -> Slots {
    Seq::new(total, |i: int| None::<Seq<u8>>)
}

/// Whether every fragment of the group has arrived.
pub open spec fn all_present(slots: Slots) -> bool {
    forall|i: int| 0 <= i < slots.len() ==> (#[trigger] slots[i]) is Some
}

/// The fragments' bytes in index order.
pub open spec fn assemble(slots: Slots) -> Seq<u8>
    decreases slots.len(),
{
    if slots.len() == 0 {
        Seq::<u8>::empty()
    } else {
        assemble(slots.drop_last()) + (match slots.last() {
            Some(bytes) => bytes,
            None => Seq::<u8>::empty(),
        })
    }
}

/// Every group has between 1 and 255 slots and lacks at least one fragment.
pub open spec fn groups_partial(groups: Map<u16, Slots>) -> bool {
    forall|id: u16| #[trigger]
        groups.contains_key(id) ==> 1 <= groups[id].len() <= MAX_FRAGMENTS && !all_present(
            groups[id],
        )
}

/// What accepting a fragment leads to: the groups kept afterwards, and
/// what the caller gets.
pub struct Accepted {
    pub groups: Map<u16, Slots>,
    pub outcome: Result<Option<Seq<u8>>, ErrorKind>,
}

/// Accepting `fragment` while the partial groups are `groups`.
///
/// A fragment whose index is not below its count, or whose count differs
/// from the number of slots of its group, is refused and changes nothing.
/// Otherwise it takes its slot, replacing what was there. If that fills the
/// group, the payload is handed out and the group forgotten.
pub open spec fn accept_spec(groups: Map<u16, Slots>, fragment: FragmentView) -> Accepted {
    let slots = if groups.contains_key(fragment.group_id) {
        groups[fragment.group_id]
    } else {
        empty_slots(fragment.total as nat)
    };
    if fragment.index >= fragment.total || slots.len() != fragment.total {
        Accepted { groups, outcome: Err(ErrorKind::FragmentGroupMismatch) }
    } else {
        let filled = slots.update(fragment.index as int, Some(fragment.payload));
        if all_present(filled) {
            Accepted {
                groups: groups.remove(fragment.group_id),
                outcome: Ok(Some(assemble(filled))),
            }
        } else {
            Accepted { groups: groups.insert(fragment.group_id, filled), outcome: Ok(None) }
        }
    }
}

/// The contents of a group's slots as stored.
pub open spec fn slots_view(slots: Seq<Option<Vec<u8>>>) -> Slots {
    slots.map_values(
        |slot: Option<Vec<u8>>|
            match slot {
                Some(bytes) => Some(bytes@),
                None => None,
            },
    )
}

/// The contents of what `accept` returns.
pub open spec fn outcome_view(outcome: Result<Option<Vec<u8>>, ErrorKind>) -> Result<
    Option<Seq<u8>>,
    ErrorKind,
> {
    match outcome {
        Ok(Some(bytes)) => Ok(Some(bytes@)),
        Ok(None) => Ok(None),
        Err(e) => Err(e),
    }
}

/// Splits payloads and reassembles the fragments of each group.
pub struct Fragmentation {
    groups: HashMap<u16, Vec<Option<Vec<u8>>>>,
}

impl View for Fragmentation {
    type V = Map<u16, Slots>;

    closed spec fn view(&self) -> Map<u16, Slots> {
        self.groups@.map_values(|slots: Vec<Option<Vec<u8>>>| slots_view(slots@))
    }
}

/// The bytes of `bytes` from `start` up to `end`.
fn copy_range(bytes: &[u8], start: usize, end: usize) -> (out: Vec<u8>)
    requires
        start <= end <= bytes@.len(),
    ensures
        out@ == bytes@.subrange(start as int, end as int),
{
    let mut out: Vec<u8> = Vec::new();
    let mut i: usize = start;
    while i < end
        invariant
            start <= i <= end <= bytes@.len(),
            out@ == bytes@.subrange(start as int, i as int),
        decreases end - i,
    {
        out.push(bytes[i]);
        i += 1;
        assert(bytes@.subrange(start as int, i as int) =~= bytes@.subrange(
            start as int,
            i as int - 1,
        ).push(bytes@[i as int - 1]));
    }
    out
}

/// Fragment `i` starts within the payload, and the fragments before the
/// last are full.
proof fn lemma_piece_bounds(len: nat, max: nat, i: nat)
    requires
        len > 0,
        max > 0,
        i < fragments_needed(len, max),
    ensures
        i * max < len,
        i + 1 < fragments_needed(len, max) ==> (i + 1) * max < len,
        i + 1 == fragments_needed(len, max) ==> (i + 1) * max >= len,
        (i + 1) * max == i * max + max,
{
    let q = len / max;
    let r = len % max;
    assert(len == q * max + r) by (nonlinear_arith)
        requires
            q == len / max,
            r == len % max,
            max > 0,
    ;
    assert((i + 1) * max == i * max + max) by (nonlinear_arith);
    if r > 0 {
        assert(i <= q);
        assert(i * max <= q * max) by (nonlinear_arith)
            requires
                i <= q,
        ;
        if i + 1 <= q {
            assert((i + 1) * max <= q * max) by (nonlinear_arith)
                requires
                    i + 1 <= q,
            ;
        } else {
            assert((i + 1) * max == q * max + max) by (nonlinear_arith)
                requires
                    i == q,
            ;
        }
    } else {
        assert(i + 1 <= q);
        assert((i + 1) * max <= q * max) by (nonlinear_arith)
            requires
                i + 1 <= q,
        ;
        if i + 1 == q {
        } else {
            assert((i + 2) * max <= q * max) by (nonlinear_arith)
                requires
                    i + 2 <= q,
            ;
            assert((i + 2) * max == (i + 1) * max + max) by (nonlinear_arith);
        }
    }
}

impl Fragmentation {
    /// The engine's invariant: every group that is kept is partial.
    pub open spec fn wf(&self) -> bool {
        groups_partial(self@)
    }

    /// An engine that holds no partial group.
    pub fn new() -> (f: Fragmentation)
        ensures
            f.wf(),
            f@ == Map::<u16, Slots>::empty(),
    {
        let f = Fragmentation { groups: HashMap::new() };
        assert(f@ =~= Map::<u16, Slots>::empty());
        f
    }

    /// Splits `payload` into fragments of at most `max_fragment_size`
    /// bytes, numbered from 0 and all marked with `group_id`. Fails with
    /// `PayloadTooLarge` when more than 255 fragments would be needed.
    pub fn split(payload: &[u8], max_fragment_size: usize, group_id: u16) -> (r: Result<
        Vec<Fragment>,
        ErrorKind,
    >)
        ensures
            match r {
                Ok(fragments) => splittable(payload@.len(), max_fragment_size as nat)
                    && fragment_views(fragments@) == split_spec(
                    payload@,
                    max_fragment_size as nat,
                    group_id,
                ),
                Err(e) => !splittable(payload@.len(), max_fragment_size as nat) && e
                    == ErrorKind::PayloadTooLarge,
            },
    {
        let len: usize = payload.len();
        let max: usize = max_fragment_size;
        let mut fragments: Vec<Fragment> = Vec::new();
        if len == 0 {
            let only = Fragment { group_id, index: 0, total: 1, payload: Vec::new() };
            fragments.push(only);
            assert(payload@.subrange(0, 0) =~= Seq::<u8>::empty());
            assert(fragment_views(fragments@) =~= split_spec(payload@, max as nat, group_id));
            return Ok(fragments);
        }
        if max == 0 {
            return Err(ErrorKind::PayloadTooLarge);
        }
        let full: usize = len / max;
        proof {
            vstd::arithmetic::div_mod::lemma_fundamental_div_mod(len as int, max as int);
            assert(max * full >= full) by (nonlinear_arith)
                requires
                    max >= 1,
                    full >= 0,
            ;
        }
        let count: usize = if len % max > 0 {
            full + 1
        } else {
            full
        };
        if count > MAX_FRAGMENTS {
            return Err(ErrorKind::PayloadTooLarge);
        }
        let mut i: usize = 0;
        let mut start: usize = 0;
        while i < count
            invariant
                len == payload@.len(),
                len > 0,
                max > 0,
                count == fragments_needed(len as nat, max as nat),
                count <= MAX_FRAGMENTS,
                i <= count,
                start == (if i * max < len {
                    i * max
                } else {
                    len as int
                }),
                fragment_views(fragments@) == split_spec(payload@, max as nat, group_id).take(
                    i as int,
                ),
            decreases count - i,
        {
            proof {
                lemma_piece_bounds(len as nat, max as nat, i as nat);
            }
            let end: usize = if len - start > max {
                start + max
            } else {
                len
            };
            let bytes = copy_range(payload, start, end);
            let fragment = Fragment { group_id, index: i as u8, total: count as u8, payload: bytes };
            let ghost before = fragment_views(fragments@);
            fragments.push(fragment);
            proof {
                let all = split_spec(payload@, max as nat, group_id);
                assert(fragment@ == all[i as int]);
                assert(fragment_views(fragments@) =~= before.push(fragment@));
                assert(all.take(i as int + 1) =~= all.take(i as int).push(all[i as int]));
            }
            i += 1;
            start = end;
        }
        proof {
            let all = split_spec(payload@, max as nat, group_id);
            assert(all.take(count as int) =~= all);
        }
        Ok(fragments)
    }

    /// Stores `fragment` in its group and hands out the payload when the
    /// group is complete, forgetting the group.
    pub fn accept(&mut self, fragment: Fragment) -> (r: Result<Option<Vec<u8>>, ErrorKind>)
        ensures
            final(self)@ == accept_spec(old(self)@, fragment@).groups,
            outcome_view(r) == accept_spec(old(self)@, fragment@).outcome,
            old(self).wf() ==> final(self).wf(),
    {
        let id: u16 = fragment.group_id;
        let total: usize = fragment.total as usize;
        let index: usize = fragment.index as usize;
        if index >= total {
            return Err(ErrorKind::FragmentGroupMismatch);
        }
        let ghost before = self@;
        let stored = self.groups.remove(&id);
        let mut slots: Vec<Option<Vec<u8>>> = match stored {
            Some(slots) => slots,
            None => vacant_slots(total),
        };
        if slots.len() != total {
            self.groups.insert(id, slots);
            assert(self@ =~= before);
            return Err(ErrorKind::FragmentGroupMismatch);
        }
        let ghost unfilled = slots_view(slots@);
        slots.set(index, Some(fragment.payload));
        assert(slots_view(slots@) =~= unfilled.update(index as int, Some(fragment@.payload)));
        if is_complete(&slots) {
            let payload = join(&slots);
            assert(self@ =~= before.remove(id));
            Ok(Some(payload))
        } else {
            let ghost filled = slots_view(slots@);
            self.groups.insert(id, slots);
            assert(self@ =~= before.insert(id, filled));
            Ok(None)
        }
    }

    /// The number of groups that wait for fragments.
    pub fn partial_groups(&self) -> (n: usize)
        ensures
            n == self@.dom().len(),
    {
        assert(self@.dom() =~= self.groups@.dom());
        self.groups.len()
    }
}

/// Slots for `total` fragments, all of them missing.
fn vacant_slots(total: usize) -> (slots: Vec<Option<Vec<u8>>>)
    ensures
        slots_view(slots@) == empty_slots(total as nat),
{
    let mut slots: Vec<Option<Vec<u8>>> = Vec::new();
    let mut i: usize = 0;
    while i < total
        invariant
            i <= total,
            slots@.len() == i,
            forall|k: int| 0 <= k < i ==> (#[trigger] slots@[k]) is None,
        decreases total - i,
    {
        slots.push(None);
        i += 1;
    }
    assert(slots_view(slots@) =~= empty_slots(total as nat));
    slots
}

/// Whether no slot is empty.
fn is_complete(slots: &Vec<Option<Vec<u8>>>) -> (r: bool)
    ensures
        r == all_present(slots_view(slots@)),
{
    let mut i: usize = 0;
    while i < slots.len()
        invariant
            i <= slots@.len(),
            forall|k: int| 0 <= k < i ==> (#[trigger] slots_view(slots@)[k]) is Some,
        decreases slots@.len() - i,
    {
        if slots[i].is_none() {
            assert(slots_view(slots@)[i as int] is None);
            return false;
        }
        i += 1;
    }
    true
}

/// The bytes of the slots in index order.
fn join(slots: &Vec<Option<Vec<u8>>>) -> (out: Vec<u8>)
    ensures
        out@ == assemble(slots_view(slots@)),
{
    let mut out: Vec<u8> = Vec::new();
    let mut i: usize = 0;
    let ghost all = slots_view(slots@);
    while i < slots.len()
        invariant
            i <= slots@.len(),
            all == slots_view(slots@),
            out@ == assemble(all.take(i as int)),
        decreases slots@.len() - i,
    {
        let ghost done = out@;
        match &slots[i] {
            Some(bytes) => {
                let mut k: usize = 0;
                while k < bytes.len()
                    invariant
                        k <= bytes@.len(),
                        out@ == done + bytes@.take(k as int),
                    decreases bytes@.len() - k,
                {
                    out.push(bytes[k]);
                    k += 1;
                    assert(done + bytes@.take(k as int) =~= (done + bytes@.take(k as int - 1)).push(
                        bytes@[k as int - 1],
                    ));
                }
                assert(bytes@.take(bytes@.len() as int) =~= bytes@);
            },
            None => {
                assert(done + Seq::<u8>::empty() =~= done);
            },
        }
        i += 1;
        assert(all.take(i as int).drop_last() =~= all.take(i as int - 1));
    }
    assert(all.take(slots@.len() as int) =~= all);
    out
}

} // verus!
