//! What holds when fragments are accepted one after another: a group is
//! handed out exactly when its last missing fragment arrives, in whatever
//! order the fragments come, and its bytes are those of the payload that
//! was split.

use vstd::prelude::*;
use crate::error::ErrorKind;
use crate::fragmenter::{
    accept_spec, all_present, assemble, empty_slots, fragments_needed, piece, split_spec,
    splittable, FragmentView, Slots,
};

verus! {

/// The partial groups after `fragments` were accepted one after another,
/// starting from `groups`.
pub open spec fn groups_after(groups: Map<u16, Slots>, fragments: Seq<FragmentView>) -> Map<
    u16,
    Slots,
>
    decreases fragments.len(),
{
    if fragments.len() == 0 {
        groups
    } else {
        accept_spec(groups_after(groups, fragments.drop_last()), fragments.last()).groups
    }
}

/// What accepting `fragments[k]` returns, after the fragments before it
/// were accepted starting from `groups`.
pub open spec fn outcome_at(groups: Map<u16, Slots>, fragments: Seq<FragmentView>, k: int) -> Result<
    Option<Seq<u8>>,
    ErrorKind,
> {
    accept_spec(groups_after(groups, fragments.take(k)), fragments[k]).outcome
}

/// The slots of a group of `total` fragments after `fragments` took their
/// places, a later fragment replacing an earlier one with the same index.
pub open spec fn filled(total: nat, fragments: Seq<FragmentView>) -> Slots
    decreases fragments.len(),
{
    if fragments.len() == 0 {
        empty_slots(total)
    } else {
        filled(total, fragments.drop_last()).update(
            fragments.last().index as int,
            Some(fragments.last().payload),
        )
    }
}

/// Groups are kept apart: accepting a fragment touches no group but its own.
pub proof fn lemma_groups_are_kept_apart(
    groups: Map<u16, Slots>,
    fragment: FragmentView,
    other: u16,
)
    requires
        other != fragment.group_id,
    ensures
        accept_spec(groups, fragment).groups.contains_key(other) == groups.contains_key(other),
        groups.contains_key(other) ==> accept_spec(groups, fragment).groups[other] == groups[other],
{
}

/// `order` names each of the indices `0..n` exactly once.
pub open spec fn is_permutation(order: Seq<int>, n: nat) -> bool {
    &&& order.len() == n
    &&& forall|k: int| 0 <= k < order.len() ==> 0 <= #[trigger] order[k] < n
    &&& forall|j: int, k: int|
        0 <= j < k < order.len() ==> #[trigger] order[j] != #[trigger] order[k]
}

/// The fragments of a payload, taken in the given order.
pub open spec fn shuffled(fragments: Seq<FragmentView>, order: Seq<int>) -> Seq<FragmentView> {
    Seq::new(order.len(), |k: int| fragments[order[k]])
}

/// The slots that `filled` builds have the group's length, and a slot holds
/// the payload of a fragment that names it when all fragments that name it
/// carry that payload.
proof fn lemma_filled_slot(total: nat, fragments: Seq<FragmentView>, i: int, bytes: Seq<u8>)
    requires
        0 <= i < total,
        forall|k: int| 0 <= k < fragments.len() ==> (#[trigger] fragments[k]).index < total,
        forall|k: int|
            0 <= k < fragments.len() && (#[trigger] fragments[k]).index == i ==> fragments[k].payload
                == bytes,
    ensures
        filled(total, fragments).len() == total,
        (exists|k: int| 0 <= k < fragments.len() && (#[trigger] fragments[k]).index == i)
            ==> filled(total, fragments)[i] == Some(bytes),
        (forall|k: int| 0 <= k < fragments.len() ==> (#[trigger] fragments[k]).index != i)
            ==> filled(total, fragments)[i] is None,
    decreases fragments.len(),
{
    if fragments.len() > 0 {
        let rest = fragments.drop_last();
        assert forall|k: int| 0 <= k < rest.len() && (#[trigger] rest[k]).index == i implies rest[k].payload
            == bytes by {
            assert(rest[k] == fragments[k]);
        }
        assert forall|k: int| 0 <= k < rest.len() implies (#[trigger] rest[k]).index < total by {
            assert(rest[k] == fragments[k]);
        }
        lemma_filled_slot(total, rest, i, bytes);
        let last = fragments.last();
        assert(last == fragments[fragments.len() - 1]);
        if last.index == i {
            assert(last.payload == bytes);
        } else {
            if exists|k: int| 0 <= k < fragments.len() && (#[trigger] fragments[k]).index == i {
                let k = choose|k: int|
                    0 <= k < fragments.len() && (#[trigger] fragments[k]).index == i;
                assert(rest[k].index == i);
            } else {
                assert forall|k: int| 0 <= k < rest.len() implies (#[trigger] rest[k]).index
                    != i by {
                    assert(rest[k] == fragments[k]);
                }
            }
        }
    }
}

/// While an index of a group is missing, accepting well-formed fragments of
/// that group returns nothing and keeps the group with the slots filled so
/// far.
proof fn lemma_partial_feed(
    groups: Map<u16, Slots>,
    fragments: Seq<FragmentView>,
    group_id: u16,
    total: u8,
    missing: u8,
)
    requires
        !groups.contains_key(group_id),
        missing < total,
        forall|k: int|
            0 <= k < fragments.len() ==> {
                &&& (#[trigger] fragments[k]).group_id == group_id
                &&& fragments[k].total == total
                &&& fragments[k].index < total
                &&& fragments[k].index != missing
            },
    ensures
        forall|k: int| 0 <= k < fragments.len() ==> #[trigger] outcome_at(groups, fragments, k) == Ok::<
            Option<Seq<u8>>,
            ErrorKind,
        >(None),
        groups_after(groups, fragments) == if fragments.len() == 0 {
            groups
        } else {
            groups.insert(group_id, filled(total as nat, fragments))
        },
    decreases fragments.len(),
{
    if fragments.len() > 0 {
        let rest = fragments.drop_last();
        let last = fragments.last();
        lemma_partial_feed(groups, rest, group_id, total, missing);
        lemma_filled_slot(total as nat, rest, missing as int, Seq::<u8>::empty());
        lemma_filled_slot(total as nat, fragments, missing as int, Seq::<u8>::empty());
        let before = groups_after(groups, rest);
        let slots = if before.contains_key(group_id) {
            before[group_id]
        } else {
            empty_slots(total as nat)
        };
        assert(slots == filled(total as nat, rest));
        let next = slots.update(last.index as int, Some(last.payload));
        assert(next == filled(total as nat, fragments));
        assert(next[missing as int] is None);
        assert(!all_present(next));
        assert(groups_after(groups, fragments) =~= groups.insert(group_id, next));
        assert forall|k: int| 0 <= k < fragments.len() implies #[trigger] outcome_at(
            groups,
            fragments,
            k,
        ) == Ok::<Option<Seq<u8>>, ErrorKind>(None) by {
            if k < rest.len() {
                assert(fragments.take(k) =~= rest.take(k));
                assert(outcome_at(groups, rest, k) == Ok::<Option<Seq<u8>>, ErrorKind>(None));
            } else {
                assert(fragments.take(k) =~= rest);
            }
        }
    }
}

/// A group that lacks an index hands out no payload, however many
/// fragments arrive for its other indices and however often they repeat.
/// The group may be partly filled already; the fragments may even carry
/// indices beyond the group's count, which are refused.
pub proof fn lemma_missing_index_blocks_reassembly(
    groups: Map<u16, Slots>,
    fragments: Seq<FragmentView>,
    group_id: u16,
    total: u8,
    missing: u8,
)
    requires
        missing < total,
        groups.contains_key(group_id) ==> groups[group_id].len() == total
            && groups[group_id][missing as int] is None,
        forall|k: int|
            0 <= k < fragments.len() ==> {
                &&& (#[trigger] fragments[k]).group_id == group_id
                &&& fragments[k].total == total
                &&& fragments[k].index != missing
            },
    ensures
        forall|k: int|
            0 <= k < fragments.len() ==> !(#[trigger] outcome_at(groups, fragments, k) matches Ok(
                Some(_),
            )),
        groups_after(groups, fragments).contains_key(group_id) ==> groups_after(
            groups,
            fragments,
        )[group_id].len() == total && groups_after(groups, fragments)[group_id][missing as int] is None,
    decreases fragments.len(),
{
    if fragments.len() > 0 {
        let rest = fragments.drop_last();
        let last = fragments.last();
        lemma_missing_index_blocks_reassembly(groups, rest, group_id, total, missing);
        let before = groups_after(groups, rest);
        let slots = if before.contains_key(group_id) {
            before[group_id]
        } else {
            empty_slots(total as nat)
        };
        if last.index < total {
            let next = slots.update(last.index as int, Some(last.payload));
            assert(next[missing as int] is None);
            assert(!all_present(next));
        }
        assert forall|k: int| 0 <= k < fragments.len() implies !(#[trigger] outcome_at(
            groups,
            fragments,
            k,
        ) matches Ok(Some(_))) by {
            if k < rest.len() {
                assert(fragments.take(k) =~= rest.take(k));
                assert(!(outcome_at(groups, rest, k) matches Ok(Some(_))));
            } else {
                assert(fragments.take(k) =~= rest);
            }
        }
    }
}

/// The first `k` fragments of a payload, put together, are the payload's
/// bytes up to the end of fragment `k - 1`.
proof fn lemma_assemble_pieces(payload: Seq<u8>, max: nat, k: nat)
    requires
        payload.len() > 0,
        max > 0,
        k <= fragments_needed(payload.len(), max),
    ensures
        assemble(Seq::new(k, |i: int| Some(piece(payload, max, i as nat)))) == payload.subrange(
            0,
            if k * max < payload.len() {
                (k * max) as int
            } else {
                payload.len() as int
            },
        ),
    decreases k,
{
    let slots = Seq::new(k, |i: int| Some(piece(payload, max, i as nat)));
    if k == 0 {
        assert(0 * max == 0) by (nonlinear_arith);
        assert(payload.subrange(0, 0) =~= Seq::<u8>::empty());
    } else {
        let j = (k - 1) as nat;
        lemma_assemble_pieces(payload, max, j);
        assert(slots.drop_last() =~= Seq::new(j, |i: int| Some(piece(payload, max, i as nat))));
        assert(slots.last() == Some(piece(payload, max, j)));
        assert((j + 1) * max == j * max + max) by (nonlinear_arith);
        assert(j * max >= 0) by (nonlinear_arith);
        let start = if j * max < payload.len() {
            (j * max) as int
        } else {
            payload.len() as int
        };
        let end = if k * max < payload.len() {
            (k * max) as int
        } else {
            payload.len() as int
        };
        assert(payload.subrange(0, start) + payload.subrange(start, end) =~= payload.subrange(
            0,
            end,
        ));
    }
}

/// A payload needs at least one fragment, and its fragments reach its end.
pub proof fn lemma_fragments_cover(len: nat, max: nat)
    requires
        len == 0 || max > 0,
    ensures
        fragments_needed(len, max) >= 1,
        fragments_needed(len, max) * max >= len,
{
    if len > 0 {
        let q = len / max;
        let r = len % max;
        vstd::arithmetic::div_mod::lemma_fundamental_div_mod(len as int, max as int);
        if r > 0 {
            assert((q + 1) * max >= max * q + r) by (nonlinear_arith)
                requires
                    r < max,
            ;
        } else {
            assert(q * max == max * q) by (nonlinear_arith);
            assert(q >= 1) by (nonlinear_arith)
                requires
                    max * q > 0,
                    max > 0,
                    q >= 0,
            ;
        }
    } else {
        assert(1 * max >= 0) by (nonlinear_arith);
    }
}

/// The fragments of a payload, put together in index order, are the payload.
pub proof fn lemma_pieces_make_payload(payload: Seq<u8>, max: nat)
    requires
        payload.len() == 0 || max > 0,
    ensures
        assemble(
            Seq::new(
                fragments_needed(payload.len(), max),
                |i: int| Some(piece(payload, max, i as nat)),
            ),
        ) == payload,
{
    let n = fragments_needed(payload.len(), max);
    let slots = Seq::new(n, |i: int| Some(piece(payload, max, i as nat)));
    if payload.len() == 0 {
        assert(slots.drop_last() =~= Seq::<Option<Seq<u8>>>::empty());
        assert(piece(payload, max, 0) =~= Seq::<u8>::empty());
        assert(assemble(slots.drop_last()) =~= Seq::<u8>::empty());
        assert(assemble(slots) =~= payload);
    } else {
        lemma_assemble_pieces(payload, max, n);
        lemma_fragments_cover(payload.len(), max);
        assert(payload.subrange(0, payload.len() as int) =~= payload);
    }
}

/// A sequence that names `n` indices below `n` without repeating one names
/// every index below `n`.
proof fn lemma_permutation_covers(order: Seq<int>, n: nat, i: int)
    requires
        is_permutation(order, n),
        0 <= i < n,
    ensures
        exists|k: int| 0 <= k < order.len() && #[trigger] order[k] == i,
{
    assert(order.no_duplicates());
    order.unique_seq_to_set();
    vstd::set_lib::lemma_int_range(0, n as int);
    let range = vstd::set_lib::set_int_range(0, n as int);
    assert(order.to_set().subset_of(range)) by {
        assert forall|x: int| order.to_set().contains(x) implies range.contains(x) by {
            let k = choose|k: int| 0 <= k < order.len() && order[k] == x;
            assert(0 <= order[k] < n);
        }
    }
    vstd::set_lib::lemma_len_subset(order.to_set(), range);
    vstd::set_lib::lemma_subset_equality(order.to_set(), range);
    assert(range.contains(i));
    assert(order.to_set().contains(i));
    assert(order.contains(i));
}

/// The fragments of a payload, accepted in any order by an engine that
/// holds no group of their id, return nothing until the last one arrives
/// and then the payload, byte for byte. The engine's other groups are as
/// they were.
pub proof fn lemma_reassembly_in_any_order(
    groups: Map<u16, Slots>,
    payload: Seq<u8>,
    max: nat,
    group_id: u16,
    order: Seq<int>,
)
    requires
        splittable(payload.len(), max),
        !groups.contains_key(group_id),
        is_permutation(order, fragments_needed(payload.len(), max)),
    ensures
        ({
            let fed = shuffled(split_spec(payload, max, group_id), order);
            &&& forall|k: int|
                0 <= k < fed.len() - 1 ==> #[trigger] outcome_at(groups, fed, k) == Ok::<
                    Option<Seq<u8>>,
                    ErrorKind,
                >(None)
            &&& outcome_at(groups, fed, fed.len() - 1) == Ok::<Option<Seq<u8>>, ErrorKind>(
                Some(payload),
            )
            &&& groups_after(groups, fed) == groups
        }),
{
    let n = fragments_needed(payload.len(), max);
    lemma_fragments_cover(payload.len(), max);
    assert(1 <= n <= 255);
    let all = split_spec(payload, max, group_id);
    let fed = shuffled(all, order);
    let total = n as u8;
    let last = fed[n - 1];
    let missing = last.index;
    let early = fed.take(n - 1);
    assert(order[n - 1] == missing as int);
    assert forall|k: int| 0 <= k < early.len() implies {
        &&& (#[trigger] early[k]).group_id == group_id
        &&& early[k].total == total
        &&& early[k].index < total
        &&& early[k].index != missing
    } by {
        assert(early[k] == all[order[k]]);
        assert(order[k] != order[n - 1]);
    }
    lemma_partial_feed(groups, early, group_id, total, missing);
    assert forall|k: int| 0 <= k < fed.len() - 1 implies #[trigger] outcome_at(groups, fed, k)
        == Ok::<Option<Seq<u8>>, ErrorKind>(None) by {
        assert(fed.take(k) =~= early.take(k));
        assert(outcome_at(groups, early, k) == Ok::<Option<Seq<u8>>, ErrorKind>(None));
    }
    let before = groups_after(groups, early);
    let slots = if before.contains_key(group_id) {
        before[group_id]
    } else {
        empty_slots(n)
    };
    assert(fed.drop_last() =~= early);
    lemma_filled_slot(n, early, missing as int, Seq::<u8>::empty());
    assert(slots == filled(n, early));
    let full = slots.update(missing as int, Some(last.payload));
    assert(full == filled(n, fed));
    let pieces = Seq::new(n, |i: int| Some(piece(payload, max, i as nat)));
    assert forall|i: int| 0 <= i < n implies #[trigger] full[i] == pieces[i] by {
        assert forall|k: int| 0 <= k < fed.len() && (#[trigger] fed[k]).index == i implies fed[k].payload
            == piece(payload, max, i as nat) by {
            assert(fed[k] == all[order[k]]);
        }
        assert forall|k: int| 0 <= k < fed.len() implies (#[trigger] fed[k]).index < n by {
            assert(fed[k] == all[order[k]]);
        }
        lemma_permutation_covers(order, n, i);
        let k = choose|k: int| 0 <= k < order.len() && #[trigger] order[k] == i;
        assert(fed[k].index == i);
        lemma_filled_slot(n, fed, i, piece(payload, max, i as nat));
    }
    assert(full =~= pieces);
    assert(all_present(full));
    lemma_pieces_make_payload(payload, max);
    assert(fed.take(fed.len() - 1) =~= early);
    assert(groups_after(groups, fed) =~= groups) by {
        if early.len() == 0 {
        } else {
            assert(groups.insert(group_id, filled(n, early)).remove(group_id) =~= groups);
        }
    }
}

} // verus!
