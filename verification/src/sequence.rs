//! Wrapping sequence numbers and their modular order.

use vstd::prelude::*;

verus! {

/// A wrapping counter assigned to outgoing packets.
pub type SequenceNumber = u16;

/// Half of the sequence space: two numbers further apart than this are
/// ordered the other way round.
pub const HALF_RANGE: u16 = 32768;

/// The number of steps from `from` forward to `to`, wrapping at 65536.
pub open spec fn forward_distance(from: u16, to: u16) -> int {
    (to as int - from as int) % 65536
}

/// `s1` comes after `s2` in the modular order: it is reached from `s2` in
/// fewer than half the sequence space's steps.
pub open spec fn newer_than(s1: u16, s2: u16) -> bool {
    0 < forward_distance(s2, s1) < HALF_RANGE as int
}

/// Steps from `from` forward to `to`.
pub fn distance(from: u16, to: u16) -> (d: u16)
    ensures
        d as int == forward_distance(from, to),
{
    to.wrapping_sub(from)
}

/// Whether `s1` comes after `s2`, wraparound taken into account.
pub fn sequence_greater_than(s1: u16, s2: u16) -> (r: bool)
    ensures
        r == newer_than(s1, s2),
{
    let d: u16 = distance(s2, s1);
    0 < d && d < HALF_RANGE
}

/// Whether `s1` comes before `s2`, wraparound taken into account.
pub fn sequence_less_than(s1: u16, s2: u16) -> (r: bool)
    ensures
        r == newer_than(s2, s1),
{
    sequence_greater_than(s2, s1)
}

/// The modular order is strict: no number is newer than itself, and of two
/// numbers at most one is newer than the other.
pub proof fn lemma_newer_than_is_strict(s1: u16, s2: u16)
    ensures
        !newer_than(s1, s1),
        !(newer_than(s1, s2) && newer_than(s2, s1)),
{
}

/// Stepping forward by fewer than half the sequence space gives a newer
/// number, also across the wrap from 65535 to 0.
pub proof fn lemma_successor_is_newer(s: u16, steps: u16)
    requires
        0 < steps < HALF_RANGE,
    ensures
        newer_than(s.wrapping_add(steps), s),
        forward_distance(s, s.wrapping_add(steps)) == steps as int,
{
}

/// The distances there and back add up to the whole sequence space.
pub proof fn lemma_distance_round_trip(a: u16, b: u16)
    ensures
        0 <= forward_distance(a, b) < 65536,
        a != b ==> forward_distance(a, b) + forward_distance(b, a) == 65536,
        a == b <==> forward_distance(a, b) == 0,
{
}

} // verus!
