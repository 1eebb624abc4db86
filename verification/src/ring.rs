//! Positions on a ring of buckets: the bucket after the last one is the first.
use vstd::prelude::*;

verus! {

/// The position `offset` steps after `start` on a ring of `len` positions.
pub open spec fn step(start: int, offset: int, len: int) -> int {
    if start + offset < len {
        start + offset
    } else {
        start + offset - len
    }
}

/// The number of steps from `start` forward to `position` on a ring of `len` positions.
pub open spec fn distance(start: int, position: int, len: int) -> int {
    if start <= position {
        position - start
    } else {
        position - start + len
    }
}

/// Walks `offset` steps forward from `start`.
pub fn slot_at(start: usize, offset: usize, len: usize) -> (slot: usize)
    requires
        start < len,
        offset < len,
    ensures
        slot < len,
        slot == step(start as int, offset as int, len as int),
        distance(start as int, slot as int, len as int) == offset,
{
    if offset < len - start {
        start + offset
    } else {
        offset - (len - start)
    }
}

/// Counts the steps from `start` forward to `slot`.
pub fn offset_of(start: usize, slot: usize, len: usize) -> (offset: usize)
    requires
        start < len,
        slot < len,
    ensures
        offset < len,
        offset == distance(start as int, slot as int, len as int),
        step(start as int, offset as int, len as int) == slot,
{
    if start <= slot {
        slot - start
    } else {
        len - start + slot
    }
}

} // verus!
