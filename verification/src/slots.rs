use vstd::arithmetic::div_mod::{lemma_mod_sub_multiples_vanish, lemma_small_mod};
use vstd::prelude::*;

verus! {

/// The index of the slot that lies `steps` slots after slot `start` in a ring
/// of `capacity` slots.
pub open spec fn slot_after(start: nat, steps: int, capacity: nat) -> int {
    (start + steps) % (capacity as int)
}

/// `after` is `before` with the bytes of `bytes` written, first to last, into
/// slot `start` and the slots that follow it round the ring: no other slot
/// differs.
pub open spec fn slots_written(
    before: Seq<Option<u8>>,
    after: Seq<Option<u8>>,
    start: nat,
    bytes: Seq<u8>,
) -> bool {
    &&& after.len() == before.len()
    &&& forall|i: int|
        0 <= i < before.len() ==> #[trigger] after[slot_after(start, i, before.len())] == (
            if i < bytes.len() {
                Some(bytes[i])
            } else {
                before[slot_after(start, i, before.len())]
            })
}

/// `after` is `before` with `count` slots cleared, slot `start` and the slots
/// that follow it round the ring: no other slot differs.
pub open spec fn slots_cleared(
    before: Seq<Option<u8>>,
    after: Seq<Option<u8>>,
    start: nat,
    count: nat,
) -> bool {
    &&& after.len() == before.len()
    &&& forall|i: int|
        0 <= i < before.len() ==> #[trigger] after[slot_after(start, i, before.len())] == (
            if i < count {
                None
            } else {
                before[slot_after(start, i, before.len())]
            })
}

/// What `slot_after` is from a slot of the ring and for at most one turn,
/// without division.
pub(crate) open spec fn wrapped(start: int, steps: int, capacity: int) -> int {
    if start + steps < capacity {
        start + steps
    } else {
        start + steps - capacity
    }
}

/// From a slot of the ring and for at most one turn, `slot_after` is
/// `wrapped`.
pub(crate) proof fn lemma_slot_after_is_wrapped(start: nat, capacity: nat)
    requires
        start < capacity,
    ensures
        forall|steps: int|
            0 <= steps <= capacity ==> #[trigger] slot_after(start, steps, capacity)
                == wrapped(start as int, steps, capacity as int),
{
    assert forall|steps: int| 0 <= steps <= capacity implies #[trigger] slot_after(
        start,
        steps,
        capacity,
    ) == wrapped(start as int, steps, capacity as int) by {
        if start + steps < capacity {
            lemma_small_mod((start + steps) as nat, capacity);
        } else {
            lemma_mod_sub_multiples_vanish(start + steps, capacity as int);
            lemma_small_mod((start + steps - capacity) as nat, capacity);
        }
    }
}

} // verus!
