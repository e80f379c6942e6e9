use crate::model::{Op, Queue};
use vstd::prelude::*;

verus! {

/// The queue is empty exactly when its length is zero, and full exactly when
/// its length is its capacity.
pub proof fn lemma_empty_full_duality(q: Queue)
    ensures
        q.is_empty() <==> q.len() == 0,
        q.is_full() <==> q.len() == q.capacity,
{
}

/// No single operation takes a queue out of its bounds or changes its
/// capacity.
pub proof fn lemma_step_keeps_bounds(q: Queue, op: Op)
    requires
        q.wf(),
    ensures
        q.apply(op).wf(),
        q.apply(op).capacity == q.capacity,
{
}

/// Whatever operations are applied to a queue, in whatever order, its length
/// stays between zero and its capacity, and its capacity stays what it was.
pub proof fn lemma_capacity_invariant(q: Queue, ops: Seq<Op>)
    requires
        q.wf(),
    ensures
        0 <= q.run(ops).len() <= q.capacity,
        q.run(ops).wf(),
        q.run(ops).capacity == q.capacity,
    decreases ops.len(),
{
    if ops.len() > 0 {
        lemma_capacity_invariant(q, ops.drop_last());
        lemma_step_keeps_bounds(q.run(ops.drop_last()), ops.last());
    }
}

/// A bulk write does what one `push` for each byte of `data` does, in the
/// order of `data`: the pushes that find the queue full change nothing.
pub proof fn lemma_extend_is_repeated_push(q: Queue, data: Seq<u8>)
    requires
        q.wf(),
    ensures
        q.extend(data) == q.push_each(data),
    decreases data.len(),
{
    if data.len() > 0 {
        let init = data.drop_last();
        lemma_extend_is_repeated_push(q, init);
        let taken = q.accepted(init.len());
        if q.extend(init).is_full() {
            assert(data.take(taken as int) =~= init.take(taken as int));
        } else {
            assert(q.extend(data).items =~= q.extend(init).items.push(data.last()));
        }
    }
}

/// The number that a bulk write reports is the number of those pushes that
/// succeed: the push of byte `i` of `data` succeeds exactly when `i` is less
/// than the number of bytes taken.
pub proof fn lemma_extend_counts_pushes(q: Queue, data: Seq<u8>, i: int)
    requires
        q.wf(),
        0 <= i < data.len(),
    ensures
        q.push_each(data.take(i)).push_result() is Ok <==> i < q.accepted(data.len()),
{
    lemma_extend_is_repeated_push(q, data.take(i));
}

/// A bulk read leaves what `count` calls of `pop` leave.
pub proof fn lemma_drain_is_repeated_pop(q: Queue, count: nat)
    requires
        q.wf(),
    ensures
        q.drain(count) == q.pop_times(count),
    decreases count,
{
    if count == 0 {
        assert(q.drain(count).items =~= q.items);
    } else {
        let before = (count - 1) as nat;
        lemma_drain_is_repeated_pop(q, before);
        if !q.drain(before).is_empty() {
            assert(q.drain(count).items =~= q.drain(before).items.drop_first());
        }
    }
}

/// A bulk read returns what `count` calls of `pop` return, in the order of
/// the calls, up to the first call that finds the queue empty.
pub proof fn lemma_drain_returns_pops(q: Queue, count: nat, k: int)
    requires
        q.wf(),
        0 <= k < count,
    ensures
        q.pop_times(k as nat).pop_result() == (if k < q.len() {
            Some(q.drain_result(count)[k])
        } else {
            None
        }),
{
    lemma_drain_is_repeated_pop(q, k as nat);
}

/// Bytes leave in the order in which they came. After any number of pushes
/// that all succeed, the pops that follow return first what the queue held
/// before and then the pushed bytes, each in the order pushed. From an empty
/// queue, as many pops as there were pushes return the pushed bytes exactly,
/// and leave the queue empty again.
pub proof fn lemma_fifo_order(q: Queue, values: Seq<u8>)
    requires
        q.wf(),
        forall|i: int|
            0 <= i < values.len() ==> #[trigger] q.push_each(values.take(i)).push_result() is Ok,
    ensures
        q.push_each(values).items == q.items + values,
        forall|k: int|
            0 <= k < q.len() + values.len() ==> #[trigger] q.push_each(values).pop_times(k as nat)
                .pop_result() == Some((q.items + values)[k]),
        q.is_empty() ==> forall|k: int|
            0 <= k < values.len() ==> #[trigger] q.push_each(values).pop_times(k as nat)
                .pop_result() == Some(values[k]),
        q.is_empty() ==> q.push_each(values).pop_times(values.len()) == q,
{
    let room = q.room();
    if values.len() > room {
        // The push that follows the first `room` ones finds the queue full.
        let fitting = values.take(room as int);
        lemma_extend_is_repeated_push(q, fitting);
        assert(q.push_each(fitting).push_result() is Ok);
        assert(false);
    }
    lemma_extend_is_repeated_push(q, values);
    let filled = q.push_each(values);
    assert forall|k: int| 0 <= k < q.len() + values.len() implies #[trigger] filled.pop_times(
        k as nat,
    ).pop_result() == Some((q.items + values)[k]) by {
        lemma_drain_is_repeated_pop(filled, k as nat);
    }
    if q.is_empty() {
        lemma_drain_is_repeated_pop(filled, values.len());
        assert(filled.drain(values.len()).items =~= q.items);
    }
}

} // verus!
