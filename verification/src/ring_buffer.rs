use crate::error::RingBufferError;
use crate::model::Queue;
use crate::slots::{lemma_slot_after_is_wrapped, slot_after, slots_cleared, slots_written, wrapped};
use vstd::prelude::*;

verus! {

/// A queue of bytes kept in a ring of `capacity` slots.
///
/// As a value it is the [`Queue`] that `@` gives. The contracts of the
/// operations say what each does to that queue, and what it does to the slots
/// and to the two cursors. [`RingBuffer::lemma_layout`] says how the slots
/// and the cursors of a well-formed buffer hold its queue.
#[derive(Debug)]
pub struct RingBuffer {
    /// The slots. A slot holds a byte that waits to be read, or nothing.
    buffer: Vec<Option<u8>>,
    /// The number of slots.
    capacity: usize,
    /// The slot that is read next.
    head: usize,
    /// The slot that is written next.
    tail: usize,
    /// The number of slots that hold a byte.
    size: usize,
}

impl View for RingBuffer {
    type V = Queue;

    /// The bytes in the `size` slots from `head` on, in that order, and the
    /// number of slots.
    closed spec fn view(&self) -> Queue {
        Queue {
            items: Seq::new(
                self.size as nat,
                |i: int| self.buffer@[wrapped(self.head as int, i, self.capacity as int)]->0,
            ),
            capacity: self.capacity as nat,
        }
    }
}

impl RingBuffer {
    /// The index of the slot that is read next.
    pub closed spec fn head_index(&self) -> nat {
        self.head as nat
    }

    /// The index of the slot that is written next.
    pub closed spec fn tail_index(&self) -> nat {
        self.tail as nat
    }

    /// What each slot holds.
    pub closed spec fn slots(&self) -> Seq<Option<u8>> {
        self.buffer@
    }

    /// The fields fit together: there is at least one slot, the head is the
    /// index of a slot, the tail lies `size` slots after the head, and the
    /// `size` slots from the head on are the ones that hold a byte.
    pub closed spec fn wf(&self) -> bool {
        &&& 0 < self.capacity
        &&& self.buffer@.len() == self.capacity
        &&& self.head < self.capacity
        &&& self.size <= self.capacity
        &&& self.tail == wrapped(self.head as int, self.size as int, self.capacity as int)
        &&& forall|i: int|
            0 <= i < self.capacity ==> ((#[trigger] self.buffer@[wrapped(
                self.head as int,
                i,
                self.capacity as int,
            )]) is Some <==> i < self.size)
    }

    /// What a well-formed buffer looks like inside. Its queue is within its
    /// bounds. Both cursors are indices of slots, however often they have
    /// gone round. The tail lies as many slots after the head as the queue is
    /// long. Going round from the head, the slots hold the bytes of the queue
    /// in order, and every slot after them is cleared.
    pub proof fn lemma_layout(&self)
        requires
            self.wf(),
        ensures
            self@.wf(),
            self.slots().len() == self@.capacity,
            0 <= self.head_index() < self@.capacity,
            0 <= self.tail_index() < self@.capacity,
            self.tail_index() == slot_after(self.head_index(), self@.len() as int, self@.capacity),
            forall|i: int|
                0 <= i < self@.capacity ==> #[trigger] self.slots()[slot_after(
                    self.head_index(),
                    i,
                    self@.capacity,
                )] == (if i < self@.len() {
                    Some(self@.items[i])
                } else {
                    None
                }),
    {
        lemma_slot_after_is_wrapped(self.head as nat, self.capacity as nat);
    }

    /// Writing `value` into the tail slot and moving the tail on puts the
    /// byte at the back of the queue.
    proof fn lemma_write(pre: RingBuffer, post: RingBuffer, value: u8)
        requires
            pre.wf(),
            pre.size < pre.capacity,
            post.buffer@ == pre.buffer@.update(pre.tail as int, Some(value)),
            post.capacity == pre.capacity,
            post.head == pre.head,
            post.tail == slot_after(pre.tail as nat, 1, pre.capacity as nat),
            post.size == pre.size + 1,
        ensures
            post.wf(),
            post@ == pre@.push(value),
            post.tail == wrapped(pre.tail as int, 1, pre.capacity as int),
    {
        lemma_slot_after_is_wrapped(pre.tail as nat, pre.capacity as nat);
        assert(post@.items =~= pre@.items.push(value));
    }

    /// Clearing the head slot and moving the head on takes the oldest byte
    /// off the queue.
    proof fn lemma_read(pre: RingBuffer, post: RingBuffer)
        requires
            pre.wf(),
            pre.size > 0,
            post.buffer@ == pre.buffer@.update(pre.head as int, None),
            post.capacity == pre.capacity,
            post.head == slot_after(pre.head as nat, 1, pre.capacity as nat),
            post.tail == pre.tail,
            post.size == pre.size - 1,
        ensures
            post.wf(),
            post@ == pre@.pop(),
            pre.buffer@[pre.head as int] == pre@.pop_result(),
            post.head == wrapped(pre.head as int, 1, pre.capacity as int),
    {
        let head = pre.head as int;
        let capacity = pre.capacity as int;
        lemma_slot_after_is_wrapped(pre.head as nat, pre.capacity as nat);
        // Slot `i` counted from the new head is slot `i + 1` counted from the
        // old one, but for the last: that is the slot that was just cleared.
        assert forall|i: int| 0 <= i < capacity implies wrapped(post.head as int, i, capacity)
            == wrapped(head, if i + 1 < capacity { i + 1 } else { 0 }, capacity) by {}
        assert(post@.items =~= pre@.items.drop_first());
    }

    /// An empty buffer of `capacity` slots, all of them cleared, with both
    /// cursors at slot 0.
    pub fn new(capacity: usize) -> (rb: Self)
        requires
            capacity > 0,
        ensures
            rb.wf(),
            rb@ == Queue::new(capacity as nat),
            rb.head_index() == 0,
            rb.tail_index() == 0,
            rb.slots() == Seq::new(capacity as nat, |i: int| None::<u8>),
    {
        let rb = RingBuffer { buffer: vec![None; capacity], capacity, head: 0, tail: 0, size: 0 };
        assert(rb@.items =~= Seq::<u8>::empty());
        rb
    }

    /// Whether no byte is held.
    pub fn is_empty(&self) -> (b: bool)
        ensures
            b == self@.is_empty(),
            b <==> self@.len() == 0,
    {
        self.size == 0
    }

    /// Whether every slot holds a byte.
    pub fn is_full(&self) -> (b: bool)
        ensures
            b == self@.is_full(),
            b <==> self@.len() == self@.capacity,
    {
        self.size == self.capacity
    }

    /// The number of bytes held. In a well-formed buffer it is never more
    /// than the capacity.
    pub fn len(&self) -> (n: usize)
        ensures
            n == self@.len(),
            self.wf() ==> 0 <= n <= self@.capacity,
    {
        self.size
    }

    /// Writes one byte into the tail slot and moves the tail on by one slot,
    /// unless the buffer is full: then it fails and changes nothing.
    pub fn push(&mut self, value: u8) -> (r: Result<usize, RingBufferError>)
        requires
            old(self).wf(),
        ensures
            final(self).wf(),
            final(self)@ == old(self)@.push(value),
            r == old(self)@.push_result(),
            old(self)@.is_full() ==> {
                &&& r == Err::<usize, RingBufferError>(RingBufferError::NoSpaceLeft)
                &&& *final(self) == *old(self)
            },
            !old(self)@.is_full() ==> {
                &&& r == Ok::<usize, RingBufferError>(1)
                &&& final(self).slots()
                    == old(self).slots().update(old(self).tail_index() as int, Some(value))
                &&& final(self).tail_index()
                    == slot_after(old(self).tail_index(), 1, old(self)@.capacity)
                &&& final(self).head_index() == old(self).head_index()
            },
    {
        if self.is_full() {
            return Err(RingBufferError::NoSpaceLeft);
        }
        self.buffer[self.tail] = Some(value);
        self.tail = (self.tail + 1) % self.capacity;
        self.size += 1;
        proof {
            Self::lemma_write(*old(self), *self, value);
        }
        Ok(1)
    }

    /// Reads the byte in the head slot, clears the slot and moves the head on
    /// by one slot, unless the buffer is empty: then it returns nothing and
    /// changes nothing.
    pub fn pop(&mut self) -> (r: Option<u8>)
        requires
            old(self).wf(),
        ensures
            final(self).wf(),
            final(self)@ == old(self)@.pop(),
            r == old(self)@.pop_result(),
            old(self)@.is_empty() ==> {
                &&& r is None
                &&& *final(self) == *old(self)
            },
            !old(self)@.is_empty() ==> {
                &&& r == old(self).slots()[old(self).head_index() as int]
                &&& final(self).slots()
                    == old(self).slots().update(old(self).head_index() as int, None)
                &&& final(self).head_index()
                    == slot_after(old(self).head_index(), 1, old(self)@.capacity)
                &&& final(self).tail_index() == old(self).tail_index()
            },
    {
        if self.is_empty() {
            return None;
        }
        let value = self.buffer[self.head].take();
        self.head = (self.head + 1) % self.capacity;
        self.size -= 1;
        proof {
            Self::lemma_read(*old(self), *self);
        }
        value
    }

    /// Writes the bytes of `data` in order, each as `push` would, until the
    /// buffer is full or `data` is used up, and returns how many it wrote.
    /// It fails only if `data` is not empty and not one byte could be
    /// written. Byte `i` of those written goes into the slot `i` slots after
    /// the old tail; no other slot changes.
    #[verifier::loop_isolation(false)]
    pub fn extend(&mut self, data: &[u8]) -> (r: Result<usize, RingBufferError>)
        requires
            old(self).wf(),
        ensures
            final(self).wf(),
            final(self)@ == old(self)@.extend(data@),
            r == old(self)@.extend_result(data@),
            data@.len() == 0 ==> {
                &&& r == Ok::<usize, RingBufferError>(0)
                &&& *final(self) == *old(self)
            },
            data@.len() > 0 && old(self)@.is_full() ==> {
                &&& r == Err::<usize, RingBufferError>(RingBufferError::NoSpaceLeft)
                &&& *final(self) == *old(self)
            },
            slots_written(
                old(self).slots(),
                final(self).slots(),
                old(self).tail_index(),
                data@.take(old(self)@.accepted(data@.len()) as int),
            ),
            final(self).tail_index() == slot_after(
                old(self).tail_index(),
                old(self)@.accepted(data@.len()) as int,
                old(self)@.capacity,
            ),
            final(self).head_index() == old(self).head_index(),
    {
        let ghost tail = self.tail as int;
        let ghost capacity = self.capacity as int;
        proof {
            lemma_slot_after_is_wrapped(tail as nat, capacity as nat);
        }
        if data.is_empty() {
            return Ok(0);
        }
        let mut count: usize = 0;
        for byte in source: data
            invariant
                self.wf(),
                self.capacity == capacity,
                self.head == old(self).head,
                self.tail == wrapped(tail, count as int, capacity),
                count == source.index(),
                count <= old(self)@.room(),
                self@.items == old(self)@.items + data@.take(count as int),
                forall|i: int|
                    0 <= i < capacity ==> #[trigger] self.buffer@[wrapped(tail, i, capacity)] == (
                        if i < count {
                            Some(data@[i])
                        } else {
                            old(self).buffer@[wrapped(tail, i, capacity)]
                        }),
                count == 0 ==> *self == *old(self),
        {
            if self.is_full() {
                return if count > 0 {
                    Ok(count)
                } else {
                    Err(RingBufferError::NoSpaceLeft)
                };
            }
            let ghost before = *self;
            self.buffer[self.tail] = Some(*byte);
            self.tail = (self.tail + 1) % self.capacity;
            self.size += 1;
            count += 1;
            proof {
                Self::lemma_write(before, *self, *byte);
            }
        }
        Ok(count)
    }

    /// Reads up to `count` bytes, each as `pop` would, oldest first, and
    /// stops early when the buffer is empty. The slots read are cleared: they
    /// are the slots from the old head on; no other slot changes.
    #[verifier::loop_isolation(false)]
    pub fn drain(&mut self, count: usize) -> (out: Vec<u8>)
        requires
            old(self).wf(),
        ensures
            final(self).wf(),
            final(self)@ == old(self)@.drain(count as nat),
            out@ == old(self)@.drain_result(count as nat),
            old(self)@.is_empty() || count == 0 ==> {
                &&& out@.len() == 0
                &&& *final(self) == *old(self)
            },
            slots_cleared(
                old(self).slots(),
                final(self).slots(),
                old(self).head_index(),
                old(self)@.given(count as nat),
            ),
            final(self).head_index() == slot_after(
                old(self).head_index(),
                old(self)@.given(count as nat) as int,
                old(self)@.capacity,
            ),
            final(self).tail_index() == old(self).tail_index(),
    {
        let ghost head = self.head as int;
        let ghost capacity = self.capacity as int;
        proof {
            lemma_slot_after_is_wrapped(head as nat, capacity as nat);
        }
        let mut result = Vec::with_capacity(count.min(self.size));
        for _ in round: 0..count
            invariant_except_break
                result@.len() == round.index(),
            invariant
                self.wf(),
                self.capacity == capacity,
                self.tail == old(self).tail,
                self.head == wrapped(head, result@.len() as int, capacity),
                result@.len() <= count,
                result@.len() <= old(self)@.len(),
                result@ == old(self)@.items.take(result@.len() as int),
                self@.items == old(self)@.items.skip(result@.len() as int),
                forall|i: int|
                    0 <= i < capacity ==> #[trigger] self.buffer@[wrapped(head, i, capacity)] == (
                        if i < result@.len() {
                            None
                        } else {
                            old(self).buffer@[wrapped(head, i, capacity)]
                        }),
                result@.len() == 0 ==> *self == *old(self),
            ensures
                result@.len() == old(self)@.given(count as nat),
        {
            let ghost before = self.head as nat;
            match self.pop() {
                Some(byte) => result.push(byte),
                None => break,
            }
            proof {
                lemma_slot_after_is_wrapped(before, capacity as nat);
            }
        }
        result
    }
}

} // verus!
