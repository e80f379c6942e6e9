use crate::error::RingBufferError;
use vstd::prelude::*;

verus! {

/// A bounded first-in, first-out queue of bytes, as a mathematical value.
pub struct Queue {
    /// The bytes held, the oldest first.
    pub items: Seq<u8>,
    /// The most bytes it can hold.
    pub capacity: nat,
}

/// One call of an operation that can change the queue, with its argument.
pub enum Op {
    /// `push` of this byte.
    Push(u8),
    /// `pop`.
    Pop,
    /// `extend` with these bytes.
    Extend(Seq<u8>),
    /// `drain` of up to this many bytes.
    Drain(nat),
}

impl Queue {
    /// A queue that can exist: it has room for at least one byte and holds no
    /// more than its capacity.
    pub open spec fn wf(self) -> bool {
        0 < self.capacity && self.items.len() <= self.capacity
    }

    /// The empty queue of the given capacity.
    pub open spec fn new(capacity: nat) -> Queue {
        Queue { items: Seq::empty(), capacity }
    }

    /// How many bytes are held.
    pub open spec fn len(self) -> nat {
        self.items.len()
    }

    /// No byte is held.
    pub open spec fn is_empty(self) -> bool {
        self.len() == 0
    }

    /// As many bytes are held as the capacity allows.
    pub open spec fn is_full(self) -> bool {
        self.len() == self.capacity
    }

    /// How many more bytes fit.
    pub open spec fn room(self) -> nat {
        if self.len() < self.capacity {
            (self.capacity - self.len()) as nat
        } else {
            0
        }
    }

    /// The queue after `push(value)`: unchanged if it is full, else with the
    /// byte at the back.
    pub open spec fn push(self, value: u8) -> Queue {
        if self.is_full() {
            self
        } else {
            Queue { items: self.items.push(value), ..self }
        }
    }

    /// What `push` returns: no space left if the queue is full, else the one
    /// byte written.
    pub open spec fn push_result(self) -> Result<usize, RingBufferError> {
        if self.is_full() {
            Err(RingBufferError::NoSpaceLeft)
        } else {
            Ok(1)
        }
    }

    /// The queue after `pop()`: unchanged if it is empty, else without its
    /// oldest byte.
    pub open spec fn pop(self) -> Queue {
        if self.is_empty() {
            self
        } else {
            Queue { items: self.items.drop_first(), ..self }
        }
    }

    /// What `pop` returns: nothing if the queue is empty, else its oldest
    /// byte.
    pub open spec fn pop_result(self) -> Option<u8> {
        if self.is_empty() {
            None
        } else {
            Some(self.items.first())
        }
    }

    /// How many of `offered` bytes a bulk write takes: all of them, or as many
    /// as there is room for.
    pub open spec fn accepted(self, offered: nat) -> nat {
        if offered <= self.room() {
            offered
        } else {
            self.room()
        }
    }

    /// The queue after `extend(data)`: the bytes of `data` that were taken are
    /// at the back, in the order of `data`.
    pub open spec fn extend(self, data: Seq<u8>) -> Queue {
        Queue { items: self.items + data.take(self.accepted(data.len()) as int), ..self }
    }

    /// What `extend` returns. Nothing offered is a success of zero bytes.
    /// Something offered to a full queue is the one failure. Anything else is
    /// a success with the number of bytes taken, which may be fewer than were
    /// offered.
    pub open spec fn extend_result(self, data: Seq<u8>) -> Result<usize, RingBufferError> {
        if data.len() == 0 {
            Ok(0)
        } else if self.is_full() {
            Err(RingBufferError::NoSpaceLeft)
        } else {
            Ok(self.accepted(data.len()) as usize)
        }
    }

    /// How many bytes a bulk read of up to `count` bytes gives: `count`, or
    /// all there are.
    pub open spec fn given(self, count: nat) -> nat {
        if count <= self.len() {
            count
        } else {
            self.len()
        }
    }

    /// The queue after `drain(count)`: the bytes that were given are gone from
    /// the front.
    pub open spec fn drain(self, count: nat) -> Queue {
        Queue { items: self.items.skip(self.given(count) as int), ..self }
    }

    /// What `drain` returns: the oldest bytes, oldest first.
    pub open spec fn drain_result(self, count: nat) -> Seq<u8> {
        self.items.take(self.given(count) as int)
    }

    /// The queue after one operation.
    pub open spec fn apply(self, op: Op) -> Queue {
        match op {
            Op::Push(value) => self.push(value),
            Op::Pop => self.pop(),
            Op::Extend(data) => self.extend(data),
            Op::Drain(count) => self.drain(count),
        }
    }

    /// The queue after the operations `ops`, applied first to last.
    pub open spec fn run(self, ops: Seq<Op>) -> Queue
        decreases ops.len(),
    {
        if ops.len() == 0 {
            self
        } else {
            self.run(ops.drop_last()).apply(ops.last())
        }
    }

    /// The queue after one `push` for each byte of `values`, first to last.
    pub open spec fn push_each(self, values: Seq<u8>) -> Queue
        decreases values.len(),
    {
        if values.len() == 0 {
            self
        } else {
            self.push_each(values.drop_last()).push(values.last())
        }
    }

    /// The queue after `count` calls of `pop`.
    pub open spec fn pop_times(self, count: nat) -> Queue
        decreases count,
    {
        if count == 0 {
            self
        } else {
            self.pop_times((count - 1) as nat).pop()
        }
    }
}

} // verus!
