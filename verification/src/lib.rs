//! A ring buffer of bytes with a capacity that is fixed when it is made.
//!
//! [`RingBuffer`] is the executable queue. [`model::Queue`] is what it stands
//! for: the bytes it holds, oldest first, and its capacity. Every operation of
//! the buffer is proved to do to that queue what the operation of the same name
//! in [`model`] says, and to move the cursors and change the slots as its
//! contract says in the words of [`slots`]. [`laws`] holds what follows for
//! any run of operations.

pub mod error;
pub mod laws;
pub mod model;
pub mod ring_buffer;
pub mod slots;

pub use error::RingBufferError;
pub use ring_buffer::RingBuffer;
