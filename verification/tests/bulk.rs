use rust_ring::{RingBuffer, RingBufferError};

#[test]
fn test_extend() {
    let mut rb = RingBuffer::new(3);
    assert_eq!(rb.extend(&[1, 2, 3]), Ok(3));
    assert_eq!(rb.extend(&[4]), Err(RingBufferError::NoSpaceLeft));

    let mut rb = RingBuffer::new(3);
    assert_eq!(rb.extend(&[1, 2]), Ok(2));
    assert_eq!(rb.extend(&[3, 4, 5, 6]), Ok(1));
    assert_eq!(rb.drain(3), vec![1, 2, 3]);
}

#[test]
fn extend_takes_what_fits_and_reports_the_count() {
    let mut rb = RingBuffer::new(3);
    assert_eq!(rb.extend(&[1, 2]), Ok(2));
    assert_eq!(rb.len(), 2);
    assert_eq!(rb.extend(&[3, 4, 5, 6]), Ok(1));
    assert_eq!(rb.len(), 3);
    assert!(rb.is_full());
    assert_eq!(rb.pop(), Some(1));
    assert_eq!(rb.pop(), Some(2));
    assert_eq!(rb.pop(), Some(3));
    assert_eq!(rb.pop(), None);
}

#[test]
fn extend_on_a_full_buffer_fails_and_changes_nothing() {
    let mut rb = RingBuffer::new(3);
    assert_eq!(rb.extend(&[1, 2, 3]), Ok(3));
    assert_eq!(rb.extend(&[9]), Err(RingBufferError::NoSpaceLeft));
    assert_eq!(rb.len(), 3);
    assert!(rb.is_full());
    assert_eq!(rb.drain(3), vec![1, 2, 3]);
}

#[test]
fn extend_with_nothing_succeeds_in_every_state() {
    let mut rb = RingBuffer::new(2);
    assert_eq!(rb.extend(&[]), Ok(0));
    assert_eq!(rb.len(), 0);
    assert!(rb.is_empty());

    assert_eq!(rb.push(7), Ok(1));
    assert_eq!(rb.extend(&[]), Ok(0));
    assert_eq!(rb.len(), 1);

    assert_eq!(rb.push(8), Ok(1));
    assert!(rb.is_full());
    assert_eq!(rb.extend(&[]), Ok(0));
    assert_eq!(rb.len(), 2);
    assert_eq!(rb.drain(2), vec![7, 8]);
}

#[test]
fn extend_that_fits_exactly_fills_the_buffer() {
    let mut rb = RingBuffer::new(4);
    assert_eq!(rb.extend(&[5, 6, 7, 8]), Ok(4));
    assert!(rb.is_full());
    assert_eq!(rb.push(9), Err(RingBufferError::NoSpaceLeft));
    assert_eq!(rb.drain(4), vec![5, 6, 7, 8]);
}

#[test]
fn extend_goes_round_the_end_of_the_ring() {
    let mut rb = RingBuffer::new(4);
    assert_eq!(rb.extend(&[1, 2, 3]), Ok(3));
    assert_eq!(rb.drain(2), vec![1, 2]);
    // One byte left in the third slot; the next three go to slots 3, 0 and 1.
    assert_eq!(rb.extend(&[4, 5, 6, 7]), Ok(3));
    assert!(rb.is_full());
    assert_eq!(rb.drain(4), vec![3, 4, 5, 6]);
    assert!(rb.is_empty());
}

#[test]
fn extend_is_one_push_for_each_byte() {
    let data = [11u8, 22, 33, 44, 55];
    let mut bulk = RingBuffer::new(3);
    let mut single = RingBuffer::new(3);
    assert_eq!(bulk.push(1), Ok(1));
    assert_eq!(single.push(1), Ok(1));

    let written = bulk.extend(&data);
    let mut accepted = 0;
    for byte in data {
        if single.push(byte).is_ok() {
            accepted += 1;
        }
    }
    assert_eq!(written, Ok(accepted));
    assert_eq!(written, Ok(2));
    assert_eq!(bulk.drain(3), single.drain(3));
}

#[test]
fn drain_on_an_empty_buffer_gives_nothing() {
    let mut rb = RingBuffer::new(3);
    assert_eq!(rb.drain(0), Vec::<u8>::new());
    assert_eq!(rb.drain(1), Vec::<u8>::new());
    assert_eq!(rb.drain(100), Vec::<u8>::new());
    assert_eq!(rb.drain(usize::MAX), Vec::<u8>::new());
    assert_eq!(rb.len(), 0);
}

#[test]
fn drain_of_zero_bytes_changes_nothing() {
    let mut rb = RingBuffer::new(3);
    assert_eq!(rb.extend(&[1, 2]), Ok(2));
    assert_eq!(rb.drain(0), Vec::<u8>::new());
    assert_eq!(rb.len(), 2);
    assert_eq!(rb.drain(2), vec![1, 2]);
}

#[test]
fn drain_stops_when_the_buffer_is_empty() {
    let mut rb = RingBuffer::new(5);
    assert_eq!(rb.extend(&[1, 2, 3]), Ok(3));
    assert_eq!(rb.drain(10), vec![1, 2, 3]);
    assert!(rb.is_empty());
    assert_eq!(rb.len(), 0);
}

#[test]
fn drain_takes_the_oldest_and_leaves_the_rest() {
    let mut rb = RingBuffer::new(5);
    assert_eq!(rb.extend(&[1, 2, 3, 4]), Ok(4));
    assert_eq!(rb.drain(3), vec![1, 2, 3]);
    assert_eq!(rb.len(), 1);
    assert_eq!(rb.pop(), Some(4));
}

#[test]
fn drain_is_one_pop_for_each_byte() {
    let mut bulk = RingBuffer::new(4);
    let mut single = RingBuffer::new(4);
    assert_eq!(bulk.extend(&[9, 8, 7]), Ok(3));
    assert_eq!(single.extend(&[9, 8, 7]), Ok(3));

    let drained = bulk.drain(5);
    let mut popped = Vec::new();
    for _ in 0..5 {
        if let Some(byte) = single.pop() {
            popped.push(byte);
        }
    }
    assert_eq!(drained, popped);
    assert_eq!(drained, vec![9, 8, 7]);
    assert_eq!(bulk.len(), single.len());
}
