use sockets::{Error, RingBuffer};

#[test]
fn new_buffer_is_empty() {
    let buffer = RingBuffer::<u8, 8>::new();
    assert_eq!(buffer.capacity(), 8);
    assert_eq!(buffer.len(), 0);
    assert_eq!(buffer.window(), 8);
    assert!(buffer.is_empty());
    assert!(!buffer.is_full());
    assert_eq!(buffer.get_allocated(0, 8), &[] as &[u8]);
}

#[test]
fn enqueue_slice_takes_what_fits() {
    let mut buffer = RingBuffer::<u8, 4>::new();
    assert_eq!(buffer.enqueue_slice(&[1, 2, 3]), 3);
    assert_eq!(buffer.len(), 3);
    assert_eq!(buffer.window(), 1);
    // Only one more byte fits: the rest is left out, without an error.
    assert_eq!(buffer.enqueue_slice(&[4, 5, 6]), 1);
    assert!(buffer.is_full());
    assert_eq!(buffer.window(), 0);
    assert_eq!(buffer.enqueue_slice(&[7]), 0);
    let mut out = [0u8; 8];
    assert_eq!(buffer.dequeue_slice(&mut out), 4);
    assert_eq!(out, [1, 2, 3, 4, 0, 0, 0, 0]);
    assert!(buffer.is_empty());
}

#[test]
fn dequeue_slice_is_limited_by_the_slice() {
    let mut buffer = RingBuffer::<u8, 8>::new();
    assert_eq!(buffer.enqueue_slice(&[10, 11, 12, 13, 14]), 5);
    let mut out = [0u8; 2];
    assert_eq!(buffer.dequeue_slice(&mut out), 2);
    assert_eq!(out, [10, 11]);
    assert_eq!(buffer.len(), 3);
    let mut none: [u8; 0] = [];
    assert_eq!(buffer.dequeue_slice(&mut none), 0);
    assert_eq!(buffer.len(), 3);
    let mut rest = [0u8; 4];
    assert_eq!(buffer.dequeue_slice(&mut rest), 3);
    assert_eq!(rest, [12, 13, 14, 0]);
}

#[test]
fn round_trip_across_the_wrap_boundary() {
    let mut buffer = RingBuffer::<u8, 4>::new();
    let mut out = [0u8; 4];
    assert_eq!(buffer.enqueue_slice(&[1, 2, 3]), 3);
    assert_eq!(buffer.dequeue_slice(&mut out[..2]), 2);
    assert_eq!(&out[..2], &[1, 2]);
    // The next three bytes pass the end of the storage.
    assert_eq!(buffer.enqueue_slice(&[4, 5, 6]), 3);
    assert_eq!(buffer.len(), 4);
    // A peek ends at the physical end of the storage.
    assert_eq!(buffer.get_allocated(0, 4), &[3, 4]);
    assert_eq!(buffer.get_allocated(2, 4), &[5, 6]);
    assert_eq!(buffer.get_allocated(1, 1), &[4]);
    assert_eq!(buffer.get_allocated(4, 4), &[] as &[u8]);
    assert_eq!(buffer.get_allocated(5, 4), &[] as &[u8]);
    assert_eq!(buffer.dequeue_slice(&mut out), 4);
    assert_eq!(out, [3, 4, 5, 6]);
    assert!(buffer.is_empty());
}

#[test]
fn interleaved_round_trip_returns_what_was_enqueued() {
    let mut buffer = RingBuffer::<u8, 16>::new();
    let input: Vec<u8> = (0u8..16).collect();
    let mut output = Vec::new();
    let mut offered = 0;
    for (chunk, room) in [(3usize, 2usize), (5, 4), (1, 0), (4, 7), (3, 16)] {
        assert_eq!(buffer.enqueue_slice(&input[offered..offered + chunk]), chunk);
        offered += chunk;
        let mut out = vec![0u8; room];
        let n = buffer.dequeue_slice(&mut out);
        output.extend_from_slice(&out[..n]);
        assert_eq!(buffer.window() + buffer.len(), 16);
        assert_eq!(buffer.len(), offered - output.len());
    }
    assert_eq!(offered, 16);
    assert!(buffer.is_empty());
    assert_eq!(output, input);
}

#[test]
fn one_element_at_a_time() {
    let mut buffer = RingBuffer::<u16, 2>::new();
    assert_eq!(buffer.dequeue_one(), Err(Error::Exhausted));
    assert_eq!(buffer.enqueue_one(500), Ok(()));
    assert_eq!(buffer.enqueue_one(600), Ok(()));
    assert_eq!(buffer.enqueue_one(700), Err(Error::Exhausted));
    assert_eq!(buffer.len(), 2);
    assert_eq!(buffer.dequeue_one(), Ok(500));
    assert_eq!(buffer.enqueue_one(700), Ok(()));
    assert_eq!(buffer.dequeue_one(), Ok(600));
    assert_eq!(buffer.dequeue_one(), Ok(700));
    assert_eq!(buffer.dequeue_one(), Err(Error::Exhausted));
}

#[test]
fn dequeue_many_with_removes_what_the_callback_reports() {
    let mut buffer = RingBuffer::<u8, 8>::new();
    assert_eq!(buffer.enqueue_slice(&[1, 2, 3, 4, 5]), 5);
    let (removed, seen) = buffer.dequeue_many_with(|span| (2, span.to_vec()));
    assert_eq!(removed, 2);
    assert_eq!(seen, vec![1, 2, 3, 4, 5]);
    assert_eq!(buffer.len(), 3);
    let (removed, first) = buffer.dequeue_many_with(|span| (0, span[0]));
    assert_eq!(removed, 0);
    assert_eq!(first, 3);
    assert_eq!(buffer.len(), 3);
}

#[test]
fn dequeue_many_with_sees_only_the_first_run() {
    let mut buffer = RingBuffer::<u8, 4>::new();
    let mut out = [0u8; 3];
    assert_eq!(buffer.enqueue_slice(&[1, 2, 3, 4]), 4);
    assert_eq!(buffer.dequeue_slice(&mut out), 3);
    assert_eq!(buffer.enqueue_slice(&[5, 6]), 2);
    // Queued: 4 at the end of the storage, 5 and 6 at its front.
    let (removed, seen) = buffer.dequeue_many_with(|span| (span.len(), span.to_vec()));
    assert_eq!(removed, 1);
    assert_eq!(seen, vec![4]);
    let (removed, seen) = buffer.dequeue_many_with(|span| (span.len(), span.to_vec()));
    assert_eq!(removed, 2);
    assert_eq!(seen, vec![5, 6]);
    assert!(buffer.is_empty());
}

#[test]
fn dequeue_many_with_never_removes_more_than_it_showed() {
    let mut buffer = RingBuffer::<u8, 8>::new();
    assert_eq!(buffer.enqueue_slice(&[1, 2, 3]), 3);
    let (removed, ()) = buffer.dequeue_many_with(|_| (100, ()));
    assert_eq!(removed, 3);
    assert!(buffer.is_empty());
    let (removed, shown) = buffer.dequeue_many_with(|span| (1, span.len()));
    assert_eq!(removed, 0);
    assert_eq!(shown, 0);
}

#[test]
fn dequeue_many_with_wrapping_shows_both_runs() {
    let mut buffer = RingBuffer::<u8, 4>::new();
    let mut out = [0u8; 3];
    assert_eq!(buffer.enqueue_slice(&[1, 2, 3, 4]), 4);
    assert_eq!(buffer.dequeue_slice(&mut out), 3);
    assert_eq!(buffer.enqueue_slice(&[5, 6]), 2);
    let (removed, seen) = buffer.dequeue_many_with_wrapping(|first, second| {
        (2, (first.to_vec(), second.map(|s| s.to_vec())))
    });
    assert_eq!(removed, 2);
    assert_eq!(seen, (vec![4], Some(vec![5, 6])));
    // What is left does not wrap any more.
    let (removed, seen) = buffer.dequeue_many_with_wrapping(|first, second| {
        (9, (first.to_vec(), second.map(|s| s.to_vec())))
    });
    assert_eq!(removed, 1);
    assert_eq!(seen, (vec![6], None));
    assert!(buffer.is_empty());
}

#[test]
fn clear_empties_the_buffer() {
    let mut buffer = RingBuffer::<u8, 4>::new();
    assert_eq!(buffer.enqueue_slice(&[1, 2, 3]), 3);
    buffer.clear();
    assert!(buffer.is_empty());
    assert_eq!(buffer.window(), 4);
    assert_eq!(buffer.enqueue_slice(&[9, 8, 7, 6]), 4);
    assert_eq!(buffer.get_allocated(0, 4), &[9, 8, 7, 6]);
}

#[test]
fn empty_buffer_starts_again_at_the_front() {
    let mut buffer = RingBuffer::<u8, 4>::new();
    let mut out = [0u8; 3];
    assert_eq!(buffer.enqueue_slice(&[1, 2, 3]), 3);
    assert_eq!(buffer.dequeue_slice(&mut out), 3);
    // The buffer is empty, so all four bytes are contiguous again.
    assert_eq!(buffer.enqueue_slice(&[4, 5, 6, 7]), 4);
    assert_eq!(buffer.get_allocated(0, 4), &[4, 5, 6, 7]);
}

#[test]
fn buffer_without_capacity_takes_nothing() {
    let mut buffer = RingBuffer::<u8, 0>::new();
    assert!(buffer.is_empty());
    assert!(buffer.is_full());
    assert_eq!(buffer.enqueue_slice(&[1]), 0);
    assert_eq!(buffer.enqueue_one(1), Err(Error::Exhausted));
    let mut out = [0u8; 1];
    assert_eq!(buffer.dequeue_slice(&mut out), 0);
    assert_eq!(buffer.get_allocated(0, 1), &[] as &[u8]);
}
