use disrecord::ring::RingBuffer;

#[test]
fn new_buffer_is_empty() {
    let b = RingBuffer::new(4, 17);
    assert!(b.is_empty());
    assert_eq!(b.len(), 0);
    assert_eq!(b.capacity(), 4);
    assert_eq!(b.last_activity(), 17);
    assert_eq!(b.snapshot(), Vec::<i16>::new());
}

#[test]
fn push_keeps_order_below_capacity() {
    let mut b = RingBuffer::new(4, 0);
    b.push(1);
    b.push(2);
    b.push(3);
    assert_eq!(b.snapshot(), vec![1, 2, 3]);
    assert_eq!(b.last_activity(), 0);
}

#[test]
fn push_drops_oldest_when_full() {
    let mut b = RingBuffer::new(3, 0);
    for x in 1..=5 {
        b.push(x);
    }
    assert_eq!(b.snapshot(), vec![3, 4, 5]);
    assert_eq!(b.len(), 3);
}

#[test]
fn extend_keeps_the_last_samples_and_notes_the_time() {
    let mut b = RingBuffer::new(4, 0);
    b.extend(&[1, 2, 3], 5);
    assert_eq!(b.snapshot(), vec![1, 2, 3]);
    assert_eq!(b.last_activity(), 5);
    b.extend(&[4, 5, 6], 9);
    assert_eq!(b.snapshot(), vec![3, 4, 5, 6]);
    assert_eq!(b.last_activity(), 9);
}

#[test]
fn extend_with_more_than_capacity_keeps_the_end() {
    let mut b = RingBuffer::new(3, 0);
    b.extend(&[1, 2, 3, 4, 5, 6, 7], 1);
    assert_eq!(b.snapshot(), vec![5, 6, 7]);
}

#[test]
fn extend_in_parts_equals_extend_at_once() {
    let mut a = RingBuffer::new(5, 0);
    a.extend(&[1, 2, 3, 4], 1);
    a.extend(&[5, 6, 7], 2);
    let mut b = RingBuffer::new(5, 0);
    b.extend(&[1, 2, 3, 4, 5, 6, 7], 2);
    assert_eq!(a.snapshot(), b.snapshot());
    assert_eq!(a.snapshot(), vec![3, 4, 5, 6, 7]);
}

#[test]
fn zero_capacity_keeps_nothing() {
    let mut b = RingBuffer::new(0, 0);
    b.push(1);
    b.extend(&[2, 3], 4);
    assert!(b.is_empty());
    assert_eq!(b.last_activity(), 4);
}

#[test]
fn snapshot_leaves_the_buffer_as_it_was() {
    let mut b = RingBuffer::new(3, 0);
    b.extend(&[1, 2], 1);
    let first = b.snapshot();
    let second = b.snapshot();
    assert_eq!(first, second);
    assert_eq!(b.len(), 2);
}
