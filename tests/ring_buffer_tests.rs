use ring_buffer::RingBuffer;

#[test]
fn test_push() {
    let mut buffer: RingBuffer<i32> = RingBuffer::with_capacity(3);
    buffer.push(1);
    buffer.push(2);
    assert_eq!(vec![&1, &2], buffer.iter().collect());
    assert_eq!(vec![1, 2], buffer.into_iter().collect());

    let mut buffer: RingBuffer<i32> = RingBuffer::with_capacity(3);
    buffer.push(1);
    buffer.push(2);
    buffer.push(3);
    buffer.push(4);
    assert_eq!(vec![&2, &3, &4], buffer.iter().collect());
    assert_eq!(vec![2, 3, 4], buffer.into_iter().collect());

    let mut buffer: RingBuffer<i32> = RingBuffer::with_capacity(3);
    buffer.push(1);
    buffer.push(2);
    buffer.push(3);
    assert_eq!(vec![&1, &2, &3], buffer.iter().collect());
    buffer.push(4);
    assert_eq!(vec![&2, &3, &4], buffer.iter().collect());

    let mut buffer: RingBuffer<i32> = RingBuffer::with_capacity(1);
    buffer.push(1);
    buffer.push(2);
    buffer.push(3);
    assert_eq!(vec![&3], buffer.iter().collect());

    let mut buffer: RingBuffer<i32> = RingBuffer::with_capacity(2);
    for i in 0..100 {
        buffer.push(i);
    }
    assert_eq!(vec![&98, &99], buffer.iter().collect());
}

#[test]
fn test_pop() {
    let mut buffer: RingBuffer<i32> = RingBuffer::with_capacity(5);
    assert_eq!(None, buffer.pop());
    for i in 1..6 {
        buffer.push(i);
    }
    for i in 1..6 {
        assert_eq!(i, buffer.pop().unwrap());
    }
    assert_eq!(None, buffer.pop());

    for i in 1..101 {
        buffer.push(i);
    }
    for i in 96..101 {
        assert_eq!(i, buffer.pop().unwrap());
    }
    assert_eq!(None, buffer.pop());

    for i in 1..101 {
        buffer.push(i);
    }
    buffer.pop();
    buffer.pop();
    assert_eq!(vec![&98, &99, &100], buffer.iter().collect());
    for i in 98..101 {
        assert_eq!(i, buffer.pop().unwrap());
    }
    assert_eq!(None, buffer.pop());
}

#[test]
fn test_iter() {
    let mut buffer: RingBuffer<i32> = RingBuffer::with_capacity(5);
    for i in 1..101 {
        buffer.push(i);
    }

    let vec1: Vec<&i32> = buffer.iter().collect();
    let vec2: Vec<&i32> = buffer.iter().collect();
    assert_eq!(vec1, vec2);

    for i in 96..101 {
        assert_eq!(i, buffer.pop().unwrap());
    }
}

#[test]
fn pushes_within_capacity_are_kept_in_order() {
    let mut buffer: RingBuffer<u8> = RingBuffer::with_capacity(4);
    buffer.push(7);
    buffer.push(3);
    buffer.push(9);
    assert_eq!(vec![&7, &3, &9], buffer.iter().collect());
}

#[test]
fn pushes_beyond_capacity_keep_the_newest() {
    let mut buffer: RingBuffer<i32> = RingBuffer::with_capacity(3);
    for i in 1..11 {
        buffer.push(i);
    }
    assert_eq!(vec![&8, &9, &10], buffer.iter().collect());
}

#[test]
fn pop_on_fresh_buffer_is_empty() {
    let mut zero: RingBuffer<i32> = RingBuffer::with_capacity(0);
    assert_eq!(None, zero.pop());
    let mut one: RingBuffer<i32> = RingBuffer::with_capacity(1);
    assert_eq!(None, one.pop());
    let mut many: RingBuffer<String> = RingBuffer::with_capacity(1000);
    assert_eq!(None, many.pop());
}

#[test]
fn zero_capacity_buffer_iterates_nothing() {
    let buffer: RingBuffer<i32> = RingBuffer::with_capacity(0);
    assert!(buffer.iter().collect().is_empty());
    assert!(buffer.into_iter().collect().is_empty());
}

#[test]
fn push_then_pop_is_fifo() {
    let mut buffer: RingBuffer<i32> = RingBuffer::with_capacity(5);
    for i in 1..6 {
        buffer.push(i);
    }
    assert_eq!(Some(1), buffer.pop());
    assert_eq!(Some(2), buffer.pop());
    assert_eq!(Some(3), buffer.pop());
    assert_eq!(Some(4), buffer.pop());
    assert_eq!(Some(5), buffer.pop());
    assert_eq!(None, buffer.pop());
    assert_eq!(None, buffer.pop());
}

#[test]
fn overfill_then_pop() {
    let mut buffer: RingBuffer<i32> = RingBuffer::with_capacity(5);
    for i in 1..101 {
        buffer.push(i);
    }
    let mut popped: Vec<i32> = Vec::new();
    while let Some(x) = buffer.pop() {
        popped.push(x);
    }
    assert_eq!(vec![96, 97, 98, 99, 100], popped);
}

#[test]
fn eviction_then_partial_pop() {
    let mut buffer: RingBuffer<i32> = RingBuffer::with_capacity(5);
    for i in 1..101 {
        buffer.push(i);
    }
    assert_eq!(Some(96), buffer.pop());
    assert_eq!(Some(97), buffer.pop());
    assert_eq!(vec![&98, &99, &100], buffer.iter().collect());
    assert_eq!(Some(98), buffer.pop());
    assert_eq!(Some(99), buffer.pop());
    assert_eq!(Some(100), buffer.pop());
    assert_eq!(None, buffer.pop());
}

#[test]
fn borrowing_iteration_restarts() {
    let mut buffer: RingBuffer<i32> = RingBuffer::with_capacity(4);
    for i in 10..16 {
        buffer.push(i);
    }
    let first: Vec<&i32> = buffer.iter().collect();
    let second: Vec<&i32> = buffer.iter().collect();
    assert_eq!(vec![&12, &13, &14, &15], first);
    assert_eq!(first, second);
}

#[test]
fn borrowing_iterator_steps_and_ends() {
    let mut buffer: RingBuffer<i32> = RingBuffer::with_capacity(2);
    buffer.push(1);
    buffer.push(2);
    buffer.push(3);
    let mut it = buffer.iter();
    assert_eq!(Some(&2), it.next());
    assert_eq!(Some(&3), it.next());
    assert_eq!(None, it.next());
    assert_eq!(None, it.next());
    assert_eq!(vec![&2, &3], buffer.iter().collect());
}

#[test]
fn consuming_iteration_matches_borrowing() {
    let mut buffer: RingBuffer<i32> = RingBuffer::with_capacity(3);
    for i in 1..8 {
        buffer.push(i);
    }
    let borrowed: Vec<i32> = buffer.iter().collect().into_iter().copied().collect();
    let consumed: Vec<i32> = buffer.into_iter().collect();
    assert_eq!(vec![5, 6, 7], consumed);
    assert_eq!(borrowed, consumed);
}

#[test]
fn consuming_iterator_drains() {
    let mut buffer: RingBuffer<String> = RingBuffer::with_capacity(2);
    buffer.push(String::from("a"));
    buffer.push(String::from("b"));
    buffer.push(String::from("c"));
    let mut it = buffer.into_iter();
    assert_eq!(Some(String::from("b")), it.next());
    assert_eq!(Some(String::from("c")), it.next());
    assert_eq!(None, it.next());
    assert!(it.collect().is_empty());
}

#[test]
fn round_trip_within_capacity() {
    let mut buffer: RingBuffer<i32> = RingBuffer::with_capacity(6);
    let pushed = vec![4, -1, 0, 4, 12, 7];
    for x in pushed.iter() {
        buffer.push(*x);
    }
    let mut popped: Vec<i32> = Vec::new();
    while let Some(x) = buffer.pop() {
        popped.push(x);
    }
    assert_eq!(pushed, popped);
}

#[test]
fn push_after_draining_a_full_buffer() {
    let mut buffer: RingBuffer<i32> = RingBuffer::with_capacity(3);
    buffer.push(1);
    buffer.push(2);
    buffer.push(3);
    assert_eq!(Some(1), buffer.pop());
    assert_eq!(Some(2), buffer.pop());
    assert_eq!(Some(3), buffer.pop());
    buffer.push(7);
    assert_eq!(vec![&7], buffer.iter().collect());
    buffer.push(8);
    assert_eq!(Some(7), buffer.pop());
    assert_eq!(Some(8), buffer.pop());
    assert_eq!(None, buffer.pop());
}

#[test]
fn clone_is_independent() {
    let mut buffer: RingBuffer<i32> = RingBuffer::with_capacity(2);
    buffer.push(1);
    buffer.push(2);
    let mut copy = buffer.clone();
    copy.push(3);
    assert_eq!(vec![&1, &2], buffer.iter().collect());
    assert_eq!(vec![&2, &3], copy.iter().collect());
}
