use rust_wasm::ring_buffer::RingBuffer;

fn contents<T: Copy>(b: &RingBuffer<T>) -> Vec<T> {
    let (first, second) = b.as_slices();
    let mut v = first.to_vec();
    v.extend_from_slice(second);
    v
}

#[test]
fn keeps_most_recent_values_in_order() {
    let mut b = RingBuffer::new(3);
    for i in 1..=5u32 {
        b.push(i);
    }
    assert_eq!(contents(&b), vec![3, 4, 5]);
    assert_eq!(b.len(), 3);
    assert_eq!(b.capacity(), 3);
    b.push(6);
    assert_eq!(contents(&b), vec![4, 5, 6]);
}

#[test]
fn below_capacity_keeps_everything() {
    let mut b = RingBuffer::new(4);
    b.push(10u8);
    b.push(20);
    assert_eq!(contents(&b), vec![10, 20]);
    assert_eq!(b.len(), 2);
}

#[test]
fn exactly_capacity_plus_one() {
    let mut b = RingBuffer::new(100);
    for i in 0..101u32 {
        b.push(i);
    }
    assert_eq!(contents(&b), (1..101).collect::<Vec<u32>>());
}

#[test]
fn truncate_empties_and_keeps_capacity() {
    let mut b = RingBuffer::new(2);
    b.push(1i64);
    b.push(2);
    b.push(3);
    b.truncate();
    assert_eq!(b.len(), 0);
    assert_eq!(b.capacity(), 2);
    assert!(contents(&b).is_empty());
    b.push(7);
    assert_eq!(contents(&b), vec![7]);
}

#[test]
fn zero_capacity_stays_empty() {
    let mut b = RingBuffer::new(0);
    b.push(1u16);
    b.push(2);
    assert_eq!(b.len(), 0);
    assert!(contents(&b).is_empty());
}

#[test]
fn holds_floats() {
    let mut b = RingBuffer::new(2);
    b.push(16.5f64);
    b.push(17.0);
    b.push(15.5);
    let sum: f64 = contents(&b).iter().sum();
    assert_eq!(sum, 32.5);
}
