use fixed_capacity_list::{CapacityExceeded, FixedCapacityList};

#[test]
fn list_is_has_fifo_interface() {
    let mut b = FixedCapacityList::<i32>::new(2);
    b.enqueue(1).unwrap();
    b.enqueue(2).unwrap();
    assert_eq!(b.dequeue(), Some(1));
    assert_eq!(b.dequeue(), Some(2));
    assert_eq!(b.dequeue(), None);
}

#[test]
fn list_can_add_up_to_its_capacity() {
    let mut b = FixedCapacityList::<i32>::new(2);
    assert!(b.enqueue(1).is_ok());
    assert!(b.enqueue(2).is_ok());
}

#[test]
fn list_wont_add_past_fixed_capacity() {
    let mut b = FixedCapacityList::<i32>::new(2);
    b.enqueue(1).unwrap();
    b.enqueue(2).unwrap();
    assert_eq!(b.enqueue(3), Err(CapacityExceeded));
}

#[test]
fn list_reuses_freed_nodes() {
    let mut b = FixedCapacityList::<i32>::new(2);
    b.enqueue(1).unwrap();
    b.enqueue(2).unwrap();
    b.dequeue();
    b.dequeue();
    b.enqueue(3).unwrap();
    b.enqueue(4).unwrap();
    assert_eq![b.dequeue(), Some(3)];
    assert_eq![b.dequeue(), Some(4)];
}

#[test]
fn three_in_three_out() {
    let mut b = FixedCapacityList::<i32>::new(3);
    for v in 1..=3 {
        assert!(b.enqueue(v).is_ok());
    }
    assert_eq!(b.size(), 3);
    assert_eq!(b.dequeue(), Some(1));
    assert_eq!(b.dequeue(), Some(2));
    assert_eq!(b.dequeue(), Some(3));
    assert_eq!(b.size(), 0);
}

#[test]
fn reuse_after_draining() {
    let mut b = FixedCapacityList::<i32>::new(2);
    b.enqueue(1).unwrap();
    b.enqueue(2).unwrap();
    assert_eq!(b.dequeue(), Some(1));
    assert_eq!(b.dequeue(), Some(2));
    assert!(b.enqueue(3).is_ok());
    assert!(b.enqueue(4).is_ok());
    assert_eq!(b.dequeue(), Some(3));
    assert_eq!(b.dequeue(), Some(4));
}

#[test]
fn over_capacity_keeps_size() {
    let mut b = FixedCapacityList::<i32>::new(2);
    assert!(b.enqueue(1).is_ok());
    assert!(b.enqueue(2).is_ok());
    assert_eq!(b.enqueue(3), Err(CapacityExceeded));
    assert_eq!(b.size(), 2);
    assert_eq!(b.free_slot_count(), 0);
    assert_eq!(b.dequeue(), Some(1));
    assert_eq!(b.dequeue(), Some(2));
}

#[test]
fn size_and_free_slots_add_up() {
    let mut b = FixedCapacityList::<u8>::new(4);
    assert_eq!(b.capacity(), 4);
    assert_eq!(b.size() + b.free_slot_count(), 4);
    b.enqueue(7).unwrap();
    b.enqueue(8).unwrap();
    assert_eq!(b.size(), 2);
    assert_eq!(b.free_slot_count(), 2);
    b.dequeue();
    assert_eq!(b.size() + b.free_slot_count(), b.capacity());
    b.enqueue(9).unwrap();
    b.enqueue(10).unwrap();
    b.enqueue(11).unwrap();
    assert_eq!(b.size(), 4);
    assert_eq!(b.free_slot_count(), 0);
    assert_eq!(b.size() + b.free_slot_count(), b.capacity());
}

#[test]
fn exactly_freed_slots_are_reused() {
    let mut b = FixedCapacityList::<i32>::new(5);
    for v in 0..5 {
        b.enqueue(v).unwrap();
    }
    assert_eq!(b.dequeue(), Some(0));
    assert_eq!(b.dequeue(), Some(1));
    assert!(b.enqueue(10).is_ok());
    assert!(b.enqueue(11).is_ok());
    assert_eq!(b.enqueue(12), Err(CapacityExceeded));
    let mut out = Vec::new();
    while let Some(v) = b.dequeue() {
        out.push(v);
    }
    assert_eq!(out, vec![2, 3, 4, 10, 11]);
}

#[test]
fn zero_capacity_is_always_full() {
    let mut b = FixedCapacityList::<i32>::new(0);
    assert_eq!(b.capacity(), 0);
    assert_eq!(b.size(), 0);
    assert_eq!(b.free_slot_count(), 0);
    assert_eq!(b.enqueue(1), Err(CapacityExceeded));
    assert_eq!(b.dequeue(), None);
}

#[test]
fn dequeue_on_empty_changes_nothing() {
    let mut b = FixedCapacityList::<i32>::new(1);
    assert_eq!(b.dequeue(), None);
    assert_eq!(b.free_slot_count(), 1);
    b.enqueue(5).unwrap();
    assert_eq!(b.dequeue(), Some(5));
    assert_eq!(b.dequeue(), None);
    assert_eq!(b.free_slot_count(), 1);
}

#[test]
fn many_values_come_out_in_order() {
    let mut b = FixedCapacityList::<u32>::new(100);
    for round in 0..3u32 {
        for v in 0..100u32 {
            assert!(b.enqueue(round * 1000 + v).is_ok());
        }
        assert_eq!(b.enqueue(0), Err(CapacityExceeded));
        for v in 0..100u32 {
            assert_eq!(b.dequeue(), Some(round * 1000 + v));
        }
        assert_eq!(b.dequeue(), None);
    }
}

#[test]
fn values_that_are_not_copy() {
    let mut b = FixedCapacityList::<String>::new(2);
    b.enqueue("a".to_string()).unwrap();
    b.enqueue("b".to_string()).unwrap();
    assert_eq!(b.dequeue(), Some("a".to_string()));
    b.enqueue("c".to_string()).unwrap();
    assert_eq!(b.dequeue(), Some("b".to_string()));
    assert_eq!(b.dequeue(), Some("c".to_string()));
}
