use fixed_capacity_list::{FixedCapacityList, SpliceError};

fn drain(l: &mut FixedCapacityList<char>, id: usize) -> Vec<char> {
    let mut out = Vec::new();
    while let Some(v) = l.dequeue_from(id) {
        out.push(v);
    }
    out
}

#[test]
fn single_element_into_empty_list() {
    let mut l = FixedCapacityList::<char>::new(2);
    l.enqueue('A').unwrap();
    let b = l.add_list();
    assert_eq!(b, 1);
    assert_eq!(l.list_count(), 2);
    assert_eq!(l.splice(0, 0, 1, b), Ok(()));
    assert_eq!(l.size(), 0);
    assert_eq!(l.size_of(b), 1);
    assert_eq!(l.free_slot_count(), 1);
    assert_eq!(l.dequeue(), None);
    assert_eq!(drain(&mut l, b), vec!['A']);
}

#[test]
fn middle_run_into_empty_list() {
    let mut l = FixedCapacityList::<char>::new(6);
    for c in ['a', 'b', 'c', 'd', 'e'] {
        l.enqueue(c).unwrap();
    }
    let b = l.add_list();
    assert_eq!(l.splice(0, 1, 3, b), Ok(()));
    assert_eq!(l.size(), 2);
    assert_eq!(l.size_of(b), 3);
    assert_eq!(l.free_slot_count(), 1);
    assert_eq!(drain(&mut l, 0), vec!['a', 'e']);
    assert_eq!(drain(&mut l, b), vec!['b', 'c', 'd']);
    assert_eq!(l.free_slot_count(), 6);
}

#[test]
fn run_appended_after_existing_content() {
    let mut l = FixedCapacityList::<char>::new(7);
    for c in ['a', 'b', 'c'] {
        l.enqueue(c).unwrap();
    }
    let b = l.add_list();
    l.enqueue_to(b, 'x').unwrap();
    l.enqueue_to(b, 'y').unwrap();
    assert_eq!(l.splice(0, 0, 2, b), Ok(()));
    assert_eq!(l.size(), 1);
    assert_eq!(l.size_of(b), 4);
    l.enqueue_to(b, 'z').unwrap();
    l.enqueue('d').unwrap();
    assert_eq!(drain(&mut l, b), vec!['x', 'y', 'a', 'b', 'z']);
    assert_eq!(drain(&mut l, 0), vec!['c', 'd']);
}

#[test]
fn tail_run_and_back_again() {
    let mut l = FixedCapacityList::<char>::new(4);
    for c in ['p', 'q', 'r', 's'] {
        l.enqueue(c).unwrap();
    }
    let b = l.add_list();
    assert_eq!(l.splice(0, 2, 2, b), Ok(()));
    assert_eq!(l.splice(b, 0, 2, 0), Ok(()));
    assert_eq!(l.size_of(b), 0);
    assert_eq!(drain(&mut l, 0), vec!['p', 'q', 'r', 's']);
}

#[test]
fn whole_list_moves_and_source_is_reusable() {
    let mut l = FixedCapacityList::<char>::new(3);
    for c in ['a', 'b', 'c'] {
        l.enqueue(c).unwrap();
    }
    let b = l.add_list();
    assert_eq!(l.splice(0, 0, 3, b), Ok(()));
    assert_eq!(l.size(), 0);
    assert!(l.enqueue('z').is_err());
    assert_eq!(l.dequeue_from(b), Some('a'));
    assert!(l.enqueue('z').is_ok());
    assert_eq!(drain(&mut l, 0), vec!['z']);
    assert_eq!(drain(&mut l, b), vec!['b', 'c']);
}

#[test]
fn splice_into_itself_is_refused() {
    let mut l = FixedCapacityList::<char>::new(2);
    l.enqueue('a').unwrap();
    assert_eq!(l.splice(0, 0, 1, 0), Err(SpliceError::SameList));
    assert_eq!(drain(&mut l, 0), vec!['a']);
}

#[test]
fn bad_ranges_are_refused() {
    let mut l = FixedCapacityList::<char>::new(3);
    l.enqueue('a').unwrap();
    l.enqueue('b').unwrap();
    let b = l.add_list();
    assert_eq!(l.splice(0, 0, 0, b), Err(SpliceError::InvalidRange));
    assert_eq!(l.splice(0, 1, 2, b), Err(SpliceError::InvalidRange));
    assert_eq!(l.splice(0, 3, 1, b), Err(SpliceError::InvalidRange));
    assert_eq!(l.splice(b, 0, 1, 0), Err(SpliceError::InvalidRange));
    assert_eq!(l.splice(0, usize::MAX, 2, b), Err(SpliceError::InvalidRange));
    assert_eq!(l.size(), 2);
    assert_eq!(l.size_of(b), 0);
    assert_eq!(drain(&mut l, 0), vec!['a', 'b']);
}

#[test]
fn lists_share_the_arena() {
    let mut l = FixedCapacityList::<char>::new(2);
    let b = l.add_list();
    l.enqueue_to(b, 'x').unwrap();
    l.enqueue('a').unwrap();
    assert!(l.enqueue_to(b, 'y').is_err());
    assert_eq!(l.free_slot_count(), 0);
    assert_eq!(l.dequeue_from(b), Some('x'));
    assert!(l.enqueue_to(b, 'y').is_ok());
    assert_eq!(drain(&mut l, 0), vec!['a']);
    assert_eq!(drain(&mut l, b), vec!['y']);
}
