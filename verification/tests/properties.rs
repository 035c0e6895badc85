use arena_stack::{make_storage, take_last_mut, RevStackRef, StackRef};

#[test]
fn lifo_round_on_both_orientations() {
    let mut fwd = StackRef::from_slice(make_storage::<u32, 8>());
    let mut rev = RevStackRef::from_slice(make_storage::<u32, 8>());
    for v in [3, 1, 4, 1, 5] {
        fwd.push(v).unwrap();
        rev.push(v).unwrap();
    }
    for v in [5, 1, 4, 1, 3] {
        assert_eq!(fwd.pop(), Some(v));
        assert_eq!(rev.pop(), Some(v));
    }
    assert_eq!(fwd.pop(), None);
    assert_eq!(rev.pop(), None);
}

#[test]
fn failed_push_conserves_capacity() {
    let mut stack = StackRef::from_slice(make_storage::<u32, 1>());
    assert!(stack.push(1).is_ok());
    let before = stack.write_index();
    assert_eq!(stack.push(2), Err(2));
    assert_eq!(stack.write_index(), before);
    // once room is freed, the same value goes in
    assert_eq!(stack.pop(), Some(1));
    assert!(stack.push(2).is_ok());
    assert_eq!(stack.pop(), Some(2));
}

#[test]
fn write_index_save_restore_roundtrip() {
    let mut stack = StackRef::from_slice(make_storage::<u32, 4>());
    stack.push(10).unwrap();
    stack.push(20).unwrap();

    let i = stack.write_index();
    stack.push(77).unwrap();
    stack.set_write_index(i);

    // observably identical to before the push
    assert_eq!(stack.write_index(), i);
    assert_eq!(stack.peek(), Some(&20));

    // re-pushing the value and popping returns it
    stack.push(77).unwrap();
    assert_eq!(stack.pop(), Some(77));
    assert_eq!(stack.pop(), Some(20));
    assert_eq!(stack.pop(), Some(10));
    assert_eq!(stack.pop(), None);
}

#[test]
fn split_parts_are_disjoint() {
    let mut stack = StackRef::from_slice(make_storage::<u32, 6>());
    stack.push(1).unwrap();
    stack.push(2).unwrap();

    let (left, mut right) = stack.split();
    let frozen = left.clone();

    right.push(97).unwrap();
    right.push(98).unwrap();
    right.pop().unwrap();

    // nothing written through the new cursor shows in the prefix
    assert_eq!(left, frozen);

    // rejoining shows the prefix unchanged below the new writes
    let mut whole = StackRef::join(left, right);
    assert_eq!(whole.write_index(), 3);
    assert_eq!(whole.pop(), Some(97));
    assert_eq!(whole.pop(), Some(2));
    assert_eq!(whole.pop(), Some(1));
    assert_eq!(whole.pop(), None);
}

#[test]
fn adopt_after_advance() {
    let mut stack = StackRef::from_slice(make_storage::<u32, 4>());
    stack.push(1).unwrap();
    stack.push(2).unwrap();
    stack.push(3).unwrap();
    // retreat, then adopt the still-initialized slot back
    stack.set_write_index(2);
    assert_eq!(stack.write_index(), 2);
    stack.advance(1);
    assert_eq!(stack.pop(), Some(3));
}

#[test]
fn scenario_push_pop_ints() {
    // capacity 4 of 32-bit integers: push 10, push 20; pops yield 20, 10,
    // then nothing
    let mut stack = StackRef::from_slice(make_storage::<u32, 4>());
    stack.push(10).unwrap();
    stack.push(20).unwrap();
    assert_eq!(stack.pop(), Some(20));
    assert_eq!(stack.pop(), Some(10));
    assert_eq!(stack.pop(), None);
}

#[test]
fn scenario_push_until_full() {
    // capacity 2: push 1 (ok), push 2 (ok), push 3 fails and returns 3
    let mut stack = StackRef::from_slice(make_storage::<u32, 2>());
    assert_eq!(stack.push(1), Ok(()));
    assert_eq!(stack.push(2), Ok(()));
    assert_eq!(stack.push(3), Err(3));
}

#[test]
fn scenario_push_slice_fill() {
    let mut stack = StackRef::from_slice(make_storage::<u32, 5>());
    assert_eq!(stack.push_slice(&[1, 2, 3]), Ok(()));
    assert_eq!(stack.peek_many(3), Some(vec![1, 2, 3]));
    assert_eq!(stack.push_slice(&[4, 5, 6]), Err(()));
    assert_eq!(stack.push_slice(&[4, 5]), Ok(()));
    assert_eq!(stack.write_index(), 5);
    assert_eq!(stack.push_slice(&[7]), Err(()));
    assert_eq!(stack.push_slice(&[7, 8]), Err(()));
    assert_eq!(stack.push_slice(&[7, 8, 9]), Err(()));
}

#[test]
fn drop_inside_boundaries() {
    // skip zero is a no-op; out-of-range skips and counts are refused
    let mut stack = StackRef::new_full(vec![1, 2, 3, 4, 5]);
    assert_eq!(stack.drop_inside(0, 3), Ok(()));
    assert_eq!(stack.write_index(), 5);

    assert_eq!(stack.drop_inside(5, 1), Err(()));
    assert_eq!(stack.drop_inside(2, 3), Err(()));
    assert_eq!(stack.write_index(), 5);

    // remove [3, 4]: two slots, ending two below the top
    assert_eq!(stack.drop_inside(2, 2), Ok(()));
    assert_eq!(stack.pop(), Some(5));
    assert_eq!(stack.pop(), Some(2));
    assert_eq!(stack.pop(), Some(1));
    assert_eq!(stack.pop(), None);

    let mut empty = StackRef::from_slice(make_storage::<u32, 2>());
    assert_eq!(empty.drop_inside(1, 1), Err(()));
}

#[test]
fn flush_discards_committed_slots() {
    let mut stack = StackRef::from_slice(make_storage::<u32, 4>());
    stack.push(1).unwrap();
    stack.push(2).unwrap();
    stack.push(3).unwrap();
    stack.flush(2);
    assert_eq!(stack.write_index(), 1);
    stack.flush(7);
    assert_eq!(stack.write_index(), 0);

    stack.push(9).unwrap();
    stack.flush_all();
    assert_eq!(stack.write_index(), 0);
    assert_eq!(stack.pop(), None);
}

#[test]
fn take_last_mut_detaches_the_tail() {
    let mut v = vec![1, 2, 3, 4];
    let tail = take_last_mut(&mut v, 2);
    assert_eq!(tail, vec![3, 4]);
    assert_eq!(v, vec![1, 2]);

    let rest = take_last_mut(&mut v, 10);
    assert_eq!(rest, vec![1, 2]);
    assert!(v.is_empty());
}

#[test]
fn rev_stack_over_full_block() {
    // the low end of a fully populated block is the top of the stack
    let mut s = RevStackRef::new_full(vec![7, 8, 9]);
    assert_eq!(s.len(), 3);
    assert_eq!(s.write_index(), 3);
    assert_eq!(s.room_left(), 0);
    assert!(!s.is_empty());
    assert_eq!(s.peek(), Some(&7));
    assert_eq!(s.pop(), Some(7));
    assert_eq!(s.room_left(), 1);
    assert_eq!(s.pop(), Some(8));
    assert_eq!(s.pop(), Some(9));
    assert_eq!(s.pop(), None);
}

#[test]
fn as_slice_shows_all_initialized_slots() {
    let mut stack = StackRef::from_slice(make_storage::<u32, 4>());
    stack.push(1).unwrap();
    stack.push(2).unwrap();
    assert_eq!(stack.as_slice(), &[1, 2]);
    // a retreated head keeps the slot initialized
    stack.set_write_index(1);
    assert_eq!(stack.as_slice(), &[1, 2]);
}

#[test]
fn storage_roundtrip_through_rev_stack() {
    let mut s = RevStackRef::from_slice(make_storage::<u32, 3>());
    s.push(1).unwrap();
    s.push(2).unwrap();
    // the block comes back with the live values first, top of stack first
    let storage = s.into_slice();
    let mut fwd = StackRef::from_slice(storage);
    fwd.set_write_index(2);
    assert_eq!(fwd.pop(), Some(1));
    assert_eq!(fwd.pop(), Some(2));
}
