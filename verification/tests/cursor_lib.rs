use arena_stack::{make_storage, StackRef};

#[test]
fn lib_test_lifo_order() {
    let storage = make_storage::<&'static str, 3>();
    let mut stack = StackRef::from_slice(storage);

    stack.push("first").unwrap();
    stack.push("second").unwrap();
    stack.push("third").unwrap();

    assert_eq!(stack.pop(), Some("third"));
    assert_eq!(stack.peek(), Some("second").as_ref());
    assert_eq!(stack.pop(), Some("second"));
    assert_eq!(stack.pop(), Some("first"));
    assert_eq!(stack.pop(), None);
}

#[test]
fn lib_test_peek_n() {
    let storage = make_storage::<u32, 5>();
    let mut stack = StackRef::from_slice(storage);

    assert!(stack.push(1).is_ok());
    assert!(stack.push(2).is_ok());
    assert!(stack.push(3).is_ok());
    assert!(stack.push(4).is_ok());
    assert!(stack.push(5).is_ok());

    // Valid peek of top 3 elements
    if let Some(slice) = stack.peek_n::<3>() {
        assert_eq!(slice, vec![3, 4, 5]);
    } else {
        panic!("peek_n::<3> should have succeeded");
    }

    // Invalid peek: requesting more than available
    assert!(stack.peek_n::<6>().is_none());
    assert!(stack.peek_n::<5>().is_some());

    // Pop one and peek 3 again: still valid
    assert_eq!(stack.pop(), Some(5));
    assert!(stack.peek_n::<3>().is_some());

    // Pop another and try peeking 3: now too few
    assert_eq!(stack.pop(), Some(4));
    assert!(stack.peek_n::<4>().is_none());
}

#[test]
fn lib_test_peek_many() {
    let storage = make_storage::<u32, 6>();
    let mut stack = StackRef::from_slice(storage);

    for i in 1..=5 {
        assert!(stack.push(i).is_ok());
    }

    // Valid peek of top 3 elements
    if let Some(slice) = stack.peek_many(3) {
        assert_eq!(slice, vec![3, 4, 5]);
    } else {
        panic!("peek_many(3) should have succeeded");
    }

    // Invalid peek: too many elements
    assert!(stack.peek_many(6).is_none());

    // Peek whole stack: should succeed with 5
    if let Some(slice) = stack.peek_many(5) {
        assert_eq!(slice, vec![1, 2, 3, 4, 5]);
    } else {
        panic!("peek_many(5) should have succeeded");
    }

    // Pop 2 items and then try peek_many(4) — should fail now
    stack.pop();
    stack.pop();
    assert!(stack.peek_many(4).is_none());

    // Now peek_many(3) should succeed
    if let Some(slice) = stack.peek_many(3) {
        assert_eq!(slice, vec![1, 2, 3]);
    } else {
        panic!("peek_many(3) should still work");
    }
}

#[test]
fn lib_test_push_n_and_pop_n_success() {
    let storage = make_storage::<u32, 6>();
    let mut stack = StackRef::from_slice(storage);

    let arr1 = [10, 20];
    let arr2 = [30, 40, 50];

    assert!(stack.push_n(arr1).is_ok());
    assert!(stack.push_n(arr2).is_ok());

    // Should pop [30, 40, 50] first
    if let Some(popped) = stack.pop_n::<3>() {
        assert_eq!(popped, vec![30, 40, 50]);
    } else {
        panic!("pop_n::<3> should succeed");
    }

    // Then pop [10, 20]
    if let Some(popped) = stack.pop_n::<2>() {
        assert_eq!(popped, vec![10, 20]);
    } else {
        panic!("pop_n::<2> should succeed");
    }

    assert!(stack.pop_n::<1>().is_none());
}

#[test]
fn lib_test_push_n_overflow() {
    let storage = make_storage::<u32, 4>();
    let mut stack = StackRef::from_slice(storage);

    let ok = [1, 2];
    let fail = [3, 4, 5];

    assert!(stack.push_n(ok).is_ok());
    assert_eq!(stack.push_n(fail), Err(fail));
}

#[test]
fn lib_test_pop_n_underflow() {
    let storage = make_storage::<u32, 3>();
    let mut stack = StackRef::from_slice(storage);

    assert!(stack.push(1).is_ok());
    assert!(stack.pop_n::<2>().is_none());
    assert!(stack.pop_n::<1>().is_some());
    assert!(stack.pop_n::<1>().is_none());
}

#[test]
fn lib_test_mixed_push_pop_n() {
    let storage = make_storage::<u32, 6>();
    let mut stack = StackRef::from_slice(storage);

    assert!(stack.push_n([1, 2, 3]).is_ok());
    assert!(stack.push(4).is_ok());
    assert!(stack.push_n([5, 6]).is_ok());

    // pop top 2: should be [5, 6]
    assert_eq!(stack.pop_n::<2>(), Some(vec![5, 6]));

    // pop single: should be 4
    assert_eq!(stack.pop(), Some(4));

    // pop 3: should be [1, 2, 3]
    assert_eq!(stack.pop_n::<3>(), Some(vec![1, 2, 3]));

    // stack is now empty
    assert!(stack.pop().is_none());
}

#[test]
fn lib_test_slice_conversion_basic() {
    let storage = make_storage::<u32, 4>();
    let mut stack = StackRef::from_slice(storage);

    assert_eq!(stack.pop(), None);

    assert!(stack.push(10).is_ok());
    assert!(stack.push(20).is_ok());

    let idx = stack.write_index();
    assert_eq!(idx, 2);

    let slice = stack.to_slice();
    let mut stack = StackRef::from_slice(slice);
    stack.set_write_index(idx);

    assert_eq!(stack.pop(), Some(20));
    assert_eq!(stack.pop(), Some(10));
    assert_eq!(stack.pop(), None);
}
