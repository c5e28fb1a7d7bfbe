use shared_rc::my_rc2::{MyRc2, RcArena};

#[test]
#[allow(non_snake_case)]
fn MyRc2_my_rc_test() {
    let mut arena = RcArena::new();
    let a = MyRc2::new(String::from("123"), &mut arena);
    assert_eq!(a.strong_count(&arena), 1);
    let b = a.clone(&mut arena);
    assert_eq!(a.strong_count(&arena), 2);
    assert_eq!(b.strong_count(&arena), 2);
    assert_eq!(*a.deref(&arena), "123");
    assert_eq!(*b.deref(&arena), "123");

    {
        let c = b.clone(&mut arena);
        assert_eq!(a.strong_count(&arena), 3);
        assert_eq!(b.strong_count(&arena), 3);
        assert_eq!(c.strong_count(&arena), 3);
        assert_eq!(*c.deref(&arena), "123");
        c.release(&mut arena);
    }
    assert_eq!(a.strong_count(&arena), 2);
    assert_eq!(b.strong_count(&arena), 2);
}

#[test]
fn split_release_to_empty() {
    let mut arena = RcArena::new();
    let a = MyRc2::new(String::from("123"), &mut arena);
    let b = a.clone(&mut arena);
    let c = b.clone(&mut arena);
    assert_eq!(arena.live_blocks(), 1);
    c.release(&mut arena);
    assert_eq!(a.strong_count(&arena), 2);
    assert_eq!(b.strong_count(&arena), 2);
    b.release(&mut arena);
    assert_eq!(a.strong_count(&arena), 1);
    assert_eq!(*a.deref(&arena), "123");
    assert_eq!(arena.live_blocks(), 1);
    a.release(&mut arena);
    assert_eq!(arena.live_blocks(), 0);
}

#[test]
fn split_chain_of_clones_counts() {
    let mut arena = RcArena::new();
    let mut handles = vec![MyRc2::new(7u64, &mut arena)];
    for n in 2..=10usize {
        let next = handles[n - 2].clone(&mut arena);
        handles.push(next);
        for h in handles.iter() {
            assert_eq!(h.strong_count(&arena), n);
            assert_eq!(*h.deref(&arena), 7);
        }
    }
}

#[test]
fn split_thousand_handles_any_order() {
    let mut arena = RcArena::new();
    let root = MyRc2::new(vec![1u8, 2, 3], &mut arena);
    let mut handles = Vec::new();
    for _ in 0..999 {
        handles.push(root.clone(&mut arena));
    }
    handles.push(root);
    assert_eq!(handles[0].strong_count(&arena), 1000);
    let mut left = 1000usize;
    let mut pick = 0usize;
    while !handles.is_empty() {
        pick = (pick + 617) % handles.len();
        let h = handles.swap_remove(pick);
        h.release(&mut arena);
        left -= 1;
        if let Some(other) = handles.first() {
            assert_eq!(other.strong_count(&arena), left);
            assert_eq!(*other.deref(&arena), vec![1u8, 2, 3]);
            assert_eq!(arena.live_blocks(), 1);
        }
    }
    assert_eq!(left, 0);
    assert_eq!(arena.live_blocks(), 0);
}

#[test]
fn split_groups_are_independent() {
    let mut arena = RcArena::new();
    let x = MyRc2::new(1i32, &mut arena);
    let y = MyRc2::new(2i32, &mut arena);
    let x2 = x.clone(&mut arena);
    assert_eq!(x.strong_count(&arena), 2);
    assert_eq!(y.strong_count(&arena), 1);
    assert_eq!(arena.live_blocks(), 2);
    y.release(&mut arena);
    assert_eq!(arena.live_blocks(), 1);
    assert_eq!(x2.strong_count(&arena), 2);
    assert_eq!(*x2.deref(&arena), 1);
}

#[test]
fn split_reclaimed_storage_is_reused() {
    let mut arena = RcArena::new();
    for round in 0..5u32 {
        let a = MyRc2::new(round, &mut arena);
        let b = a.clone(&mut arena);
        let c = a.clone(&mut arena);
        assert_eq!(b.strong_count(&arena), 3);
        assert_eq!(*c.deref(&arena), round);
        b.release(&mut arena);
        a.release(&mut arena);
        c.release(&mut arena);
        assert_eq!(arena.live_blocks(), 0);
    }
    let kept = MyRc2::new(9u32, &mut arena);
    let other = MyRc2::new(10u32, &mut arena);
    assert_eq!(*kept.deref(&arena), 9);
    assert_eq!(*other.deref(&arena), 10);
    assert_eq!(arena.live_blocks(), 2);
}
