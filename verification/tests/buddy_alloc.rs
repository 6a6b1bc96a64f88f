use silk_engine::util::buddy_alloc::BuddyAlloc;

#[test]
fn buddy_alloc_takes_and_frees() {
    let mut a = BuddyAlloc::new(100);
    assert_eq!(a.len(), 100);
    let o = a.allocate(10);
    assert_eq!(o, 0);
    let p = a.allocate(16);
    assert_eq!(p, 16);
    a.dealloc(o, 10);
    a.dealloc(p, 16);
    let q = a.allocate(128);
    assert_eq!(q, 0);
    assert_eq!(a.allocate(1), usize::MAX);
}

#[test]
fn buddy_alloc_grow_frees_the_added_range() {
    let mut a = silk_engine::buddy_alloc::BuddyAlloc::new(4);
    assert_eq!(a.allocate(1), 0);
    a.resize(8);
    assert_eq!(a.len(), 8);
    assert_eq!(a.allocate(4), 4);
    assert_eq!(a.allocate(2), 2);
    assert_eq!(a.allocate(1), 1);
    assert_eq!(a.allocate(1), usize::MAX);
}

#[test]
fn buddy_alloc_shrink_keeps_used_memory_used() {
    let mut a = silk_engine::buddy_alloc::BuddyAlloc::new(8);
    assert_eq!(a.allocate(2), 0);
    a.resize(4);
    assert_eq!(a.len(), 4);
    assert_eq!(a.allocate(2), 2);
    assert_eq!(a.allocate(1), usize::MAX);
}

#[test]
fn buddy_alloc_shrink_of_a_free_pool_keeps_it_free() {
    let mut a = silk_engine::buddy_alloc::BuddyAlloc::new(16);
    a.resize(4);
    assert_eq!(a.allocate(4), 0);
    assert_eq!(a.allocate(1), usize::MAX);
}

#[test]
fn buddy_alloc_resize_frees_exactly_the_new_range() {
    let mut a = BuddyAlloc::new(4);
    assert_eq!(a.allocate(1), 0);
    a.resize(16);
    assert_eq!(a.len(), 16);
    assert_eq!(a.allocate(8), 8);
    assert_eq!(a.allocate(4), 4);
    assert_eq!(a.allocate(2), 2);
    assert_eq!(a.allocate(1), 1);
    assert_eq!(a.allocate(1), usize::MAX);
    a.resize(8);
    assert_eq!(a.allocate(1), usize::MAX);
}
