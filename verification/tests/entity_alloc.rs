use xengine::entity::EntityAllocator;

#[test]
fn allocation_and_reuse_bumps_generation() {
    let mut alloc = EntityAllocator::new();
    let a = alloc.allocate();
    let b = alloc.allocate();
    assert_eq!(a.index(), 0);
    assert_eq!(a.generation(), 0);
    assert_eq!(b.index(), 1);
    assert_eq!(b.generation(), 0);

    let index = a.index();
    alloc.release(a.index());
    let c = alloc.allocate();
    assert_eq!(c.index(), index);
    assert_eq!(c.generation(), 1, "reuse must bump the generation");
}

#[test]
fn slot_is_retired_after_generation_overflow() {
    let mut alloc = EntityAllocator::new();
    let first = alloc.allocate();
    // Force the generation to the maximum so the next allocation wraps.
    alloc.advance_generation(first.index(), u32::MAX);
    alloc.release(first.index());
    let wrapped = alloc.allocate();
    assert_eq!(wrapped.generation(), u32::MAX);
    // The next release-and-allocate must NOT reuse the retired slot.
    alloc.release(first.index());
    assert!(alloc.generation_of(first.index()).is_none());
    let after = alloc.allocate();
    assert_ne!(after.index(), first.index());
}

#[test]
fn stale_detection_via_generation() {
    let mut alloc = EntityAllocator::new();
    let a = alloc.allocate();
    alloc.release(a.index());
    let b = alloc.allocate();
    assert_ne!(a.generation(), b.generation(), "old handle must be stale");
}

#[test]
fn released_index_is_free_until_reused() {
    let mut alloc = EntityAllocator::new();
    let a = alloc.allocate();
    assert!(!alloc.is_free(a.index()));
    alloc.release(a.index());
    assert!(alloc.is_free(a.index()));
    assert_eq!(alloc.generation_of(a.index()), Some(1));
    let _b = alloc.allocate();
    assert!(!alloc.is_free(a.index()));
    assert_eq!(alloc.generation_of(7), None);
}
