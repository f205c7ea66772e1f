use roughdb::memtable::arena::{Arena, DEFAULT_CAPACITY};

#[test]
fn initializes_slice_to_zeros() {
    let arena = Arena::new(64);
    let slice = arena.allocate(32).expect("This should succeed");
    for byte in slice {
        assert_eq!(0, *byte);
    }
}

#[test]
fn returns_none_on_oom() {
    let arena = Arena::new(32);
    let some_mem = arena.allocate(64);
    assert!(some_mem.is_none());
}

#[test]
fn arena_buffer_has_the_size_asked_for() {
    let arena = Arena::new(1024);
    for size in [0usize, 1, 7, 100] {
        let buffer = arena.allocate(size).expect("within the capacity");
        assert_eq!(buffer.len(), size);
        assert!(buffer.iter().all(|byte| *byte == 0));
    }
}

#[test]
fn arena_fails_once_the_capacity_is_used_up() {
    let arena = Arena::new(64);
    assert!(arena.allocate(32).is_some());
    assert!(arena.allocate(32).is_some());
    assert!(arena.allocate(1).is_none());
}

#[test]
fn arena_refuses_by_its_own_capacity() {
    let small = Arena::new(100);
    let large = Arena::new(1000);
    assert!(small.allocate(101).is_none());
    assert!(large.allocate(101).is_some());
}

#[test]
fn arena_buffers_stay_as_written() {
    let arena = Arena::new(4096);
    let first = arena.allocate(16).expect("within the capacity");
    first[0] = 42;
    first[15] = 43;
    let second = arena.allocate(16).expect("within the capacity");
    assert!(second.iter().all(|byte| *byte == 0));
    second[0] = 1;
    assert_eq!(first[0], 42);
    assert_eq!(first[15], 43);
}

#[test]
fn arena_default_takes_a_large_record() {
    assert_eq!(DEFAULT_CAPACITY, 10 << 20);
    let arena = Arena::default();
    assert!(arena.allocate(1 << 20).is_some());
    assert!(arena.allocate((10 << 20) + 1).is_none());
}
