use metaros::memory_manager::MemoryManager;

#[test]
fn test_memory_manager() {
    let mut mm = MemoryManager::new(1024);

    let addr1 = mm.allocate(100).unwrap();
    let addr2 = mm.allocate(200).unwrap();
    let addr3 = mm.allocate(300).unwrap();

    assert_eq!(addr1, 0);
    assert_eq!(addr2, 100);
    assert_eq!(addr3, 300);

    mm.deallocate(addr2);
    let addr4 = mm.allocate(150).unwrap();
    assert_eq!(addr4, 100);

    mm.deallocate(addr1);
    mm.deallocate(addr3);
    mm.deallocate(addr4);

    let addr5 = mm.allocate(1000).unwrap();
    assert_eq!(addr5, 0);
}

#[test]
fn test_allocate_exhausted() {
    let mut mm = MemoryManager::new(100);
    assert_eq!(mm.allocate(50), Some(0));
    // No free block of 60 bytes is left; the arena never grows.
    assert_eq!(mm.allocate(60), None);
    assert_eq!(mm.allocate(50), Some(50));
    assert_eq!(mm.allocate(1), None);
}

#[test]
fn test_coalesce_adjacent_free_blocks() {
    let mut mm = MemoryManager::new(300);
    let a = mm.allocate(100).unwrap();
    let b = mm.allocate(100).unwrap();
    let c = mm.allocate(100).unwrap();
    assert_eq!((a, b, c), (0, 100, 200));
    // Freeing the two lower neighbours coalesces them into one block,
    // large enough for a 200-byte request.
    mm.deallocate(b);
    mm.deallocate(a);
    assert_eq!(mm.allocate(200), Some(0));
}

#[test]
fn test_deallocate_interior_offset_is_noop() {
    let mut mm = MemoryManager::new(100);
    let a = mm.allocate(40).unwrap();
    assert_eq!(a, 0);
    // An interior offset matches no block start: nothing is freed.
    mm.deallocate(10);
    assert_eq!(mm.allocate(60), Some(40));
    assert_eq!(mm.allocate(1), None);
}
