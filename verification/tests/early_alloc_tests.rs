use memalloc::early_alloc::EarlyAllocator;
use memalloc::AllocError;

const MIB: usize = 1 << 20;

#[test]
fn new_is_zeroed() {
    let a = EarlyAllocator::<4096>::new();
    assert_eq!(a.total_bytes(), 0);
    assert_eq!(a.used_bytes(), 0);
    assert_eq!(a.available_bytes(), 0);
}

#[test]
fn init_sets_cursors_to_the_ends() {
    let mut a = EarlyAllocator::<4096>::new();
    a.init(0x10_0000, MIB);
    assert_eq!(a.total_bytes(), MIB);
    assert_eq!(a.used_bytes(), 0);
    assert_eq!(a.available_bytes(), MIB);
    assert_eq!(a.total_pages(), MIB / 4096);
    assert_eq!(a.used_pages(), 0);
    assert_eq!(a.available_pages(), MIB / 4096);
}

#[test]
fn add_memory_is_acknowledged_and_ignored() {
    let mut a = EarlyAllocator::<4096>::new();
    a.init(0x10_0000, MIB);
    assert_eq!(a.add_memory(0x40_0000, MIB), Ok(()));
    assert_eq!(a.total_bytes(), MIB);
}

#[test]
fn bytes_bump_forward() {
    let mut a = EarlyAllocator::<4096>::new();
    a.init(0x10_0000, MIB);
    let p = a.alloc_bytes(10, 1).unwrap();
    assert_eq!(p, 0x10_0000);
    assert_eq!(a.used_bytes(), 10);
    // the next allocation is aligned up from the cursor
    let q = a.alloc_bytes(16, 8).unwrap();
    assert_eq!(q, 0x10_0010);
    assert_eq!(a.used_bytes(), 0x10 + 16);
}

#[test]
fn dealloc_rewinds_only_the_most_recent() {
    let mut a = EarlyAllocator::<4096>::new();
    a.init(0x10_0000, MIB);
    let p = a.alloc_bytes(16, 8).unwrap();
    let q = a.alloc_bytes(16, 8).unwrap();
    // freeing the older block is a deliberate no-op
    a.dealloc(p, 16);
    assert_eq!(a.used_bytes(), 32);
    // freeing the most recent rewinds the cursor
    a.dealloc(q, 16);
    assert_eq!(a.used_bytes(), 16);
    a.dealloc(p, 16);
    assert_eq!(a.used_bytes(), 0);
}

#[test]
fn pages_bump_backward() {
    let mut a = EarlyAllocator::<4096>::new();
    a.init(0x10_0000, MIB);
    let p = a.alloc_pages(10, 12).unwrap();
    assert_eq!(p, 0x10_0000 + MIB - 10 * 4096);
    assert_eq!(a.used_pages(), 10);
    assert_eq!(a.available_pages(), MIB / 4096 - 10);
}

#[test]
fn dealloc_pages_is_a_no_op_for_allocated_runs() {
    // pages are conceptually never freed: a run that does not end exactly
    // at the page cursor is left alone, and allocated runs start at or
    // above the cursor, so they never match
    let mut a = EarlyAllocator::<4096>::new();
    a.init(0x10_0000, MIB);
    let p = a.alloc_pages(2, 12).unwrap();
    let q = a.alloc_pages(1, 12).unwrap();
    assert_eq!(q, p - 4096);
    a.dealloc_pages(p, 2);
    assert_eq!(a.used_pages(), 3);
    a.dealloc_pages(q, 1);
    assert_eq!(a.used_pages(), 3);
}

#[test]
fn scenario_dual_end_gap_closes() {
    // bootstrap allocator over 1 MiB with 4 KiB pages: pages from the top,
    // bytes from the bottom, and a byte request fails once the gap is gone
    let mut a = EarlyAllocator::<4096>::new();
    a.init(0x10_0000, MIB);
    let pages = a.alloc_pages(10, 12).unwrap();
    assert_eq!(pages, 0x10_0000 + MIB - 10 * 4096);
    let bytes = a.alloc_bytes(4096, 8).unwrap();
    assert_eq!(bytes, 0x10_0000);
    // byte and page ranges never overlap
    assert!(bytes + 4096 <= pages);
    // close the remaining gap entirely with pages
    let gap_pages = a.available_pages();
    assert_eq!(gap_pages, 245);
    let last = a.alloc_pages(gap_pages, 0).unwrap();
    assert_eq!(last, 0x10_0000 + 4096);
    assert_eq!(a.available_bytes(), 0);
    // now any byte allocation reports out of memory without moving cursors
    let used_before = a.used_bytes();
    assert_eq!(a.alloc_bytes(1, 1), Err(AllocError::NoMemory));
    assert_eq!(a.used_bytes(), used_before);
}

#[test]
fn failed_page_allocation_moves_nothing() {
    let mut a = EarlyAllocator::<4096>::new();
    a.init(0x10_0000, 2 * 4096);
    assert_eq!(a.alloc_pages(3, 12), Err(AllocError::NoMemory));
    assert_eq!(a.used_pages(), 0);
    assert_eq!(a.available_pages(), 2);
    assert_eq!(a.alloc_pages(2, 12).unwrap(), 0x10_0000);
}
