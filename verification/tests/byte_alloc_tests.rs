use memalloc::byte_alloc::{FreeBlock, LabByteAllocator};
use memalloc::AllocError;

#[test]
fn new_allocator_is_empty() {
    let a = LabByteAllocator::new();
    assert_eq!(a.total_bytes(), 0);
    assert_eq!(a.used_bytes(), 0);
    assert_eq!(a.available_bytes(), 0);
}

#[test]
fn mapping_exact_classes() {
    assert_eq!(LabByteAllocator::mapping(8), (3, 0));
    assert_eq!(LabByteAllocator::mapping(16), (4, 0));
    assert_eq!(LabByteAllocator::mapping(24), (4, 16));
    assert_eq!(LabByteAllocator::mapping(32), (5, 0));
    assert_eq!(LabByteAllocator::mapping(64), (6, 0));
    assert_eq!(LabByteAllocator::mapping(4032), (11, 31));
    assert_eq!(LabByteAllocator::mapping(4096), (12, 0));
    assert_eq!(LabByteAllocator::mapping(5000), (12, 7));
}

#[test]
fn mapping_is_monotone_on_samples() {
    let sizes = [8, 9, 15, 16, 24, 31, 32, 63, 64, 65, 520, 528, 4032, 4095, 4096, 5000];
    let mut prev = LabByteAllocator::mapping(sizes[0]);
    for &s in &sizes[1..] {
        let cur = LabByteAllocator::mapping(s);
        assert!(prev.0 < cur.0 || (prev.0 == cur.0 && prev.1 <= cur.1));
        prev = cur;
    }
}

#[test]
fn used_plus_available_equals_total() {
    let mut a = LabByteAllocator::new();
    a.init(0x1000, 4096);
    assert_eq!(a.used_bytes() + a.available_bytes(), a.total_bytes());
    let p = a.alloc_bytes(100, 8).unwrap();
    assert_eq!(a.used_bytes() + a.available_bytes(), a.total_bytes());
    a.dealloc(p, 100, 8);
    assert_eq!(a.used_bytes() + a.available_bytes(), a.total_bytes());
    a.add_memory(0x8000, 1024).unwrap();
    assert_eq!(a.used_bytes() + a.available_bytes(), a.total_bytes());
}

#[test]
fn alloc_on_empty_allocator_fails() {
    let mut a = LabByteAllocator::new();
    assert_eq!(a.alloc_bytes(64, 8), Err(AllocError::NoMemory));
    assert_eq!(a.used_bytes(), 0);
}

#[test]
fn init_registers_aligned_region() {
    let mut a = LabByteAllocator::new();
    a.init(0x1001, 4096);
    // the start is aligned up to 0x1008, the size stays 4096
    assert_eq!(a.total_bytes(), 4096);
    assert_eq!(a.used_bytes(), 0);
    let addr = a.alloc_bytes(8, 8).unwrap();
    assert_eq!(addr, 0x1008);
}

#[test]
fn add_memory_grows_capacity() {
    let mut a = LabByteAllocator::new();
    a.init(0x1000, 1024);
    assert_eq!(a.total_bytes(), 1024);
    assert_eq!(a.add_memory(0x8000, 2048), Ok(()));
    assert_eq!(a.total_bytes(), 3072);
    assert_eq!(a.used_bytes(), 0);
    assert_eq!(a.available_bytes(), 3072);
}

#[test]
fn scenario_small_region_lifecycle() {
    // a 4096-byte region: a small allocation succeeds, an oversized one
    // fails without side effects, and after the free the fragmented
    // remainder is still fully allocatable
    let mut a = LabByteAllocator::new();
    a.init(0x1000, 4096);
    let p = a.alloc_bytes(64, 8).unwrap();
    assert_eq!(p, 0x1000);
    assert_eq!(a.used_bytes(), 64);
    assert_eq!(a.alloc_bytes(5000, 8), Err(AllocError::NoMemory));
    assert_eq!(a.used_bytes(), 64);
    a.dealloc(p, 64, 8);
    assert_eq!(a.used_bytes(), 0);
    // the region was split 64 + 4032; the big remainder is still there
    let q = a.alloc_bytes(4032, 8).unwrap();
    assert_eq!(q, 0x1000 + 64);
    assert_eq!(a.used_bytes(), 4032);
}

#[test]
fn round_trip_restores_used_and_serves_again() {
    let mut a = LabByteAllocator::new();
    a.init(0x2000, 2048);
    let before = a.used_bytes();
    let p = a.alloc_bytes(520, 8).unwrap();
    assert_eq!(a.used_bytes(), before + 520);
    a.dealloc(p, 520, 8);
    assert_eq!(a.used_bytes(), before);
    // a request no larger than the freed size succeeds again
    let q = a.alloc_bytes(520, 8).unwrap();
    assert_eq!(q, p);
}

#[test]
fn alloc_rounds_request_to_granularity() {
    let mut a = LabByteAllocator::new();
    a.init(0x1000, 1024);
    let p = a.alloc_bytes(1, 8).unwrap();
    assert_eq!(p, 0x1000);
    assert_eq!(a.used_bytes(), 8);
    a.dealloc(p, 1, 8);
    assert_eq!(a.used_bytes(), 0);
}

#[test]
fn split_creates_one_discoverable_remainder() {
    let mut a = LabByteAllocator::new();
    a.init(0x4000, 1024);
    // 1024 > 64 + header, so the 1024-block splits into 64 + 960
    let p = a.alloc_bytes(64, 8).unwrap();
    assert_eq!(p, 0x4000);
    assert_eq!(a.used_bytes(), 64);
    // the remainder is exactly 960 bytes and allocatable at its address
    let q = a.alloc_bytes(960, 8).unwrap();
    assert_eq!(q, 0x4000 + 64);
    assert_eq!(a.used_bytes(), 1024);
    // nothing is left
    assert_eq!(a.alloc_bytes(8, 8), Err(AllocError::NoMemory));
}

#[test]
fn no_split_when_remainder_cannot_host_header() {
    let mut a = LabByteAllocator::new();
    a.init(0x4000, 96);
    // 96 <= 64 + 32, so the whole 96-byte block is handed out unsplit
    let p = a.alloc_bytes(64, 8).unwrap();
    assert_eq!(p, 0x4000);
    assert_eq!(a.used_bytes(), 64);
    assert_eq!(a.alloc_bytes(8, 8), Err(AllocError::NoMemory));
}

#[test]
fn find_and_remove_free_block() {
    let mut a = LabByteAllocator::new();
    a.init(0x1000, 4096);
    // the only block sits in the class of 4096
    assert_eq!(a.find_suitable_block(64), Some((12, 0)));
    assert_eq!(a.find_suitable_block(4096), Some((12, 0)));
    assert_eq!(a.remove_free_block(12, 0), Some(FreeBlock { addr: 0x1000, size: 4096 }));
    assert_eq!(a.remove_free_block(12, 0), None);
    assert_eq!(a.find_suitable_block(64), None);
}

#[test]
fn exact_fit_in_same_bucket_is_found() {
    let mut a = LabByteAllocator::new();
    a.init(0x1000, 520);
    // request and block share the bucket (9, 0); the size check accepts it
    assert_eq!(a.find_suitable_block(520), Some((9, 0)));
    let p = a.alloc_bytes(520, 8).unwrap();
    assert_eq!(p, 0x1000);
}

#[test]
fn too_small_same_bucket_block_is_skipped() {
    let mut a = LabByteAllocator::new();
    a.init(0x1000, 512);
    // 512 and 520 share the bucket (9, 0), but the block is too small:
    // the search must not hand it out
    assert_eq!(a.find_suitable_block(520), None);
    assert_eq!(a.alloc_bytes(520, 8), Err(AllocError::NoMemory));
    assert_eq!(a.used_bytes(), 0);
}
