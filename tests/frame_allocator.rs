use rust_os::memory::{BootInfoFrameAllocator, MemoryRegion, MemoryRegionType};

fn region(start_addr: u64, end_addr: u64, region_type: MemoryRegionType) -> MemoryRegion {
    MemoryRegion { start_addr, end_addr, region_type }
}

fn drain(allocator: &mut BootInfoFrameAllocator, calls: usize) -> Vec<Option<u64>> {
    (0..calls).map(|_| allocator.allocate_frame().map(|f| f.start_address())).collect()
}

#[test]
fn allocation_sequence_skips_reserved_region() {
    let map = vec![
        region(0x0, 0x2000, MemoryRegionType::Usable),
        region(0x2000, 0x3000, MemoryRegionType::Reserved),
        region(0x3000, 0x5000, MemoryRegionType::Usable),
    ];
    let mut allocator = BootInfoFrameAllocator::init(map);
    assert_eq!(
        drain(&mut allocator, 5),
        vec![Some(0x0), Some(0x1000), Some(0x3000), Some(0x4000), None]
    );
}

#[test]
fn exhausted_allocator_keeps_failing() {
    let map = vec![region(0x8000, 0xa000, MemoryRegionType::Usable)];
    let mut allocator = BootInfoFrameAllocator::init(map);
    assert_eq!(drain(&mut allocator, 2), vec![Some(0x8000), Some(0x9000)]);
    for _ in 0..10 {
        assert!(allocator.allocate_frame().is_none());
    }
}

#[test]
fn frames_are_distinct_aligned_and_inside_usable_regions() {
    let map = vec![
        region(0x0, 0x1000, MemoryRegionType::FrameZero),
        region(0x1000, 0x4000, MemoryRegionType::Usable),
        region(0x4000, 0x6000, MemoryRegionType::Kernel),
        region(0x6000, 0x6000, MemoryRegionType::Usable),
        region(0x10_0000, 0x10_3000, MemoryRegionType::Usable),
        region(0x10_3000, 0x20_0000, MemoryRegionType::Reserved),
    ];
    let mut allocator = BootInfoFrameAllocator::init(map.clone());
    let frames: Vec<u64> = drain(&mut allocator, 6).into_iter().map(|f| f.unwrap()).collect();
    assert_eq!(frames, vec![0x1000, 0x2000, 0x3000, 0x10_0000, 0x10_1000, 0x10_2000]);
    for (i, f) in frames.iter().enumerate() {
        assert_eq!(f % 4096, 0);
        assert!(map.iter().any(|r| r.region_type == MemoryRegionType::Usable
            && r.start_addr <= *f
            && *f < r.end_addr));
        for g in &frames[i + 1..] {
            assert!(f < g);
        }
    }
    assert!(allocator.allocate_frame().is_none());
}

#[test]
fn empty_memory_map_has_no_frames() {
    let mut allocator = BootInfoFrameAllocator::init(Vec::new());
    assert!(allocator.allocate_frame().is_none());
}

#[test]
fn map_without_usable_region_has_no_frames() {
    let map = vec![
        region(0x0, 0x10000, MemoryRegionType::Reserved),
        region(0x10000, 0x20000, MemoryRegionType::InUse),
    ];
    let mut allocator = BootInfoFrameAllocator::init(map);
    assert!(allocator.allocate_frame().is_none());
}

#[test]
fn unsorted_disjoint_map_gives_distinct_frames() {
    let map = vec![
        region(0x20_0000, 0x20_2000, MemoryRegionType::Usable),
        region(0x1000, 0x3000, MemoryRegionType::Usable),
        region(0x3000, 0x20_0000, MemoryRegionType::Reserved),
    ];
    let mut allocator = BootInfoFrameAllocator::init(map);
    let frames: Vec<u64> = drain(&mut allocator, 4).into_iter().map(|f| f.unwrap()).collect();
    assert_eq!(frames, vec![0x20_0000, 0x20_1000, 0x1000, 0x2000]);
    for (i, f) in frames.iter().enumerate() {
        assert!(!frames[i + 1..].contains(f));
    }
    assert!(allocator.allocate_frame().is_none());
}
