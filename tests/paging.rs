use rust_os::mapper::{path_tables, MapToError, OffsetPageTable, PageTableFlags, TranslateResult};
use rust_os::memory::{self, BootInfoFrameAllocator, MemoryRegion, MemoryRegionType};
use rust_os::paging::{Page, PhysFrame, PhysMemory, HUGE_PAGE, PRESENT, WRITABLE};

const ROOT: u64 = 0x1000;

fn allocator(start_addr: u64, end_addr: u64) -> BootInfoFrameAllocator {
    BootInfoFrameAllocator::init(vec![MemoryRegion {
        start_addr,
        end_addr,
        region_type: MemoryRegionType::Usable,
    }])
}

fn empty_hierarchy() -> OffsetPageTable {
    memory::init(0xffff_8000_0000_0000, PhysFrame::containing_address(ROOT), PhysMemory::new())
}

#[test]
fn example_mapping_translates_vga_offset() {
    let mut mapper = empty_hierarchy();
    let mut frames = allocator(0x10_0000, 0x20_0000);
    let page = Page::containing_address(0xdeadbeef000);
    let flush = memory::create_example_mapping(page, &mut mapper, &mut frames).unwrap();
    assert_eq!(flush.page, page);
    assert_eq!(mapper.translate(0xdeadbeef190), TranslateResult::Mapped(0xb8190));
}

#[test]
fn mapping_round_trips_every_offset_of_the_page() {
    let mut mapper = empty_hierarchy();
    let mut frames = allocator(0x10_0000, 0x20_0000);
    let page = Page::containing_address(0x4444_5555_6000);
    let frame = PhysFrame::containing_address(0x7_3000);
    let flags = PageTableFlags::from_bits_truncate(PRESENT | WRITABLE);
    assert!(mapper.map_to(page, frame, flags, &mut frames).is_ok());
    for o in [0u64, 1, 0x190, 0x800, 0xfff] {
        assert_eq!(mapper.translate(0x4444_5555_6000 + o), TranslateResult::Mapped(0x7_3000 + o));
    }
}

#[test]
fn missing_tables_take_three_frames() {
    let mut mapper = empty_hierarchy();
    let mut frames = allocator(0x10_0000, 0x10_4000);
    let page = Page::containing_address(0x20_0000);
    assert!(memory::create_example_mapping(page, &mut mapper, &mut frames).is_ok());
    assert_eq!(frames.allocate_frame().map(|f| f.start_address()), Some(0x10_3000));
}

#[test]
fn neighbouring_addresses_stay_unmapped() {
    let mut mapper = empty_hierarchy();
    let mut frames = allocator(0x10_0000, 0x20_0000);
    let page = Page::containing_address(0xdeadbeef000);
    memory::create_example_mapping(page, &mut mapper, &mut frames).unwrap();
    assert_eq!(mapper.translate(0xdeadbeef000 - 1), TranslateResult::Unmapped);
    assert_eq!(mapper.translate(0xdeadbeef000 + 0x1000), TranslateResult::Unmapped);
    assert_eq!(mapper.translate(0x0), TranslateResult::Unmapped);
    assert_eq!(mapper.translate(0xdeadbeef000 ^ (1 << 39)), TranslateResult::Unmapped);
}

#[test]
fn empty_hierarchy_maps_nothing() {
    let mapper = empty_hierarchy();
    for v in [0u64, 0xb8000, 0xdeadbeef190, u64::MAX] {
        assert_eq!(mapper.translate(v), TranslateResult::Unmapped);
    }
}

#[test]
fn second_mapping_of_a_page_is_refused() {
    let mut mapper = empty_hierarchy();
    let mut frames = allocator(0x10_0000, 0x20_0000);
    let page = Page::containing_address(0xdeadbeef000);
    memory::create_example_mapping(page, &mut mapper, &mut frames).unwrap();
    let other = PhysFrame::containing_address(0x9000);
    let flags = PageTableFlags::from_bits_truncate(PRESENT);
    assert_eq!(
        mapper.map_to(page, other, flags, &mut frames),
        Err(MapToError::PageAlreadyMapped(PhysFrame::containing_address(0xb8000)))
    );
    assert_eq!(mapper.translate(0xdeadbeef190), TranslateResult::Mapped(0xb8190));
}

#[test]
fn mapping_without_frames_fails() {
    let mut mapper = empty_hierarchy();
    let mut frames = allocator(0x10_0000, 0x10_2000);
    let page = Page::containing_address(0xdeadbeef000);
    assert_eq!(
        memory::create_example_mapping(page, &mut mapper, &mut frames),
        Err(MapToError::FrameAllocationFailed)
    );
    assert_eq!(mapper.translate(0xdeadbeef190), TranslateResult::Unmapped);
}

#[test]
fn allocated_table_frame_is_refused() {
    let mut mapper = empty_hierarchy();
    let mut frames = allocator(ROOT, ROOT + 0x1000);
    let page = Page::containing_address(0xdeadbeef000);
    assert_eq!(
        memory::create_example_mapping(page, &mut mapper, &mut frames),
        Err(MapToError::FrameInUse(PhysFrame::containing_address(ROOT)))
    );
}

#[test]
fn huge_page_on_the_way_is_reported() {
    let mut tables = PhysMemory::new();
    let v: u64 = 0x4000_0000;
    // level 4 entry 0 points to a level 3 table whose entry 1 maps a huge page
    tables.write(ROOT, 0, 0x2000 | PRESENT | WRITABLE);
    tables.write(0x2000, 1, 0x4000_0000 | PRESENT | WRITABLE | HUGE_PAGE);
    let mut mapper = memory::init(0, PhysFrame::containing_address(ROOT), tables);
    assert_eq!(mapper.translate(v + 0x123), TranslateResult::HugeFrame);
    let mut frames = allocator(0x10_0000, 0x20_0000);
    assert_eq!(
        memory::create_example_mapping(Page::containing_address(v), &mut mapper, &mut frames),
        Err(MapToError::ParentEntryHugePage)
    );
}

#[test]
fn manual_walk_reads_each_level() {
    let mut tables = PhysMemory::new();
    let v: u64 = (3 << 39) | (5 << 30) | (7 << 21) | (9 << 12) | 0xabc;
    tables.write(ROOT, 3, 0x2000 | PRESENT);
    tables.write(0x2000, 5, 0x3000 | PRESENT);
    tables.write(0x3000, 7, 0x4000 | PRESENT);
    tables.write(0x4000, 9, 0x12_3000 | PRESENT | WRITABLE);
    let mapper = memory::init(0, PhysFrame::containing_address(ROOT), tables);
    assert_eq!(mapper.translate(v), TranslateResult::Mapped(0x12_3abc));
    assert_eq!(mapper.translate(v + 0x1000), TranslateResult::Unmapped);
}

#[test]
fn flags_drop_address_bits() {
    let flags = PageTableFlags::from_bits_truncate(0x8000_0000_0000_1fff);
    assert_eq!(flags.bits(), 0x8000_0000_0000_0fff);
}

#[test]
fn frame_and_page_align_down() {
    assert_eq!(PhysFrame::containing_address(0xb8123).start_address(), 0xb8000);
    assert_eq!(Page::containing_address(0xdeadbeef190).start_address(), 0xdeadbeef000);
}

#[test]
fn level_4_table_is_seen_at_offset() {
    let frame = PhysFrame::containing_address(0x5000);
    assert_eq!(memory::active_level_4_table(0xffff_8000_0000_0000, frame), 0xffff_8000_0000_5000);
}

#[test]
fn leaf_entry_holds_frame_and_flags() {
    let mut mapper = empty_hierarchy();
    let mut frames = allocator(0x10_0000, 0x20_0000);
    let page = Page::containing_address(0xdeadbeef000);
    memory::create_example_mapping(page, &mut mapper, &mut frames).unwrap();
    let path = path_tables(mapper.memory(), ROOT, page);
    assert_eq!(path, vec![ROOT, 0x10_0000, 0x10_1000, 0x10_2000]);
    let leaf = mapper.memory().read(0x10_2000, (0xdeadbeef000u64 >> 12) & 0x1ff);
    assert_eq!(leaf, 0xb8000 | PRESENT | WRITABLE);
}

#[test]
fn new_tables_hold_only_the_path_entry() {
    let mut mapper = empty_hierarchy();
    let mut frames = allocator(0x10_0000, 0x20_0000);
    let page = Page::containing_address(0xdeadbeef000);
    memory::create_example_mapping(page, &mut mapper, &mut frames).unwrap();
    for table in [0x10_0000u64, 0x10_1000, 0x10_2000] {
        let present = (0..512u64).filter(|&i| mapper.memory().read(table, i) != 0).count();
        assert_eq!(present, 1);
    }
}

#[test]
fn refused_mapping_leaves_tables_alone() {
    let mut mapper = empty_hierarchy();
    let mut frames = allocator(0x10_0000, 0x20_0000);
    let page = Page::containing_address(0xdeadbeef000);
    memory::create_example_mapping(page, &mut mapper, &mut frames).unwrap();
    let leaf_index = (0xdeadbeef000u64 >> 12) & 0x1ff;
    let before = mapper.memory().read(0x10_2000, leaf_index);
    let other = PhysFrame::containing_address(0x9000);
    let result = mapper.map_to(page, other, PageTableFlags::from_bits_truncate(PRESENT), &mut frames);
    assert!(matches!(result, Err(MapToError::PageAlreadyMapped(_))));
    assert_eq!(mapper.memory().read(0x10_2000, leaf_index), before);
    assert_eq!(frames.allocate_frame().map(|f| f.start_address()), Some(0x10_3000));
}

#[test]
fn failed_allocation_writes_nothing() {
    let mut mapper = empty_hierarchy();
    let mut frames = allocator(0x10_0000, 0x10_2000);
    let page = Page::containing_address(0xdeadbeef000);
    assert_eq!(
        memory::create_example_mapping(page, &mut mapper, &mut frames),
        Err(MapToError::FrameAllocationFailed)
    );
    assert_eq!(path_tables(mapper.memory(), ROOT, page), vec![ROOT]);
    for i in 0..512u64 {
        assert_eq!(mapper.memory().read(ROOT, i), 0);
    }
}
