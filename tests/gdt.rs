use rust_os::gdt::{
    build_gdt, build_tss, init_sequence, Descriptor, InitStep,
    SegmentSelector, DOUBLE_FAULT_IST_INDEX, KERNEL_CODE64, STACK_SIZE, TSS_SIZE,
};


#[test]
fn fault_stack_slot_holds_stack_top() {
    let stack_start: u64 = 0x44_4000;
    let tss = build_tss(stack_start);
    assert_eq!(STACK_SIZE, 5 * 4096);
    assert_eq!(tss.interrupt_stack_table[DOUBLE_FAULT_IST_INDEX as usize], stack_start + 20480);
    assert_eq!(&tss.interrupt_stack_table[1..], &[0u64; 6]);
    assert_eq!(tss.privilege_stack_table, [0u64; 3]);
    assert_eq!(tss.iomap_base, TSS_SIZE);
}

#[test]
fn descriptor_table_holds_code_then_task_state() {
    let tss = Descriptor::SystemSegment(0x0000_8944_4000_0067, 0x0000_0000_0000_0001);
    let (gdt, selectors) = build_gdt(tss);
    assert_eq!(gdt.as_raw_slice(), &[0, KERNEL_CODE64, 0x0000_8944_4000_0067, 1]);
    assert_eq!(selectors.code_selector, SegmentSelector(8));
    assert_eq!(selectors.tss_selector, SegmentSelector(16));
    assert_eq!(gdt.as_raw_slice()[selectors.code_selector.index() as usize], KERNEL_CODE64);
}

#[test]
fn kernel_code_descriptor_is_flat_long_mode_ring_0() {
    assert_eq!(KERNEL_CODE64, 0x00af_9b00_0000_ffff);
    let (gdt, selectors) = build_gdt(Descriptor::SystemSegment(0, 0));
    assert_eq!(gdt.as_raw_slice()[1], 0x00af_9b00_0000_ffff);
    assert_eq!(selectors.code_selector.rpl(), 0);
}

#[test]
fn init_loads_table_before_selectors() {
    let tss = Descriptor::SystemSegment(0x0000_8900_0000_0067, 0);
    let (_, selectors) = build_gdt(tss);
    assert_eq!(
        init_sequence(&selectors),
        vec![
            InitStep::LoadTable,
            InitStep::SetCodeSegment(SegmentSelector(8)),
            InitStep::LoadTaskRegister(SegmentSelector(16)),
        ]
    );
}

#[test]
fn user_segment_carries_ring_3() {
    let user_code = 0x00af_fb00_0000_ffff;
    assert_eq!(Descriptor::UserSegment(user_code).dpl(), 3);
    assert_eq!(Descriptor::SystemSegment(0x0000_8900_0000_0067, 0).dpl(), 0);
    let selector = SegmentSelector::new(1, 3);
    assert_eq!(selector, SegmentSelector(8 | 3));
    assert_eq!(selector.index(), 1);
    assert_eq!(selector.rpl(), 3);
}

#[test]
fn selector_packs_index_and_level() {
    assert_eq!(SegmentSelector::new(2, 0), SegmentSelector(16));
    assert_eq!(SegmentSelector::new(5, 3).index(), 5);
}
