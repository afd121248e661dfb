//! Fault isolation: a task state whose interrupt stack table points at a reserved
//! stack, a descriptor table that holds a kernel code segment and that task state,
//! and the order in which the processor's registers are loaded from them.
use vstd::prelude::*;
use x86_64::structures::gdt::GlobalDescriptorTable;

verus! {

/// The interrupt-stack-table slot that the double-fault handler switches to.
pub const DOUBLE_FAULT_IST_INDEX: u16 = 0;

/// Size in bytes of the stack reserved for the double-fault handler: five frames.
pub const STACK_SIZE: usize = 4096 * 5;

/// Size in bytes of a task state segment.
pub const TSS_SIZE: u16 = 0x68;

/// Number of 64-bit words that a descriptor table can hold.
pub const GDT_CAPACITY: usize = 8;

/// The task state: per-privilege stacks and the seven interrupt stacks, as addresses.
#[derive(Clone, Copy, Debug, PartialEq, Eq)]
pub struct TaskStateSegment {
    pub privilege_stack_table: [u64; 3],
    pub interrupt_stack_table: [u64; 7],
    pub iomap_base: u16,
}

impl TaskStateSegment {
    /// A task state with every stack address zero and no I/O permission map.
    pub fn new() -> (r: TaskStateSegment)
        ensures
            r.privilege_stack_table@ == seq![0u64, 0, 0],
            r.interrupt_stack_table@ == seq![0u64, 0, 0, 0, 0, 0, 0],
            r.iomap_base == TSS_SIZE,
    {
        let r = TaskStateSegment {
            privilege_stack_table: [0, 0, 0],
            interrupt_stack_table: [0, 0, 0, 0, 0, 0, 0],
            iomap_base: TSS_SIZE,
        };
        assert(r.privilege_stack_table@ =~= seq![0u64, 0, 0]);
        assert(r.interrupt_stack_table@ =~= seq![0u64, 0, 0, 0, 0, 0, 0]);
        r
    }
}

/// The interrupt stack table of fault isolation for a reserved stack at `stack_start`.
pub open spec fn fault_stack_table(stack_start: u64) -> Seq<u64> {
    seq![(stack_start + STACK_SIZE) as u64, 0, 0, 0, 0, 0, 0]
}

/// The task state for fault isolation: interrupt stack slot `DOUBLE_FAULT_IST_INDEX`
/// holds the top of the reserved stack that starts at `stack_start` (the stack grows
/// downwards), every other address is zero.
pub fn build_tss(stack_start: u64) -> (r: TaskStateSegment)
    requires
        stack_start + STACK_SIZE <= u64::MAX,
    ensures
        r.interrupt_stack_table@ == fault_stack_table(stack_start),
        r.privilege_stack_table@ == seq![0u64, 0, 0],
        r.iomap_base == TSS_SIZE,
{
    let mut tss = TaskStateSegment::new();
    let stack_end = stack_start + STACK_SIZE as u64;
    tss.interrupt_stack_table = [stack_end, 0, 0, 0, 0, 0, 0];
    assert(tss.interrupt_stack_table@ =~= seq![stack_end, 0, 0, 0, 0, 0, 0]);
    tss
}

/// A segment selector: a descriptor index times eight plus a requested privilege level.
#[derive(Clone, Copy, Debug, PartialEq, Eq)]
pub struct SegmentSelector(pub u16);

pub open spec fn selector(index: nat, rpl: u16) -> SegmentSelector {
    SegmentSelector((index * 8 + rpl) as u16)
}

impl SegmentSelector {
    pub fn new(index: u16, rpl: u16) -> (r: SegmentSelector)
        requires
            index < 8192,
            rpl < 4,
        ensures
            r == selector(index as nat, rpl),
    {
        SegmentSelector(index * 8 + rpl)
    }

    pub fn index(&self) -> (r: u16)
        ensures
            r == self.0 / 8,
    {
        self.0 / 8
    }

    pub fn rpl(&self) -> (r: u16)
        ensures
            r == self.0 % 4,
    {
        self.0 % 4
    }
}

/// A segment descriptor: one word for a code or data segment, two for a system segment.
#[derive(Clone, Copy, Debug, PartialEq, Eq)]
pub enum Descriptor {
    UserSegment(u64),
    SystemSegment(u64, u64),
}

/// The privilege level held in bits 45 and 46 of a descriptor's first word.
pub open spec fn dpl_of(low: u64) -> u16 {
    ((low & 0x6000_0000_0000) >> 45u64) as u16
}

impl Descriptor {
    /// The words that the descriptor takes in the table.
    pub open spec fn words(self) -> Seq<u64> {
        match self {
            Descriptor::UserSegment(v) => seq![v],
            Descriptor::SystemSegment(low, high) => seq![low, high],
        }
    }

    pub open spec fn spec_dpl(self) -> u16 {
        match self {
            Descriptor::UserSegment(v) => dpl_of(v),
            Descriptor::SystemSegment(low, _) => dpl_of(low),
        }
    }

    /// The descriptor privilege level.
    pub fn dpl(&self) -> (r: u16)
        ensures
            r == self.spec_dpl(),
            r < 4,
    {
        let low = match self {
            Descriptor::UserSegment(v) => *v,
            Descriptor::SystemSegment(v, _) => *v,
        };
        let r = (low & 0x6000_0000_0000) >> 45u64;
        assert(r < 4) by (bit_vector)
            requires
                r == (low & 0x6000_0000_0000) >> 45u64,
        ;
        r as u16
    }
}

#[verifier::external_type_specification]
#[verifier::external_body]
pub struct ExGlobalDescriptorTable(GlobalDescriptorTable);

/// The words that a descriptor table holds, null descriptor first.
pub uninterp spec fn gdt_words(t: GlobalDescriptorTable) -> Seq<u64>;

/// Relies on x86_64's `GlobalDescriptorTable::new`: a table whose words are the null
/// descriptor alone.
#[verifier::external_body]
fn new_gdt() -> (r: GlobalDescriptorTable)
    ensures
        gdt_words(r) == seq![0u64],
{
    GlobalDescriptorTable::new()
}

/// Relies on x86_64's `GlobalDescriptorTable::add_entry`: the descriptor's words are
/// appended, and the selector returned is the index of its first word with the
/// descriptor's privilege level. It panics where the words do not fit in
/// `GDT_CAPACITY`.
#[verifier::external_body]
fn add_descriptor(t: &mut GlobalDescriptorTable, entry: Descriptor) -> (r: SegmentSelector)
    requires
        gdt_words(*old(t)).len() + entry.words().len() <= GDT_CAPACITY,
    ensures
        gdt_words(*final(t)) == gdt_words(*old(t)) + entry.words(),
        r == selector(gdt_words(*old(t)).len(), entry.spec_dpl()),
{
    let descriptor = match entry {
        Descriptor::UserSegment(v) => x86_64::structures::gdt::Descriptor::UserSegment(v),
        Descriptor::SystemSegment(low, high) => x86_64::structures::gdt::Descriptor::SystemSegment(
            low,
            high,
        ),
    };
    SegmentSelector(t.add_entry(descriptor).0)
}

/// The first word of a flat 64-bit kernel code segment: present, executable, long
/// mode, privilege level 0.
pub const KERNEL_CODE64: u64 = 0x00af_9b00_0000_ffff;

/// Relies on x86_64's `Descriptor::kernel_code_segment`: a user segment whose word is
/// the flags of `DescriptorFlags::KERNEL_CODE64`.
#[verifier::external_body]
fn kernel_code_segment() -> (r: Descriptor)
    ensures
        r == Descriptor::UserSegment(KERNEL_CODE64),
{
    match x86_64::structures::gdt::Descriptor::kernel_code_segment() {
        x86_64::structures::gdt::Descriptor::UserSegment(v) => Descriptor::UserSegment(v),
        x86_64::structures::gdt::Descriptor::SystemSegment(low, high) => Descriptor::SystemSegment(
            low,
            high,
        ),
    }
}

/// The selectors of the two descriptors that fault isolation adds.
#[derive(Clone, Copy, Debug, PartialEq, Eq)]
pub struct Selectors {
    pub code_selector: SegmentSelector,
    pub tss_selector: SegmentSelector,
}

/// The words of the descriptor table of fault isolation: the null descriptor, then
/// `code`, then `tss`.
pub open spec fn gdt_layout(code: Descriptor, tss: Descriptor) -> Seq<u64> {
    seq![0u64] + code.words() + tss.words()
}

/// The selectors of `code` and `tss` in `gdt_layout(code, tss)`.
pub open spec fn gdt_selectors(code: Descriptor, tss: Descriptor) -> Selectors {
    Selectors {
        code_selector: selector(1, code.spec_dpl()),
        tss_selector: selector(1 + code.words().len(), tss.spec_dpl()),
    }
}

/// The descriptor table of fault isolation, with the selectors of its two descriptors:
/// the kernel code segment and the task-state descriptor `tss`.
pub fn build_gdt(tss: Descriptor) -> (r: (GlobalDescriptorTable, Selectors))
    ensures
        gdt_words(r.0) == gdt_layout(Descriptor::UserSegment(KERNEL_CODE64), tss),
        r.1 == gdt_selectors(Descriptor::UserSegment(KERNEL_CODE64), tss),
{
    let code = kernel_code_segment();
    let mut gdt = new_gdt();
    let code_selector = add_descriptor(&mut gdt, code);
    let tss_selector = add_descriptor(&mut gdt, tss);
    (gdt, Selectors { code_selector, tss_selector })
}

/// One register load of fault isolation.
#[derive(Clone, Copy, Debug, PartialEq, Eq)]
pub enum InitStep {
    /// Load the descriptor table register with the table.
    LoadTable,
    /// Reload the code-segment register with the selector.
    SetCodeSegment(SegmentSelector),
    /// Load the task register with the selector.
    LoadTaskRegister(SegmentSelector),
}

/// The register loads, in the order in which they must happen: the table first, since
/// the selectors loaded after it name its descriptors.
pub open spec fn init_steps(selectors: Selectors) -> Seq<InitStep> {
    seq![
        InitStep::LoadTable,
        InitStep::SetCodeSegment(selectors.code_selector),
        InitStep::LoadTaskRegister(selectors.tss_selector),
    ]
}

pub fn init_sequence(selectors: &Selectors) -> (r: Vec<InitStep>)
    ensures
        r@ == init_steps(*selectors),
{
    let mut r: Vec<InitStep> = Vec::new();
    r.push(InitStep::LoadTable);
    r.push(InitStep::SetCodeSegment(selectors.code_selector));
    r.push(InitStep::LoadTaskRegister(selectors.tss_selector));
    assert(r@ =~= init_steps(*selectors));
    r
}

/// After fault isolation is set up from a reserved stack at `stack_start` and the
/// task-state descriptor `tss`, the double-fault slot of the interrupt stack table
/// holds exactly `stack_start + STACK_SIZE`, and the selector that the code-segment
/// register is loaded with names the table entry that holds the kernel code segment.
pub proof fn lemma_fault_isolation_setup(stack_start: u64, tss: Descriptor)
    requires
        stack_start + STACK_SIZE <= u64::MAX,
    ensures
        fault_stack_table(stack_start)[DOUBLE_FAULT_IST_INDEX as int] == stack_start + STACK_SIZE,
        ({
            let code = Descriptor::UserSegment(KERNEL_CODE64);
            let sel = gdt_selectors(code, tss).code_selector;
            &&& init_steps(gdt_selectors(code, tss))[1] == InitStep::SetCodeSegment(sel)
            &&& gdt_layout(code, tss)[(sel.0 / 8) as int] == KERNEL_CODE64
            &&& sel == SegmentSelector(8)
        }),
{
    assert(dpl_of(0x00af_9b00_0000_ffffu64) == 0) by (bit_vector);
}

} // verus!
