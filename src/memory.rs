//! The boot memory map and the frame allocator that hands out its usable frames.
use vstd::prelude::*;
use crate::mapper::{
    MapToError, MapperFlush, OffsetPageTable, PageTableFlags, TranslateResult, frames_used,
    mapping_installed, translation,
};
use crate::paging::{PhysFrame, PhysMemory, Page, PAGE_SIZE, MAX_PHYS_ADDR, PRESENT, WRITABLE, frame_addr_valid};

verus! {

/// What a region of the boot memory map is used for.
#[derive(Clone, Copy, Debug, PartialEq, Eq)]
pub enum MemoryRegionType {
    Usable,
    InUse,
    Reserved,
    AcpiReclaimable,
    AcpiNvs,
    BadMemory,
    Kernel,
    KernelStack,
    PageTable,
    Bootloader,
    FrameZero,
    Empty,
    BootInfo,
    Package,
}

/// A contiguous physical range `[start_addr, end_addr)` of the boot memory map.
#[derive(Clone, Copy, Debug, PartialEq, Eq)]
pub struct MemoryRegion {
    pub start_addr: u64,
    pub end_addr: u64,
    pub region_type: MemoryRegionType,
}

impl MemoryRegion {
    /// Bounds on frame boundaries, in order, below the physical address bound.
    pub open spec fn wf(self) -> bool {
        &&& self.start_addr % 4096 == 0
        &&& self.end_addr % 4096 == 0
        &&& self.start_addr <= self.end_addr
        &&& self.end_addr <= MAX_PHYS_ADDR
    }

    pub open spec fn is_usable(self) -> bool {
        self.region_type is Usable
    }

    pub open spec fn frame_count(self) -> nat {
        ((self.end_addr - self.start_addr) / 4096) as nat
    }

    /// The start addresses of the region's frames, lowest first.
    pub open spec fn frames(self) -> Seq<u64> {
        Seq::new(self.frame_count(), |k: int| (self.start_addr + k * 4096) as u64)
    }
}

pub open spec fn regions_wf(regions: Seq<MemoryRegion>) -> bool {
    forall|i: int| 0 <= i < regions.len() ==> #[trigger] regions[i].wf()
}

/// Regions listed by address, none overlapping the next.
pub open spec fn regions_sorted(regions: Seq<MemoryRegion>) -> bool {
    forall|i: int, j: int|
        0 <= i < j < regions.len() ==> #[trigger] regions[i].end_addr <= #[trigger] regions[j].start_addr
}

/// The frames of the usable regions, region after region, each region's in address order.
pub open spec fn usable_frames(regions: Seq<MemoryRegion>) -> Seq<u64>
    decreases regions.len(),
{
    if regions.len() == 0 {
        Seq::empty()
    } else {
        let rest = usable_frames(regions.drop_last());
        if regions.last().is_usable() {
            rest + regions.last().frames()
        } else {
            rest
        }
    }
}

/// Hands out the usable frames of the boot memory map one at a time, never one twice.
pub struct BootInfoFrameAllocator {
    memory_map: Vec<MemoryRegion>,
    next: u128,
}

impl BootInfoFrameAllocator {
    pub closed spec fn regions(&self) -> Seq<MemoryRegion> {
        self.memory_map@
    }

    /// How many frames have been handed out.
    pub closed spec fn cursor(&self) -> nat {
        self.next as nat
    }

    pub open spec fn frames(&self) -> Seq<u64> {
        usable_frames(self.regions())
    }

    pub open spec fn wf(&self) -> bool {
        &&& regions_wf(self.regions())
        &&& self.cursor() <= self.frames().len()
    }

    /// An allocator over `memory_map` that has handed out nothing yet.
    pub fn init(memory_map: Vec<MemoryRegion>) -> (r: BootInfoFrameAllocator)
        requires
            regions_wf(memory_map@),
        ensures
            r.wf(),
            r.regions() == memory_map@,
            r.cursor() == 0,
    {
        BootInfoFrameAllocator { memory_map, next: 0 }
    }

    /// Frame `n` of the usable frames, if there are more than `n`.
    fn usable_frame(&self, n: u128) -> (r: Option<u64>)
        requires
            regions_wf(self.regions()),
        ensures
            r == (if n < self.frames().len() {
                Some(self.frames()[n as int])
            } else {
                None::<u64>
            }),
    {
        let ghost rs = self.memory_map@;
        let mut i: usize = 0;
        let mut rem: u128 = n;
        while i < self.memory_map.len()
            invariant
                rs == self.memory_map@,
                regions_wf(rs),
                i <= rs.len(),
                usable_frames(rs.take(i as int)).len() + rem == n,
            decreases rs.len() - i,
        {
            let region = self.memory_map[i];
            proof {
                assert(rs.take(i + 1).drop_last() =~= rs.take(i as int));
                assert(region.wf());
            }
            match region.region_type {
                MemoryRegionType::Usable => {
                    let count = (region.end_addr - region.start_addr) / PAGE_SIZE;
                    if rem < count as u128 {
                        let ghost pre = usable_frames(rs.take(i as int));
                        proof {
                            lemma_usable_frames_prefix(rs, i as int + 1);
                            assert(usable_frames(rs.take(i + 1)) == pre + region.frames());
                            assert(region.frames()[rem as int] == usable_frames(rs.take(i + 1))[n
                                as int]);
                            assert(region.start_addr + (rem as u64) * 4096 < region.end_addr)
                                by (nonlinear_arith)
                                requires
                                    (rem as u64) < (region.end_addr - region.start_addr) / 4096,
                                    region.start_addr <= region.end_addr,
                            ;
                            lemma_usable_frames_prefix(rs, rs.len() as int);
                            assert(rs.take(rs.len() as int) =~= rs);
                        }
                        return Some(region.start_addr + (rem as u64) * PAGE_SIZE);
                    }
                    rem = rem - count as u128;
                },
                _ => {},
            }
            i = i + 1;
        }
        proof {
            assert(rs.take(rs.len() as int) =~= rs);
        }
        None
    }

    /// The next unused usable frame, or `None` once every usable frame has been handed out.
    pub fn allocate_frame(&mut self) -> (r: Option<PhysFrame>)
        requires
            old(self).wf(),
        ensures
            final(self).wf(),
            final(self).regions() == old(self).regions(),
            old(self).cursor() < old(self).frames().len() ==> {
                &&& r matches Some(f)
                &&& f.addr() == old(self).frames()[old(self).cursor() as int]
                &&& final(self).cursor() == old(self).cursor() + 1
            },
            old(self).cursor() >= old(self).frames().len() ==> {
                &&& r is None
                &&& final(self).cursor() == old(self).cursor()
            },
            r matches Some(f) ==> frame_addr_valid(f.addr()),
    {
        match self.usable_frame(self.next) {
            Some(addr) => {
                let regions = self.memory_map.len();
                proof {
                    lemma_usable_frames_valid(self.memory_map@);
                    lemma_usable_frames_len(self.memory_map@);
                    assert(self.memory_map@.len() * 0x100_0000_0000 < 0x1_0000_0000_0000_0000_0000_0000_0000_0000) by (nonlinear_arith)
                        requires
                            self.memory_map@.len() == regions,
                    ;
                }
                self.next = self.next + 1;
                let f = PhysFrame::containing_address(addr);
                assert(addr % 4096 == 0);
                Some(f)
            },
            None => None,
        }
    }
}

/// A region below the physical address bound has at most 2^40 frames.
proof fn lemma_usable_frames_len(rs: Seq<MemoryRegion>)
    requires
        regions_wf(rs),
    ensures
        usable_frames(rs).len() <= rs.len() * 0x100_0000_0000,
    decreases rs.len(),
{
    if rs.len() > 0 {
        lemma_usable_frames_len(rs.drop_last());
        let r = rs.last();
        assert(r.wf());
        assert(r.frame_count() <= 0x100_0000_0000);
    }
}

/// The usable frames of a prefix of the map are a prefix of its usable frames.
proof fn lemma_usable_frames_prefix(rs: Seq<MemoryRegion>, k: int)
    requires
        0 <= k <= rs.len(),
    ensures
        usable_frames(rs).len() >= usable_frames(rs.take(k)).len(),
        forall|j: int|
            0 <= j < usable_frames(rs.take(k)).len() ==> #[trigger] usable_frames(rs)[j]
                == usable_frames(rs.take(k))[j],
    decreases rs.len() - k,
{
    if k < rs.len() {
        lemma_usable_frames_prefix(rs, k + 1);
        assert(rs.take(k + 1).drop_last() =~= rs.take(k));
    } else {
        assert(rs.take(k) =~= rs);
    }
}

/// Every usable frame lies inside a usable region and is frame-aligned.
pub proof fn lemma_usable_frames_valid(rs: Seq<MemoryRegion>)
    requires
        regions_wf(rs),
    ensures
        forall|k: int|
            0 <= k < usable_frames(rs).len() ==> {
                &&& frame_addr_valid(#[trigger] usable_frames(rs)[k])
                &&& exists|j: int|
                    0 <= j < rs.len() && rs[j].is_usable() && rs[j].start_addr <= usable_frames(
                        rs,
                    )[k] < rs[j].end_addr
            },
    decreases rs.len(),
{
    if rs.len() > 0 {
        let init = rs.drop_last();
        lemma_usable_frames_valid(init);
        let r = rs.last();
        assert(r.wf());
        assert forall|k: int| 0 <= k < usable_frames(rs).len() implies {
            &&& frame_addr_valid(#[trigger] usable_frames(rs)[k])
            &&& exists|j: int|
                0 <= j < rs.len() && rs[j].is_usable() && rs[j].start_addr <= usable_frames(rs)[k]
                    < rs[j].end_addr
        } by {
            if k < usable_frames(init).len() {
                let j = choose|j: int|
                    0 <= j < init.len() && init[j].is_usable() && init[j].start_addr
                        <= usable_frames(init)[k] < init[j].end_addr;
                assert(rs[j] == init[j]);
            } else {
                let m = k - usable_frames(init).len();
                let c = r.frame_count() as int;
                assert(0 <= m < c);
                assert(usable_frames(rs)[k] == r.start_addr + m * 4096);
                assert(r.start_addr + m * 4096 < r.end_addr) by (nonlinear_arith)
                    requires
                        0 <= m < c,
                        c == (r.end_addr - r.start_addr) / 4096,
                        r.start_addr <= r.end_addr,
                ;
                assert((r.start_addr + m * 4096) % 4096 == 0) by (nonlinear_arith)
                    requires
                        r.start_addr % 4096 == 0,
                        m >= 0,
                ;
                assert(rs[rs.len() - 1] == r);
            }
        }
    }
}

/// The frames of a sorted memory map's usable regions come in increasing order, so
/// none twice; each is frame-aligned and lies inside a usable region.
pub proof fn lemma_usable_frames_in_order(rs: Seq<MemoryRegion>)
    requires
        regions_wf(rs),
        regions_sorted(rs),
    ensures
        forall|i: int, j: int|
            0 <= i < j < usable_frames(rs).len() ==> #[trigger] usable_frames(rs)[i]
                < #[trigger] usable_frames(rs)[j],
        forall|k: int|
            0 <= k < usable_frames(rs).len() ==> {
                &&& #[trigger] usable_frames(rs)[k] % 4096 == 0
                &&& exists|j: int|
                    0 <= j < rs.len() && rs[j].is_usable() && rs[j].start_addr <= usable_frames(
                        rs,
                    )[k] < rs[j].end_addr
            },
    decreases rs.len(),
{
    lemma_usable_frames_valid(rs);
    if rs.len() > 0 {
        let init = rs.drop_last();
        let r = rs.last();
        assert(regions_sorted(init));
        lemma_usable_frames_in_order(init);
        let fi = usable_frames(init);
        let n = fi.len();
        assert forall|i: int, j: int|
            0 <= i < j < usable_frames(rs).len() implies #[trigger] usable_frames(rs)[i]
                < #[trigger] usable_frames(rs)[j] by {
            if j >= n {
                assert(r.is_usable());
                assert(usable_frames(rs) == fi + r.frames());
                assert(r.wf());
                let b = j - n;
                let c = r.frame_count() as int;
                assert(r.start_addr + b * 4096 < r.end_addr) by (nonlinear_arith)
                    requires
                        0 <= b < c,
                        c == (r.end_addr - r.start_addr) / 4096,
                        r.start_addr <= r.end_addr,
                ;
                assert(usable_frames(rs)[j] == r.start_addr + b * 4096);
                if i >= n {
                    let a = i - n;
                    assert(a * 4096 < b * 4096) by (nonlinear_arith)
                        requires
                            0 <= a < b,
                    ;
                    assert(usable_frames(rs)[i] == r.start_addr + a * 4096);
                } else {
                    let k = choose|k: int|
                        0 <= k < init.len() && init[k].is_usable() && init[k].start_addr <= fi[i]
                            < init[k].end_addr;
                    assert(rs[k] == init[k]);
                    assert(rs[k].end_addr <= rs[rs.len() - 1].start_addr);
                    assert(b * 4096 >= 0) by (nonlinear_arith)
                        requires
                            b >= 0,
                    ;
                }
            }
        }
    }
}

/// The usable regions of the map overlap none of the others.
pub open spec fn usable_regions_disjoint(regions: Seq<MemoryRegion>) -> bool {
    forall|i: int, j: int|
        0 <= i < regions.len() && 0 <= j < regions.len() && i != j && regions[i].is_usable()
            && regions[j].is_usable() ==> #[trigger] regions[i].end_addr <= #[trigger] regions[j].start_addr
            || regions[j].end_addr <= regions[i].start_addr
}

/// In a memory map whose usable regions do not overlap, listed in any order, the
/// allocator's sequence of frames holds no frame twice.
pub proof fn lemma_usable_frames_distinct(rs: Seq<MemoryRegion>)
    requires
        regions_wf(rs),
        usable_regions_disjoint(rs),
    ensures
        forall|i: int, j: int|
            0 <= i < j < usable_frames(rs).len() ==> #[trigger] usable_frames(rs)[i]
                != #[trigger] usable_frames(rs)[j],
    decreases rs.len(),
{
    if rs.len() > 0 {
        let init = rs.drop_last();
        let r = rs.last();
        assert(regions_wf(init));
        assert(usable_regions_disjoint(init)) by {
            assert forall|i: int, j: int|
                0 <= i < init.len() && 0 <= j < init.len() && i != j && init[i].is_usable()
                    && init[j].is_usable() implies #[trigger] init[i].end_addr
                <= #[trigger] init[j].start_addr || init[j].end_addr <= init[i].start_addr by {
                assert(init[i] == rs[i] && init[j] == rs[j]);
            }
        }
        lemma_usable_frames_distinct(init);
        lemma_usable_frames_valid(init);
        let fi = usable_frames(init);
        let n = fi.len();
        assert forall|i: int, j: int|
            0 <= i < j < usable_frames(rs).len() implies #[trigger] usable_frames(rs)[i]
                != #[trigger] usable_frames(rs)[j] by {
            if j >= n {
                assert(r.is_usable());
                assert(usable_frames(rs) == fi + r.frames());
                assert(r.wf());
                let b = j - n;
                let c = r.frame_count() as int;
                assert(r.start_addr + b * 4096 < r.end_addr) by (nonlinear_arith)
                    requires
                        0 <= b < c,
                        c == (r.end_addr - r.start_addr) / 4096,
                        r.start_addr <= r.end_addr,
                ;
                assert(b * 4096 >= 0) by (nonlinear_arith)
                    requires
                        b >= 0,
                ;
                assert(usable_frames(rs)[j] == r.start_addr + b * 4096);
                if i >= n {
                    let a = i - n;
                    assert(a * 4096 < b * 4096) by (nonlinear_arith)
                        requires
                            0 <= a < b,
                    ;
                    assert(usable_frames(rs)[i] == r.start_addr + a * 4096);
                } else {
                    let k = choose|k: int|
                        0 <= k < init.len() && init[k].is_usable() && init[k].start_addr <= fi[i]
                            < init[k].end_addr;
                    assert(rs[k] == init[k]);
                    assert(rs[rs.len() - 1] == r);
                    assert(rs[k].end_addr <= rs[rs.len() - 1].start_addr || rs[rs.len() - 1].end_addr
                        <= rs[k].start_addr);
                }
            }
        }
    }
}

/// The virtual address at which the level 4 table in `level_4_frame` is seen when all
/// of physical memory is mapped from `physical_memory_offset` on.
pub fn active_level_4_table(physical_memory_offset: u64, level_4_frame: PhysFrame) -> (r: u64)
    requires
        physical_memory_offset + level_4_frame.addr() <= u64::MAX,
    ensures
        r == physical_memory_offset + level_4_frame.addr(),
{
    physical_memory_offset + level_4_frame.start_address()
}

/// The active hierarchy, owned by the value returned: its level 4 table is in
/// `level_4_frame`, its tables in `memory`.
pub fn init(physical_memory_offset: u64, level_4_frame: PhysFrame, memory: PhysMemory) -> (r:
    OffsetPageTable)
    requires
        memory.wf(),
    ensures
        r.wf(),
        r.mem() == memory@,
        r.root() == level_4_frame.addr(),
        r.offset() == physical_memory_offset,
{
    OffsetPageTable::new(memory, level_4_frame, physical_memory_offset)
}

/// Physical address of the VGA text buffer.
pub const VGA_BUFFER_ADDR: u64 = 0xb8000;

/// Maps `page` to the frame of the VGA text buffer, present and writable.
pub fn create_example_mapping(
    page: Page,
    mapper: &mut OffsetPageTable,
    frame_allocator: &mut BootInfoFrameAllocator,
) -> (r: Result<MapperFlush, MapToError>)
    requires
        old(mapper).wf(),
        old(frame_allocator).wf(),
    ensures
        final(mapper).wf(),
        final(frame_allocator).wf(),
        final(mapper).root() == old(mapper).root(),
        final(frame_allocator).regions() == old(frame_allocator).regions(),
        r is Err ==> final(mapper).mem() == old(mapper).mem(),
        (r == Err::<MapperFlush, MapToError>(MapToError::ParentEntryHugePage) || (r is Err
            && r->Err_0 is PageAlreadyMapped)) ==> final(frame_allocator).cursor() == old(
            frame_allocator,
        ).cursor(),
        r matches Err(MapToError::PageAlreadyMapped(f)) ==> translation(
            old(mapper).mem(),
            old(mapper).root(),
            page.addr(),
        ) == TranslateResult::Mapped(f.addr()),
        (r == Err::<MapperFlush, MapToError>(MapToError::ParentEntryHugePage)) <==> (translation(
            old(mapper).mem(),
            old(mapper).root(),
            page.addr(),
        ) is HugeFrame),
        (r is Err && r->Err_0 is PageAlreadyMapped) <==> (translation(
            old(mapper).mem(),
            old(mapper).root(),
            page.addr(),
        ) is Mapped),
        frames_used(
            old(mapper).mem(),
            old(mapper).root(),
            page.addr(),
            old(frame_allocator).frames(),
            old(frame_allocator).cursor(),
            final(frame_allocator).cursor(),
            r,
        ),
        r is Ok ==> r->Ok_0.page == page,
        r is Ok ==> mapping_installed(
            old(mapper).mem(),
            final(mapper).mem(),
            old(mapper).root(),
            page.addr(),
            VGA_BUFFER_ADDR,
            PRESENT | WRITABLE,
        ),
{
    let frame = PhysFrame::containing_address(VGA_BUFFER_ADDR);
    let flags = PageTableFlags::from_bits_truncate(PRESENT | WRITABLE);
    assert((1u64 | 2u64) & !0x000f_ffff_ffff_f000u64 == 1u64 | 2u64) by (bit_vector);
    mapper.map_to(page, frame, flags, frame_allocator)
}

} // verus!
