//! Translation of virtual addresses by a walk of the four-level hierarchy, and
//! installation of new mappings into it.
use vstd::prelude::*;
use crate::memory::BootInfoFrameAllocator;
use crate::paging::{
    Page, PhysFrame, PhysMemory, ADDRESS_MASK, ENTRY_COUNT, entry_addr,
    flags_valid, frame_addr_valid, is_huge, is_present, lemma_entry_addr_valid, lemma_entry_fields,
    lemma_same_page, page_offset, read_entry, table_index,
};

verus! {

/// Flags of a page-table entry; they never hold address bits.
#[derive(Clone, Copy, Debug, PartialEq, Eq)]
pub struct PageTableFlags {
    bits: u64,
}

impl PageTableFlags {
    #[verifier::type_invariant]
    spec fn inv(self) -> bool {
        flags_valid(self.bits)
    }

    pub closed spec fn value(self) -> u64 {
        self.bits
    }

    /// The flags among `bits`; the address bits are dropped.
    pub fn from_bits_truncate(bits: u64) -> (r: PageTableFlags)
        ensures
            r.value() == bits & !ADDRESS_MASK,
    {
        let b = bits & !ADDRESS_MASK;
        assert(b & 0x000f_ffff_ffff_f000 == 0) by (bit_vector)
            requires
                b == bits & !0x000f_ffff_ffff_f000u64,
        ;
        PageTableFlags { bits: b }
    }

    pub fn bits(&self) -> (r: u64)
        ensures
            r == self.value(),
            flags_valid(r),
    {
        proof {
            use_type_invariant(self);
        }
        self.bits
    }
}

/// What a walk of the hierarchy finds for a virtual address.
#[derive(Clone, Copy, Debug, PartialEq, Eq)]
pub enum TranslateResult {
    /// The physical address that the virtual address maps to.
    Mapped(u64),
    /// Some entry on the way is not present.
    Unmapped,
    /// An entry above level 1 maps a huge page, which this walker does not support.
    HugeFrame,
}

/// The walk from the table in frame `table` at `level` (1 to 4) for the address `v`.
pub open spec fn walk(mem: Map<u64, Seq<u64>>, table: u64, v: u64, level: u64) -> TranslateResult
    decreases level,
{
    if level == 0 {
        TranslateResult::Unmapped
    } else {
        let e = read_entry(mem, table, table_index(v, level));
        if !is_present(e) {
            TranslateResult::Unmapped
        } else if level > 1 && is_huge(e) {
            TranslateResult::HugeFrame
        } else if level == 1 {
            TranslateResult::Mapped((entry_addr(e) + page_offset(v)) as u64)
        } else {
            walk(mem, entry_addr(e), v, (level - 1) as u64)
        }
    }
}

/// The level (1 to 4) at which the walk from `table` at `level` for `v` meets an entry
/// that is not present; 0 where it meets none.
pub open spec fn unmapped_level(mem: Map<u64, Seq<u64>>, table: u64, v: u64, level: u64) -> u64
    decreases level,
{
    if level == 0 {
        0
    } else {
        let e = read_entry(mem, table, table_index(v, level));
        if !is_present(e) {
            level
        } else if level == 1 || is_huge(e) {
            0
        } else {
            unmapped_level(mem, entry_addr(e), v, (level - 1) as u64)
        }
    }
}

/// What the hierarchy with its level 4 table in frame `root` makes of the address `v`.
pub open spec fn translation(mem: Map<u64, Seq<u64>>, root: u64, v: u64) -> TranslateResult {
    walk(mem, root, v, 4)
}

/// The frame of the table that the walk for `v` reads at `level` (1 to 4), starting
/// from the level 4 table in frame `root`.
pub open spec fn table_on_path(mem: Map<u64, Seq<u64>>, root: u64, v: u64, level: u64) -> u64
    decreases 4 - level,
{
    if level >= 4 {
        root
    } else {
        let upper = table_on_path(mem, root, v, (level + 1) as u64);
        entry_addr(read_entry(mem, upper, table_index(v, (level + 1) as u64)))
    }
}

/// Entry `i` of table `t` is one that the walk for `v` reads.
pub open spec fn on_walk(mem: Map<u64, Seq<u64>>, root: u64, v: u64, t: u64, i: u64) -> bool {
    exists|l: u64| 1 <= l <= 4 && t == table_on_path(mem, root, v, l) && i == table_index(v, l)
}

/// Two addresses that the walk resolves through the same four entries.
pub open spec fn same_walk(v: u64, w: u64) -> bool {
    forall|l: u64| 1 <= l <= 4 ==> table_index(v, l) == table_index(w, l)
}

/// What installing a mapping of the page at `page` to the frame at `frame` with `flags`
/// leaves behind, from memory `before` to memory `after`: every address of the page
/// translates to the same offset in the frame; the entry that the walk for the page
/// reads at level 1 is the frame with `flags` and the present flag; the entries that
/// changed were not present and are read by the walk for the page; and a table linked
/// in below a non-present entry was held by no table before, is none of the tables
/// above it on that walk, and has no entry but the one on the walk.
pub open spec fn mapping_installed(
    before: Map<u64, Seq<u64>>,
    after: Map<u64, Seq<u64>>,
    root: u64,
    page: u64,
    frame: u64,
    flags: u64,
) -> bool {
    &&& forall|o: u64|
        o < 4096 ==> #[trigger] translation(after, root, (page + o) as u64)
            == TranslateResult::Mapped((frame + o) as u64)
    &&& read_entry(after, table_on_path(after, root, page, 1), table_index(page, 1)) == frame
        | flags | 1
    &&& forall|t: u64, i: u64|
        #[trigger] read_entry(after, t, i) != read_entry(before, t, i) ==> {
            &&& !is_present(read_entry(before, t, i))
            &&& on_walk(after, root, page, t, i)
        }
    &&& forall|k: u64, j: u64|
        1 <= k < j <= 4 && !is_present(
            read_entry(
                before,
                table_on_path(after, root, page, (k + 1) as u64),
                table_index(page, (k + 1) as u64),
            ),
        ) ==> #[trigger] table_on_path(after, root, page, k) != #[trigger] table_on_path(
            after,
            root,
            page,
            j,
        )
    &&& forall|k: u64|
        1 <= k <= 3 && !is_present(
            read_entry(
                before,
                table_on_path(after, root, page, (k + 1) as u64),
                table_index(page, (k + 1) as u64),
            ),
        ) ==> {
            &&& !before.contains_key(#[trigger] table_on_path(after, root, page, k))
            &&& forall|i: u64|
                i != table_index(page, k) ==> #[trigger] read_entry(
                    after,
                    table_on_path(after, root, page, k),
                    i,
                ) == 0
        }
}

/// How installing a mapping of the page at `page` uses the allocator's `frames`, with
/// the cursor moving from `start` to `end`: one frame for each missing table below the
/// level where the walk in `before` stops. Success is certain where the page is unmapped
/// and the next frames, one per missing table, are distinct, hold no table and are not
/// the table where the walk stops. It runs out only where fewer frames are left than
/// tables are missing, and a frame is refused only where it holds a table already: one
/// held in `before`, the table where the walk stops, or one taken earlier in the call.
pub open spec fn frames_used(
    before: Map<u64, Seq<u64>>,
    root: u64,
    page: u64,
    frames: Seq<u64>,
    start: nat,
    end: nat,
    r: Result<MapperFlush, MapToError>,
) -> bool {
    let stop = unmapped_level(before, root, page, 4);
    &&& ({
        &&& translation(before, root, page) is Unmapped
        &&& start + stop - 1 <= frames.len()
        &&& forall|k: int|
            start <= k < start + stop - 1 ==> !before.contains_key(#[trigger] frames[k])
                && frames[k] != table_on_path(before, root, page, stop)
        &&& forall|j: int, k: int|
            start <= j < k < start + stop - 1 ==> #[trigger] frames[j] != #[trigger] frames[k]
    }) ==> r is Ok
    &&& r is Ok ==> end == start + stop - 1
    &&& r matches Err(MapToError::FrameAllocationFailed) ==> {
        &&& frames.len() < start + stop - 1
        &&& end == frames.len()
    }
    &&& r matches Err(MapToError::FrameInUse(f)) ==> {
        &&& start < end <= start + stop - 1
        &&& f.addr() == frames[end - 1]
        &&& before.contains_key(f.addr()) || f.addr() == table_on_path(before, root, page, stop)
            || exists|k: int| start <= k < end - 1 && frames[k] == f.addr()
    }
}

/// A hierarchy in which no entry is present, as after clearing all tables.
pub open spec fn no_entry_present(mem: Map<u64, Seq<u64>>) -> bool {
    forall|t: u64, i: u64| #[trigger] read_entry(mem, t, i) == 0
}

/// Why a mapping could not be installed.
#[derive(Clone, Copy, Debug, PartialEq, Eq)]
pub enum MapToError {
    /// A table was needed and the frame allocator had no frame left.
    FrameAllocationFailed,
    /// An entry on the way maps a huge page.
    ParentEntryHugePage,
    /// The page is already mapped, to the frame given.
    PageAlreadyMapped(PhysFrame),
    /// The allocator handed out a frame that already holds a page table.
    FrameInUse(PhysFrame),
}

/// A mapping that was installed; the page's cached translation must be flushed.
#[derive(Clone, Copy, Debug, PartialEq, Eq)]
pub struct MapperFlush {
    pub page: Page,
}

/// A page-table hierarchy, reached through its level 4 table, in physical memory
/// that the kernel sees at virtual address `physical_memory_offset` onwards.
pub struct OffsetPageTable {
    memory: PhysMemory,
    level_4_frame: PhysFrame,
    physical_memory_offset: u64,
}

/// The index of the entry for `v` in the table at `level` (1 to 4).
fn index_at(v: u64, level: u64) -> (r: u64)
    ensures
        r == table_index(v, level),
        r < ENTRY_COUNT,
{
    let r = if level == 4 {
        (v >> 39u64) & 0x1ff
    } else if level == 3 {
        (v >> 30u64) & 0x1ff
    } else if level == 2 {
        (v >> 21u64) & 0x1ff
    } else {
        (v >> 12u64) & 0x1ff
    };
    assert(r < 512) by (bit_vector)
        requires
            r == (v >> 39u64) & 0x1ff || r == (v >> 30u64) & 0x1ff || r == (v >> 21u64) & 0x1ff
                || r == (v >> 12u64) & 0x1ff,
    ;
    r
}

/// The table at `level` on a path that goes on from `table`, at `top`, through the
/// tables `fresh`, one level lower each.
pub open spec fn linked_table(table: u64, top: u64, fresh: Seq<u64>, level: u64) -> u64 {
    if level >= top {
        table
    } else {
        fresh[top - 1 - level]
    }
}

/// Frames that can become new tables below `table`: each valid, none held in `mem`,
/// none equal to `table`, no two equal.
pub open spec fn fresh_frames(mem: Map<u64, Seq<u64>>, table: u64, fresh: Seq<u64>) -> bool {
    &&& forall|k: int|
        0 <= k < fresh.len() ==> {
            &&& frame_addr_valid(#[trigger] fresh[k])
            &&& !mem.contains_key(fresh[k])
            &&& fresh[k] != table
        }
    &&& forall|j: int, k: int| 0 <= j < k < fresh.len() ==> #[trigger] fresh[j] != #[trigger] fresh[k]
}

fn contains_frame(v: &Vec<u64>, a: u64) -> (r: bool)
    ensures
        r == exists|k: int| 0 <= k < v@.len() && v@[k] == a,
{
    let mut k: usize = 0;
    while k < v.len()
        invariant
            k <= v@.len(),
            forall|j: int| 0 <= j < k ==> v@[j] != a,
        decreases v@.len() - k,
    {
        if v[k] == a {
            return true;
        }
        k = k + 1;
    }
    false
}

/// Takes `n` frames from `allocator` for new tables below `stop_table`, refusing a frame
/// that already holds a table in `mem`, is `stop_table`, or was taken before.
fn take_frames(mem: &PhysMemory, stop_table: u64, n: u64, allocator: &mut BootInfoFrameAllocator) -> (r:
    Result<Vec<u64>, MapToError>)
    requires
        old(allocator).wf(),
        mem.wf(),
    ensures
        final(allocator).wf(),
        final(allocator).regions() == old(allocator).regions(),
        ({
            let start = old(allocator).cursor();
            let end = final(allocator).cursor();
            let frames = old(allocator).frames();
            match r {
                Ok(v) => {
                    &&& v@.len() == n
                    &&& end == start + n
                    &&& fresh_frames(mem@, stop_table, v@)
                    &&& forall|k: int| 0 <= k < n ==> #[trigger] v@[k] == frames[start + k]
                },
                Err(MapToError::FrameAllocationFailed) => {
                    &&& frames.len() < start + n
                    &&& end == frames.len()
                },
                Err(MapToError::FrameInUse(f)) => {
                    &&& start < end <= start + n
                    &&& f.addr() == frames[end - 1]
                    &&& mem@.contains_key(f.addr()) || f.addr() == stop_table || exists|k: int|
                        start <= k < end - 1 && frames[k] == f.addr()
                },
                _ => false,
            }
        }),
{
    let ghost start = allocator.cursor();
    let mut v: Vec<u64> = Vec::new();
    let mut j: u64 = 0;
    while j < n
        invariant
            allocator.wf(),
            allocator.regions() == old(allocator).regions(),
            start == old(allocator).cursor(),
            j <= n,
            v@.len() == j,
            allocator.cursor() == start + j,
            fresh_frames(mem@, stop_table, v@),
            forall|k: int| 0 <= k < j ==> #[trigger] v@[k] == allocator.frames()[start + k],
        decreases n - j,
    {
        let ghost frames = allocator.frames();
        assert(frames == old(allocator).frames());
        match allocator.allocate_frame() {
            None => {
                return Err(MapToError::FrameAllocationFailed);
            },
            Some(f) => {
                let a = f.start_address();
                if mem.holds_table(a) || a == stop_table || contains_frame(&v, a) {
                    proof {
                        if exists|k: int| 0 <= k < v@.len() && v@[k] == a {
                            let k = choose|k: int| 0 <= k < v@.len() && v@[k] == a;
                            assert(start <= start + k < allocator.cursor() - 1);
                            assert(old(allocator).frames()[start + k] == a);
                        }
                    }
                    return Err(MapToError::FrameInUse(f));
                }
                v.push(a);
                j = j + 1;
            },
        }
    }
    Ok(v)
}

/// Links the tables `fresh` in below `table` at `level`, one level lower each: every
/// one is cleared, and the entry for `p` of the table above it points to it with
/// `parent_flags` and the present flag.
fn link_tables(
    mem: &mut PhysMemory,
    table: u64,
    level: u64,
    fresh: &Vec<u64>,
    p: u64,
    parent_flags: u64,
)
    requires
        old(mem).wf(),
        2 <= level <= 4,
        fresh@.len() == level - 1,
        fresh_frames(old(mem)@, table, fresh@),
    ensures
        final(mem).wf(),
        forall|l: u64|
            1 < l <= level ==> #[trigger] read_entry(
                final(mem)@,
                linked_table(table, level, fresh@, l),
                table_index(p, l),
            ) == linked_table(table, level, fresh@, (l - 1) as u64) | parent_flags | 1,
        forall|t: u64, i: u64|
            (forall|l: u64|
                1 < l <= level ==> !(t == linked_table(table, level, fresh@, l) && i
                    == table_index(p, l))) ==> #[trigger] read_entry(final(mem)@, t, i)
                == read_entry(old(mem)@, t, i),
{
    let ghost m0 = mem@;
    let mut parent = table;
    let mut k: u64 = 0;
    while k < level - 1
        invariant
            mem.wf(),
            m0 == old(mem)@,
            2 <= level <= 4,
            fresh@.len() == level - 1,
            fresh_frames(m0, table, fresh@),
            k <= level - 1,
            parent == linked_table(table, level, fresh@, (level - k) as u64),
            forall|u: u64|
                #[trigger] mem@.contains_key(u) ==> m0.contains_key(u) || u == table || exists|j: int|
                    0 <= j < k && fresh@[j] == u,
            forall|l: u64|
                level - k < l <= level ==> #[trigger] read_entry(
                    mem@,
                    linked_table(table, level, fresh@, l),
                    table_index(p, l),
                ) == linked_table(table, level, fresh@, (l - 1) as u64) | parent_flags | 1,
            forall|t: u64, i: u64|
                (forall|l: u64|
                    level - k < l <= level ==> !(t == linked_table(table, level, fresh@, l) && i
                        == table_index(p, l))) ==> #[trigger] read_entry(mem@, t, i) == read_entry(
                    m0,
                    t,
                    i,
                ),
        decreases level - 1 - k,
    {
        let child = fresh[k as usize];
        let lvl = level - k;
        let ghost before = mem@;
        proof {
            assert(child == linked_table(table, level, fresh@, (lvl - 1) as u64));
            if mem@.contains_key(child) {
                let j = choose|j: int| 0 <= j < k && fresh@[j] == child;
                assert(fresh@[j] != fresh@[k as int]);
            }
        }
        mem.clear_table(child);
        let ghost cleared = mem@;
        assert forall|t: u64, i: u64| #[trigger] read_entry(cleared, t, i) == read_entry(before, t, i)
            by {
            if t == child {
                assert(!before.contains_key(child));
            }
        }
        let idx = index_at(p, lvl);
        mem.write(parent, idx, child | parent_flags | 1);
        proof {
            assert forall|l: u64| level - (k + 1) < l <= level implies #[trigger] read_entry(
                mem@,
                linked_table(table, level, fresh@, l),
                table_index(p, l),
            ) == linked_table(table, level, fresh@, (l - 1) as u64) | parent_flags | 1 by {
                if l != lvl {
                    let a = linked_table(table, level, fresh@, l);
                    if l < level && lvl < level {
                        assert(fresh@[level - 1 - l] != fresh@[level - 1 - lvl]);
                    }
                    assert(a != parent);
                }
            }
            assert forall|t: u64, i: u64|
                (forall|l: u64|
                    level - (k + 1) < l <= level ==> !(t == linked_table(table, level, fresh@, l)
                        && i == table_index(p, l))) implies #[trigger] read_entry(mem@, t, i)
                == read_entry(m0, t, i) by {
                assert(!(t == parent && i == idx)) by {
                    assert(level - (k + 1) < lvl <= level);
                }
                assert(read_entry(mem@, t, i) == read_entry(before, t, i));
            }
        }
        parent = child;
        k = k + 1;
    }
}

/// A walk whose four entries for page `p` lead from `path[4]` down to `path[1]`, whose
/// level 1 entry is `frame` with `flags`, translates every address of the page.
proof fn lemma_chain_translates(m: Map<u64, Seq<u64>>, path: Seq<u64>, p: u64, frame: u64, flags: u64)
    requires
        path.len() == 5,
        p % 4096 == 0,
        frame_addr_valid(frame),
        flags_valid(flags),
        forall|l: u64|
            1 < l <= 4 ==> {
                let e = #[trigger] read_entry(m, path[l as int], table_index(p, l));
                &&& is_present(e)
                &&& !is_huge(e)
                &&& entry_addr(e) == path[l - 1]
            },
        read_entry(m, path[1], table_index(p, 1)) == frame | flags | 1,
    ensures
        forall|l: u64| 1 <= l <= 4 ==> #[trigger] table_on_path(m, path[4], p, l) == path[l as int],
        forall|o: u64|
            o < 4096 ==> #[trigger] translation(m, path[4], (p + o) as u64) == TranslateResult::Mapped(
                (frame + o) as u64,
            ),
{
    lemma_entry_fields(frame, flags);
    let root = path[4];
    assert(read_entry(m, path[4], table_index(p, 4)) == read_entry(m, path[4], table_index(p, 4)));
    assert(table_on_path(m, root, p, 4) == path[4]);
    assert(table_on_path(m, root, p, 3) == path[3]);
    assert(table_on_path(m, root, p, 2) == path[2]);
    assert(table_on_path(m, root, p, 1) == path[1]);
    assert forall|o: u64| o < 4096 implies #[trigger] translation(m, root, (p + o) as u64)
        == TranslateResult::Mapped((frame + o) as u64) by {
        lemma_same_page(p, o);
        let v = (p + o) as u64;
        assert(walk(m, path[4], v, 4) == walk(m, path[3], v, 3));
        assert(walk(m, path[3], v, 3) == walk(m, path[2], v, 2));
        assert(walk(m, path[2], v, 2) == walk(m, path[1], v, 1));
    }
}

/// Installing a mapping by linking the tables `fresh` below the first non-present entry
/// of the page's walk, at `level` in `table`, and then writing the level 1 entry, leaves
/// what `mapping_installed` describes.
proof fn lemma_linked_mapping(
    m0: Map<u64, Seq<u64>>,
    mf: Map<u64, Seq<u64>>,
    root: u64,
    p: u64,
    frame: u64,
    flags: u64,
    parent_flags: u64,
    table: u64,
    level: u64,
    fresh: Seq<u64>,
)
    requires
        p % 4096 == 0,
        frame_addr_valid(frame),
        flags_valid(flags),
        flags_valid(parent_flags),
        !is_huge(parent_flags),
        1 <= level <= 4,
        table == table_on_path(m0, root, p, level),
        !is_present(read_entry(m0, table, table_index(p, level))),
        forall|l: u64|
            level < l <= 4 ==> {
                let e = #[trigger] read_entry(m0, table_on_path(m0, root, p, l), table_index(p, l));
                &&& is_present(e)
                &&& !is_huge(e)
            },
        fresh.len() == level - 1,
        fresh_frames(m0, table, fresh),
        forall|l: u64|
            1 < l <= level ==> #[trigger] read_entry(
                mf,
                linked_table(table, level, fresh, l),
                table_index(p, l),
            ) == linked_table(table, level, fresh, (l - 1) as u64) | parent_flags | 1,
        read_entry(mf, linked_table(table, level, fresh, 1), table_index(p, 1)) == frame | flags | 1,
        forall|t: u64, i: u64|
            (forall|l: u64|
                1 <= l <= level ==> !(t == linked_table(table, level, fresh, l) && i == table_index(
                    p,
                    l,
                ))) ==> #[trigger] read_entry(mf, t, i) == read_entry(m0, t, i),
    ensures
        mapping_installed(m0, mf, root, p, frame, flags),
{
    assert(!is_present(0)) by (bit_vector);
    let path = Seq::new(
        5,
        |l: int|
            if l > level {
                table_on_path(m0, root, p, l as u64)
            } else {
                linked_table(table, level, fresh, l as u64)
            },
    );
    // the tables of the page's walk that were linked in: fresh ones, held by no table before
    assert forall|l: u64| 1 <= l < level implies !m0.contains_key(#[trigger] path[l as int])
        && path[l as int] != table by {
        assert(path[l as int] == fresh[level - 1 - l]);
    }
    // the tables above: each with a present entry, so held before
    assert forall|l: u64| level < l <= 4 implies m0.contains_key(#[trigger] path[l as int]) && {
        let e = read_entry(m0, path[l as int], table_index(p, l));
        is_present(e) && !is_huge(e) && entry_addr(e) == path[l - 1]
    } by {
        let e = read_entry(m0, table_on_path(m0, root, p, l), table_index(p, l));
        assert(is_present(e));
        assert(table_on_path(m0, root, p, (l - 1) as u64) == entry_addr(e));
    }
    // slots written are the linked ones and the level 1 entry
    assert forall|l: u64| 1 < l <= 4 implies {
        let e = #[trigger] read_entry(mf, path[l as int], table_index(p, l));
        &&& is_present(e)
        &&& !is_huge(e)
        &&& entry_addr(e) == path[l - 1]
    } by {
        if l > level {
            let t = path[l as int];
            let i = table_index(p, l);
            assert forall|l2: u64| 1 <= l2 <= level implies !(t == linked_table(table, level, fresh, l2)
                && i == table_index(p, l2)) by {
                if t == linked_table(table, level, fresh, l2) {
                    if l2 < level {
                        assert(path[l2 as int] == linked_table(table, level, fresh, l2));
                        assert(!m0.contains_key(path[l2 as int]));
                    } else {
                        assert(!is_present(read_entry(m0, table, table_index(p, level))));
                    }
                }
            }
            assert(read_entry(mf, t, i) == read_entry(m0, t, i));
        } else {
            lemma_entry_fields(path[l - 1], parent_flags);
            assert(path[l as int] == linked_table(table, level, fresh, l));
            assert(path[l - 1] == linked_table(table, level, fresh, (l - 1) as u64));
        }
    }
    assert(path[1] == linked_table(table, level, fresh, 1));
    assert(path[4] == root) by {
        if level < 4 {
        } else {
            assert(table_on_path(m0, root, p, 4) == root);
        }
    }
    lemma_chain_translates(mf, path, p, frame, flags);
    assert forall|t: u64, i: u64| #[trigger] read_entry(mf, t, i) != read_entry(m0, t, i) implies {
        &&& !is_present(read_entry(m0, t, i))
        &&& on_walk(mf, root, p, t, i)
    } by {
        let l = choose|l: u64|
            1 <= l <= level && t == linked_table(table, level, fresh, l) && i == table_index(p, l);
        assert(t == path[l as int]);
        assert(t == table_on_path(mf, root, p, l));
        if l < level {
            assert(!m0.contains_key(t));
        }
    }
    assert forall|k: u64, j: u64|
        1 <= k < j <= 4 && !is_present(
            read_entry(
                m0,
                table_on_path(mf, root, p, (k + 1) as u64),
                table_index(p, (k + 1) as u64),
            ),
        ) implies #[trigger] table_on_path(mf, root, p, k) != #[trigger] table_on_path(
        mf,
        root,
        p,
        j,
    ) by {
        assert(table_on_path(mf, root, p, (k + 1) as u64) == path[k + 1]);
        assert(table_on_path(mf, root, p, k) == path[k as int]);
        assert(table_on_path(mf, root, p, j) == path[j as int]);
        assert(k < level);
        if j < level {
            assert(fresh[level - 1 - k] != fresh[level - 1 - j]);
        }
    }
    assert forall|k: u64|
        1 <= k <= 3 && !is_present(
            read_entry(
                m0,
                table_on_path(mf, root, p, (k + 1) as u64),
                table_index(p, (k + 1) as u64),
            ),
        ) implies {
        &&& !m0.contains_key(#[trigger] table_on_path(mf, root, p, k))
        &&& forall|i: u64|
            i != table_index(p, k) ==> #[trigger] read_entry(mf, table_on_path(mf, root, p, k), i)
                == 0
    } by {
        assert(table_on_path(mf, root, p, (k + 1) as u64) == path[k + 1]);
        assert(table_on_path(mf, root, p, k) == path[k as int]);
        assert(k < level);
        let t = path[k as int];
        assert forall|i: u64| i != table_index(p, k) implies #[trigger] read_entry(mf, t, i) == 0 by {
            assert forall|l2: u64| 1 <= l2 <= level implies !(t == linked_table(table, level, fresh, l2)
                && i == table_index(p, l2)) by {
                if t == linked_table(table, level, fresh, l2) && l2 != k {
                    if l2 < level {
                        assert(fresh[level - 1 - k] != fresh[level - 1 - l2]);
                    }
                }
            }
            assert(read_entry(mf, t, i) == read_entry(m0, t, i));
        }
    }
}

/// The frames of the tables that the walk for `page` reads, level 4 table first, down
/// to the first entry that is not present or maps a huge page, or to the level 1 table.
pub fn path_tables(memory: &PhysMemory, root: u64, page: Page) -> (r: Vec<u64>)
    requires
        memory.wf(),
    ensures
        1 <= r@.len() <= 4,
        forall|k: int|
            0 <= k < r@.len() ==> #[trigger] r@[k] == table_on_path(
                memory@,
                root,
                page.addr(),
                (4 - k) as u64,
            ),
        forall|k: int|
            0 <= k < r@.len() - 1 ==> {
                let e = read_entry(memory@, #[trigger] r@[k], table_index(page.addr(), (4 - k) as u64));
                is_present(e) && !is_huge(e)
            },
        r@.len() < 4 ==> {
            let e = read_entry(
                memory@,
                r@[r@.len() - 1],
                table_index(page.addr(), (5 - r@.len()) as u64),
            );
            !is_present(e) || is_huge(e)
        },
{
    let p = page.start_address();
    let mut tables: Vec<u64> = Vec::new();
    tables.push(root);
    let mut level: u64 = 4;
    while level > 1
        invariant
            memory.wf(),
            p == page.addr(),
            1 <= level <= 4,
            tables@.len() == 5 - level,
            forall|k: int|
                0 <= k < tables@.len() ==> #[trigger] tables@[k] == table_on_path(
                    memory@,
                    root,
                    p,
                    (4 - k) as u64,
                ),
            forall|k: int|
                0 <= k < tables@.len() - 1 ==> {
                    let e = read_entry(memory@, #[trigger] tables@[k], table_index(p, (4 - k) as u64));
                    is_present(e) && !is_huge(e)
                },
        decreases level,
    {
        let t = tables[tables.len() - 1];
        let e = memory.read(t, index_at(p, level));
        if e & 1 != 1 || e & 0x80 == 0x80 {
            return tables;
        }
        tables.push(e & ADDRESS_MASK);
        level = level - 1;
    }
    tables
}

impl OffsetPageTable {
    pub closed spec fn mem(&self) -> Map<u64, Seq<u64>> {
        self.memory@
    }

    /// The frame of the level 4 table.
    pub closed spec fn root(&self) -> u64 {
        self.level_4_frame.addr()
    }

    pub closed spec fn offset(&self) -> u64 {
        self.physical_memory_offset
    }

    pub closed spec fn wf(&self) -> bool {
        self.memory.wf()
    }

    /// The hierarchy whose level 4 table is in `level_4_frame` of `memory`.
    pub fn new(memory: PhysMemory, level_4_frame: PhysFrame, physical_memory_offset: u64) -> (r:
        OffsetPageTable)
        requires
            memory.wf(),
        ensures
            r.wf(),
            r.mem() == memory@,
            r.root() == level_4_frame.addr(),
            r.offset() == physical_memory_offset,
    {
        OffsetPageTable { memory, level_4_frame, physical_memory_offset }
    }

    pub fn level_4_frame(&self) -> (r: PhysFrame)
        ensures
            r.addr() == self.root(),
    {
        self.level_4_frame
    }

    pub fn physical_memory_offset(&self) -> (r: u64)
        ensures
            r == self.offset(),
    {
        self.physical_memory_offset
    }

    pub fn memory(&self) -> (r: &PhysMemory)
        ensures
            r@ == self.mem(),
            r.wf() == self.wf(),
    {
        &self.memory
    }

    /// The physical address that `addr` maps to, found by walking the four levels.
    pub fn translate(&self, addr: u64) -> (r: TranslateResult)
        requires
            self.wf(),
        ensures
            r == translation(self.mem(), self.root(), addr),
    {
        let mut table = self.level_4_frame.start_address();
        let mut level: u64 = 4;
        while level > 0
            invariant
                self.wf(),
                1 <= level <= 4 || level == 0,
                level > 0,
                translation(self.mem(), self.root(), addr) == walk(
                    self.mem(),
                    table,
                    addr,
                    level,
                ),
            decreases level,
        {
            let e = self.memory.read(table, index_at(addr, level));
            if e & 1 != 1 {
                return TranslateResult::Unmapped;
            }
            if level > 1 && e & 0x80 == 0x80 {
                return TranslateResult::HugeFrame;
            }
            proof {
                lemma_entry_addr_valid(e);
            }
            if level == 1 {
                let off = addr & 0xfff;
                assert(off <= 0xfff) by (bit_vector)
                    requires
                        off == addr & 0xfff,
                ;
                return TranslateResult::Mapped((e & ADDRESS_MASK) + off);
            }
            table = e & ADDRESS_MASK;
            level = level - 1;
        }
        TranslateResult::Unmapped
    }

    /// Walks down from the level 4 table for `p` through present entries. Returns the
    /// table and level of the first entry that is not present, or the level 1 table.
    fn find_stop(&self, p: u64) -> (r: Result<(u64, u64), MapToError>)
        requires
            self.wf(),
        ensures
            ({
                let m = self.mem();
                let root = self.root();
                match r {
                    Ok((table, level)) => {
                        &&& 1 <= level <= 4
                        &&& table == table_on_path(m, root, p, level)
                        &&& translation(m, root, p) == walk(m, table, p, level)
                        &&& unmapped_level(m, root, p, 4) == unmapped_level(m, table, p, level)
                        &&& level >= 2 ==> !is_present(read_entry(m, table, table_index(p, level)))
                        &&& forall|l: u64|
                            level < l <= 4 ==> {
                                let e = #[trigger] read_entry(
                                    m,
                                    table_on_path(m, root, p, l),
                                    table_index(p, l),
                                );
                                &&& is_present(e)
                                &&& !is_huge(e)
                            }
                    },
                    Err(e) => {
                        &&& e == MapToError::ParentEntryHugePage
                        &&& translation(m, root, p) is HugeFrame
                    },
                }
            }),
    {
        let ghost m = self.mem();
        let ghost root = self.root();
        let mut table = self.level_4_frame.start_address();
        let mut level: u64 = 4;
        while level > 1
            invariant
                self.wf(),
                m == self.mem(),
                root == self.root(),
                1 <= level <= 4,
                table == table_on_path(m, root, p, level),
                translation(m, root, p) == walk(m, table, p, level),
                unmapped_level(m, root, p, 4) == unmapped_level(m, table, p, level),
                forall|l: u64|
                    level < l <= 4 ==> {
                        let e = #[trigger] read_entry(m, table_on_path(m, root, p, l), table_index(p, l));
                        &&& is_present(e)
                        &&& !is_huge(e)
                    },
            decreases level,
        {
            let idx = index_at(p, level);
            let e = self.memory.read(table, idx);
            if e & 1 != 1 {
                return Ok((table, level));
            }
            if e & 0x80 == 0x80 {
                return Err(MapToError::ParentEntryHugePage);
            }
            table = e & ADDRESS_MASK;
            level = level - 1;
            assert(table == table_on_path(m, root, p, level));
        }
        Ok((table, level))
    }

    /// Maps `page` to `frame` with `flags`, taking frames for missing tables from
    /// `allocator`. Tables created on the way are cleared and get the present flag and
    /// the writable and user-accessible flags of `flags`; the new entry gets `flags` and
    /// the present flag. Nothing is written unless the mapping is installed.
    pub fn map_to(
        &mut self,
        page: Page,
        frame: PhysFrame,
        flags: PageTableFlags,
        allocator: &mut BootInfoFrameAllocator,
    ) -> (r: Result<MapperFlush, MapToError>)
        requires
            old(self).wf(),
            old(allocator).wf(),
        ensures
            final(self).wf(),
            final(allocator).wf(),
            final(self).root() == old(self).root(),
            final(self).offset() == old(self).offset(),
            final(allocator).regions() == old(allocator).regions(),
            final(allocator).cursor() >= old(allocator).cursor(),
            r is Err ==> final(self).mem() == old(self).mem(),
            (r == Err::<MapperFlush, MapToError>(MapToError::ParentEntryHugePage) || (r is Err
                && r->Err_0 is PageAlreadyMapped)) ==> final(allocator).cursor() == old(
                allocator,
            ).cursor(),
            (r == Err::<MapperFlush, MapToError>(MapToError::ParentEntryHugePage)) <==> (translation(
                old(self).mem(),
                old(self).root(),
                page.addr(),
            ) is HugeFrame),
            (r is Err && r->Err_0 is PageAlreadyMapped) <==> (translation(
                old(self).mem(),
                old(self).root(),
                page.addr(),
            ) is Mapped),
            r matches Err(MapToError::PageAlreadyMapped(f)) ==> translation(
                old(self).mem(),
                old(self).root(),
                page.addr(),
            ) == TranslateResult::Mapped(f.addr()),
            frames_used(
                old(self).mem(),
                old(self).root(),
                page.addr(),
                old(allocator).frames(),
                old(allocator).cursor(),
                final(allocator).cursor(),
                r,
            ),
            r is Ok ==> r->Ok_0.page == page,
            r is Ok ==> mapping_installed(
                old(self).mem(),
                final(self).mem(),
                old(self).root(),
                page.addr(),
                frame.addr(),
                flags.value(),
            ),
    {
        let ghost m0 = self.memory@;
        let ghost root = self.level_4_frame.addr();
        let fl = flags.bits();
        let parent_flags = (fl & 0x6) | 1;
        assert(flags_valid(parent_flags) && !is_huge(parent_flags)) by (bit_vector)
            requires
                parent_flags == (fl & 0x6) | 1,
        ;
        assert(!is_present(0)) by (bit_vector);
        let p = page.start_address();
        let frame_addr = frame.start_address();
        let (table, level) = match self.find_stop(p) {
            Ok(found) => found,
            Err(e) => {
                return Err(e);
            },
        };
        proof {
            lemma_same_page(p, 0);
        }
        if level == 1 {
            let idx = index_at(p, 1);
            let e = self.memory.read(table, idx);
            if e & 1 == 1 {
                proof {
                    lemma_entry_addr_valid(e);
                }
                return Err(MapToError::PageAlreadyMapped(PhysFrame::containing_address(e & ADDRESS_MASK)));
            }
            self.memory.write(table, idx, frame_addr | fl | 1);
            proof {
                let fresh = Seq::<u64>::empty();
                assert(fresh_frames(m0, table, fresh));
                assert(linked_table(table, 1, fresh, 1) == table);
                lemma_linked_mapping(
                    m0,
                    self.memory@,
                    root,
                    p,
                    frame_addr,
                    fl,
                    parent_flags,
                    table,
                    1,
                    fresh,
                );
            }
            return Ok(MapperFlush { page });
        }
        let fresh = match take_frames(&self.memory, table, level - 1, allocator) {
            Ok(v) => v,
            Err(e) => {
                return Err(e);
            },
        };
        link_tables(&mut self.memory, table, level, &fresh, p, parent_flags);
        let ghost linked = self.memory@;
        let last = fresh[(level - 2) as usize];
        let idx = index_at(p, 1);
        self.memory.write(last, idx, frame_addr | fl | 1);
        proof {
            let mf = self.memory@;
            assert(last == linked_table(table, level, fresh@, 1));
            assert forall|l: u64|
                1 < l <= level implies #[trigger] read_entry(
                mf,
                linked_table(table, level, fresh@, l),
                table_index(p, l),
            ) == linked_table(table, level, fresh@, (l - 1) as u64) | parent_flags | 1 by {
                if l < level {
                    assert(fresh@[level - 1 - l] != fresh@[level - 2]);
                }
                assert(linked_table(table, level, fresh@, l) != last);
            }
            assert forall|t: u64, i: u64|
                (forall|l: u64|
                    1 <= l <= level ==> !(t == linked_table(table, level, fresh@, l) && i
                        == table_index(p, l))) implies #[trigger] read_entry(mf, t, i)
                == read_entry(m0, t, i) by {
                assert(!(t == linked_table(table, level, fresh@, 1) && i == table_index(p, 1)));
                assert(read_entry(mf, t, i) == read_entry(linked, t, i));
            }
            lemma_linked_mapping(
                m0,
                mf,
                root,
                p,
                frame_addr,
                fl,
                parent_flags,
                table,
                level,
                fresh@,
            );
        }
        Ok(MapperFlush { page })
    }
}

/// An entry that the walk for the mapped page does not read keeps the zero it had.
proof fn lemma_off_walk_entry_zero(
    before: Map<u64, Seq<u64>>,
    after: Map<u64, Seq<u64>>,
    root: u64,
    page: u64,
    frame: u64,
    flags: u64,
    l: u64,
    i: u64,
)
    requires
        no_entry_present(before),
        mapping_installed(before, after, root, page, frame, flags),
        1 <= l <= 4,
        i != table_index(page, l),
    ensures
        read_entry(after, table_on_path(after, root, page, l), i) == 0,
{
    assert(!is_present(0)) by (bit_vector);
    let t = table_on_path(after, root, page, l);
    assert(read_entry(before, t, i) == 0);
    if read_entry(after, t, i) != read_entry(before, t, i) {
        let k = choose|k: u64|
            1 <= k <= 4 && t == table_on_path(after, root, page, k) && i == table_index(page, k);
        assert(read_entry(
            before,
            table_on_path(after, root, page, (k + 1) as u64),
            table_index(page, (k + 1) as u64),
        ) == 0);
        assert(read_entry(
            before,
            table_on_path(after, root, page, (l + 1) as u64),
            table_index(page, (l + 1) as u64),
        ) == 0);
        if k < l {
            assert(table_on_path(after, root, page, k) != table_on_path(after, root, page, l));
        } else {
            assert(table_on_path(after, root, page, l) != table_on_path(after, root, page, k));
        }
    }
}

/// Starting from a hierarchy in which no entry is present, after one mapping has been
/// installed every address whose walk differs from the mapped page's translates to
/// "unmapped": the walk yields no address for it.
pub proof fn lemma_only_mapped_page_translates(
    before: Map<u64, Seq<u64>>,
    after: Map<u64, Seq<u64>>,
    root: u64,
    page: u64,
    frame: u64,
    flags: u64,
    v: u64,
)
    requires
        no_entry_present(before),
        mapping_installed(before, after, root, page, frame, flags),
        !same_walk(v, page),
    ensures
        translation(after, root, v) == TranslateResult::Unmapped,
{
    assert(!is_present(0)) by (bit_vector);
    assert(translation(after, root, (page + 0) as u64) == TranslateResult::Mapped((frame + 0) as u64));
    assert((page + 0) as u64 == page);
    let t4 = table_on_path(after, root, page, 4);
    let t3 = table_on_path(after, root, page, 3);
    let t2 = table_on_path(after, root, page, 2);
    let t1 = table_on_path(after, root, page, 1);
    assert(t4 == root);
    let e4 = read_entry(after, t4, table_index(page, 4));
    assert(is_present(e4) && !is_huge(e4));
    assert(walk(after, t4, page, 4) == walk(after, t3, page, 3));
    let e3 = read_entry(after, t3, table_index(page, 3));
    assert(is_present(e3) && !is_huge(e3));
    assert(walk(after, t3, page, 3) == walk(after, t2, page, 2));
    let e2 = read_entry(after, t2, table_index(page, 2));
    assert(is_present(e2) && !is_huge(e2));
    assert(walk(after, t2, page, 2) == walk(after, t1, page, 1));
    if table_index(v, 4) != table_index(page, 4) {
        lemma_off_walk_entry_zero(before, after, root, page, frame, flags, 4, table_index(v, 4));
    } else if table_index(v, 3) != table_index(page, 3) {
        lemma_off_walk_entry_zero(before, after, root, page, frame, flags, 3, table_index(v, 3));
        assert(walk(after, t4, v, 4) == walk(after, t3, v, 3));
    } else if table_index(v, 2) != table_index(page, 2) {
        lemma_off_walk_entry_zero(before, after, root, page, frame, flags, 2, table_index(v, 2));
        assert(walk(after, t4, v, 4) == walk(after, t3, v, 3));
        assert(walk(after, t3, v, 3) == walk(after, t2, v, 2));
    } else {
        assert(table_index(v, 1) != table_index(page, 1));
        lemma_off_walk_entry_zero(before, after, root, page, frame, flags, 1, table_index(v, 1));
        assert(walk(after, t4, v, 4) == walk(after, t3, v, 3));
        assert(walk(after, t3, v, 3) == walk(after, t2, v, 2));
        assert(walk(after, t2, v, 2) == walk(after, t1, v, 1));
    }
}

} // verus!
