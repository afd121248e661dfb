//! Addresses, page-table entries and the physical memory that holds page tables.
//!
//! A page table is 512 entries of 64 bits. The hierarchy has four levels, level 4
//! at the top. Physical memory is modelled as a map from the address of a frame that
//! holds a table to that table's entries; a frame that holds no table reads as zeros,
//! as freshly cleared memory does.
use vstd::prelude::*;
use vstd::hash_map::HashMapWithView;

verus! {

broadcast use vstd::std_specs::hash::group_hash_axioms;

/// Size of a frame and of a page, in bytes.
pub const PAGE_SIZE: u64 = 4096;

/// Number of entries in one page table.
pub const ENTRY_COUNT: u64 = 512;

/// Physical addresses are below this bound (52 address bits).
pub const MAX_PHYS_ADDR: u64 = 0x10_0000_0000_0000;

/// The bits of an entry that hold the address of the frame it points to.
pub const ADDRESS_MASK: u64 = 0x000f_ffff_ffff_f000;

/// Entry flag: the entry designates a frame.
pub const PRESENT: u64 = 0x1;

/// Entry flag: writes are allowed through this entry.
pub const WRITABLE: u64 = 0x2;

/// Entry flag: user mode may access the memory behind this entry.
pub const USER_ACCESSIBLE: u64 = 0x4;

/// Entry flag: above level 1, the entry maps a huge page instead of a table.
pub const HUGE_PAGE: u64 = 0x80;

pub open spec fn is_present(e: u64) -> bool {
    e & 1 == 1
}

pub open spec fn is_huge(e: u64) -> bool {
    e & 0x80 == 0x80
}

/// The frame address stored in an entry.
pub open spec fn entry_addr(e: u64) -> u64 {
    e & 0x000f_ffff_ffff_f000
}

/// The 9-bit index that selects the entry of the table at `level` (1 to 4).
pub open spec fn table_index(v: u64, level: u64) -> u64 {
    if level == 4 {
        (v >> 39u64) & 0x1ff
    } else if level == 3 {
        (v >> 30u64) & 0x1ff
    } else if level == 2 {
        (v >> 21u64) & 0x1ff
    } else {
        (v >> 12u64) & 0x1ff
    }
}

/// The low 12 bits of an address: the offset inside its page.
pub open spec fn page_offset(v: u64) -> u64 {
    v & 0xfff
}

/// Flags that may be stored beside a frame address: no address bits among them.
pub open spec fn flags_valid(flags: u64) -> bool {
    flags & 0x000f_ffff_ffff_f000 == 0
}

/// A frame-aligned physical address below the physical address bound.
pub open spec fn frame_addr_valid(a: u64) -> bool {
    a % 4096 == 0 && a < MAX_PHYS_ADDR
}

pub proof fn lemma_entry_fields(a: u64, flags: u64)
    requires
        frame_addr_valid(a),
        flags_valid(flags),
    ensures
        entry_addr(a | flags | 1) == a,
        is_present(a | flags | 1),
        is_huge(a | flags | 1) == is_huge(flags),
{
    assert(a & 0xfff == 0) by (bit_vector)
        requires
            a % 4096 == 0,
    ;
    assert(entry_addr(a | flags | 1) == a && is_present(a | flags | 1) && is_huge(a | flags | 1)
        == is_huge(flags)) by (bit_vector)
        requires
            a & 0xfff == 0,
            a < 0x10_0000_0000_0000u64,
            flags & 0x000f_ffff_ffff_f000 == 0,
    ;
}

pub proof fn lemma_entry_addr_valid(e: u64)
    ensures
        frame_addr_valid(entry_addr(e)),
        entry_addr(e) <= 0x000f_ffff_ffff_f000,
{
    let a = entry_addr(e);
    assert(a & 0xfff == 0 && a < 0x10_0000_0000_0000u64 && a <= 0x000f_ffff_ffff_f000u64)
        by (bit_vector)
        requires
            a == e & 0x000f_ffff_ffff_f000,
    ;
    assert(a % 4096 == 0) by (bit_vector)
        requires
            a & 0xfff == 0,
    ;
}

/// Inside one page, every address has the page's table indices, and its offset
/// is its distance from the page's start.
pub proof fn lemma_same_page(page: u64, o: u64)
    requires
        page % 4096 == 0,
        o < 4096,
    ensures
        page + o <= u64::MAX,
        table_index((page + o) as u64, 4) == table_index(page, 4),
        table_index((page + o) as u64, 3) == table_index(page, 3),
        table_index((page + o) as u64, 2) == table_index(page, 2),
        table_index((page + o) as u64, 1) == table_index(page, 1),
        page_offset((page + o) as u64) == o,
{
    assert(page & 0xfff == 0 && page <= 0xffff_ffff_ffff_f000u64) by (bit_vector)
        requires
            page % 4096 == 0,
    ;
    let v = (page + o) as u64;
    assert(v == page | o) by (bit_vector)
        requires
            page & 0xfff == 0,
            o < 4096,
            page <= 0xffff_ffff_ffff_f000u64,
            v == page + o,
    ;
    assert(((v >> 39u64) & 0x1ff) == ((page >> 39u64) & 0x1ff) && ((v >> 30u64) & 0x1ff) == ((page
        >> 30u64) & 0x1ff) && ((v >> 21u64) & 0x1ff) == ((page >> 21u64) & 0x1ff) && ((v >> 12u64)
        & 0x1ff) == ((page >> 12u64) & 0x1ff) && v & 0xfff == o) by (bit_vector)
        requires
            v == page | o,
            page & 0xfff == 0,
            o < 4096,
    ;
}

/// The start of the 4096-byte unit that holds `a`.
pub open spec fn align_down(a: u64) -> u64 {
    (a - a % 4096) as u64
}

/// A physical frame: a 4096-byte aligned physical address below `MAX_PHYS_ADDR`.
#[derive(Clone, Copy, Debug, PartialEq, Eq)]
pub struct PhysFrame {
    start: u64,
}

impl PhysFrame {
    #[verifier::type_invariant]
    spec fn inv(self) -> bool {
        frame_addr_valid(self.start)
    }

    pub closed spec fn addr(self) -> u64 {
        self.start
    }

    /// The frame that holds the physical address `address`.
    pub fn containing_address(address: u64) -> (r: PhysFrame)
        requires
            address < MAX_PHYS_ADDR,
        ensures
            r.addr() == align_down(address),
    {
        let start = address - address % PAGE_SIZE;
        PhysFrame { start }
    }

    pub fn start_address(&self) -> (r: u64)
        ensures
            r == self.addr(),
            frame_addr_valid(r),
    {
        proof {
            use_type_invariant(self);
        }
        self.start
    }
}

/// A virtual page: a 4096-byte aligned virtual address.
#[derive(Clone, Copy, Debug, PartialEq, Eq)]
pub struct Page {
    start: u64,
}

impl Page {
    #[verifier::type_invariant]
    spec fn inv(self) -> bool {
        self.start % 4096 == 0
    }

    pub closed spec fn addr(self) -> u64 {
        self.start
    }

    /// The page that holds the virtual address `address`.
    pub fn containing_address(address: u64) -> (r: Page)
        ensures
            r.addr() == align_down(address),
    {
        let start = address - address % PAGE_SIZE;
        Page { start }
    }

    pub fn start_address(&self) -> (r: u64)
        ensures
            r == self.addr(),
            r % 4096 == 0,
    {
        proof {
            use_type_invariant(self);
        }
        self.start
    }
}

/// The value of entry `i` of the table in frame `table`: zero where no table is held.
pub open spec fn read_entry(mem: Map<u64, Seq<u64>>, table: u64, i: u64) -> u64 {
    if mem.contains_key(table) && (i as int) < mem[table].len() {
        mem[table][i as int]
    } else {
        0
    }
}

/// Two memories in which every entry of every frame reads the same.
pub open spec fn same_entries(a: Map<u64, Seq<u64>>, b: Map<u64, Seq<u64>>) -> bool {
    forall|t: u64, i: u64| #[trigger] read_entry(a, t, i) == read_entry(b, t, i)
}

/// The frames of physical memory that hold page tables, with their entries.
pub struct PhysMemory {
    tables: HashMapWithView<u64, Vec<u64>>,
}

impl View for PhysMemory {
    type V = Map<u64, Seq<u64>>;

    closed spec fn view(&self) -> Map<u64, Seq<u64>> {
        Map::new(|t: u64| self.tables@.contains_key(t), |t: u64| self.tables@[t]@)
    }
}

impl PhysMemory {
    pub closed spec fn wf(&self) -> bool {
        forall|t: u64| #[trigger] self.tables@.contains_key(t) ==> self.tables@[t]@.len() == 512
    }

    /// Memory that holds no page table yet.
    pub fn new() -> (r: PhysMemory)
        ensures
            r.wf(),
            r@ == Map::<u64, Seq<u64>>::empty(),
    {
        let r = PhysMemory { tables: HashMapWithView::new() };
        assert(r@ =~= Map::<u64, Seq<u64>>::empty());
        r
    }

    pub fn holds_table(&self, t: u64) -> (r: bool)
        ensures
            r == self@.contains_key(t),
    {
        self.tables.contains_key(&t)
    }

    /// Entry `i` of the table in frame `t`.
    pub fn read(&self, t: u64, i: u64) -> (r: u64)
        requires
            self.wf(),
            i < ENTRY_COUNT,
        ensures
            r == read_entry(self@, t, i),
    {
        match self.tables.get(&t) {
            Some(entries) => entries[i as usize],
            None => 0,
        }
    }

    /// Clears the frame `t` and makes it hold a table of zero entries.
    pub fn clear_table(&mut self, t: u64)
        requires
            old(self).wf(),
        ensures
            final(self).wf(),
            final(self)@ == old(self)@.insert(t, Seq::new(512, |i: int| 0u64)),
    {
        let mut entries: Vec<u64> = Vec::new();
        let mut k: u64 = 0;
        while k < ENTRY_COUNT
            invariant
                k <= ENTRY_COUNT,
                entries@ == Seq::new(k as nat, |i: int| 0u64),
            decreases ENTRY_COUNT - k,
        {
            entries.push(0);
            k = k + 1;
            assert(entries@ =~= Seq::new(k as nat, |i: int| 0u64));
        }
        self.tables.insert(t, entries);
        assert(self@ =~= old(self)@.insert(t, Seq::new(512, |i: int| 0u64)));
    }

    /// Makes sure that frame `t` holds a table; one that was not held reads as zeros.
    pub fn ensure_table(&mut self, t: u64)
        requires
            old(self).wf(),
        ensures
            final(self).wf(),
            final(self)@.contains_key(t),
            same_entries(final(self)@, old(self)@),
            forall|u: u64| old(self)@.contains_key(u) ==> #[trigger] final(self)@.contains_key(u),
            forall|u: u64| #[trigger] final(self)@.contains_key(u) ==> old(self)@.contains_key(u) || u == t,
    {
        if !self.tables.contains_key(&t) {
            self.clear_table(t);
        }
    }

    /// Sets entry `i` of the table in frame `t` to `value`.
    pub fn write(&mut self, t: u64, i: u64, value: u64)
        requires
            old(self).wf(),
            i < ENTRY_COUNT,
        ensures
            final(self).wf(),
            final(self)@.contains_key(t),
            forall|u: u64| old(self)@.contains_key(u) ==> #[trigger] final(self)@.contains_key(u),
            read_entry(final(self)@, t, i) == value,
            forall|u: u64| #[trigger] final(self)@.contains_key(u) ==> old(self)@.contains_key(u) || u == t,
            forall|u: u64, j: u64|
                (u != t || j != i) ==> #[trigger] read_entry(final(self)@, u, j) == read_entry(
                    old(self)@,
                    u,
                    j,
                ),
    {
        self.ensure_table(t);
        let ghost mid = self@;
        let mut entries = match self.tables.remove(&t) {
            Some(entries) => entries,
            None => Vec::new(),
        };
        assert(entries@ == mid[t]);
        entries.set(i as usize, value);
        self.tables.insert(t, entries);
        assert forall|u: u64, j: u64| (u != t || j != i) implies #[trigger] read_entry(
            self@,
            u,
            j,
        ) == read_entry(old(self)@, u, j) by {
            assert(read_entry(mid, u, j) == read_entry(old(self)@, u, j));
        }
    }
}

} // verus!
