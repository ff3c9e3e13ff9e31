use vstd::prelude::*;
use vstd::hash_map::HashMapWithView;
use crate::allocator::Allocator;
use crate::util::{KERNBASE, PG_SIZE};

verus! {

broadcast use vstd::std_specs::hash::group_hash_axioms;

/// The page boundary at or below `x`.
pub open spec fn page_floor(x: int) -> int {
    x - x % (PG_SIZE as int)
}

/// Round an address down to its page boundary.
pub fn pgrounddown(x: u64) -> (r: u64)
    ensures
        r == page_floor(x as int),
{
    let r = x & !((PG_SIZE as u64) - 1);
    assert((x & !4095u64) == x - x % 4096) by (bit_vector);
    r
}

/// Round an address up to the next page boundary.
pub fn pgroundup(x: u64) -> (r: u64)
    requires
        x + PG_SIZE - 1 <= u64::MAX,
    ensures
        r == crate::allocator::round_up_page(x as int),
{
    crate::allocator::pgroundup(x)
}

/// Size of a large (2 MiB) page.
pub const PG_SIZE_2M: u64 = 0x20_0000;
/// Bits of an entry that hold the physical address.
pub const ADDR_MASK: u64 = 0x000f_ffff_ffff_f000;
/// Bits of an entry that hold its flags.
pub const FLAGS_MASK: u64 = 0xfff;
/// Physical memory that page tables live in lies below this address.
pub const TABLE_PA_LIMIT: u64 = 0x8000_0000;

/// Entry flags.
pub const PTE_PRESENT: u64 = 1;
pub const PTE_WRITABLE: u64 = 2;
pub const PTE_USER: u64 = 4;
pub const PTE_WRITE_THROUGH: u64 = 8;
pub const PTE_CACHE_DISABLE: u64 = 16;
pub const PTE_ACCESSED: u64 = 32;
pub const PTE_DIRTY: u64 = 64;
pub const PTE_HUGE_PAGE: u64 = 128;
pub const PTE_GLOBAL: u64 = 256;
pub const PTE_NO_EXECUTE: u64 = 0x8000_0000_0000_0000;

/// A page-table entry: a physical address and flags.
#[derive(Clone, Copy, Debug, PartialEq, Eq, Structural)]
pub struct PageTableEntry(pub u64);

pub open spec fn pte_present(e: u64) -> bool {
    e & PTE_PRESENT != 0
}

pub open spec fn pte_huge(e: u64) -> bool {
    e & PTE_HUGE_PAGE != 0
}

pub open spec fn pte_addr(e: u64) -> u64 {
    e & ADDR_MASK
}

pub open spec fn pte_flags(e: u64) -> u64 {
    e & FLAGS_MASK
}

/// The entry for physical address `addr` (its page-aligned part) with `flags`.
pub open spec fn make_pte(addr: u64, flags: u64) -> u64 {
    (addr & ADDR_MASK) | (flags & FLAGS_MASK)
}

impl PageTableEntry {
    pub fn new(addr: u64, flags: u64) -> (r: Self)
        ensures
            r.0 == make_pte(addr, flags),
    {
        PageTableEntry((addr & ADDR_MASK) | (flags & FLAGS_MASK))
    }

    pub fn addr(&self) -> (r: u64)
        ensures
            r == pte_addr(self.0),
    {
        self.0 & ADDR_MASK
    }

    pub fn flags(&self) -> (r: u64)
        ensures
            r == pte_flags(self.0),
    {
        self.0 & FLAGS_MASK
    }

    pub fn is_present(&self) -> (r: bool)
        ensures
            r == pte_present(self.0),
    {
        self.0 & PTE_PRESENT != 0
    }
}

/// The bits of an entry built from an address and flags.
proof fn lemma_make_pte_bits(addr: u64, flags: u64)
    by (bit_vector)
    ensures
        ((addr & 0x000f_ffff_ffff_f000u64) | (flags & 0xfffu64)) & 0x000f_ffff_ffff_f000u64 == addr
            & 0x000f_ffff_ffff_f000u64,
        ((addr & 0x000f_ffff_ffff_f000u64) | (flags & 0xfffu64)) & 0xfffu64 == flags & 0xfffu64,
        (((addr & 0x000f_ffff_ffff_f000u64) | (flags & 0xfffu64)) & 1u64 != 0) == (flags & 1u64 != 0),
        (((addr & 0x000f_ffff_ffff_f000u64) | (flags & 0xfffu64)) & 128u64 != 0) == (flags & 128u64 != 0),
{
}

/// A zero entry is neither present nor a large page.
pub(crate) proof fn lemma_zero_entry()
    by (bit_vector)
    ensures
        0u64 & 1u64 == 0,
        0u64 & 128u64 == 0,
{
}

/// A page-aligned physical address below 2^52 is its own address field.
pub(crate) proof fn lemma_aligned_addr(p: u64)
    by (bit_vector)
    requires
        p % 0x1000 == 0,
        p < 0x10_0000_0000_0000u64,
    ensures
        p & 0x000f_ffff_ffff_f000u64 == p,
{
}

/// The flags of a present, writable, user entry.
pub(crate) proof fn lemma_user_flags()
    by (bit_vector)
    ensures
        1u64 | 2u64 | 4u64 == 7u64,
        2u64 | 4u64 | 1u64 == 7u64,
        7u64 & 0xfffu64 == 7u64,
        7u64 & 1u64 != 0,
        7u64 & 128u64 == 0,
{
}

/// Table indices are fields of the address.
proof fn lemma_shift_index(a: u64)
    by (bit_vector)
    ensures
        (a >> 12u64) & 0x1FF == (a / 0x1000) % 512,
        (a >> 21u64) & 0x1FF == (a / 0x20_0000) % 512,
        (a >> 30u64) & 0x1FF == (a / 0x4000_0000) % 512,
        (a >> 39u64) & 0x1FF == (a / 0x80_0000_0000) % 512,
{
}

/// An entry keeps the page-aligned part of its address and the low twelve
/// bits of its flags, and each can be read back from it.
pub proof fn law_pte_fields(addr: u64, flags: u64)
    ensures
        pte_addr(make_pte(addr, flags)) == addr & ADDR_MASK,
        pte_flags(make_pte(addr, flags)) == flags & FLAGS_MASK,
        pte_present(make_pte(addr, flags)) == (flags & PTE_PRESENT != 0),
        pte_huge(make_pte(addr, flags)) == (flags & PTE_HUGE_PAGE != 0),
{
    lemma_make_pte_bits(addr, flags);
}

/// A page of page-table entries and the level of the tree it sits at:
/// 3 for the root, 0 for the tables that map 4 KiB pages.
pub struct PageTable {
    pub level: u8,
    pub entries: Vec<u64>,
}

/// The pages that hold page tables, by kernel virtual address.
pub struct PageTables {
    pub tables: HashMapWithView<u64, PageTable>,
}

/// The index into a level-`level` table that address `va` selects.
pub open spec fn pt_index(va: u64, level: int) -> int {
    if level == 0 {
        (va as int / 0x1000) % 512
    } else if level == 1 {
        (va as int / 0x20_0000) % 512
    } else if level == 2 {
        (va as int / 0x4000_0000) % 512
    } else {
        (va as int / 0x80_0000_0000) % 512
    }
}

pub(crate) fn index_at(va: u64, level: u8) -> (r: usize)
    requires
        level <= 3,
    ensures
        r == pt_index(va, level as int),
        r < 512,
{
    let shift: u64 = 12 + 9 * level as u64;
    let i = (va >> shift) & 0x1FF;
    proof {
        lemma_shift_index(va);
    }
    i as usize
}

/// The kernel virtual address of the table an entry points to.
pub open spec fn child(e: u64) -> u64 {
    (pte_addr(e) + KERNBASE) as u64
}

/// Whether an entry of a level-`level` table points to a lower table (rather
/// than mapping a large page or being empty).
pub open spec fn is_pointer(e: u64, level: int) -> bool {
    pte_present(e) && level >= 1 && !(level == 1 && pte_huge(e))
}

/// The table at level `level` on the walk from `root` for `va`, if the walk
/// gets that far.
pub open spec fn path(pt: Map<u64, PageTable>, root: u64, va: u64, level: int) -> Option<u64>
    decreases 3 - level,
{
    if level >= 3 {
        if pt.contains_key(root) {
            Some(root)
        } else {
            None
        }
    } else if level < 0 {
        None
    } else {
        match path(pt, root, va, level + 1) {
            None => None,
            Some(t) => {
                let e = pt[t].entries@[pt_index(va, level + 1)];
                if is_pointer(e, level + 1) && pt.contains_key(child(e)) {
                    Some(child(e))
                } else {
                    None
                }
            },
        }
    }
}

/// The entry that maps `va` and its level: a large-page entry of the level-1
/// table, or an entry of the level-0 table.
pub open spec fn leaf(pt: Map<u64, PageTable>, root: u64, va: u64) -> Option<(u64, int)> {
    match path(pt, root, va, 1) {
        None => None,
        Some(t1) => {
            let e1 = pt[t1].entries@[pt_index(va, 1)];
            if pte_present(e1) && pte_huge(e1) {
                Some((e1, 1))
            } else {
                match path(pt, root, va, 0) {
                    None => None,
                    Some(t0) => {
                        let e0 = pt[t0].entries@[pt_index(va, 0)];
                        if pte_present(e0) {
                            Some((e0, 0))
                        } else {
                            None
                        }
                    },
                }
            }
        },
    }
}

/// The physical address `va` translates to under the page table at `root`.
pub open spec fn translate(pt: Map<u64, PageTable>, root: u64, va: u64) -> Option<u64> {
    match leaf(pt, root, va) {
        None => None,
        Some((e, level)) => Some(
            (pte_addr(e) + (va as int) % (if level == 1 { PG_SIZE_2M as int } else { PG_SIZE as int })) as u64,
        ),
    }
}

/// Whether a free page can become a page table: a kernel address of the
/// linear map, page-aligned, below `TABLE_PA_LIMIT` physically.
pub open spec fn table_page_ok(a: u64) -> bool {
    &&& a >= KERNBASE
    &&& a - KERNBASE < TABLE_PA_LIMIT
    &&& (a - KERNBASE) % (PG_SIZE as int) == 0
}

impl PageTables {
    pub open spec fn view(&self) -> Map<u64, PageTable> {
        self.tables@
    }

    /// Every table has 512 entries and a level of at most 3; entries that
    /// point to lower tables point to tables of the next level down; the
    /// upper two levels hold no large-page entries.
    pub open spec fn wf(&self) -> bool {
        &&& forall|t: u64| #[trigger] self@.contains_key(t) ==> self@[t].entries@.len() == 512 && self@[t].level <= 3
        &&& forall|t: u64, i: int|
            #![trigger self@[t].entries@[i]]
            self@.contains_key(t) && 0 <= i < 512 && is_pointer(self@[t].entries@[i], self@[t].level as int)
                ==> {
                &&& pte_addr(self@[t].entries@[i]) < TABLE_PA_LIMIT
                &&& self@.contains_key(child(self@[t].entries@[i]))
                &&& self@[child(self@[t].entries@[i])].level == self@[t].level - 1
            }
        &&& forall|t: u64, i: int|
            #![trigger self@[t].entries@[i]]
            self@.contains_key(t) && 0 <= i < 512 && self@[t].level >= 2 ==> !pte_huge(self@[t].entries@[i])
    }

    pub fn new() -> (r: Self)
        ensures
            r@ == Map::<u64, PageTable>::empty(),
            r.wf(),
    {
        PageTables { tables: HashMapWithView::new() }
    }
}

/// The allocator's free pages can all become page tables, and none is one.
pub open spec fn alloc_ok(pt: Map<u64, PageTable>, free: Seq<u64>) -> bool {
    &&& forall|k: int| 0 <= k < free.len() ==> table_page_ok(#[trigger] free[k])
    &&& forall|k: int| 0 <= k < free.len() ==> !pt.contains_key(#[trigger] free[k])
}

/// `pt2` only adds to `pt1`: every table stays, at its level, and every
/// present entry keeps its value.
pub open spec fn extends(pt1: Map<u64, PageTable>, pt2: Map<u64, PageTable>) -> bool {
    &&& forall|t: u64| #[trigger] pt1.contains_key(t) ==> pt2.contains_key(t) && pt2[t].level == pt1[t].level
        && pt2[t].entries@.len() == pt1[t].entries@.len()
    &&& forall|t: u64, i: int|
        #![trigger pt2[t].entries@[i]]
        pt1.contains_key(t) && 0 <= i < pt1[t].entries@.len() && pte_present(pt1[t].entries@[i]) ==> pt2[t].entries@[i]
            == pt1[t].entries@[i]
}

pub(crate) proof fn lemma_extends_trans(a: Map<u64, PageTable>, b: Map<u64, PageTable>, c: Map<u64, PageTable>)
    requires
        extends(a, b),
        extends(b, c),
    ensures
        extends(a, c),
{
    assert forall|t: u64, i: int|
        a.contains_key(t) && 0 <= i < a[t].entries@.len() && pte_present(a[t].entries@[i]) implies #[trigger] c[t].entries@[i]
        == a[t].entries@[i] by {
        assert(b[t].entries@[i] == a[t].entries@[i]);
    }
}

pub(crate) proof fn lemma_extends_refl(a: Map<u64, PageTable>)
    ensures
        extends(a, a),
{
}

pub(crate) proof fn lemma_path_extends(pt1: Map<u64, PageTable>, pt2: Map<u64, PageTable>, root: u64, va: u64, level: int)
    requires
        extends(pt1, pt2),
        path(pt1, root, va, level).is_some(),
        forall|t: u64| #[trigger] pt1.contains_key(t) ==> pt1[t].entries@.len() == 512,
    ensures
        path(pt2, root, va, level) == path(pt1, root, va, level),
    decreases 3 - level,
{
    if level >= 3 {
    } else if level < 0 {
    } else {
        lemma_path_extends(pt1, pt2, root, va, level + 1);
        let t = path(pt1, root, va, level + 1).unwrap();
        let i = pt_index(va, level + 1);
        assert(0 <= i < 512);
        assert(pt2[t].entries@[i] == pt1[t].entries@[i]);
    }
}

/// Adding to page tables never changes an existing translation.
pub proof fn law_extends_keeps_leaf(pt1: Map<u64, PageTable>, pt2: Map<u64, PageTable>, root: u64, va: u64)
    requires
        extends(pt1, pt2),
        leaf(pt1, root, va).is_some(),
        forall|t: u64| #[trigger] pt1.contains_key(t) ==> pt1[t].entries@.len() == 512,
    ensures
        leaf(pt2, root, va) == leaf(pt1, root, va),
        translate(pt2, root, va) == translate(pt1, root, va),
{
    lemma_path_extends(pt1, pt2, root, va, 1);
    let t1 = path(pt1, root, va, 1).unwrap();
    let i1 = pt_index(va, 1);
    assert(pt2[t1].entries@[i1] == pt1[t1].entries@[i1]);
    let e1 = pt1[t1].entries@[i1];
    if pte_present(e1) && pte_huge(e1) {
    } else {
        lemma_path_extends(pt1, pt2, root, va, 0);
        let t0 = path(pt1, root, va, 0).unwrap();
        let i0 = pt_index(va, 0);
        assert(pt2[t0].entries@[i0] == pt1[t0].entries@[i0]);
    }
}


/// The entry `i` of table `t`.
pub(crate) fn read_entry(pt: &PageTables, t: u64, i: usize) -> (r: u64)
    requires
        pt.wf(),
        pt@.contains_key(t),
        i < 512,
    ensures
        r == pt@[t].entries@[i as int],
{
    match pt.tables.get(&t) {
        Some(tbl) => tbl.entries[i],
        None => 0,
    }
}

/// Set entry `i` of table `t`.
pub(crate) fn write_entry(pt: &mut PageTables, t: u64, i: usize, v: u64)
    requires
        old(pt)@.contains_key(t),
        old(pt)@[t].entries@.len() == 512,
        i < 512,
    ensures
        final(pt)@ == old(pt)@.insert(
            t,
            PageTable { level: old(pt)@[t].level, entries: final(pt)@[t].entries },
        ),
        final(pt)@[t].entries@ == old(pt)@[t].entries@.update(i as int, v),
{
    match pt.tables.remove(&t) {
        Some(tbl) => {
            let mut tbl = tbl;
            tbl.entries.set(i, v);
            pt.tables.insert(t, tbl);
        },
        None => {},
    }
}

pub(crate) fn zero_entries() -> (r: Vec<u64>)
    ensures
        r@ == Seq::new(512, |i: int| 0u64),
{
    let mut v: Vec<u64> = Vec::new();
    while v.len() < 512
        invariant
            v.len() <= 512,
            forall|k: int| 0 <= k < v.len() ==> v@[k] == 0u64,
        decreases 512 - v.len(),
    {
        v.push(0);
    }
    assert(v@ =~= Seq::new(512, |i: int| 0u64));
    v
}

/// Whether the large-page entry of the level-1 table on the walk for `va`
/// (if any) is absent: a walk down to level 0 only ever meets tables.
pub open spec fn no_huge_on_path(pt: Map<u64, PageTable>, root: u64, va: u64) -> bool {
    match path(pt, root, va, 1) {
        None => true,
        Some(t1) => !(pte_present(pt[t1].entries@[pt_index(va, 1)]) && pte_huge(
            pt[t1].entries@[pt_index(va, 1)],
        )),
    }
}

pub(crate) proof fn lemma_path_level(pt: Map<u64, PageTable>, root: u64, va: u64, level: int)
    requires
        forall|t: u64| #[trigger] pt.contains_key(t) ==> pt[t].entries@.len() == 512 && pt[t].level <= 3,
        forall|t: u64, i: int|
            #![trigger pt[t].entries@[i]]
            pt.contains_key(t) && 0 <= i < 512 && is_pointer(pt[t].entries@[i], pt[t].level as int) ==> {
                &&& pte_addr(pt[t].entries@[i]) < TABLE_PA_LIMIT
                &&& pt.contains_key(child(pt[t].entries@[i]))
                &&& pt[child(pt[t].entries@[i])].level == pt[t].level - 1
            },
        pt.contains_key(root),
        pt[root].level == 3,
        0 <= level <= 3,
        path(pt, root, va, level).is_some(),
    ensures
        pt.contains_key(path(pt, root, va, level).unwrap()),
        pt[path(pt, root, va, level).unwrap()].level == level,
    decreases 3 - level,
{
    if level < 3 {
        lemma_path_level(pt, root, va, level + 1);
        let t = path(pt, root, va, level + 1).unwrap();
        let i = pt_index(va, level + 1);
        assert(0 <= i < 512);
        assert(pt[t].entries@[i] == pt[t].entries@[i]);
    }
}

pub(crate) proof fn lemma_path_insert_fresh(pt: Map<u64, PageTable>, k: u64, tbl: PageTable, root: u64, va: u64, level: int)
    requires
        forall|t: u64| #[trigger] pt.contains_key(t) ==> pt[t].entries@.len() == 512 && pt[t].level <= 3,
        forall|t2: u64, j: int|
            #![trigger pt[t2].entries@[j]]
            pt.contains_key(t2) && 0 <= j < 512 && is_pointer(pt[t2].entries@[j], pt[t2].level as int) ==> {
                &&& pte_addr(pt[t2].entries@[j]) < TABLE_PA_LIMIT
                &&& pt.contains_key(child(pt[t2].entries@[j]))
                &&& pt[child(pt[t2].entries@[j])].level == pt[t2].level - 1
            },
        !pt.contains_key(k),
        pt.contains_key(root),
        pt[root].level == 3,
    ensures
        path(pt.insert(k, tbl), root, va, level) == path(pt, root, va, level),
    decreases 3 - level,
{
    if level >= 3 {
    } else if level < 0 {
    } else {
        lemma_path_insert_fresh(pt, k, tbl, root, va, level + 1);
        match path(pt, root, va, level + 1) {
            None => {},
            Some(t) => {
                lemma_path_contains(pt, root, va, level + 1);
                if level + 1 <= 3 {
                    lemma_path_level(pt, root, va, level + 1);
                }
                let i = pt_index(va, level + 1);
                assert(0 <= i < 512);
                assert(pt.insert(k, tbl)[t] == pt[t]);
                let e = pt[t].entries@[i];
                if is_pointer(e, level + 1) {
                    assert(pt.contains_key(child(e)));
                }
            },
        }
    }
}

pub(crate) proof fn lemma_path_contains(pt: Map<u64, PageTable>, root: u64, va: u64, level: int)
    requires
        path(pt, root, va, level).is_some(),
    ensures
        pt.contains_key(path(pt, root, va, level).unwrap()),
    decreases 3 - level,
{
    if level < 3 && level >= 0 {
        lemma_path_contains(pt, root, va, level + 1);
    }
}

/// Writing into a table of level `lt` leaves the walk unchanged down to
/// level `lt`.
pub(crate) proof fn lemma_path_write(pt: Map<u64, PageTable>, t: u64, tbl2: PageTable, root: u64, va: u64, level: int)
    requires
        forall|t2: u64| #[trigger] pt.contains_key(t2) ==> pt[t2].entries@.len() == 512 && pt[t2].level <= 3,
        forall|t2: u64, j: int|
            #![trigger pt[t2].entries@[j]]
            pt.contains_key(t2) && 0 <= j < 512 && is_pointer(pt[t2].entries@[j], pt[t2].level as int) ==> {
                &&& pte_addr(pt[t2].entries@[j]) < TABLE_PA_LIMIT
                &&& pt.contains_key(child(pt[t2].entries@[j]))
                &&& pt[child(pt[t2].entries@[j])].level == pt[t2].level - 1
            },
        pt.contains_key(root),
        pt[root].level == 3,
        pt.contains_key(t),
        tbl2.level == pt[t].level,
        0 <= level <= 3,
        level >= pt[t].level,
    ensures
        path(pt.insert(t, tbl2), root, va, level) == path(pt, root, va, level),
    decreases 3 - level,
{
    let pt2 = pt.insert(t, tbl2);
    if level < 3 {
        lemma_path_write(pt, t, tbl2, root, va, level + 1);
        match path(pt, root, va, level + 1) {
            None => {},
            Some(t1) => {
                lemma_path_level(pt, root, va, level + 1);
                assert(t1 != t);
                assert(pt2[t1] == pt[t1]);
                let e = pt[t1].entries@[pt_index(va, level + 1)];
                assert(pt2.contains_key(child(e)) == pt.contains_key(child(e)));
            },
        }
    }
}


pub(crate) proof fn lemma_path_monotone(pt: Map<u64, PageTable>, root: u64, va: u64, lo: int, hi: int)
    requires
        0 <= lo <= hi <= 3,
        path(pt, root, va, lo).is_some(),
    ensures
        path(pt, root, va, hi).is_some(),
    decreases hi - lo,
{
    if lo < hi {
        lemma_path_monotone(pt, root, va, lo + 1, hi);
    }
}

/// Add a zeroed table at `addr`.
pub(crate) fn add_table(pt: &mut PageTables, addr: u64, level: u8)
    ensures
        final(pt)@ == old(pt)@.insert(addr, PageTable { level, entries: final(pt)@[addr].entries }),
        final(pt)@[addr].entries@ == Seq::new(512, |i: int| 0u64),
{
    let entries = zero_entries();
    pt.tables.insert(addr, PageTable { level, entries });
}

/// No two pointer entries point to the same table: the tables form trees.
pub open spec fn tree(pt: Map<u64, PageTable>) -> bool {
    forall|t1: u64, i1: int, t2: u64, i2: int|
        #![trigger pt[t1].entries@[i1], pt[t2].entries@[i2]]
        pt.contains_key(t1) && pt.contains_key(t2) && 0 <= i1 < 512 && 0 <= i2 < 512 && is_pointer(
            pt[t1].entries@[i1],
            pt[t1].level as int,
        ) && is_pointer(pt[t2].entries@[i2], pt[t2].level as int) && child(pt[t1].entries@[i1]) == child(
            pt[t2].entries@[i2],
        ) ==> t1 == t2 && i1 == i2
}

/// `new` grows from `old` only by pointers to new tables: an entry of an
/// existing table that changed became a pointer to a table that did not
/// exist, and the new tables hold nothing but empty entries and such pointers.
pub open spec fn grows(old: Map<u64, PageTable>, new: Map<u64, PageTable>) -> bool {
    &&& extends(old, new)
    &&& forall|t: u64, i: int|
        #![trigger new[t].entries@[i]]
        old.contains_key(t) && 0 <= i < 512 && new[t].entries@[i] != old[t].entries@[i] ==> is_pointer(
            new[t].entries@[i],
            old[t].level as int,
        ) && !old.contains_key(child(new[t].entries@[i]))
    &&& forall|t: u64, i: int|
        #![trigger new[t].entries@[i]]
        new.contains_key(t) && !old.contains_key(t) && 0 <= i < 512 ==> new[t].entries@[i] == 0u64 || (is_pointer(
            new[t].entries@[i],
            new[t].level as int,
        ) && !old.contains_key(child(new[t].entries@[i])))
}

/// Walk the page tables from `pgdir` for `va` down to the table of level
/// `target_level` (0: the table of 4 KiB pages; 1: the table whose entries
/// can map 2 MiB pages; 2 and 3 the tables above, 3 being `pgdir` itself)
/// and return that table and the index of `va`'s entry
/// in it. Missing tables on the way are allocated (zeroed) and linked in,
/// present, writable and user-accessible, when `alloc` is set; otherwise, or
/// when memory runs out, the walk fails.
pub fn walk(
    pt: &mut PageTables,
    allocator: &mut Allocator,
    pgdir: u64,
    va: u64,
    alloc: bool,
    target_level: u8,
) -> (r: Option<(u64, usize)>)
    requires
        old(pt).wf(),
        old(allocator).wf(),
        alloc_ok(old(pt)@, old(allocator)@),
        old(pt)@.contains_key(pgdir),
        old(pt)@[pgdir].level == 3,
        target_level <= 3,
        target_level == 0 ==> no_huge_on_path(old(pt)@, pgdir, va),
        tree(old(pt)@),
    ensures
        final(pt).wf(),
        tree(final(pt)@),
        grows(old(pt)@, final(pt)@),
        final(allocator).wf(),
        alloc_ok(final(pt)@, final(allocator)@),
        extends(old(pt)@, final(pt)@),
        final(allocator)@.len() <= old(allocator)@.len(),
        final(allocator)@ == old(allocator)@.take(final(allocator)@.len() as int),
        final(pt)@.contains_key(pgdir),
        final(pt)@[pgdir].level == 3,
        !alloc ==> final(pt)@ == old(pt)@ && final(allocator)@ == old(allocator)@,
        path(old(pt)@, pgdir, va, target_level as int).is_some() ==> final(pt)@ == old(pt)@ && final(allocator)@ == old(allocator)@
            && r == Some((path(old(pt)@, pgdir, va, target_level as int).unwrap(), pt_index(va, target_level as int) as usize)),
        r matches Some((t, i)) ==> path(final(pt)@, pgdir, va, target_level as int) == Some(t) && i == pt_index(
            va,
            target_level as int,
        ) && final(pt)@.contains_key(t) && final(pt)@[t].level == target_level,
        r is None ==> (!alloc && path(old(pt)@, pgdir, va, target_level as int).is_none()) || (alloc
            && final(allocator)@.len() == 0),
        target_level == 0 ==> no_huge_on_path(final(pt)@, pgdir, va),
        forall|t: u64, i: int|
            #![trigger final(pt)@[t].entries@[i]]
            final(pt)@.contains_key(t) && 0 <= i < 512 && final(pt)@[t].entries@[i] != base_entry(old(pt)@, t, i)
                ==> path(final(pt)@, pgdir, va, final(pt)@[t].level as int) == Some(t) && pt_index(
                va,
                final(pt)@[t].level as int,
            ) == i && final(pt)@[t].level > target_level && final(pt)@[t].entries@[i] == make_pte(
                pte_addr(final(pt)@[t].entries@[i]),
                PTE_PRESENT | PTE_WRITABLE | PTE_USER,
            ),
        tables_from(old(pt)@, old(allocator)@, final(pt)@),
        old(allocator)@.len() - final(allocator)@.len() <= 3 - target_level,
        forall|k: int|
            final(allocator)@.len() <= k < old(allocator)@.len() ==> #[trigger] final(pt)@.contains_key(
                old(allocator)@[k],
            ),
{
    let ghost pt0 = pt@;
    let ghost al0 = allocator@;
    let mut table = pgdir;
    let mut level: u8 = 3;
    let ghost mut fresh = false;
    while level > target_level
        invariant
            target_level <= level <= 3,
            pt.wf(),
            allocator.wf(),
            alloc_ok(pt@, allocator@),
            extends(pt0, pt@),
            tree(pt@),
            grows(pt0, pt@),
            allocator@.len() <= al0.len(),
            allocator@ == al0.take(allocator@.len() as int),
            al0.len() - allocator@.len() <= 3 - level,
            forall|k: int| allocator@.len() <= k < al0.len() ==> #[trigger] pt@.contains_key(al0[k]),
            tables_from(pt0, al0, pt@),
            pt@.contains_key(pgdir),
            pt@[pgdir].level == 3,
            pt0.contains_key(pgdir),
            pt0[pgdir].level == 3,
            pt0 == old(pt)@,
            al0 == old(allocator)@,
            forall|t: u64| #[trigger] pt0.contains_key(t) ==> pt0[t].entries@.len() == 512 && pt0[t].level <= 3,
            forall|t2: u64, j: int|
                #![trigger pt0[t2].entries@[j]]
                pt0.contains_key(t2) && 0 <= j < 512 && is_pointer(pt0[t2].entries@[j], pt0[t2].level as int) ==> {
                    &&& pte_addr(pt0[t2].entries@[j]) < TABLE_PA_LIMIT
                    &&& pt0.contains_key(child(pt0[t2].entries@[j]))
                    &&& pt0[child(pt0[t2].entries@[j])].level == pt0[t2].level - 1
                },
            path(pt@, pgdir, va, level as int) == Some(table),
            pt@.contains_key(table),
            pt@[table].level == level,
            fresh ==> forall|j: int| 0 <= j < 512 ==> #[trigger] pt@[table].entries@[j] == 0u64,
            !fresh ==> path(pt0, pgdir, va, level as int) == Some(table),
            forall|t: u64| #[trigger] pt0.contains_key(t) && pt0[t].level <= level ==> pt@[t] == pt0[t],
            !alloc ==> pt@ == pt0 && allocator@ == al0 && !fresh,
            path(pt0, pgdir, va, target_level as int).is_some() ==> pt@ == pt0 && allocator@ == al0 && !fresh,
            target_level == 0 ==> no_huge_on_path(pt0, pgdir, va),
            target_level == 0 && level == 0 ==> no_huge_on_path(pt@, pgdir, va),
            forall|t: u64, i: int|
                #![trigger pt@[t].entries@[i]]
                pt@.contains_key(t) && 0 <= i < 512 && pt@[t].entries@[i] != base_entry(pt0, t, i) ==> path(
                    pt@,
                    pgdir,
                    va,
                    pt@[t].level as int,
                ) == Some(t) && pt_index(va, pt@[t].level as int) == i && pt@[t].level > target_level
                    && pt@[t].entries@[i] == make_pte(pte_addr(pt@[t].entries@[i]), PTE_PRESENT | PTE_WRITABLE | PTE_USER),
        decreases level,
    {
        let idx = index_at(va, level);
        let e = read_entry(pt, table, idx);
        proof {
            lemma_path_level(pt@, pgdir, va, level as int);
        }
        if e & PTE_PRESENT != 0 {
            proof {
                if fresh {
                    assert(pt@[table].entries@[idx as int] == 0u64);
                    lemma_zero_entry();
                    assert(false);
                }
                if level == 1 {
                    if fresh {
                        assert(pt@[table].entries@[idx as int] == 0u64);
                        lemma_zero_entry();
                    } else {
                        assert(pt@[table] == pt0[table]);
                    }
                }
                assert(is_pointer(e, level as int));
                assert(pt@[table].entries@[idx as int] == e);
            }
            let pte = PageTableEntry(e);
            let next = pte.addr() + KERNBASE;
            proof {
                assert(path(pt@, pgdir, va, level - 1) == Some(next));
                if !fresh {
                    assert(pt@[table] == pt0[table]);
                    assert(pt0[table].entries@[idx as int] == e);
                    assert(path(pt0, pgdir, va, level - 1) == Some(next));
                }
                if target_level == 0 && level == 1 {
                    assert(no_huge_on_path(pt@, pgdir, va));
                }
            }
            table = next;
            level = level - 1;
        } else {
            if !alloc {
                proof {
                    assert(path(pt0, pgdir, va, level - 1).is_none());
                    if path(pt0, pgdir, va, target_level as int).is_some() {
                        lemma_path_monotone(pt0, pgdir, va, target_level as int, level - 1);
                    }
                }
                return None;
            }
            proof {
                if path(pt0, pgdir, va, target_level as int).is_some() {
                    lemma_path_monotone(pt0, pgdir, va, target_level as int, level - 1);
                    assert(pt@[table] == pt0[table]);
                }
            }
            let new_table = allocator.kalloc();
            if new_table == 0 {
                return None;
            }
            let ghost pt1 = pt@;
            proof {
                assert(allocator@ == al0.take(allocator@.len() as int)) by {
                    assert(al0.take(allocator@.len() as int) =~= old_take(al0, allocator@.len() as int + 1).drop_last());
                }
                assert(table_page_ok(new_table));
                assert(!pt1.contains_key(new_table));
                assert(al0[allocator@.len() as int] == new_table);
                assert(al0.contains(new_table));
            }
            add_table(pt, new_table, level - 1);
            let ghost pt2 = pt@;
            let pa = new_table - KERNBASE;
            let v = PageTableEntry::new(pa, PTE_PRESENT | PTE_WRITABLE | PTE_USER).0;
            proof {
                lemma_user_flags();
                law_pte_fields(pa, 7);
                lemma_aligned_addr(pa);
                assert(pte_addr(v) == pa);
                assert(child(v) == new_table);
                assert(is_pointer(v, level as int));
                assert(!pte_huge(v));
                lemma_path_insert_fresh(pt1, new_table, pt2[new_table], pgdir, va, level as int);
            }
            write_entry(pt, table, idx, v);
            proof {
                let pt3 = pt@;
                assert(pt2.contains_key(table));
                assert forall|t2: u64, j: int|
                    pt2.contains_key(t2) && 0 <= j < 512 && is_pointer(#[trigger] pt2[t2].entries@[j], pt2[t2].level as int) implies {
                        &&& pte_addr(pt2[t2].entries@[j]) < TABLE_PA_LIMIT
                        &&& pt2.contains_key(child(pt2[t2].entries@[j]))
                        &&& pt2[child(pt2[t2].entries@[j])].level == pt2[t2].level - 1
                    } by {
                    if t2 == new_table {
                        assert(pt2[t2].entries@[j] == 0u64);
                        lemma_zero_entry();
                    } else {
                        assert(pt2[t2] == pt1[t2]);
                        assert(pt1.contains_key(child(pt1[t2].entries@[j])));
                        assert(child(pt1[t2].entries@[j]) != new_table);
                    }
                }
                assert forall|t: u64| #[trigger] pt2.contains_key(t) implies pt2[t].entries@.len() == 512 && pt2[t].level <= 3 by {
                    if t != new_table {
                        assert(pt1.contains_key(t));
                    }
                }
                lemma_path_write(pt2, table, pt3[table], pgdir, va, level as int);
                assert(pt3 == pt2.insert(table, pt3[table]));
                assert(pt3[table].entries@[idx as int] == v);
                assert(path(pt3, pgdir, va, level - 1) == Some(new_table));
                // well-formedness
                assert forall|t: u64| #[trigger] pt3.contains_key(t) implies pt3[t].entries@.len() == 512 && pt3[t].level <= 3 by {
                    if t == table {
                    } else if t == new_table {
                    } else {
                        assert(pt1.contains_key(t));
                    }
                }
                assert forall|t2: u64, j: int|
                    pt3.contains_key(t2) && 0 <= j < 512 && is_pointer(#[trigger] pt3[t2].entries@[j], pt3[t2].level as int) implies {
                        &&& pte_addr(pt3[t2].entries@[j]) < TABLE_PA_LIMIT
                        &&& pt3.contains_key(child(pt3[t2].entries@[j]))
                        &&& pt3[child(pt3[t2].entries@[j])].level == pt3[t2].level - 1
                    } by {
                    if t2 == table {
                        if j == idx {
                        } else {
                            assert(pt3[t2].entries@[j] == pt1[t2].entries@[j]);
                            assert(pt1.contains_key(child(pt1[t2].entries@[j])));
                            assert(child(pt1[t2].entries@[j]) != new_table);
                        }
                    } else if t2 == new_table {
                        assert(pt3[t2].entries@[j] == 0u64);
                        lemma_zero_entry();
                    } else {
                        assert(pt3[t2] == pt1[t2]);
                        assert(pt1.contains_key(child(pt1[t2].entries@[j])));
                        assert(child(pt1[t2].entries@[j]) != new_table);
                    }
                }
                assert forall|t2: u64, j: int|
                    pt3.contains_key(t2) && 0 <= j < 512 && pt3[t2].level >= 2 implies !pte_huge(#[trigger] pt3[t2].entries@[j]) by {
                    if t2 == table {
                        if j != idx {
                            assert(pt3[t2].entries@[j] == pt1[t2].entries@[j]);
                        }
                    } else if t2 == new_table {
                        assert(pt3[t2].entries@[j] == 0u64);
                        lemma_zero_entry();
                    } else {
                        assert(pt3[t2] == pt1[t2]);
                    }
                }
                assert(pt.wf());
                // extension
                assert forall|t: u64| #[trigger] pt0.contains_key(t) implies pt3.contains_key(t) && pt3[t].level == pt0[t].level
                    && pt3[t].entries@.len() == pt0[t].entries@.len() by {
                    assert(pt1.contains_key(t));
                }
                assert forall|t: u64, i: int|
                    pt0.contains_key(t) && 0 <= i < pt0[t].entries@.len() && pte_present(pt0[t].entries@[i]) implies #[trigger] pt3[t].entries@[i]
                    == pt0[t].entries@[i] by {
                    assert(pt1[t].entries@[i] == pt0[t].entries@[i]);
                    if t == table && i == idx {
                        assert(pt1[table].entries@[idx as int] == e);
                        assert(false);
                    }
                }
                assert(extends(pt0, pt3));
                assert forall|t: u64, i: int|
                    pt0.contains_key(t) && 0 <= i < 512 && #[trigger] pt3[t].entries@[i] != pt0[t].entries@[i] implies is_pointer(
                        pt3[t].entries@[i],
                        pt0[t].level as int,
                    ) && !pt0.contains_key(child(pt3[t].entries@[i])) by {
                    if t == table && i == idx {
                        assert(!pt1.contains_key(new_table));
                    } else {
                        assert(pt3[t].entries@[i] == pt1[t].entries@[i]);
                    }
                }
                assert forall|t: u64, i: int|
                    pt3.contains_key(t) && !pt0.contains_key(t) && 0 <= i < 512 implies #[trigger] pt3[t].entries@[i] == 0u64 || (is_pointer(
                        pt3[t].entries@[i],
                        pt3[t].level as int,
                    ) && !pt0.contains_key(child(pt3[t].entries@[i]))) by {
                    if t == new_table {
                    } else if t == table && i == idx {
                        assert(!pt1.contains_key(new_table));
                    } else {
                        assert(pt1.contains_key(t));
                        assert(pt3[t].entries@[i] == pt1[t].entries@[i]);
                    }
                }
                assert(grows(pt0, pt3));
                assert(extends(pt1, pt3)) by {
                    assert forall|t: u64| #[trigger] pt1.contains_key(t) implies pt3.contains_key(t) && pt3[t].level
                        == pt1[t].level && pt3[t].entries@.len() == pt1[t].entries@.len() by {
                    }
                    assert forall|t: u64, i: int|
                        pt1.contains_key(t) && 0 <= i < pt1[t].entries@.len() && pte_present(
                            pt1[t].entries@[i],
                        ) implies #[trigger] pt3[t].entries@[i] == pt1[t].entries@[i] by {
                        if t == table && i == idx {
                            assert(pt1[table].entries@[idx as int] == e);
                        }
                    }
                }
                assert(!pt0.contains_key(new_table)) by {
                    if pt0.contains_key(new_table) {
                        assert(pt1.contains_key(new_table));
                    }
                }
                assert forall|t: u64, i: int|
                    pt3.contains_key(t) && 0 <= i < 512 && #[trigger] pt3[t].entries@[i] != base_entry(pt0, t, i)
                        implies path(pt3, pgdir, va, pt3[t].level as int) == Some(t) && pt_index(
                        va,
                        pt3[t].level as int,
                    ) == i && pt3[t].level > target_level by {
                    if t == table && i == idx {
                    } else if t == new_table {
                        assert(pt3[t].entries@[i] == 0u64);
                    } else {
                        assert(pt3[t].entries@[i] == pt1[t].entries@[i]);
                        assert(pt1.contains_key(t));
                        lemma_path_extends(pt1, pt3, pgdir, va, pt1[t].level as int);
                    }
                }
                assert forall|t1: u64, i1: int, t2: u64, i2: int|
                    pt3.contains_key(t1) && pt3.contains_key(t2) && 0 <= i1 < 512 && 0 <= i2 < 512 && is_pointer(
                        #[trigger] pt3[t1].entries@[i1],
                        pt3[t1].level as int,
                    ) && is_pointer(#[trigger] pt3[t2].entries@[i2], pt3[t2].level as int) && child(pt3[t1].entries@[i1]) == child(
                        pt3[t2].entries@[i2],
                    ) implies t1 == t2 && i1 == i2 by {
                    let new1 = t1 == table && i1 == idx;
                    let new2 = t2 == table && i2 == idx;
                    if t1 == new_table {
                        assert(pt3[t1].entries@[i1] == 0u64);
                        lemma_zero_entry();
                    } else if t2 == new_table {
                        assert(pt3[t2].entries@[i2] == 0u64);
                        lemma_zero_entry();
                    } else if new1 && !new2 {
                        assert(pt3[t2].entries@[i2] == pt1[t2].entries@[i2]);
                        assert(pt1.contains_key(child(pt1[t2].entries@[i2])));
                    } else if new2 && !new1 {
                        assert(pt3[t1].entries@[i1] == pt1[t1].entries@[i1]);
                        assert(pt1.contains_key(child(pt1[t1].entries@[i1])));
                    } else if !new1 && !new2 {
                        assert(pt3[t1].entries@[i1] == pt1[t1].entries@[i1]);
                        assert(pt3[t2].entries@[i2] == pt1[t2].entries@[i2]);
                    }
                }
                assert(tree(pt3));
                assert forall|k: int| 0 <= k < allocator@.len() implies !pt3.contains_key(#[trigger] allocator@[k]) by {
                    assert(al0[k] == allocator@[k]);
                    assert(old_take(al0, allocator@.len() as int + 1)[allocator@.len() as int] == new_table);
                    assert(allocator@[k] != new_table);
                }
                assert forall|t: u64| #[trigger] pt0.contains_key(t) && pt0[t].level <= level - 1 implies pt3[t] == pt0[t] by {
                    assert(t != table);
                    assert(t != new_table);
                }
                assert forall|j: int| 0 <= j < 512 implies #[trigger] pt3[new_table].entries@[j] == 0u64 by {
                    assert(new_table != table);
                }
                if target_level == 0 && level == 1 {
                    assert(no_huge_on_path(pt3, pgdir, va));
                }
            }
            table = new_table;
            level = level - 1;
            proof {
                fresh = true;
            }
        }
    }
    let idx = index_at(va, level);
    Some((table, idx))
}

spec fn old_take(s: Seq<u64>, n: int) -> Seq<u64> {
    s.take(n)
}


/// Every table of `pt` was a table of `pt0` or a free page of `free0`.
pub open spec fn tables_from(pt0: Map<u64, PageTable>, free0: Seq<u64>, pt: Map<u64, PageTable>) -> bool {
    forall|t: u64| #[trigger] pt.contains_key(t) ==> pt0.contains_key(t) || free0.contains(t)
}

/// The `wf` facts that proofs about walks need, over a plain map.
pub open spec fn tables_ok(pt: Map<u64, PageTable>) -> bool {
    &&& forall|t: u64| #[trigger] pt.contains_key(t) ==> pt[t].entries@.len() == 512 && pt[t].level <= 3
    &&& forall|t2: u64, j: int|
        #![trigger pt[t2].entries@[j]]
        pt.contains_key(t2) && 0 <= j < 512 && is_pointer(pt[t2].entries@[j], pt[t2].level as int) ==> {
            &&& pte_addr(pt[t2].entries@[j]) < TABLE_PA_LIMIT
            &&& pt.contains_key(child(pt[t2].entries@[j]))
            &&& pt[child(pt[t2].entries@[j])].level == pt[t2].level - 1
        }
}

/// The value an entry had before: its old value in an old table, 0 in a new one.
pub open spec fn base_entry(old: Map<u64, PageTable>, t: u64, i: int) -> u64 {
    if old.contains_key(t) {
        old[t].entries@[i]
    } else {
        0u64
    }
}

/// `new` differs from `old` only by pointers to tables that `old` lacks and
/// by entries that are not pointers.
pub open spec fn grows_leafy(old: Map<u64, PageTable>, new: Map<u64, PageTable>) -> bool {
    &&& extends(old, new)
    &&& forall|t: u64, i: int|
        #![trigger new[t].entries@[i]]
        new.contains_key(t) && 0 <= i < 512 && new[t].entries@[i] != base_entry(old, t, i)
            && is_pointer(new[t].entries@[i], new[t].level as int) ==> !old.contains_key(child(new[t].entries@[i]))
}

pub(crate) proof fn lemma_grows_leafy(old: Map<u64, PageTable>, new: Map<u64, PageTable>)
    requires
        grows(old, new),
        tables_ok(old),
    ensures
        grows_leafy(old, new),
{
    assert forall|t: u64, i: int|
        new.contains_key(t) && 0 <= i < 512 && #[trigger] new[t].entries@[i] != base_entry(old, t, i)
            && is_pointer(new[t].entries@[i], new[t].level as int) implies !old.contains_key(child(new[t].entries@[i])) by {
        if old.contains_key(t) {
        } else {
            lemma_zero_entry();
        }
    }
}

/// A table that existed before and is on a walk now was on the same walk before.
pub(crate) proof fn lemma_grows_path(old: Map<u64, PageTable>, new: Map<u64, PageTable>, root: u64, a: u64, level: int)
    requires
        grows_leafy(old, new),
        tables_ok(old),
        tables_ok(new),
        old.contains_key(root),
        old[root].level == 3,
        0 <= level <= 3,
        path(new, root, a, level).is_some(),
        old.contains_key(path(new, root, a, level).unwrap()),
    ensures
        path(old, root, a, level) == path(new, root, a, level),
    decreases 3 - level,
{
    if level < 3 {
        let tp = path(new, root, a, level + 1).unwrap();
        let i = pt_index(a, level + 1);
        let e = new[tp].entries@[i];
        lemma_path_contains(new, root, a, level + 1);
        lemma_path_level(new, root, a, level + 1);
        assert(0 <= i < 512);
        assert(is_pointer(e, new[tp].level as int));
        if !old.contains_key(tp) {
            if e != base_entry(old, tp, i) {
                assert(!old.contains_key(child(e)));
            } else {
                lemma_zero_entry();
            }
            assert(false);
        }
        lemma_grows_path(old, new, root, a, level + 1);
        if e != old[tp].entries@[i] {
            assert(new[tp].level == old[tp].level);
            assert(!old.contains_key(child(e)));
            assert(false);
        }
    }
}

/// In a tree, two addresses on the same table at the same index agree on
/// the walk above it.
pub(crate) proof fn lemma_tree_up(pt: Map<u64, PageTable>, root: u64, a: u64, b: u64, level: int)
    requires
        tables_ok(pt),
        tree(pt),
        pt.contains_key(root),
        pt[root].level == 3,
        0 <= level < 3,
        path(pt, root, a, level).is_some(),
        path(pt, root, a, level) == path(pt, root, b, level),
    ensures
        path(pt, root, a, level + 1) == path(pt, root, b, level + 1),
        pt_index(a, level + 1) == pt_index(b, level + 1),
{
    let ta = path(pt, root, a, level + 1).unwrap();
    let tb = path(pt, root, b, level + 1).unwrap();
    let ia = pt_index(a, level + 1);
    let ib = pt_index(b, level + 1);
    lemma_path_contains(pt, root, a, level + 1);
    lemma_path_contains(pt, root, b, level + 1);
    assert(0 <= ia < 512 && 0 <= ib < 512);
    lemma_path_level(pt, root, a, level + 1);
    lemma_path_level(pt, root, b, level + 1);
    assert(pt[ta].entries@[ia] == pt[ta].entries@[ia]);
    assert(pt[tb].entries@[ib] == pt[tb].entries@[ib]);
}

/// In a tree, two addresses whose walks meet at a table of level `level`
/// agree on every index above.
pub(crate) proof fn lemma_tree_indices(pt: Map<u64, PageTable>, root: u64, a: u64, b: u64, level: int)
    requires
        tables_ok(pt),
        tree(pt),
        pt.contains_key(root),
        pt[root].level == 3,
        0 <= level <= 3,
        path(pt, root, a, level).is_some(),
        path(pt, root, a, level) == path(pt, root, b, level),
    ensures
        forall|l: int| level < l <= 3 ==> #[trigger] pt_index(a, l) == pt_index(b, l),
    decreases 3 - level,
{
    if level < 3 {
        lemma_tree_up(pt, root, a, b, level);
        lemma_path_monotone(pt, root, a, level, level + 1);
        lemma_tree_indices(pt, root, a, b, level + 1);
    }
}

/// Addresses that agree on every index above `level` take the same walk down
/// to `level`.
pub(crate) proof fn lemma_same_indices_path(pt: Map<u64, PageTable>, root: u64, a: u64, b: u64, level: int)
    requires
        0 <= level <= 3,
        forall|l: int| level < l <= 3 ==> #[trigger] pt_index(a, l) == pt_index(b, l),
    ensures
        path(pt, root, a, level) == path(pt, root, b, level),
    decreases 3 - level,
{
    if level < 3 {
        lemma_same_indices_path(pt, root, a, b, level + 1);
        assert(pt_index(a, level + 1) == pt_index(b, level + 1));
    }
}

pub(crate) proof fn lemma_index_bits(a: u64)
    ensures
        pt_index(a, 0) == (a >> 12u64) & 0x1FF,
        pt_index(a, 1) == (a >> 21u64) & 0x1FF,
        pt_index(a, 2) == (a >> 30u64) & 0x1FF,
        pt_index(a, 3) == (a >> 39u64) & 0x1FF,
{
    lemma_shift_index(a);
}

/// Two addresses less than 2^47 apart whose indices agree from level `level`
/// up lie in the same page of that level.
pub(crate) proof fn lemma_span(a: u64, b: u64, level: int)
    requires
        0 <= level <= 1,
        a <= b,
        b - a < 0x8000_0000_0000,
        forall|l: int| level <= l <= 3 ==> #[trigger] pt_index(a, l) == pt_index(b, l),
    ensures
        level == 0 ==> b - a < 0x1000 && a / 0x1000 == b / 0x1000,
        level == 1 ==> b - a < 0x20_0000 && a / 0x20_0000 == b / 0x20_0000,
{
    lemma_index_bits(a);
    lemma_index_bits(b);
    assert(pt_index(a, 1) == pt_index(b, 1));
    assert(pt_index(a, 2) == pt_index(b, 2));
    assert(pt_index(a, 3) == pt_index(b, 3));
    if level == 0 {
        assert(pt_index(a, 0) == pt_index(b, 0));
        assert(b - a < 0x1000 && a / 0x1000 == b / 0x1000) by (bit_vector)
            requires
                a <= b,
                b - a < 0x8000_0000_0000u64,
                (a >> 12u64) & 0x1FF == (b >> 12u64) & 0x1FF,
                (a >> 21u64) & 0x1FF == (b >> 21u64) & 0x1FF,
                (a >> 30u64) & 0x1FF == (b >> 30u64) & 0x1FF,
                (a >> 39u64) & 0x1FF == (b >> 39u64) & 0x1FF,
        ;
    } else {
        assert(b - a < 0x20_0000 && a / 0x20_0000 == b / 0x20_0000) by (bit_vector)
            requires
                a <= b,
                b - a < 0x8000_0000_0000u64,
                (a >> 21u64) & 0x1FF == (b >> 21u64) & 0x1FF,
                (a >> 30u64) & 0x1FF == (b >> 30u64) & 0x1FF,
                (a >> 39u64) & 0x1FF == (b >> 39u64) & 0x1FF,
        ;
    }
}

/// Addresses in the same 2 MiB page agree on the indices of levels 1 to 3.
pub(crate) proof fn lemma_same_2m(a: u64, b: u64)
    requires
        a / 0x20_0000 == b / 0x20_0000,
    ensures
        forall|l: int| 1 <= l <= 3 ==> #[trigger] pt_index(a, l) == pt_index(b, l),
{
    assert((a as int / 0x4000_0000) == (a as int / 0x20_0000) / 512);
    assert((b as int / 0x4000_0000) == (b as int / 0x20_0000) / 512);
    assert((a as int / 0x80_0000_0000) == (a as int / 0x20_0000) / 0x4_0000);
    assert((b as int / 0x80_0000_0000) == (b as int / 0x20_0000) / 0x4_0000);
}

}
