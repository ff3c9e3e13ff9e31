use vstd::prelude::*;
use crate::allocator::Allocator;
use crate::mapping::{
    chunk_level, huge_at, lemma_vpn_vpn2, map_first, map_last, map_pages, mapped_entry, slot_taken, vpn, vpn2,
};
use crate::util::{DEVBASE, DEVSPACE, KERNBASE, PG_SIZE};
use crate::vm::{
    add_table, alloc_ok, extends, grows_leafy, is_pointer, law_pte_fields, leaf, lemma_extends_refl,
    lemma_extends_trans, lemma_path_monotone, make_pte, no_huge_on_path, path, pt_index, pte_addr, pte_flags,
    pte_huge, pte_present, tables_ok, translate, tree, PageTable, PageTables, ADDR_MASK, FLAGS_MASK, PG_SIZE_2M,
    PTE_CACHE_DISABLE, PTE_HUGE_PAGE, PTE_PRESENT, PTE_WRITABLE, PTE_WRITE_THROUGH,
};

verus! {

/// Most pages the tables of the high mappings take from the allocator.
pub const HIGHMEM_FRAMES: u64 = 4;
/// Most pages `kvm_create` takes from the allocator: the root, the tables of
/// the low identity map and those of the high mappings.
pub const KVM_FRAMES: u64 = 7;
/// Most pages `uvm_create` takes from the allocator: the root and the tables
/// of the high mappings.
pub const UVM_FRAMES: u64 = 5;

/// Size of the linear maps of physical memory.
pub const LINEAR_MAP_SIZE: u64 = 0x4000_0000;
/// Size of the device window.
pub const DEV_MAP_SIZE: u64 = 0x2000_0000;
/// Permissions of the device window: writable, not cached.
pub const DEV_PERM: u64 = PTE_WRITABLE | PTE_WRITE_THROUGH | PTE_CACHE_DISABLE;

/// A page mapped as `map_pages` promises translates to the physical address
/// as far from `pa` as the address lies from `start`, and carries the
/// permissions asked for, with the present bit (and the large-page bit for a
/// 2 MiB page).
pub proof fn law_mapped_translates(pt: Map<u64, PageTable>, root: u64, start: int, end: int, pa: int, perm: u64, a: u64)
    requires
        leaf(pt, root, a) == Some(mapped_entry(start, end, pa, perm, a as int)),
        start % (PG_SIZE as int) == 0,
        start <= a < end + PG_SIZE,
        0 <= pa,
        pa % (PG_SIZE as int) == 0,
        pa + (end - start) + PG_SIZE <= 0x10_0000_0000_0000,
    ensures
        translate(pt, root, a) == Some((pa + a - start) as u64),
        pte_flags(leaf(pt, root, a).unwrap().0) == (if huge_at(start, end, pa, a as int) {
            perm | PTE_PRESENT | PTE_HUGE_PAGE
        } else {
            perm | PTE_PRESENT
        }) & FLAGS_MASK,
{
    if huge_at(start, end, pa, a as int) {
        let b = a - a % 0x20_0000;
        let phys = (pa + b - start) as u64;
        let flags = perm | PTE_PRESENT | PTE_HUGE_PAGE;
        law_pte_fields(phys, flags);
        assert(phys % 0x1000 == 0);
        assert(phys < 0x10_0000_0000_0000);
        crate::vm::lemma_aligned_addr(phys);
    } else {
        let b = a - a % 0x1000;
        let phys = (pa + b - start) as u64;
        let flags = perm | PTE_PRESENT;
        law_pte_fields(phys, flags);
        assert(phys % 0x1000 == 0);
        crate::vm::lemma_aligned_addr(phys);
    }
}

/// When a range and its physical memory are 2 MiB-aligned and the range is
/// a whole number of 2 MiB blocks, every address of it is mapped with a
/// 2 MiB page.
proof fn lemma_all_huge(start: int, len: int, pa: int)
    requires
        start % (PG_SIZE_2M as int) == 0,
        len % (PG_SIZE_2M as int) == 0,
        len > 0,
        pa % (PG_SIZE_2M as int) == 0,
        0 <= start,
        0 <= pa,
    ensures
        forall|a: int| start <= a < start + len ==> #[trigger] huge_at(start, start + len - PG_SIZE, pa, a),
{
    assert forall|a: int| start <= a < start + len implies #[trigger] huge_at(start, start + len - PG_SIZE, pa, a) by {
        let q = a / 0x20_0000;
        assert(a - a % 0x20_0000 == q * 0x20_0000);
        assert(start / 0x20_0000 <= q);
        assert(q < (start + len) / 0x20_0000);
        assert((pa + q * 0x20_0000 - start) % 0x20_0000 == 0);
    }
}

/// A page table whose root entries are all empty maps nothing.
proof fn lemma_fresh_root(pt: Map<u64, PageTable>, root: u64, a: u64)
    requires
        pt.contains_key(root),
        pt[root].entries@ == Seq::new(512, |i: int| 0u64),
    ensures
        leaf(pt, root, a).is_none(),
        forall|l: int| 0 <= l <= 1 ==> !#[trigger] slot_taken(pt, root, a, l),
        no_huge_on_path(pt, root, a),
{
    let i = pt_index(a, 3);
    assert(0 <= i < 512);
    assert(pt[root].entries@[i] == 0u64);
    crate::vm::lemma_zero_entry();
    assert(path(pt, root, a, 3) == Some(root));
    assert(!is_pointer(0u64, 3));
    assert(path(pt, root, a, 2).is_none());
    if path(pt, root, a, 1).is_some() {
        lemma_path_monotone(pt, root, a, 1, 2);
    }
    if path(pt, root, a, 0).is_some() {
        lemma_path_monotone(pt, root, a, 0, 2);
    }
}

/// Take a zeroed page from the allocator as the root of a new page table.
fn alloc_root(pt: &mut PageTables, allocator: &mut Allocator) -> (r: u64)
    requires
        old(pt).wf(),
        tree(old(pt)@),
        old(allocator).wf(),
        alloc_ok(old(pt)@, old(allocator)@),
    ensures
        final(pt).wf(),
        tree(final(pt)@),
        final(allocator).wf(),
        alloc_ok(final(pt)@, final(allocator)@),
        grows_leafy(old(pt)@, final(pt)@),
        final(allocator)@.len() <= old(allocator)@.len(),
        final(allocator)@ == old(allocator)@.take(final(allocator)@.len() as int),
        r == 0 <==> old(allocator)@.len() == 0,
        r == 0 ==> final(pt)@ == old(pt)@ && final(allocator)@ == old(allocator)@,
        r != 0 ==> {
            &&& r == old(allocator)@.last()
            &&& !old(pt)@.contains_key(r)
            &&& final(pt)@ == old(pt)@.insert(r, final(pt)@[r])
            &&& final(pt)@[r].level == 3
            &&& final(pt)@[r].entries@ == Seq::new(512, |i: int| 0u64)
            &&& final(allocator)@ == old(allocator)@.drop_last()
        },
{
    let ghost pt0 = pt@;
    let root = allocator.kalloc();
    if root == 0 {
        proof {
            lemma_extends_refl(pt0);
            assert(allocator@ =~= allocator@.take(allocator@.len() as int));
        }
        return 0;
    }
    proof {
        assert(old(allocator)@[old(allocator)@.len() - 1] == root);
    }
    add_table(pt, root, 3);
    proof {
        let pt2 = pt@;
        crate::vm::lemma_zero_entry();
        crate::vm::lemma_zero_entry();
        assert forall|t: u64| #[trigger] pt2.contains_key(t) implies pt2[t].entries@.len() == 512 && pt2[t].level <= 3 by {
            if t != root {
                assert(pt0.contains_key(t));
            }
        }
        assert forall|t2: u64, j: int|
            pt2.contains_key(t2) && 0 <= j < 512 && is_pointer(#[trigger] pt2[t2].entries@[j], pt2[t2].level as int) implies {
                &&& pte_addr(pt2[t2].entries@[j]) < crate::vm::TABLE_PA_LIMIT
                &&& pt2.contains_key(crate::vm::child(pt2[t2].entries@[j]))
                &&& pt2[crate::vm::child(pt2[t2].entries@[j])].level == pt2[t2].level - 1
            } by {
            if t2 == root {
                assert(pt2[t2].entries@[j] == 0u64);
            } else {
                assert(pt2[t2] == pt0[t2]);
                assert(pt0.contains_key(crate::vm::child(pt0[t2].entries@[j])));
            }
        }
        assert forall|t2: u64, j: int|
            pt2.contains_key(t2) && 0 <= j < 512 && pt2[t2].level >= 2 implies !pte_huge(#[trigger] pt2[t2].entries@[j]) by {
            if t2 != root {
                assert(pt2[t2] == pt0[t2]);
            }
        }
        assert(pt.wf());
        assert forall|t1: u64, i1: int, t2: u64, i2: int|
            pt2.contains_key(t1) && pt2.contains_key(t2) && 0 <= i1 < 512 && 0 <= i2 < 512 && is_pointer(
                #[trigger] pt2[t1].entries@[i1],
                pt2[t1].level as int,
            ) && is_pointer(#[trigger] pt2[t2].entries@[i2], pt2[t2].level as int) && crate::vm::child(
                pt2[t1].entries@[i1],
            ) == crate::vm::child(pt2[t2].entries@[i2]) implies t1 == t2 && i1 == i2 by {
            if t1 == root {
                assert(pt2[t1].entries@[i1] == 0u64);
            } else if t2 == root {
                assert(pt2[t2].entries@[i2] == 0u64);
            } else {
                assert(pt2[t1] == pt0[t1]);
                assert(pt2[t2] == pt0[t2]);
            }
        }
        assert(tree(pt2));
        assert forall|t: u64, i: int|
            pt2.contains_key(t) && 0 <= i < 512 && #[trigger] pt2[t].entries@[i] != crate::vm::base_entry(pt0, t, i)
                && is_pointer(pt2[t].entries@[i], pt2[t].level as int) implies !pt0.contains_key(
            crate::vm::child(pt2[t].entries@[i]),
        ) by {
            if t != root {
                assert(pt2[t] == pt0[t]);
            }
        }
        assert(extends(pt0, pt2));
        assert forall|k: int| 0 <= k < allocator@.len() implies !pt2.contains_key(#[trigger] allocator@[k]) by {
            assert(allocator@[k] == old(allocator)@[k]);
            assert(old(allocator)@.no_duplicates());
            assert(allocator@[k] != root);
        }
        assert forall|k: int| 0 <= k < allocator@.len() implies crate::vm::table_page_ok(#[trigger] allocator@[k]) by {
            assert(allocator@[k] == old(allocator)@[k]);
        }
        assert(allocator@ =~= old(allocator)@.take(allocator@.len() as int));
    }
    root
}

/// Whether the kernel's high mappings are in place under `pgdir`: physical
/// memory from `KERNBASE` on and the device space from `DEVBASE` on, as
/// `map_pages` maps them.
pub open spec fn highmem_mapped(pt: Map<u64, PageTable>, pgdir: u64) -> bool {
    &&& forall|a: u64|
        KERNBASE <= a < KERNBASE + LINEAR_MAP_SIZE ==> #[trigger] leaf(pt, pgdir, a) == Some(
            mapped_entry(KERNBASE as int, KERNBASE + LINEAR_MAP_SIZE - PG_SIZE, 0, PTE_WRITABLE, a as int),
        )
    &&& forall|a: u64|
        DEVBASE <= a < DEVBASE + DEV_MAP_SIZE ==> #[trigger] leaf(pt, pgdir, a) == Some(
            mapped_entry(DEVBASE as int, DEVBASE + DEV_MAP_SIZE - PG_SIZE, DEVSPACE as int, DEV_PERM, a as int),
        )
}

/// Whether the identity map of the low gigabyte is in place under `pgdir`.
pub open spec fn lowmem_mapped(pt: Map<u64, PageTable>, pgdir: u64) -> bool {
    forall|a: u64|
        a < LINEAR_MAP_SIZE ==> #[trigger] leaf(pt, pgdir, a) == Some(
            mapped_entry(0, LINEAR_MAP_SIZE - PG_SIZE, 0, PTE_WRITABLE, a as int),
        )
}

/// Under the high mappings, a kernel address of the linear map translates
/// to the physical address it stands for, and a device-window address to
/// its device address.
pub proof fn law_highmem_translates(pt: Map<u64, PageTable>, pgdir: u64, a: u64)
    requires
        highmem_mapped(pt, pgdir),
    ensures
        KERNBASE <= a < KERNBASE + LINEAR_MAP_SIZE ==> translate(pt, pgdir, a) == Some((a - KERNBASE) as u64),
        DEVBASE <= a < DEVBASE + DEV_MAP_SIZE ==> translate(pt, pgdir, a) == Some((a - DEVBASE + DEVSPACE) as u64),
{
    if KERNBASE <= a < KERNBASE + LINEAR_MAP_SIZE {
        law_mapped_translates(pt, pgdir, KERNBASE as int, KERNBASE + LINEAR_MAP_SIZE - PG_SIZE, 0, PTE_WRITABLE, a);
    }
    if DEVBASE <= a < DEVBASE + DEV_MAP_SIZE {
        law_mapped_translates(
            pt,
            pgdir,
            DEVBASE as int,
            DEVBASE + DEV_MAP_SIZE - PG_SIZE,
            DEVSPACE as int,
            DEV_PERM,
            a,
        );
    }
}

/// Under the low identity map an address below 1 GiB translates to itself.
pub proof fn law_lowmem_translates(pt: Map<u64, PageTable>, pgdir: u64, a: u64)
    requires
        lowmem_mapped(pt, pgdir),
        a < LINEAR_MAP_SIZE,
    ensures
        translate(pt, pgdir, a) == Some(a),
{
    law_mapped_translates(pt, pgdir, 0, LINEAR_MAP_SIZE - PG_SIZE, 0, PTE_WRITABLE, a);
}

/// The 2 MiB blocks of the low gigabyte, of the kernel's linear map and of
/// the device window are told apart by the tables.
proof fn lemma_windows_apart(c: u64, b: u64)
    ensures
        c < LINEAR_MAP_SIZE && KERNBASE <= b < KERNBASE + LINEAR_MAP_SIZE ==> vpn2(c as int) != vpn2(b as int),
        c < LINEAR_MAP_SIZE && DEVBASE <= b < DEVBASE + DEV_MAP_SIZE ==> vpn2(c as int) != vpn2(b as int),
        KERNBASE <= c < KERNBASE + LINEAR_MAP_SIZE && DEVBASE <= b < DEVBASE + DEV_MAP_SIZE ==> vpn2(c as int)
            != vpn2(b as int),
{
    assert((c / 0x20_0000) % 0x800_0000 < 0x200 || c >= 0x4000_0000) by (bit_vector);
    assert((b / 0x20_0000) % 0x800_0000 >= 0x7FF_FC00 || b < 0xFFFF_FFFF_8000_0000) by (bit_vector);
    assert((b / 0x20_0000) % 0x800_0000 < 0x7FF_FB00 || b < 0xFFFF_FFFF_4000_0000 || b >= 0xFFFF_FFFF_6000_0000)
        by (bit_vector);
    assert((b / 0x20_0000) % 0x800_0000 >= 0x7FF_FA00 || b < 0xFFFF_FFFF_4000_0000) by (bit_vector);
    assert((c / 0x20_0000) % 0x800_0000 >= 0x7FF_FC00 || c < 0xFFFF_FFFF_8000_0000) by (bit_vector);
}

/// Whether no address of `[start, start + len)` lies in a 2 MiB block that
/// the tables cannot tell apart from the block of `b`.
pub open spec fn block_apart(b: u64, start: int, len: int) -> bool {
    forall|c: u64| start <= c < start + len ==> vpn2(c as int) != vpn2(b as int)
}

/// A block apart from a range holds no page that the tables confuse with a
/// page of the range.
proof fn lemma_apart_pages(b: u64, start: int, len: int)
    requires
        block_apart(b, start, len),
    ensures
        forall|c: u64| start <= c < start + len ==> vpn(c as int) != vpn(b as int),
        forall|c: u64| start <= c < start + len ==> vpn2(c as int) != vpn2(b as int),
{
    assert forall|c: u64| start <= c < start + len implies vpn(c as int) != vpn(b as int) by {
        if vpn(c as int) == vpn(b as int) {
            lemma_vpn_vpn2(c as int, b as int);
        }
    }
}

/// Map the kernel's half of an address space: physical memory at `KERNBASE`
/// and the device space at `DEVBASE`, both with 2 MiB pages.
pub fn map_highmem(pt: &mut PageTables, allocator: &mut Allocator, pgdir: u64) -> (r: bool)
    requires
        old(pt).wf(),
        tree(old(pt)@),
        old(allocator).wf(),
        alloc_ok(old(pt)@, old(allocator)@),
        old(pt)@.contains_key(pgdir),
        old(pt)@[pgdir].level == 3,
    ensures
        final(pt).wf(),
        tree(final(pt)@),
        final(allocator).wf(),
        alloc_ok(final(pt)@, final(allocator)@),
        grows_leafy(old(pt)@, final(pt)@),
        final(allocator)@.len() <= old(allocator)@.len(),
        final(allocator)@ == old(allocator)@.take(final(allocator)@.len() as int),
        final(pt)@.contains_key(pgdir),
        final(pt)@[pgdir].level == 3,
        r ==> highmem_mapped(final(pt)@, pgdir),
        old(allocator)@.len() - final(allocator)@.len() <= HIGHMEM_FRAMES,
        !r ==> final(allocator)@.len() == 0 || (exists|a: u64|
            KERNBASE <= a < KERNBASE + LINEAR_MAP_SIZE && #[trigger] slot_taken(old(pt)@, pgdir, a, 1)) || (exists|a: u64|
            DEVBASE <= a < DEVBASE + DEV_MAP_SIZE && #[trigger] slot_taken(old(pt)@, pgdir, a, 1)),
        forall|b: u64|
            block_apart(b, KERNBASE as int, LINEAR_MAP_SIZE as int) && block_apart(b, DEVBASE as int, DEV_MAP_SIZE as int)
                ==> #[trigger] leaf(final(pt)@, pgdir, b) == leaf(old(pt)@, pgdir, b),
        forall|b: u64, l: int|
            block_apart(b, KERNBASE as int, LINEAR_MAP_SIZE as int) && block_apart(b, DEVBASE as int, DEV_MAP_SIZE as int)
                && 0 <= l <= 1 ==> #[trigger] slot_taken(final(pt)@, pgdir, b, l) == slot_taken(old(pt)@, pgdir, b, l),
{
    let ghost pt0 = pt@;
    let ghost al0 = allocator@;
    proof {
        lemma_all_huge(KERNBASE as int, LINEAR_MAP_SIZE as int, 0);
        lemma_all_huge(DEVBASE as int, DEV_MAP_SIZE as int, DEVSPACE as int);
        assert(map_first(KERNBASE) == KERNBASE);
        assert(map_last(KERNBASE, LINEAR_MAP_SIZE) == KERNBASE + LINEAR_MAP_SIZE - PG_SIZE);
        assert(map_first(DEVBASE) == DEVBASE);
        assert(map_last(DEVBASE, DEV_MAP_SIZE) == DEVBASE + DEV_MAP_SIZE - PG_SIZE);
        assert(crate::mapping::all_huge(KERNBASE as int, KERNBASE + LINEAR_MAP_SIZE - PG_SIZE, 0));
        assert(crate::mapping::map_frames_bound(KERNBASE as int, KERNBASE + LINEAR_MAP_SIZE - PG_SIZE, 0) == 2);
        assert(crate::mapping::all_huge(DEVBASE as int, DEVBASE + DEV_MAP_SIZE - PG_SIZE, DEVSPACE as int));
        assert(crate::mapping::map_frames_bound(DEVBASE as int, DEVBASE + DEV_MAP_SIZE - PG_SIZE, DEVSPACE as int)
            == 2);
    }
    let r = map_pages(pt, allocator, pgdir, KERNBASE, 0, LINEAR_MAP_SIZE, PTE_WRITABLE);
    let ghost pt1 = pt@;
    let ghost al1 = allocator@;
    if !r {
        proof {
            if allocator@.len() != 0 {
                let a = choose|a: u64|
                    map_first(KERNBASE) <= a <= map_last(KERNBASE, LINEAR_MAP_SIZE) && a as int % (PG_SIZE as int) == 0
                        && #[trigger] slot_taken(
                        pt0,
                        pgdir,
                        a,
                        chunk_level(map_first(KERNBASE), map_last(KERNBASE, LINEAR_MAP_SIZE), 0, a as int),
                    );
                assert(huge_at(KERNBASE as int, KERNBASE + LINEAR_MAP_SIZE - PG_SIZE, 0, a as int));
                assert(slot_taken(pt0, pgdir, a, 1));
            }
            assert forall|b: u64|
                block_apart(b, KERNBASE as int, LINEAR_MAP_SIZE as int) && block_apart(
                    b,
                    DEVBASE as int,
                    DEV_MAP_SIZE as int,
                ) implies #[trigger] leaf(pt1, pgdir, b) == leaf(pt0, pgdir, b) by {
                lemma_apart_pages(b, KERNBASE as int, LINEAR_MAP_SIZE as int);
            }
        }
        return false;
    }
    let r = map_pages(pt, allocator, pgdir, DEVBASE, DEVSPACE, DEV_MAP_SIZE, DEV_PERM);
    let ghost pt2 = pt@;
    proof {
        lemma_extends_trans(pt0, pt1, pt2);
        assert(allocator@ =~= al0.take(allocator@.len() as int));
        assert forall|t: u64, i: int|
            pt2.contains_key(t) && 0 <= i < 512 && #[trigger] pt2[t].entries@[i] != crate::vm::base_entry(pt0, t, i)
                && is_pointer(pt2[t].entries@[i], pt2[t].level as int) implies !pt0.contains_key(
            crate::vm::child(pt2[t].entries@[i]),
        ) by {
            let e = pt2[t].entries@[i];
            if pt1.contains_key(t) && e == pt1[t].entries@[i] {
                assert(pt1[t].level == pt2[t].level);
            } else if pt0.contains_key(crate::vm::child(e)) {
                assert(pt1.contains_key(crate::vm::child(e)));
                if pt0.contains_key(t) {
                    assert(pt1.contains_key(t));
                }
            }
        }
        assert(grows_leafy(pt0, pt2));
        assert forall|b: u64|
            block_apart(b, KERNBASE as int, LINEAR_MAP_SIZE as int) && block_apart(
                b,
                DEVBASE as int,
                DEV_MAP_SIZE as int,
            ) implies #[trigger] leaf(pt2, pgdir, b) == leaf(pt0, pgdir, b) by {
            lemma_apart_pages(b, KERNBASE as int, LINEAR_MAP_SIZE as int);
            lemma_apart_pages(b, DEVBASE as int, DEV_MAP_SIZE as int);
        }
        assert forall|b: u64, l: int|
            block_apart(b, KERNBASE as int, LINEAR_MAP_SIZE as int) && block_apart(
                b,
                DEVBASE as int,
                DEV_MAP_SIZE as int,
            ) && 0 <= l <= 1 implies #[trigger] slot_taken(pt2, pgdir, b, l) == slot_taken(pt0, pgdir, b, l) by {
            lemma_apart_pages(b, KERNBASE as int, LINEAR_MAP_SIZE as int);
            lemma_apart_pages(b, DEVBASE as int, DEV_MAP_SIZE as int);
            assert(slot_taken(pt1, pgdir, b, l) == slot_taken(pt0, pgdir, b, l));
        }
        if !r {
            if allocator@.len() != 0 {
                let a = choose|a: u64|
                    map_first(DEVBASE) <= a <= map_last(DEVBASE, DEV_MAP_SIZE) && a as int % (PG_SIZE as int) == 0
                        && #[trigger] slot_taken(
                        pt1,
                        pgdir,
                        a,
                        chunk_level(map_first(DEVBASE), map_last(DEVBASE, DEV_MAP_SIZE), DEVSPACE as int, a as int),
                    );
                assert(huge_at(DEVBASE as int, DEVBASE + DEV_MAP_SIZE - PG_SIZE, DEVSPACE as int, a as int));
                assert forall|c: u64| map_first(KERNBASE) <= c <= map_last(KERNBASE, LINEAR_MAP_SIZE) implies vpn2(
                    c as int,
                ) != vpn2(a as int) by {
                    lemma_windows_apart(c, a);
                }
                assert(slot_taken(pt1, pgdir, a, 1) == slot_taken(pt0, pgdir, a, 1));
                assert(slot_taken(pt0, pgdir, a, 1));
            }
        } else {
            assert forall|a: u64| KERNBASE <= a < KERNBASE + LINEAR_MAP_SIZE implies #[trigger] leaf(pt2, pgdir, a)
                == Some(
                mapped_entry(KERNBASE as int, KERNBASE + LINEAR_MAP_SIZE - PG_SIZE, 0, PTE_WRITABLE, a as int),
            ) by {
                crate::vm::law_extends_keeps_leaf(pt1, pt2, pgdir, a);
            }
        }
    }
    r
}

/// Growth by leaves and fresh pointers, twice, is such growth.
pub(crate) proof fn lemma_grows_leafy_trans(a: Map<u64, PageTable>, b: Map<u64, PageTable>, c: Map<u64, PageTable>)
    requires
        grows_leafy(a, b),
        grows_leafy(b, c),
    ensures
        grows_leafy(a, c),
{
    lemma_extends_trans(a, b, c);
    assert forall|t: u64, i: int|
        c.contains_key(t) && 0 <= i < 512 && #[trigger] c[t].entries@[i] != crate::vm::base_entry(a, t, i) && is_pointer(
            c[t].entries@[i],
            c[t].level as int,
        ) implies !a.contains_key(crate::vm::child(c[t].entries@[i])) by {
        let e = c[t].entries@[i];
        if b.contains_key(t) && e == b[t].entries@[i] {
            assert(b[t].level == c[t].level);
        } else if a.contains_key(crate::vm::child(e)) {
            assert(b.contains_key(crate::vm::child(e)));
            if a.contains_key(t) {
                assert(b.contains_key(t));
            }
        }
    }
}

/// Build the kernel's page table: the identity map of the low gigabyte and
/// the high mappings, in a new root taken from the allocator. Fails only
/// when memory for tables runs out.
pub fn kvm_create(pt: &mut PageTables, allocator: &mut Allocator) -> (r: Option<u64>)
    requires
        old(pt).wf(),
        tree(old(pt)@),
        old(allocator).wf(),
        alloc_ok(old(pt)@, old(allocator)@),
    ensures
        final(pt).wf(),
        tree(final(pt)@),
        final(allocator).wf(),
        alloc_ok(final(pt)@, final(allocator)@),
        grows_leafy(old(pt)@, final(pt)@),
        final(allocator)@.len() <= old(allocator)@.len(),
        final(allocator)@ == old(allocator)@.take(final(allocator)@.len() as int),
        r is None ==> final(allocator)@.len() == 0,
        old(allocator)@.len() - final(allocator)@.len() <= KVM_FRAMES,
        old(allocator)@.len() > KVM_FRAMES ==> r is Some,
        r matches Some(pgdir) ==> {
            &&& old(allocator)@.len() > 0
            &&& pgdir == old(allocator)@.last()
            &&& !old(pt)@.contains_key(pgdir)
            &&& final(pt)@.contains_key(pgdir)
            &&& final(pt)@[pgdir].level == 3
            &&& lowmem_mapped(final(pt)@, pgdir)
            &&& highmem_mapped(final(pt)@, pgdir)
            &&& forall|b: u64|
                block_apart(b, 0, LINEAR_MAP_SIZE as int) && block_apart(b, KERNBASE as int, LINEAR_MAP_SIZE as int)
                    && block_apart(b, DEVBASE as int, DEV_MAP_SIZE as int) ==> #[trigger] leaf(final(pt)@, pgdir, b).is_none()
        },
{
    let ghost pt0 = pt@;
    let ghost al0 = allocator@;
    let pgdir = alloc_root(pt, allocator);
    if pgdir == 0 {
        return None;
    }
    let ghost ptf = pt@;
    proof {
        lemma_all_huge(0, LINEAR_MAP_SIZE as int, 0);
        assert(map_first(0) == 0);
        assert(map_last(0, LINEAR_MAP_SIZE) == LINEAR_MAP_SIZE - PG_SIZE);
    }
    let r = map_pages(pt, allocator, pgdir, 0, 0, LINEAR_MAP_SIZE, PTE_WRITABLE);
    let ghost pt1 = pt@;
    proof {
        lemma_grows_leafy_trans(pt0, ptf, pt1);
        assert(allocator@ =~= al0.take(allocator@.len() as int));
    }
    if !r {
        proof {
            if allocator@.len() != 0 {
                let a = choose|a: u64|
                    map_first(0) <= a <= map_last(0, LINEAR_MAP_SIZE) && a as int % (PG_SIZE as int) == 0
                        && #[trigger] slot_taken(
                        ptf,
                        pgdir,
                        a,
                        chunk_level(map_first(0), map_last(0, LINEAR_MAP_SIZE), 0, a as int),
                    );
                lemma_fresh_root(ptf, pgdir, a);
                assert(huge_at(0, LINEAR_MAP_SIZE - PG_SIZE, 0, a as int));
            }
        }
        return None;
    }
    let ok = map_highmem(pt, allocator, pgdir);
    let ghost pt2 = pt@;
    proof {
        lemma_grows_leafy_trans(pt0, pt1, pt2);
        assert(allocator@ =~= al0.take(allocator@.len() as int));
        if !ok {
            if allocator@.len() != 0 {
                if exists|a: u64| KERNBASE <= a < KERNBASE + LINEAR_MAP_SIZE && #[trigger] slot_taken(pt1, pgdir, a, 1) {
                    let a = choose|a: u64| KERNBASE <= a < KERNBASE + LINEAR_MAP_SIZE && #[trigger] slot_taken(pt1, pgdir, a, 1);
                    assert forall|c: u64| map_first(0) <= c <= map_last(0, LINEAR_MAP_SIZE) implies vpn2(c as int) != vpn2(
                        a as int,
                    ) by {
                        lemma_windows_apart(c, a);
                    }
                    lemma_fresh_root(ptf, pgdir, a);
                    assert(slot_taken(pt1, pgdir, a, 1) == slot_taken(ptf, pgdir, a, 1));
                } else {
                    let a = choose|a: u64| DEVBASE <= a < DEVBASE + DEV_MAP_SIZE && #[trigger] slot_taken(pt1, pgdir, a, 1);
                    assert forall|c: u64| map_first(0) <= c <= map_last(0, LINEAR_MAP_SIZE) implies vpn2(c as int) != vpn2(
                        a as int,
                    ) by {
                        lemma_windows_apart(c, a);
                    }
                    lemma_fresh_root(ptf, pgdir, a);
                    assert(slot_taken(pt1, pgdir, a, 1) == slot_taken(ptf, pgdir, a, 1));
                }
            }
        } else {
            assert forall|a: u64| a < LINEAR_MAP_SIZE implies #[trigger] leaf(pt2, pgdir, a) == Some(
                mapped_entry(0, LINEAR_MAP_SIZE - PG_SIZE, 0, PTE_WRITABLE, a as int),
            ) by {
                crate::vm::law_extends_keeps_leaf(pt1, pt2, pgdir, a);
            }
            assert forall|b: u64|
                block_apart(b, 0, LINEAR_MAP_SIZE as int) && block_apart(b, KERNBASE as int, LINEAR_MAP_SIZE as int)
                    && block_apart(b, DEVBASE as int, DEV_MAP_SIZE as int) implies #[trigger] leaf(pt2, pgdir, b).is_none() by {
                lemma_apart_pages(b, 0, LINEAR_MAP_SIZE as int);
                lemma_fresh_root(ptf, pgdir, b);
                assert(leaf(pt2, pgdir, b) == leaf(pt1, pgdir, b));
                assert(leaf(pt1, pgdir, b) == leaf(ptf, pgdir, b));
            }
        }
    }
    if !ok {
        return None;
    }
    Some(pgdir)
}

/// Build a page table for a user process: a new root with only the kernel's
/// high mappings. Fails only when memory for tables runs out.
pub fn uvm_create(pt: &mut PageTables, allocator: &mut Allocator) -> (r: Option<u64>)
    requires
        old(pt).wf(),
        tree(old(pt)@),
        old(allocator).wf(),
        alloc_ok(old(pt)@, old(allocator)@),
    ensures
        final(pt).wf(),
        tree(final(pt)@),
        final(allocator).wf(),
        alloc_ok(final(pt)@, final(allocator)@),
        grows_leafy(old(pt)@, final(pt)@),
        final(allocator)@.len() <= old(allocator)@.len(),
        final(allocator)@ == old(allocator)@.take(final(allocator)@.len() as int),
        r is None ==> final(allocator)@.len() == 0,
        old(allocator)@.len() - final(allocator)@.len() <= UVM_FRAMES,
        old(allocator)@.len() > UVM_FRAMES ==> r is Some,
        r matches Some(pgdir) ==> {
            &&& old(allocator)@.len() > 0
            &&& pgdir == old(allocator)@.last()
            &&& !old(pt)@.contains_key(pgdir)
            &&& final(pt)@.contains_key(pgdir)
            &&& final(pt)@[pgdir].level == 3
            &&& highmem_mapped(final(pt)@, pgdir)
            &&& forall|b: u64|
                block_apart(b, KERNBASE as int, LINEAR_MAP_SIZE as int) && block_apart(b, DEVBASE as int, DEV_MAP_SIZE as int)
                    ==> #[trigger] leaf(final(pt)@, pgdir, b).is_none() && !slot_taken(final(pt)@, pgdir, b, 0)
                    && !slot_taken(final(pt)@, pgdir, b, 1)
        },
{
    let ghost pt0 = pt@;
    let ghost al0 = allocator@;
    let pgdir = alloc_root(pt, allocator);
    if pgdir == 0 {
        return None;
    }
    let ghost ptf = pt@;
    let ok = map_highmem(pt, allocator, pgdir);
    let ghost pt2 = pt@;
    proof {
        lemma_grows_leafy_trans(pt0, ptf, pt2);
        assert(allocator@ =~= al0.take(allocator@.len() as int));
        if !ok {
            if allocator@.len() != 0 {
                if exists|a: u64| KERNBASE <= a < KERNBASE + LINEAR_MAP_SIZE && #[trigger] slot_taken(ptf, pgdir, a, 1) {
                    let a = choose|a: u64| KERNBASE <= a < KERNBASE + LINEAR_MAP_SIZE && #[trigger] slot_taken(ptf, pgdir, a, 1);
                    lemma_fresh_root(ptf, pgdir, a);
                } else {
                    let a = choose|a: u64| DEVBASE <= a < DEVBASE + DEV_MAP_SIZE && #[trigger] slot_taken(ptf, pgdir, a, 1);
                    lemma_fresh_root(ptf, pgdir, a);
                }
            }
        } else {
            assert forall|b: u64|
                block_apart(b, KERNBASE as int, LINEAR_MAP_SIZE as int) && block_apart(b, DEVBASE as int, DEV_MAP_SIZE as int)
                    implies #[trigger] leaf(pt2, pgdir, b).is_none() && !slot_taken(pt2, pgdir, b, 0) && !slot_taken(
                    pt2,
                    pgdir,
                    b,
                    1,
                ) by {
                lemma_fresh_root(ptf, pgdir, b);
                assert(slot_taken(pt2, pgdir, b, 0) == slot_taken(ptf, pgdir, b, 0));
                assert(slot_taken(pt2, pgdir, b, 1) == slot_taken(ptf, pgdir, b, 1));
            }
        }
    }
    if !ok {
        return None;
    }
    Some(pgdir)
}

} // verus!
