use vstd::prelude::*;
use crate::address_space::{block_apart, DEV_MAP_SIZE, LINEAR_MAP_SIZE};
use crate::allocator::Allocator;
use crate::mapping::{huge_at, map_first, map_last, map_pages, mapped_entry, range_small, slot_taken, vpn, vpn2};
use crate::util::{DEVBASE, KERNBASE, PG_SIZE};
use crate::vm::{
    alloc_ok, grows_leafy, tables_from, table_page_ok, write_entry, PTE_PRESENT as PTE_P, law_extends_keeps_leaf, law_pte_fields, leaf, lemma_path_monotone,
    lemma_same_indices_path, make_pte, no_huge_on_path, page_floor, path, pt_index, pte_addr, pte_flags,
    pte_present, read_entry, translate, tree, walk, PageTable, PageTables, PageTableEntry, PTE_PRESENT, PTE_USER,
    PTE_WRITABLE, TABLE_PA_LIMIT,
};

verus! {

/// User addresses lie below this bound: the lower half of the address space.
pub const USER_TOP: u64 = 0x8000_0000_0000;
/// Permissions of user memory: writable, user-accessible.
pub const USER_PERM: u64 = PTE_WRITABLE | PTE_USER;

/// Whether no user address of `pgdir` meets a large page on its walk.
pub open spec fn user_small_pages(pt: Map<u64, PageTable>, pgdir: u64) -> bool {
    forall|a: u64| a < USER_TOP ==> #[trigger] no_huge_on_path(pt, pgdir, a)
}

/// Whether user address `b` is mapped by a present 4 KiB page, user-writable,
/// of physical memory that the kernel's linear map covers.
pub open spec fn user_page(pt: Map<u64, PageTable>, pgdir: u64, b: u64) -> bool {
    &&& leaf(pt, pgdir, b).is_some()
    &&& leaf(pt, pgdir, b).unwrap().1 == 0
    &&& pte_addr(leaf(pt, pgdir, b).unwrap().0) < TABLE_PA_LIMIT
    &&& pte_flags(leaf(pt, pgdir, b).unwrap().0) == USER_PERM | PTE_PRESENT
}

/// Whether an address meets a large page is decided by its leaf.
pub proof fn lemma_no_huge_leaf(pt: Map<u64, PageTable>, root: u64, b: u64)
    ensures
        no_huge_on_path(pt, root, b) == !(leaf(pt, root, b).is_some() && leaf(pt, root, b).unwrap().1 == 1),
{
}

/// Addresses of one page meet the same level-1 entry.
pub proof fn lemma_no_huge_same_page(pt: Map<u64, PageTable>, root: u64, a: u64, b: u64)
    requires
        a / 0x1000 == b / 0x1000,
    ensures
        no_huge_on_path(pt, root, a) == no_huge_on_path(pt, root, b),
{
    assert((a as int / 0x20_0000) == (a as int / 0x1000) / 512);
    assert((b as int / 0x20_0000) == (b as int / 0x1000) / 512);
    crate::vm::lemma_same_2m(a, b);
    lemma_same_indices_path(pt, root, a, b, 1);
}

/// Distinct user pages have distinct page numbers, and user blocks lie
/// apart from the kernel's windows.
pub proof fn lemma_user_apart(a: u64, b: u64)
    requires
        a < USER_TOP,
        b < USER_TOP,
    ensures
        a / 0x1000 != b / 0x1000 ==> vpn(a as int) != vpn(b as int),
        block_apart(b, KERNBASE as int, LINEAR_MAP_SIZE as int),
        block_apart(b, DEVBASE as int, DEV_MAP_SIZE as int),
{
    assert((a / 0x1000) % 0x10_0000_0000 == a / 0x1000) by (bit_vector)
        requires
            a < 0x8000_0000_0000u64,
    ;
    assert((b / 0x1000) % 0x10_0000_0000 == b / 0x1000) by (bit_vector)
        requires
            b < 0x8000_0000_0000u64,
    ;
    assert((b / 0x20_0000) % 0x800_0000 < 0x400_0000) by (bit_vector)
        requires
            b < 0x8000_0000_0000u64,
    ;
    assert forall|c: u64| KERNBASE <= c < KERNBASE + LINEAR_MAP_SIZE implies vpn2(c as int) != vpn2(b as int) by {
        assert((c / 0x20_0000) % 0x800_0000 >= 0x7FF_FC00 || c < 0xFFFF_FFFF_8000_0000) by (bit_vector);
    }
    assert forall|c: u64| DEVBASE <= c < DEVBASE + DEV_MAP_SIZE implies vpn2(c as int) != vpn2(b as int) by {
        assert((c / 0x20_0000) % 0x800_0000 >= 0x7FF_FA00 || c < 0xFFFF_FFFF_4000_0000) by (bit_vector);
    }
}

/// A fresh user page table, whose user addresses map nothing, meets no
/// large page at user addresses.
pub proof fn lemma_fresh_user_small(pt: Map<u64, PageTable>, pgdir: u64)
    requires
        forall|b: u64|
            block_apart(b, KERNBASE as int, LINEAR_MAP_SIZE as int) && block_apart(b, DEVBASE as int, DEV_MAP_SIZE as int)
                ==> #[trigger] leaf(pt, pgdir, b).is_none(),
    ensures
        user_small_pages(pt, pgdir),
{
    assert forall|a: u64| a < USER_TOP implies #[trigger] no_huge_on_path(pt, pgdir, a) by {
        lemma_user_apart(a, a);
        assert(block_apart(a, KERNBASE as int, LINEAR_MAP_SIZE as int));
        assert(block_apart(a, DEVBASE as int, DEV_MAP_SIZE as int));
        assert(leaf(pt, pgdir, a).is_none());
        lemma_no_huge_leaf(pt, pgdir, a);
    }
}

/// After `map_pages` maps the single user page at `a`, user addresses still
/// meet no large page, and the other user pages map as they did.
pub proof fn lemma_user_page_step(pt0: Map<u64, PageTable>, pt1: Map<u64, PageTable>, pgdir: u64, a: u64, pa: u64)
    requires
        a < USER_TOP,
        a % 0x1000 == 0,
        user_small_pages(pt0, pgdir),
        range_small(pt1, pgdir, a as int, a as int, pa as int),
        forall|b: u64|
            (forall|c: u64| a <= c <= a ==> vpn(c as int) != vpn(b as int)) ==> #[trigger] leaf(pt1, pgdir, b)
                == leaf(pt0, pgdir, b),
    ensures
        user_small_pages(pt1, pgdir),
        forall|b: u64| b < USER_TOP && b / 0x1000 != a / 0x1000 ==> #[trigger] leaf(pt1, pgdir, b) == leaf(pt0, pgdir, b),
{
    assert(!huge_at(a as int, a as int, pa as int, a as int));
    assert(no_huge_on_path(pt1, pgdir, a));
    assert forall|b: u64| b < USER_TOP && b / 0x1000 != a / 0x1000 implies #[trigger] leaf(pt1, pgdir, b) == leaf(
        pt0,
        pgdir,
        b,
    ) by {
        lemma_user_apart(a, b);
        assert forall|c: u64| a <= c <= a implies vpn(c as int) != vpn(b as int) by {}
    }
    assert forall|b: u64| b < USER_TOP implies #[trigger] no_huge_on_path(pt1, pgdir, b) by {
        if b / 0x1000 == a / 0x1000 {
            lemma_no_huge_same_page(pt1, pgdir, a, b);
        } else {
            assert(leaf(pt1, pgdir, b) == leaf(pt0, pgdir, b));
            lemma_no_huge_leaf(pt1, pgdir, b);
            lemma_no_huge_leaf(pt0, pgdir, b);
            assert(no_huge_on_path(pt0, pgdir, b));
        }
    }
}


/// What became of a page that was to be mapped: no memory for it, or its
/// frame (a kernel address) with the mapping failed or made.
pub enum NewPage {
    NoMemory,
    Unmapped(u64),
    Mapped(u64),
}

/// Take a zeroed page from the allocator and map it, user-writable, at the
/// user page `a`.
#[verifier::rlimit(40)]
#[verifier::spinoff_prover]
pub fn map_new_page(pt: &mut PageTables, allocator: &mut Allocator, pgdir: u64, a: u64) -> (r: NewPage)
    requires
        old(pt).wf(),
        tree(old(pt)@),
        old(allocator).wf(),
        alloc_ok(old(pt)@, old(allocator)@),
        old(pt)@.contains_key(pgdir),
        old(pt)@[pgdir].level == 3,
        user_small_pages(old(pt)@, pgdir),
        a < USER_TOP,
        a % 0x1000 == 0,
    ensures
        final(pt).wf(),
        tree(final(pt)@),
        final(allocator).wf(),
        alloc_ok(final(pt)@, final(allocator)@),
        grows_leafy(old(pt)@, final(pt)@),
        final(allocator)@.len() <= old(allocator)@.len(),
        final(allocator)@ == old(allocator)@.take(final(allocator)@.len() as int),
        tables_from(old(pt)@, old(allocator)@, final(pt)@),
        final(pt)@.contains_key(pgdir),
        final(pt)@[pgdir].level == 3,
        user_small_pages(final(pt)@, pgdir),
        forall|b: u64|
            b < USER_TOP && b / 0x1000 != a / 0x1000 ==> #[trigger] leaf(final(pt)@, pgdir, b) == leaf(old(pt)@, pgdir, b)
                && slot_taken(final(pt)@, pgdir, b, 0) == slot_taken(old(pt)@, pgdir, b, 0),
        user_frames_ok(old(pt)@, pgdir, old(allocator)@) ==> user_frames_ok(final(pt)@, pgdir, final(allocator)@),
        old(allocator)@.len() - final(allocator)@.len() <= 4,
        forall|k: int|
            final(allocator)@.len() <= k < old(allocator)@.len() - 1 ==> #[trigger] final(pt)@.contains_key(
                old(allocator)@[k],
            ),
        r is NoMemory <==> old(allocator)@.len() == 0,
        r is NoMemory ==> final(pt)@ == old(pt)@ && final(allocator)@ == old(allocator)@,
        r matches NewPage::Unmapped(m) ==> {
            &&& forall|b: u64| b < USER_TOP ==> #[trigger] leaf(final(pt)@, pgdir, b) == leaf(old(pt)@, pgdir, b)
            &&& old(allocator)@.len() > 0
            &&& m == old(allocator)@.last()
            &&& table_page_ok(m)
            &&& !final(pt)@.contains_key(m)
            &&& !final(allocator)@.contains(m)
            &&& (final(allocator)@.len() == 0 || slot_taken(old(pt)@, pgdir, a, 0))
        },
        r matches NewPage::Mapped(m) ==> {
            &&& old(allocator)@.len() > 0
            &&& m == old(allocator)@.last()
            &&& table_page_ok(m)
            &&& !final(pt)@.contains_key(m)
            &&& !final(allocator)@.contains(m)
            &&& forall|b: u64|
                b / 0x1000 == a / 0x1000 ==> #[trigger] leaf(final(pt)@, pgdir, b) == Some(
                    (make_pte((m - KERNBASE) as u64, USER_PERM | PTE_PRESENT), 0int),
                ) && user_page(final(pt)@, pgdir, b)
        },
{
    let ghost pt0 = pt@;
    let ghost al0 = allocator@;
    let mem = allocator.kalloc();
    if mem == 0 {
        proof {
            crate::vm::lemma_extends_refl(pt0);
            assert(grows_leafy(pt0, pt0));
            assert(al0 =~= al0.take(al0.len() as int));
        }
        return NewPage::NoMemory;
    }
    let ghost al1 = allocator@;
    proof {
        assert(al0[al0.len() - 1] == mem);
        assert(table_page_ok(mem));
        assert forall|k: int| 0 <= k < al1.len() implies !pt0.contains_key(#[trigger] al1[k]) && table_page_ok(al1[k]) by {
            assert(al1[k] == al0[k]);
        }
        assert(map_first(a) == a);
        assert(map_last(a, 0x1000) == a);
        assert forall|x: u64| map_first(a) <= x <= map_last(a, 0x1000) && !huge_at(
            map_first(a),
            map_last(a, 0x1000),
            (mem - KERNBASE) as int,
            x as int,
        ) implies #[trigger] no_huge_on_path(pt0, pgdir, x) by {}
    }
    proof {
        assert(!crate::mapping::all_huge(a as int, a as int, (mem - KERNBASE) as int));
        assert(crate::mapping::map_frames_bound(a as int, a as int, (mem - KERNBASE) as int) == 3);
    }
    let ok = map_pages(pt, allocator, pgdir, a, mem - KERNBASE, 0x1000, USER_PERM);
    let ghost pt1 = pt@;
    proof {
        assert forall|k: int| allocator@.len() <= k < al0.len() - 1 implies #[trigger] pt1.contains_key(al0[k]) by {
            assert(al1[k] == al0[k]);
        }
        lemma_user_page_step(pt0, pt1, pgdir, a, (mem - KERNBASE) as u64);
        assert(allocator@ =~= al0.take(allocator@.len() as int));
        assert(!al1.contains(mem)) by {
            if al1.contains(mem) {
                let k = choose|k: int| 0 <= k < al1.len() && al1[k] == mem;
                assert(al0[k] == al0[al0.len() - 1]);
            }
        }
        assert(!allocator@.contains(mem)) by {
            if allocator@.contains(mem) {
                let k = choose|k: int| 0 <= k < allocator@.len() && allocator@[k] == mem;
                assert(al1[k] == mem);
            }
        }
        assert(!pt1.contains_key(mem)) by {
            if pt1.contains_key(mem) {
                assert(pt0.contains_key(mem) || al1.contains(mem));
            }
        }
        assert forall|t: u64| #[trigger] pt1.contains_key(t) implies pt0.contains_key(t) || al0.contains(t) by {
            if !pt0.contains_key(t) {
                assert(al1.contains(t));
                let k = choose|k: int| 0 <= k < al1.len() && al1[k] == t;
                assert(al0[k] == t);
            }
        }
        assert forall|b: u64| b < USER_TOP && b / 0x1000 != a / 0x1000 implies #[trigger] leaf(pt1, pgdir, b) == leaf(
            pt0,
            pgdir,
            b,
        ) && slot_taken(pt1, pgdir, b, 0) == slot_taken(pt0, pgdir, b, 0) by {
            lemma_user_apart(a, b);
            assert forall|c: u64| map_first(a) <= c <= map_last(a, 0x1000) implies vpn(c as int) != vpn(b as int) by {}
        }
        if !ok {
            let a_f = choose|a_f: u64|
                map_first(a) <= a_f <= map_last(a, 0x1000) && a_f as int % (PG_SIZE as int) == 0 && #[trigger] crate::mapping::stopped_at(
                    pt1,
                    pt0,
                    pgdir,
                    map_first(a),
                    map_last(a, 0x1000),
                    (mem - KERNBASE) as int,
                    USER_PERM,
                    a_f,
                );
            assert(a_f == a);
            assert forall|b: u64| b / 0x1000 == a / 0x1000 implies #[trigger] leaf(pt1, pgdir, b) == leaf(pt0, pgdir, b) by {
                assert(a <= b < a + 0x1000);
            }
            assert forall|b: u64| b < USER_TOP implies #[trigger] leaf(pt1, pgdir, b) == leaf(pt0, pgdir, b) by {
                if b / 0x1000 != a / 0x1000 {
                    assert(leaf(pt1, pgdir, b) == leaf(pt0, pgdir, b));
                }
            }
            if allocator@.len() != 0 {
                let x = choose|x: u64|
                    map_first(a) <= x <= map_last(a, 0x1000) && x as int % (PG_SIZE as int) == 0 && #[trigger] slot_taken(
                        pt0,
                        pgdir,
                        x,
                        crate::mapping::chunk_level(map_first(a), map_last(a, 0x1000), (mem - KERNBASE) as int, x as int),
                    );
                assert(x == a);
                assert(!huge_at(a as int, a as int, (mem - KERNBASE) as int, a as int));
            }
        } else {
            let f = (mem - KERNBASE) as u64;
            law_pte_fields(f, USER_PERM | PTE_PRESENT);
            crate::vm::lemma_user_flags();
            crate::vm::lemma_aligned_addr(f);
            assert forall|b: u64| b / 0x1000 == a / 0x1000 implies #[trigger] leaf(pt1, pgdir, b) == Some(
                (make_pte(f, USER_PERM | PTE_PRESENT), 0int),
            ) && user_page(pt1, pgdir, b) by {
                assert(a <= b < a + 0x1000);
                assert(!huge_at(a as int, a as int, f as int, b as int));
                assert(b - b % 0x1000 == a);
            }
        }
    }
    proof {
        if user_frames_ok(pt0, pgdir, al0) {
            lemma_new_page_frames(pt0, pt1, al0, al1, allocator@, pgdir, a, mem, ok);
        }
    }
    if ok {
        NewPage::Mapped(mem)
    } else {
        NewPage::Unmapped(mem)
    }
}

/// A page newly mapped with a page fresh from the allocator keeps the user
/// memory owning its pages.
proof fn lemma_new_page_frames(
    pt0: Map<u64, PageTable>,
    pt1: Map<u64, PageTable>,
    al0: Seq<u64>,
    al1: Seq<u64>,
    al2: Seq<u64>,
    pgdir: u64,
    a: u64,
    mem: u64,
    mapped: bool,
)
    requires
        user_frames_ok(pt0, pgdir, al0),
        al0.no_duplicates(),
        al0.len() > 0,
        mem == al0.last(),
        al1 == al0.drop_last(),
        al2.len() <= al1.len(),
        al2 == al1.take(al2.len() as int),
        tables_from(pt0, al1, pt1),
        !pt1.contains_key(mem),
        table_page_ok(mem),
        a < USER_TOP,
        forall|b: u64| b < USER_TOP && b / 0x1000 != a / 0x1000 ==> #[trigger] leaf(pt1, pgdir, b) == leaf(pt0, pgdir, b),
        !mapped ==> forall|b: u64| b / 0x1000 == a / 0x1000 ==> #[trigger] leaf(pt1, pgdir, b) == leaf(pt0, pgdir, b),
        mapped ==> forall|b: u64|
            b / 0x1000 == a / 0x1000 ==> #[trigger] leaf(pt1, pgdir, b) == Some(
                (make_pte((mem - KERNBASE) as u64, USER_PERM | PTE_PRESENT), 0int),
            ) && user_page(pt1, pgdir, b),
    ensures
        user_frames_ok(pt1, pgdir, al2),
{
    reveal(user_frames_ok);
    assert forall|b: u64| b < USER_TOP && (#[trigger] leaf(pt1, pgdir, b)).is_some() implies {
        &&& pte_addr(leaf(pt1, pgdir, b).unwrap().0) < TABLE_PA_LIMIT
        &&& !pt1.contains_key(frame(pt1, pgdir, b))
        &&& !al2.contains(frame(pt1, pgdir, b))
    } by {
        lemma_frame_fresh_or_old(pt0, pt1, al0, al1, al2, pgdir, a, mem, mapped, b);
    }
    assert forall|b: u64, c: u64|
        b < USER_TOP && c < USER_TOP && leaf(pt1, pgdir, b).is_some() && leaf(pt1, pgdir, c).is_some() && #[trigger] frame(
            pt1,
            pgdir,
            b,
        ) == #[trigger] frame(pt1, pgdir, c) implies b / 0x1000 == c / 0x1000 by {
        lemma_frame_fresh_or_old(pt0, pt1, al0, al1, al2, pgdir, a, mem, mapped, b);
        lemma_frame_fresh_or_old(pt0, pt1, al0, al1, al2, pgdir, a, mem, mapped, c);
        if b / 0x1000 != a / 0x1000 && c / 0x1000 != a / 0x1000 {
            assert(frame(pt0, pgdir, b) == frame(pt0, pgdir, c));
        }
    }
}

/// The page a user address maps to after a new page is mapped: the fresh
/// page inside the new page, its old page (not free before) outside.
proof fn lemma_frame_fresh_or_old(
    pt0: Map<u64, PageTable>,
    pt1: Map<u64, PageTable>,
    al0: Seq<u64>,
    al1: Seq<u64>,
    al2: Seq<u64>,
    pgdir: u64,
    a: u64,
    mem: u64,
    mapped: bool,
    b: u64,
)
    requires
        user_frames_ok(pt0, pgdir, al0),
        al0.no_duplicates(),
        al0.len() > 0,
        mem == al0.last(),
        al1 == al0.drop_last(),
        al2.len() <= al1.len(),
        al2 == al1.take(al2.len() as int),
        tables_from(pt0, al1, pt1),
        !pt1.contains_key(mem),
        table_page_ok(mem),
        a < USER_TOP,
        forall|b: u64| b < USER_TOP && b / 0x1000 != a / 0x1000 ==> #[trigger] leaf(pt1, pgdir, b) == leaf(pt0, pgdir, b),
        !mapped ==> forall|b: u64| b / 0x1000 == a / 0x1000 ==> #[trigger] leaf(pt1, pgdir, b) == leaf(pt0, pgdir, b),
        mapped ==> forall|b: u64|
            b / 0x1000 == a / 0x1000 ==> #[trigger] leaf(pt1, pgdir, b) == Some(
                (make_pte((mem - KERNBASE) as u64, USER_PERM | PTE_PRESENT), 0int),
            ) && user_page(pt1, pgdir, b),
        b < USER_TOP,
        leaf(pt1, pgdir, b).is_some(),
    ensures
        pte_addr(leaf(pt1, pgdir, b).unwrap().0) < TABLE_PA_LIMIT,
        !pt1.contains_key(frame(pt1, pgdir, b)),
        !al2.contains(frame(pt1, pgdir, b)),
        mapped && b / 0x1000 == a / 0x1000 ==> frame(pt1, pgdir, b) == mem,
        !(mapped && b / 0x1000 == a / 0x1000) ==> leaf(pt1, pgdir, b) == leaf(pt0, pgdir, b) && frame(pt1, pgdir, b)
            == frame(pt0, pgdir, b) && !al0.contains(frame(pt0, pgdir, b)),
{
    reveal(user_frames_ok);
    if mapped && b / 0x1000 == a / 0x1000 {
        let f = (mem - KERNBASE) as u64;
        law_pte_fields(f, USER_PERM | PTE_PRESENT);
        crate::vm::lemma_aligned_addr(f);
        assert(frame(pt1, pgdir, b) == mem);
        assert(!al1.contains(mem)) by {
            if al1.contains(mem) {
                let k = choose|k: int| 0 <= k < al1.len() && al1[k] == mem;
                assert(al0[k] == al0[al0.len() - 1]);
            }
        }
        assert(!al2.contains(mem)) by {
            if al2.contains(mem) {
                let k = choose|k: int| 0 <= k < al2.len() && al2[k] == mem;
                assert(al1[k] == mem);
            }
        }
    } else {
        assert(leaf(pt1, pgdir, b) == leaf(pt0, pgdir, b));
        assert(frame(pt1, pgdir, b) == frame(pt0, pgdir, b));
        let f = frame(pt0, pgdir, b);
        assert(!pt0.contains_key(f));
        assert(!al0.contains(f));
        assert(!al1.contains(f)) by {
            if al1.contains(f) {
                let k = choose|k: int| 0 <= k < al1.len() && al1[k] == f;
                assert(al0[k] == f);
            }
        }
        assert(!al2.contains(f)) by {
            if al2.contains(f) {
                let k = choose|k: int| 0 <= k < al2.len() && al2[k] == f;
                assert(al1[k] == f);
            }
        }
    }
}

/// The kernel address of the physical page that user address `b` maps to,
/// if it is mapped and not to physical page 0.
pub open spec fn page_frame(pt: Map<u64, PageTable>, pgdir: u64, b: u64) -> Option<u64> {
    match leaf(pt, pgdir, b) {
        Some((e, _)) => if pte_addr(e) != 0 {
            Some((pte_addr(e) + KERNBASE) as u64)
        } else {
            None
        },
        None => None,
    }
}

/// The kernel address of the physical page that user address `b` maps to.
pub open spec fn frame(pt: Map<u64, PageTable>, pgdir: u64, b: u64) -> u64 {
    (pte_addr(leaf(pt, pgdir, b).unwrap().0) + KERNBASE) as u64
}

/// Whether the user memory of `pgdir` owns its pages: each mapped user page
/// is physical memory of the linear map, no page table and not free, and no
/// two user pages share one.
#[verifier::opaque]
pub open spec fn user_frames_ok(pt: Map<u64, PageTable>, pgdir: u64, free: Seq<u64>) -> bool {
    &&& forall|b: u64|
        b < USER_TOP && (#[trigger] leaf(pt, pgdir, b)).is_some() ==> {
            &&& pte_addr(leaf(pt, pgdir, b).unwrap().0) < TABLE_PA_LIMIT
            &&& !pt.contains_key(frame(pt, pgdir, b))
            &&& !free.contains(frame(pt, pgdir, b))
        }
    &&& forall|b: u64, c: u64|
        b < USER_TOP && c < USER_TOP && leaf(pt, pgdir, b).is_some() && leaf(pt, pgdir, c).is_some() && #[trigger] frame(
            pt,
            pgdir,
            b,
        ) == #[trigger] frame(pt, pgdir, c) ==> b / 0x1000 == c / 0x1000
}

/// The pages that clearing the user pages of `[lo, hi)` frees, in address
/// order.
pub open spec fn freed_frames(pt: Map<u64, PageTable>, pgdir: u64, lo: int, hi: int) -> Seq<u64>
    decreases hi - lo,
{
    if hi < lo + 0x1000 {
        Seq::empty()
    } else {
        freed_frames(pt, pgdir, lo, hi - 0x1000) + match page_frame(pt, pgdir, (hi - 0x1000) as u64) {
            Some(f) => seq![f],
            None => Seq::empty(),
        }
    }
}

/// Clearing a present entry of a table of 4 KiB pages keeps the tables well
/// formed and a tree, and changes no table above.
proof fn lemma_clear_entry(pt: Map<u64, PageTable>, pt2: Map<u64, PageTable>, t: u64, i: int)
    requires
        crate::mapping::wf_map(pt),
        tree(pt),
        pt.contains_key(t),
        pt[t].level == 0,
        0 <= i < 512,
        pt2 == pt.insert(t, pt2[t]),
        pt2[t].level == pt[t].level,
        pt2[t].entries@ == pt[t].entries@.update(i, 0u64),
    ensures
        crate::mapping::wf_map(pt2),
        tree(pt2),
        pt2.dom() == pt.dom(),
        crate::vm::tables_ok(pt2),
{
    crate::vm::lemma_zero_entry();
    assert forall|t2: u64| #[trigger] pt2.contains_key(t2) implies pt2[t2].entries@.len() == 512 && pt2[t2].level <= 3 by {
    }
    assert forall|t2: u64, j: int|
        pt2.contains_key(t2) && 0 <= j < 512 && crate::vm::is_pointer(#[trigger] pt2[t2].entries@[j], pt2[t2].level as int) implies {
            &&& pte_addr(pt2[t2].entries@[j]) < TABLE_PA_LIMIT
            &&& pt2.contains_key(crate::vm::child(pt2[t2].entries@[j]))
            &&& pt2[crate::vm::child(pt2[t2].entries@[j])].level == pt2[t2].level - 1
        } by {
        assert(pt2[t2].entries@[j] == pt[t2].entries@[j]);
    }
    assert forall|t2: u64, j: int|
        pt2.contains_key(t2) && 0 <= j < 512 && pt2[t2].level >= 2 implies !crate::vm::pte_huge(#[trigger] pt2[t2].entries@[j]) by {
        assert(pt2[t2].entries@[j] == pt[t2].entries@[j]);
    }
    assert forall|t1: u64, i1: int, t2: u64, i2: int|
        pt2.contains_key(t1) && pt2.contains_key(t2) && 0 <= i1 < 512 && 0 <= i2 < 512 && crate::vm::is_pointer(
            #[trigger] pt2[t1].entries@[i1],
            pt2[t1].level as int,
        ) && crate::vm::is_pointer(#[trigger] pt2[t2].entries@[i2], pt2[t2].level as int) && crate::vm::child(
            pt2[t1].entries@[i1],
        ) == crate::vm::child(pt2[t2].entries@[i2]) implies t1 == t2 && i1 == i2 by {
        assert(pt2[t1].entries@[i1] == pt[t1].entries@[i1]);
        assert(pt2[t2].entries@[i2] == pt[t2].entries@[i2]);
    }
    assert(pt2.dom() =~= pt.dom());
}

/// Clearing the 4 KiB entry of user address `a` unmaps its page and no
/// other user page.
proof fn lemma_unmap_leaf(pt: Map<u64, PageTable>, pt2: Map<u64, PageTable>, pgdir: u64, a: u64, t: u64)
    requires
        crate::mapping::wf_map(pt),
        tree(pt),
        user_small_pages(pt, pgdir),
        pt.contains_key(pgdir),
        pt[pgdir].level == 3,
        a < USER_TOP,
        path(pt, pgdir, a, 0) == Some(t),
        pt2 == pt.insert(t, pt2[t]),
        pt2[t].level == pt[t].level,
        pt2[t].entries@ == pt[t].entries@.update(pt_index(a, 0), 0u64),
    ensures
        crate::mapping::wf_map(pt2),
        tree(pt2),
        pt2.dom() == pt.dom(),
        user_small_pages(pt2, pgdir),
        forall|b: u64| b < USER_TOP && b / 0x1000 != a / 0x1000 ==> #[trigger] leaf(pt2, pgdir, b) == leaf(pt, pgdir, b),
        forall|b: u64| b / 0x1000 == a / 0x1000 ==> #[trigger] leaf(pt2, pgdir, b).is_none(),
{
    crate::vm::lemma_path_contains(pt, pgdir, a, 0);
    crate::vm::lemma_path_level(pt, pgdir, a, 0);
    let i = pt_index(a, 0);
    assert(0 <= i < 512);
    lemma_clear_entry(pt, pt2, t, i);
    crate::vm::lemma_zero_entry();
    assert forall|b: u64, l: int| 0 <= l <= 3 implies #[trigger] path(pt2, pgdir, b, l) == path(pt, pgdir, b, l) by {
        crate::vm::lemma_path_write(pt, t, pt2[t], pgdir, b, l);
    }
    assert forall|b: u64| b < USER_TOP && b / 0x1000 != a / 0x1000 implies #[trigger] leaf(pt2, pgdir, b) == leaf(
        pt,
        pgdir,
        b,
    ) by {
        assert(path(pt2, pgdir, b, 1) == path(pt, pgdir, b, 1));
        assert(path(pt2, pgdir, b, 0) == path(pt, pgdir, b, 0));
        if let Some(t1) = path(pt, pgdir, b, 1) {
            crate::vm::lemma_path_contains(pt, pgdir, b, 1);
            crate::vm::lemma_path_level(pt, pgdir, b, 1);
            assert(t1 != t);
        }
        if let Some(t0) = path(pt, pgdir, b, 0) {
            if t0 == t && pt_index(b, 0) == i {
                crate::vm::lemma_tree_indices(pt, pgdir, b, a, 0);
                crate::mapping::lemma_vpn_indices(b, a);
                lemma_user_apart(a, b);
            }
        }
    }
    assert forall|b: u64| b / 0x1000 == a / 0x1000 implies #[trigger] leaf(pt2, pgdir, b).is_none() by {
        crate::mapping::lemma_same_page(a, b);
        crate::vm::lemma_same_indices_path(pt2, pgdir, a, b, 0);
        crate::vm::lemma_same_indices_path(pt2, pgdir, a, b, 1);
        lemma_no_huge_same_page(pt, pgdir, a, b);
        assert(b < USER_TOP) by {
            assert(a / 0x1000 < 0x8_0000_0000);
        }
        assert(no_huge_on_path(pt, pgdir, b));
        if let Some(t1) = path(pt, pgdir, b, 1) {
            crate::vm::lemma_path_contains(pt, pgdir, b, 1);
            crate::vm::lemma_path_level(pt, pgdir, b, 1);
            assert(t1 != t);
        }
    }
    assert forall|b: u64| b < USER_TOP implies #[trigger] no_huge_on_path(pt2, pgdir, b) by {
        assert(no_huge_on_path(pt, pgdir, b));
        assert(path(pt2, pgdir, b, 1) == path(pt, pgdir, b, 1));
        if let Some(t1) = path(pt, pgdir, b, 1) {
            crate::vm::lemma_path_contains(pt, pgdir, b, 1);
            crate::vm::lemma_path_level(pt, pgdir, b, 1);
            assert(t1 != t);
        }
    }
}

/// Addresses of one page have the same leaf.
pub proof fn lemma_leaf_same_page(pt: Map<u64, PageTable>, pgdir: u64, a: u64, b: u64)
    requires
        a / 0x1000 == b / 0x1000,
    ensures
        leaf(pt, pgdir, a) == leaf(pt, pgdir, b),
{
    crate::mapping::lemma_same_page(a, b);
    crate::vm::lemma_same_indices_path(pt, pgdir, a, b, 0);
    crate::vm::lemma_same_indices_path(pt, pgdir, a, b, 1);
}

/// After the page of `a` is unmapped and its physical page freed, the user
/// memory still owns its pages.
/// The facts about the unmapping of the page of `a` that the lemmas below
/// share.
pub open spec fn unmapped_page(
    pt0: Map<u64, PageTable>,
    pt2: Map<u64, PageTable>,
    al0: Seq<u64>,
    al2: Seq<u64>,
    pgdir: u64,
    a: u64,
) -> bool {
    &&& pt2.dom() == pt0.dom()
    &&& a < USER_TOP
    &&& (leaf(pt0, pgdir, a).is_some() ==> pte_addr(leaf(pt0, pgdir, a).unwrap().0) % 0x1000 == 0)
    &&& al2 == al0 + match page_frame(pt0, pgdir, a) {
        Some(f) => seq![f],
        None => Seq::empty(),
    }
    &&& forall|b: u64| b < USER_TOP && b / 0x1000 != a / 0x1000 ==> #[trigger] leaf(pt2, pgdir, b) == leaf(pt0, pgdir, b)
    &&& forall|b: u64| b / 0x1000 == a / 0x1000 ==> #[trigger] leaf(pt2, pgdir, b).is_none()
}

proof fn lemma_unmap_alloc_ok(pt0: Map<u64, PageTable>, pt2: Map<u64, PageTable>, al0: Seq<u64>, al2: Seq<u64>, pgdir: u64, a: u64)
    requires
        user_frames_ok(pt0, pgdir, al0),
        alloc_ok(pt0, al0),
        unmapped_page(pt0, pt2, al0, al2, pgdir, a),
    ensures
        alloc_ok(pt2, al2),
{
    reveal(user_frames_ok);
    assert forall|k: int| 0 <= k < al2.len() implies !pt2.contains_key(#[trigger] al2[k]) && table_page_ok(al2[k]) by {
        if k < al0.len() {
            assert(al2[k] == al0[k]);
        } else {
            assert(leaf(pt0, pgdir, a).is_some());
            assert(al2[k] == frame(pt0, pgdir, a));
            assert(!pt0.contains_key(frame(pt0, pgdir, a)));
        }
    }
}

proof fn lemma_unmap_owned(pt0: Map<u64, PageTable>, pt2: Map<u64, PageTable>, al0: Seq<u64>, al2: Seq<u64>, pgdir: u64, a: u64, b: u64)
    requires
        user_frames_ok(pt0, pgdir, al0),
        unmapped_page(pt0, pt2, al0, al2, pgdir, a),
        b < USER_TOP,
        leaf(pt2, pgdir, b).is_some(),
    ensures
        pte_addr(leaf(pt2, pgdir, b).unwrap().0) < TABLE_PA_LIMIT,
        !pt2.contains_key(frame(pt2, pgdir, b)),
        !al2.contains(frame(pt2, pgdir, b)),
{
    reveal(user_frames_ok);
    if b / 0x1000 == a / 0x1000 {
        assert(leaf(pt2, pgdir, b).is_none());
    }
    assert(leaf(pt2, pgdir, b) == leaf(pt0, pgdir, b));
    assert(frame(pt2, pgdir, b) == frame(pt0, pgdir, b));
    assert(!pt0.contains_key(frame(pt0, pgdir, b)));
    if al2.contains(frame(pt2, pgdir, b)) {
        let k = choose|k: int| 0 <= k < al2.len() && al2[k] == frame(pt2, pgdir, b);
        if k < al0.len() {
            assert(al0[k] == al2[k]);
        } else {
            assert(frame(pt0, pgdir, b) == frame(pt0, pgdir, a));
        }
    }
}

proof fn lemma_unmap_distinct(pt0: Map<u64, PageTable>, pt2: Map<u64, PageTable>, al0: Seq<u64>, al2: Seq<u64>, pgdir: u64, a: u64, b: u64, c: u64)
    requires
        user_frames_ok(pt0, pgdir, al0),
        unmapped_page(pt0, pt2, al0, al2, pgdir, a),
        b < USER_TOP,
        c < USER_TOP,
        leaf(pt2, pgdir, b).is_some(),
        leaf(pt2, pgdir, c).is_some(),
        frame(pt2, pgdir, b) == frame(pt2, pgdir, c),
    ensures
        b / 0x1000 == c / 0x1000,
{
    reveal(user_frames_ok);
    if b / 0x1000 == a / 0x1000 {
        assert(leaf(pt2, pgdir, b).is_none());
    }
    if c / 0x1000 == a / 0x1000 {
        assert(leaf(pt2, pgdir, c).is_none());
    }
    assert(leaf(pt2, pgdir, b) == leaf(pt0, pgdir, b));
    assert(leaf(pt2, pgdir, c) == leaf(pt0, pgdir, c));
    assert(frame(pt0, pgdir, b) == frame(pt0, pgdir, c));
}

/// After the page of `a` is unmapped and its physical page freed, the user
/// memory still owns its pages.
proof fn lemma_unmap_frames(pt0: Map<u64, PageTable>, pt2: Map<u64, PageTable>, al0: Seq<u64>, al2: Seq<u64>, pgdir: u64, a: u64)
    requires
        user_frames_ok(pt0, pgdir, al0),
        alloc_ok(pt0, al0),
        unmapped_page(pt0, pt2, al0, al2, pgdir, a),
    ensures
        alloc_ok(pt2, al2),
        user_frames_ok(pt2, pgdir, al2),
{
    reveal(user_frames_ok);
    lemma_unmap_alloc_ok(pt0, pt2, al0, al2, pgdir, a);
    assert forall|b: u64| b < USER_TOP && (#[trigger] leaf(pt2, pgdir, b)).is_some() implies {
        &&& pte_addr(leaf(pt2, pgdir, b).unwrap().0) < TABLE_PA_LIMIT
        &&& !pt2.contains_key(frame(pt2, pgdir, b))
        &&& !al2.contains(frame(pt2, pgdir, b))
    } by {
        lemma_unmap_owned(pt0, pt2, al0, al2, pgdir, a, b);
    }
    assert forall|b: u64, c: u64|
        b < USER_TOP && c < USER_TOP && leaf(pt2, pgdir, b).is_some() && leaf(pt2, pgdir, c).is_some() && #[trigger] frame(
            pt2,
            pgdir,
            b,
        ) == #[trigger] frame(pt2, pgdir, c) implies b / 0x1000 == c / 0x1000 by {
        lemma_unmap_distinct(pt0, pt2, al0, al2, pgdir, a, b, c);
    }
}

/// Unmap the user page at `a`, if it is mapped, and free the physical page
/// it mapped (unless that is physical page 0).
pub fn unmap_page(pt: &mut PageTables, allocator: &mut Allocator, pgdir: u64, a: u64)
    requires
        old(pt).wf(),
        tree(old(pt)@),
        old(allocator).wf(),
        alloc_ok(old(pt)@, old(allocator)@),
        old(pt)@.contains_key(pgdir),
        old(pt)@[pgdir].level == 3,
        user_small_pages(old(pt)@, pgdir),
        user_frames_ok(old(pt)@, pgdir, old(allocator)@),
        a < USER_TOP,
        a % 0x1000 == 0,
    ensures
        final(pt).wf(),
        tree(final(pt)@),
        final(allocator).wf(),
        alloc_ok(final(pt)@, final(allocator)@),
        final(pt)@.contains_key(pgdir),
        final(pt)@[pgdir].level == 3,
        final(pt)@.dom() == old(pt)@.dom(),
        user_small_pages(final(pt)@, pgdir),
        user_frames_ok(final(pt)@, pgdir, final(allocator)@),
        final(allocator)@ == old(allocator)@ + match page_frame(old(pt)@, pgdir, a) {
            Some(f) => seq![f],
            None => Seq::empty(),
        },
        forall|b: u64| b < USER_TOP && b / 0x1000 != a / 0x1000 ==> #[trigger] leaf(final(pt)@, pgdir, b) == leaf(old(pt)@, pgdir, b),
        forall|b: u64| b / 0x1000 == a / 0x1000 ==> #[trigger] leaf(final(pt)@, pgdir, b).is_none(),
{
    let ghost pt0 = pt@;
    let ghost al0 = allocator@;
    proof {
        crate::mapping::lemma_wf_map(pt);
        assert(no_huge_on_path(pt0, pgdir, a));
    }
    let w = walk(pt, allocator, pgdir, a, false, 0);
    let (t, i) = match w {
        None => {
            proof {
                assert(path(pt0, pgdir, a, 0).is_none());
                assert(leaf(pt0, pgdir, a).is_none());
                assert(al0 =~= al0 + Seq::<u64>::empty());
                assert forall|b: u64| b / 0x1000 == a / 0x1000 implies #[trigger] leaf(pt0, pgdir, b).is_none() by {
                    lemma_leaf_same_page(pt0, pgdir, a, b);
                }
            }
            return;
        },
        Some(x) => x,
    };
    let e = read_entry(pt, t, i);
    if e & PTE_P == 0 {
        proof {
            assert(leaf(pt0, pgdir, a).is_none());
            assert(al0 =~= al0 + Seq::<u64>::empty());
            assert forall|b: u64| b / 0x1000 == a / 0x1000 implies #[trigger] leaf(pt0, pgdir, b).is_none() by {
                lemma_leaf_same_page(pt0, pgdir, a, b);
            }
        }
        return;
    }
    let pa = PageTableEntry(e).addr();
    proof {
        assert(leaf(pt0, pgdir, a) == Some((e, 0int)));
        reveal(user_frames_ok);
        assert(frame(pt0, pgdir, a) == (pa + KERNBASE) as u64);
        assert(pte_addr(e) < TABLE_PA_LIMIT);
        assert((e & 0x000f_ffff_ffff_f000u64) % 0x1000 == 0) by (bit_vector);
    }
    if pa != 0 {
        allocator.kfree(pa + KERNBASE);
    }
    write_entry(pt, t, i, 0);
    proof {
        let pt2 = pt@;
        lemma_unmap_leaf(pt0, pt2, pgdir, a, t);
        crate::mapping::lemma_wf_map(pt);
        if pa != 0 {
            assert(allocator@ =~= al0 + seq![(pa + KERNBASE) as u64]);
        } else {
            assert(allocator@ =~= al0 + Seq::<u64>::empty());
        }
        lemma_unmap_frames(pt0, pt2, al0, allocator@, pgdir, a);
    }
}

/// Shrink the user memory of `pgdir` from `old_sz` to `new_sz` bytes: unmap
/// the pages from the page boundary at or above `new_sz` up to the one at or
/// above `old_sz`, freeing their physical pages, and return the new size.
/// A new size that is not smaller changes nothing and returns `old_sz`.
#[verifier::rlimit(40)]
#[verifier::spinoff_prover]
pub fn uvm_dealloc(pt: &mut PageTables, allocator: &mut Allocator, pgdir: u64, old_sz: u64, new_sz: u64) -> (r: u64)
    requires
        old(pt).wf(),
        tree(old(pt)@),
        old(allocator).wf(),
        alloc_ok(old(pt)@, old(allocator)@),
        old(pt)@.contains_key(pgdir),
        old(pt)@[pgdir].level == 3,
        user_small_pages(old(pt)@, pgdir),
        user_frames_ok(old(pt)@, pgdir, old(allocator)@),
        old_sz <= USER_TOP,
    ensures
        r == if new_sz >= old_sz {
            old_sz
        } else {
            new_sz
        },
        final(pt).wf(),
        tree(final(pt)@),
        final(allocator).wf(),
        alloc_ok(final(pt)@, final(allocator)@),
        final(pt)@.contains_key(pgdir),
        final(pt)@[pgdir].level == 3,
        final(pt)@.dom() == old(pt)@.dom(),
        user_small_pages(final(pt)@, pgdir),
        user_frames_ok(final(pt)@, pgdir, final(allocator)@),
        new_sz >= old_sz ==> final(pt)@ == old(pt)@ && final(allocator)@ == old(allocator)@,
        new_sz < old_sz ==> final(allocator)@ == old(allocator)@ + freed_frames(
            old(pt)@,
            pgdir,
            crate::allocator::round_up_page(new_sz as int),
            crate::allocator::round_up_page(old_sz as int),
        ),
        new_sz < old_sz ==> forall|b: u64|
            b < USER_TOP ==> #[trigger] leaf(final(pt)@, pgdir, b) == if crate::allocator::round_up_page(new_sz as int) <= b
                < crate::allocator::round_up_page(old_sz as int) {
                None
            } else {
                leaf(old(pt)@, pgdir, b)
            },
{
    if new_sz >= old_sz {
        return old_sz;
    }
    let ghost pt0 = pt@;
    let ghost al0 = allocator@;
    let mut a = crate::allocator::pgroundup(new_sz);
    let end = crate::allocator::pgroundup(old_sz);
    proof {
        assert(al0 =~= al0 + freed_frames(pt0, pgdir, a as int, a as int));
    }
    while a < end
        invariant
            pt0 == old(pt)@,
            al0 == old(allocator)@,
            a % 0x1000 == 0,
            end % 0x1000 == 0,
            crate::allocator::round_up_page(new_sz as int) <= a <= end,
            end == crate::allocator::round_up_page(old_sz as int),
            end <= USER_TOP,
            pt.wf(),
            tree(pt@),
            allocator.wf(),
            alloc_ok(pt@, allocator@),
            pt@.contains_key(pgdir),
            pt@[pgdir].level == 3,
            pt@.dom() == pt0.dom(),
            user_small_pages(pt@, pgdir),
            user_frames_ok(pt@, pgdir, allocator@),
            allocator@ == al0 + freed_frames(pt0, pgdir, crate::allocator::round_up_page(new_sz as int), a as int),
            forall|b: u64|
                b < USER_TOP ==> #[trigger] leaf(pt@, pgdir, b) == if crate::allocator::round_up_page(new_sz as int)
                    <= b < a {
                    None
                } else {
                    leaf(pt0, pgdir, b)
                },
        decreases end - a,
    {
        let ghost ptp = pt@;
        let ghost alp = allocator@;
        unmap_page(pt, allocator, pgdir, a);
        proof {
            assert(leaf(ptp, pgdir, a) == leaf(pt0, pgdir, a));
            assert(page_frame(ptp, pgdir, a) == page_frame(pt0, pgdir, a));
            let lo = crate::allocator::round_up_page(new_sz as int);
            assert(freed_frames(pt0, pgdir, lo, a + 0x1000) == freed_frames(pt0, pgdir, lo, a as int) + match page_frame(
                pt0,
                pgdir,
                a,
            ) {
                Some(f) => seq![f],
                None => Seq::empty(),
            });
            assert(allocator@ =~= al0 + freed_frames(pt0, pgdir, lo, a + 0x1000));
            assert forall|b: u64| b < USER_TOP implies #[trigger] leaf(pt@, pgdir, b) == if lo <= b < a + 0x1000 {
                None
            } else {
                leaf(pt0, pgdir, b)
            } by {
                if b / 0x1000 == a / 0x1000 {
                    assert(a <= b < a + 0x1000);
                } else {
                    assert(leaf(pt@, pgdir, b) == leaf(ptp, pgdir, b));
                    assert(!(a <= b < a + 0x1000));
                }
            }
        }
        a = a + 0x1000;
    }
    new_sz
}

/// Freeing the pages of `[lo, hi)` frees at most one page per page of the
/// range.
pub proof fn lemma_freed_frames_len(pt: Map<u64, PageTable>, pgdir: u64, lo: int, hi: int)
    requires
        lo <= hi,
        (hi - lo) % 0x1000 == 0,
    ensures
        freed_frames(pt, pgdir, lo, hi).len() <= (hi - lo) / 0x1000,
    decreases hi - lo,
{
    if hi >= lo + 0x1000 {
        lemma_freed_frames_len(pt, pgdir, lo, hi - 0x1000);
    }
}

/// What holds while `uvm_alloc` maps its pages: good tables and free list,
/// the user memory owning its pages, the pages from `lo` to `a` mapped, and
/// every other user page as it was.
#[verifier::opaque]
pub open spec fn alloc_inv(pt: Map<u64, PageTable>, al: Seq<u64>, pt0: Map<u64, PageTable>, pgdir: u64, lo: int, a: int) -> bool {
    &&& crate::mapping::wf_map(pt)
    &&& tree(pt)
    &&& al.no_duplicates()
    &&& !al.contains(0u64)
    &&& alloc_ok(pt, al)
    &&& pt.contains_key(pgdir)
    &&& pt[pgdir].level == 3
    &&& user_small_pages(pt, pgdir)
    &&& user_frames_ok(pt, pgdir, al)
    &&& forall|b: u64| lo <= b < a ==> #[trigger] user_page(pt, pgdir, b)
    &&& forall|b: u64| b < USER_TOP && !(lo <= b < a) ==> #[trigger] leaf(pt, pgdir, b) == leaf(pt0, pgdir, b)
    &&& forall|b: u64| a <= b < USER_TOP ==> #[trigger] slot_taken(pt, pgdir, b, 0) == slot_taken(pt0, pgdir, b, 0)
}

proof fn lemma_alloc_inv_open(pt: &PageTables, al: &Allocator, pt0: Map<u64, PageTable>, pgdir: u64, lo: int, a: int)
    requires
        alloc_inv(pt@, al@, pt0, pgdir, lo, a),
    ensures
        pt.wf(),
        tree(pt@),
        al.wf(),
        alloc_ok(pt@, al@),
        pt@.contains_key(pgdir),
        pt@[pgdir].level == 3,
        user_small_pages(pt@, pgdir),
        user_frames_ok(pt@, pgdir, al@),
        forall|b: u64| lo <= b < a ==> #[trigger] user_page(pt@, pgdir, b),
        forall|b: u64| b < USER_TOP && !(lo <= b < a) ==> #[trigger] leaf(pt@, pgdir, b) == leaf(pt0, pgdir, b),
        forall|b: u64| a <= b < USER_TOP ==> #[trigger] slot_taken(pt@, pgdir, b, 0) == slot_taken(pt0, pgdir, b, 0),
{
    reveal(alloc_inv);
    crate::mapping::lemma_wf_map(pt);
}

proof fn lemma_alloc_inv_step(ptp: Map<u64, PageTable>, pt1: &PageTables, al1: &Allocator, pt0: Map<u64, PageTable>, pgdir: u64, lo: int, a: u64)
    requires
        alloc_inv(ptp, al1@, pt0, pgdir, lo, a as int) || true,
        forall|b: u64| lo <= b < a ==> #[trigger] user_page(ptp, pgdir, b),
        forall|b: u64| b < USER_TOP && !(lo <= b < a) ==> #[trigger] leaf(ptp, pgdir, b) == leaf(pt0, pgdir, b),
        forall|b: u64| a <= b < USER_TOP ==> #[trigger] slot_taken(ptp, pgdir, b, 0) == slot_taken(pt0, pgdir, b, 0),
        lo <= a < USER_TOP,
        a % 0x1000 == 0,
        pt1.wf(),
        tree(pt1@),
        al1.wf(),
        alloc_ok(pt1@, al1@),
        pt1@.contains_key(pgdir),
        pt1@[pgdir].level == 3,
        user_small_pages(pt1@, pgdir),
        user_frames_ok(pt1@, pgdir, al1@),
        forall|b: u64|
            b < USER_TOP && b / 0x1000 != a / 0x1000 ==> #[trigger] leaf(pt1@, pgdir, b) == leaf(ptp, pgdir, b)
                && slot_taken(pt1@, pgdir, b, 0) == slot_taken(ptp, pgdir, b, 0),
        forall|b: u64| b / 0x1000 == a / 0x1000 ==> #[trigger] user_page(pt1@, pgdir, b),
    ensures
        alloc_inv(pt1@, al1@, pt0, pgdir, lo, a + 0x1000),
{
    reveal(alloc_inv);
    crate::mapping::lemma_wf_map(pt1);
    assert forall|b: u64| lo <= b < a + 0x1000 implies #[trigger] user_page(pt1@, pgdir, b) by {
        if b < a {
            assert(b / 0x1000 != a / 0x1000);
            assert(user_page(ptp, pgdir, b));
            assert(leaf(pt1@, pgdir, b) == leaf(ptp, pgdir, b));
        } else {
            assert(b / 0x1000 == a / 0x1000);
        }
    }
    assert forall|b: u64| b < USER_TOP && !(lo <= b < a + 0x1000) implies #[trigger] leaf(pt1@, pgdir, b) == leaf(
        pt0,
        pgdir,
        b,
    ) by {
        assert(b / 0x1000 != a / 0x1000);
        assert(leaf(pt1@, pgdir, b) == leaf(ptp, pgdir, b));
    }
    assert forall|b: u64| a + 0x1000 <= b < USER_TOP implies #[trigger] slot_taken(pt1@, pgdir, b, 0) == slot_taken(
        pt0,
        pgdir,
        b,
        0,
    ) by {
        assert(b / 0x1000 != a / 0x1000);
        assert(leaf(pt1@, pgdir, b) == leaf(ptp, pgdir, b));
        assert(slot_taken(pt1@, pgdir, b, 0) == slot_taken(ptp, pgdir, b, 0));
    }
}

proof fn lemma_alloc_inv_open_map(pt: Map<u64, PageTable>, al: Seq<u64>, pt0: Map<u64, PageTable>, pgdir: u64, lo: int, a: int)
    requires
        alloc_inv(pt, al, pt0, pgdir, lo, a),
    ensures
        user_frames_ok(pt, pgdir, al),
        forall|b: u64| b < USER_TOP && !(lo <= b < a) ==> #[trigger] leaf(pt, pgdir, b) == leaf(pt0, pgdir, b),
        forall|b: u64| a <= b < USER_TOP ==> #[trigger] slot_taken(pt, pgdir, b, 0) == slot_taken(pt0, pgdir, b, 0),
{
    reveal(user_frames_ok);
    reveal(alloc_inv);
}

/// A page that no user page maps and no table uses can be freed without
/// breaking the ownership of user memory.
proof fn lemma_free_unused(pt: Map<u64, PageTable>, pgdir: u64, al: Seq<u64>, m: u64)
    requires
        user_frames_ok(pt, pgdir, al),
        alloc_ok(pt, al),
        !pt.contains_key(m),
        table_page_ok(m),
        forall|b: u64| b < USER_TOP && (#[trigger] leaf(pt, pgdir, b)).is_some() ==> frame(pt, pgdir, b) != m,
    ensures
        user_frames_ok(pt, pgdir, al.push(m)),
        alloc_ok(pt, al.push(m)),
{
    reveal(user_frames_ok);
    assert forall|b: u64| b < USER_TOP && (#[trigger] leaf(pt, pgdir, b)).is_some() implies {
        &&& pte_addr(leaf(pt, pgdir, b).unwrap().0) < TABLE_PA_LIMIT
        &&& !pt.contains_key(frame(pt, pgdir, b))
        &&& !al.push(m).contains(frame(pt, pgdir, b))
    } by {
        if al.push(m).contains(frame(pt, pgdir, b)) {
            let k = choose|k: int| 0 <= k < al.push(m).len() && al.push(m)[k] == frame(pt, pgdir, b);
            if k < al.len() {
                assert(al[k] == frame(pt, pgdir, b));
            }
        }
    }
    assert forall|k: int| 0 <= k < al.push(m).len() implies !pt.contains_key(#[trigger] al.push(m)[k]) && table_page_ok(
        al.push(m)[k],
    ) by {
        if k < al.len() {
            assert(al.push(m)[k] == al[k]);
        }
    }
}

/// What a failed `uvm_alloc` leaves: the pages it mapped unmapped again,
/// every other user page as it was, and (when memory ran out) little free.
proof fn lemma_uvm_alloc_failed(
    pt0: Map<u64, PageTable>,
    ptp: Map<u64, PageTable>,
    pt_f: Map<u64, PageTable>,
    pt_e: Map<u64, PageTable>,
    al_f: Seq<u64>,
    al_e: Seq<u64>,
    pgdir: u64,
    old_sz: u64,
    lo: u64,
    a: u64,
)
    requires
        lo == crate::allocator::round_up_page(old_sz as int),
        lo <= a,
        a % 0x1000 == 0,
        a <= USER_TOP,
        forall|b: u64| b < USER_TOP && !(lo <= b < a) ==> #[trigger] leaf(ptp, pgdir, b) == leaf(pt0, pgdir, b),
        forall|b: u64| b < USER_TOP ==> #[trigger] leaf(pt_f, pgdir, b) == leaf(ptp, pgdir, b),
        old_sz < a ==> al_e == al_f + freed_frames(pt_f, pgdir, lo as int, a as int),
        old_sz >= a ==> al_e == al_f && pt_e == pt_f,
        old_sz < a ==> forall|b: u64|
            b < USER_TOP ==> #[trigger] leaf(pt_e, pgdir, b) == if lo <= b < a {
                None
            } else {
                leaf(pt_f, pgdir, b)
            },
    ensures
        forall|b: u64|
            b < USER_TOP ==> #[trigger] leaf(pt_e, pgdir, b) == if lo <= b < a {
                None
            } else {
                leaf(pt0, pgdir, b)
            },
        al_e.len() <= al_f.len() + (a - lo) / 0x1000,
{
    assert(crate::allocator::round_up_page(a as int) == a);
    if old_sz < a {
        lemma_freed_frames_len(pt_f, pgdir, lo as int, a as int);
    } else {
        assert(lo == a);
    }
    assert forall|b: u64| b < USER_TOP implies #[trigger] leaf(pt_e, pgdir, b) == if lo <= b < a {
        None
    } else {
        leaf(pt0, pgdir, b)
    } by {
        if !(lo <= b < a) {
            assert(leaf(pt_f, pgdir, b) == leaf(ptp, pgdir, b));
        }
    }
}

/// Whether page `x`, taken from the free list, is now a table of `pt` or
/// the frame of a user page of `[lo, a)` (or the page at physical address
/// 0, which no entry can name).
pub open spec fn taken_page(pt: Map<u64, PageTable>, pgdir: u64, lo: int, a: int, x: u64) -> bool {
    ||| x == KERNBASE
    ||| pt.contains_key(x)
    ||| exists|b: u64| lo <= b < a && b % 0x1000 == 0 && #[trigger] page_frame(pt, pgdir, b) == Some(x)
}

/// Every page taken so far from the free list `al0`, which is now `al`,
/// is a table or the frame of a user page of `[lo, a)`.
#[verifier::opaque]
pub open spec fn taken_ok(pt: Map<u64, PageTable>, al: Seq<u64>, al0: Seq<u64>, pgdir: u64, lo: int, a: int) -> bool {
    &&& al.len() <= al0.len()
    &&& al == al0.take(al.len() as int)
    &&& forall|k: int| al.len() <= k < al0.len() ==> #[trigger] taken_page(pt, pgdir, lo, a, al0[k])
}

/// Every page that left the free list `al0`, now `al`, is a table of `pt`:
/// the only pages not handed back. (The page at physical address 0, whose
/// entry reads as no page, is the one exception.)
#[verifier::opaque]
pub open spec fn frames_returned(al0: Seq<u64>, al: Seq<u64>, pt: Map<u64, PageTable>) -> bool {
    forall|x: u64| al0.contains(x) && !al.contains(x) && x != KERNBASE ==> #[trigger] pt.contains_key(x)
}

/// The pages freed for `[lo, hi)` include the frame of each user page there.
proof fn lemma_freed_contains(pt: Map<u64, PageTable>, pgdir: u64, lo: int, hi: int, b: u64, x: u64)
    requires
        lo <= b < hi,
        b % 0x1000 == 0,
        lo % 0x1000 == 0,
        hi % 0x1000 == 0,
        page_frame(pt, pgdir, b) == Some(x),
    ensures
        freed_frames(pt, pgdir, lo, hi).contains(x),
    decreases hi - lo,
{
    let f = freed_frames(pt, pgdir, lo, hi);
    if b == hi - 0x1000 {
        assert(f == freed_frames(pt, pgdir, lo, hi - 0x1000) + seq![x]);
        assert(f[f.len() - 1] == x);
    } else {
        lemma_freed_contains(pt, pgdir, lo, hi - 0x1000, b, x);
        let g = freed_frames(pt, pgdir, lo, hi - 0x1000);
        let k = choose|k: int| 0 <= k < g.len() && g[k] == x;
        assert(f[k] == g[k]);
    }
}

/// A page mapped at `a` keeps every taken page accounted for, with `a`
/// now in the range.
proof fn lemma_taken_step(
    ptp: Map<u64, PageTable>,
    pt1: Map<u64, PageTable>,
    alp: Seq<u64>,
    al1: Seq<u64>,
    al0: Seq<u64>,
    pgdir: u64,
    lo: int,
    a: u64,
    m: u64,
)
    requires
        taken_ok(ptp, alp, al0, pgdir, lo, a as int),
        alp.len() > 0,
        m == alp.last(),
        al1.len() <= alp.len(),
        al1 == alp.take(al1.len() as int),
        forall|k: int| al1.len() <= k < alp.len() - 1 ==> #[trigger] pt1.contains_key(alp[k]),
        forall|t: u64| #[trigger] ptp.contains_key(t) ==> pt1.contains_key(t),
        forall|b: u64| b < USER_TOP && b / 0x1000 != a / 0x1000 ==> #[trigger] leaf(pt1, pgdir, b) == leaf(ptp, pgdir, b),
        table_page_ok(m),
        leaf(pt1, pgdir, a) == Some((make_pte((m - KERNBASE) as u64, USER_PERM | PTE_PRESENT), 0int)),
        lo <= a < USER_TOP,
        a % 0x1000 == 0,
    ensures
        taken_ok(pt1, al1, al0, pgdir, lo, a + 0x1000),
{
    reveal(taken_ok);
    law_pte_fields((m - KERNBASE) as u64, USER_PERM | PTE_PRESENT);
    crate::vm::lemma_aligned_addr((m - KERNBASE) as u64);
    assert(al1 =~= al0.take(al1.len() as int));
    assert forall|k: int| al1.len() <= k < al0.len() implies #[trigger] taken_page(pt1, pgdir, lo, a + 0x1000, al0[k]) by {
        if k < alp.len() - 1 {
            assert(alp[k] == al0[k]);
        } else if k == alp.len() - 1 {
            assert(alp[k] == al0[k]);
            if m != KERNBASE {
                assert(page_frame(pt1, pgdir, a) == Some(m));
            }
        } else {
            let x = al0[k];
            assert(taken_page(ptp, pgdir, lo, a as int, x));
            if !ptp.contains_key(x) && x != KERNBASE {
                let b = choose|b: u64| lo <= b < a && b % 0x1000 == 0 && #[trigger] page_frame(ptp, pgdir, b) == Some(x);
                assert(b / 0x1000 < a / 0x1000) by (nonlinear_arith)
                    requires
                        b < a,
                        b % 0x1000 == 0,
                        a % 0x1000 == 0,
                ;
                assert(leaf(pt1, pgdir, b) == leaf(ptp, pgdir, b));
                assert(page_frame(pt1, pgdir, b) == Some(x));
            }
        }
    }
}

/// After a failed step of `uvm_alloc` and the unmapping of `[lo, a)`,
/// every page that left the free list is a table.
proof fn lemma_frames_returned(
    ptp: Map<u64, PageTable>,
    pt_f: Map<u64, PageTable>,
    pt_e: Map<u64, PageTable>,
    alp: Seq<u64>,
    al_f: Seq<u64>,
    al_e: Seq<u64>,
    al0: Seq<u64>,
    pgdir: u64,
    lo: int,
    a: int,
    old_sz: u64,
)
    requires
        taken_ok(ptp, alp, al0, pgdir, lo, a),
        forall|x: u64| alp.contains(x) && !al_f.contains(x) && x != KERNBASE ==> #[trigger] pt_f.contains_key(x),
        forall|t: u64| #[trigger] ptp.contains_key(t) ==> pt_f.contains_key(t),
        forall|b: u64| b < USER_TOP ==> #[trigger] leaf(pt_f, pgdir, b) == leaf(ptp, pgdir, b),
        lo == crate::allocator::round_up_page(old_sz as int),
        lo <= a,
        a % 0x1000 == 0,
        a <= USER_TOP,
        old_sz < a ==> al_e == al_f + freed_frames(pt_f, pgdir, lo, a),
        old_sz >= a ==> al_e == al_f,
        pt_e.dom() == pt_f.dom(),
    ensures
        frames_returned(al0, al_e, pt_e),
{
    reveal(taken_ok);
    reveal(frames_returned);
    assert(lo % 0x1000 == 0);
    assert forall|x: u64| al0.contains(x) && !al_e.contains(x) && x != KERNBASE implies #[trigger] pt_e.contains_key(x) by {
        let k = choose|k: int| 0 <= k < al0.len() && al0[k] == x;
        if al_f.contains(x) {
            let j = choose|j: int| 0 <= j < al_f.len() && al_f[j] == x;
            assert(al_e[j] == x);
        }
        if k < alp.len() {
            assert(alp[k] == x);
            assert(alp.contains(x));
            assert(pt_f.dom().contains(x));
        } else {
            assert(taken_page(ptp, pgdir, lo, a, al0[k]));
            if ptp.contains_key(x) {
                assert(pt_f.dom().contains(x));
            } else {
                let b = choose|b: u64| lo <= b < a && b % 0x1000 == 0 && #[trigger] page_frame(ptp, pgdir, b) == Some(x);
                assert(leaf(pt_f, pgdir, b) == leaf(ptp, pgdir, b));
                assert(page_frame(pt_f, pgdir, b) == Some(x));
                if old_sz < a {
                    lemma_freed_contains(pt_f, pgdir, lo, a, b, x);
                    let fr = freed_frames(pt_f, pgdir, lo, a);
                    let j = choose|j: int| 0 <= j < fr.len() && fr[j] == x;
                    assert(al_e[al_f.len() + j] == x);
                } else {
                    assert(crate::allocator::round_up_page(old_sz as int) >= old_sz);
                }
            }
        }
    }
}

/// The pages a failed `map_new_page` took, less its frame (handed back by
/// the caller), became tables.
proof fn lemma_unmapped_lost(alp: Seq<u64>, al_mid: Seq<u64>, pt_f: Map<u64, PageTable>, mem: u64)
    requires
        alp.len() > 0,
        mem == alp.last(),
        al_mid.len() <= alp.len(),
        al_mid == alp.take(al_mid.len() as int),
        forall|k: int| al_mid.len() <= k < alp.len() - 1 ==> #[trigger] pt_f.contains_key(alp[k]),
    ensures
        forall|x: u64| alp.contains(x) && !al_mid.push(mem).contains(x) && x != KERNBASE ==> #[trigger] pt_f.contains_key(x),
{
    assert forall|x: u64| alp.contains(x) && !al_mid.push(mem).contains(x) && x != KERNBASE implies #[trigger] pt_f.contains_key(x) by {
        let k = choose|k: int| 0 <= k < alp.len() && alp[k] == x;
        if k < al_mid.len() {
            assert(al_mid.push(mem)[k] == x);
        } else if k == alp.len() - 1 {
            assert(al_mid.push(mem)[al_mid.len() as int] == x);
        }
    }
}

/// What a failed `uvm_alloc` promises, with `a_f` the page it failed at.
pub open spec fn alloc_failed_at(
    pt: Map<u64, PageTable>,
    al: Seq<u64>,
    pt0: Map<u64, PageTable>,
    pgdir: u64,
    lo: int,
    a_f: u64,
) -> bool {
    &&& forall|b: u64|
        b < USER_TOP ==> #[trigger] leaf(pt, pgdir, b) == if lo <= b < a_f {
            None
        } else {
            leaf(pt0, pgdir, b)
        }
    &&& (slot_taken(pt0, pgdir, a_f, 0) || al.len() <= (a_f - lo) / 0x1000 + 1)
}

/// A page taken from the free list and then left unmapped is no user
/// page's.
proof fn lemma_unmapped_frame_unused(
    ptp: Map<u64, PageTable>,
    pt: Map<u64, PageTable>,
    alp: Seq<u64>,
    pgdir: u64,
    mem: u64,
)
    requires
        user_frames_ok(ptp, pgdir, alp),
        alp.len() > 0,
        mem == alp.last(),
        forall|b: u64| b < USER_TOP ==> #[trigger] leaf(pt, pgdir, b) == leaf(ptp, pgdir, b),
    ensures
        forall|b: u64| b < USER_TOP && (#[trigger] leaf(pt, pgdir, b)).is_some() ==> frame(pt, pgdir, b) != mem,
{
    reveal(user_frames_ok);
    assert forall|b: u64| b < USER_TOP && (#[trigger] leaf(pt, pgdir, b)).is_some() implies frame(pt, pgdir, b) != mem by {
        assert(leaf(pt, pgdir, b) == leaf(ptp, pgdir, b));
        assert(frame(pt, pgdir, b) == frame(ptp, pgdir, b));
        assert(!alp.contains(frame(ptp, pgdir, b)));
        assert(alp[alp.len() - 1] == mem);
    }
}

/// Map a fresh page at `a` for `uvm_alloc`; when that fails, free the page
/// and unmap and free the pages mapped since `lo`.
#[verifier::rlimit(100)]
#[verifier::spinoff_prover]
fn alloc_page(
    pt: &mut PageTables,
    allocator: &mut Allocator,
    pgdir: u64,
    old_sz: u64,
    lo: u64,
    a: u64,
    Ghost(pt0): Ghost<Map<u64, PageTable>>,
    Ghost(al0): Ghost<Seq<u64>>,
) -> (r: bool)
    requires
        alloc_inv(old(pt)@, old(allocator)@, pt0, pgdir, lo as int, a as int),
        taken_ok(old(pt)@, old(allocator)@, al0, pgdir, lo as int, a as int),
        lo == crate::allocator::round_up_page(old_sz as int),
        lo <= a < USER_TOP,
        a % 0x1000 == 0,
    ensures
        r ==> alloc_inv(final(pt)@, final(allocator)@, pt0, pgdir, lo as int, a + 0x1000),
        r ==> taken_ok(final(pt)@, final(allocator)@, al0, pgdir, lo as int, a + 0x1000),
        !r ==> frames_returned(al0, final(allocator)@, final(pt)@),
        !r ==> {
            &&& final(pt).wf()
            &&& tree(final(pt)@)
            &&& final(allocator).wf()
            &&& alloc_ok(final(pt)@, final(allocator)@)
            &&& final(pt)@.contains_key(pgdir)
            &&& final(pt)@[pgdir].level == 3
            &&& user_small_pages(final(pt)@, pgdir)
            &&& user_frames_ok(final(pt)@, pgdir, final(allocator)@)
            &&& alloc_failed_at(final(pt)@, final(allocator)@, pt0, pgdir, lo as int, a)
        },
{
    let ghost ptp = pt@;
    let ghost alp = allocator@;
    proof {
        lemma_alloc_inv_open(pt, allocator, pt0, pgdir, lo as int, a as int);
        lemma_alloc_inv_open_map(ptp, alp, pt0, pgdir, lo as int, a as int);
    }
    let page = map_new_page(pt, allocator, pgdir, a);
    match page {
        NewPage::Mapped(m) => {
            proof {
                lemma_alloc_inv_step(ptp, pt, allocator, pt0, pgdir, lo as int, a);
                lemma_taken_step(ptp, pt@, alp, allocator@, al0, pgdir, lo as int, a, m);
            }
            true
        },
        NewPage::NoMemory => {
            let ghost pt_f = pt@;
            uvm_dealloc(pt, allocator, pgdir, a, old_sz);
            proof {
                lemma_uvm_alloc_failed(pt0, ptp, pt_f, pt@, alp, allocator@, pgdir, old_sz, lo, a);
                lemma_frames_returned(ptp, pt_f, pt@, alp, alp, allocator@, al0, pgdir, lo as int, a as int, old_sz);
            }
            false
        },
        NewPage::Unmapped(mem) => {
            let ghost al_f = allocator@;
            proof {
                lemma_unmapped_lost(alp, al_f, pt@, mem);
                crate::mapping::lemma_wf_map(pt);
                lemma_unmapped_frame_unused(ptp, pt@, alp, pgdir, mem);
                lemma_free_unused(pt@, pgdir, allocator@, mem);
            }
            allocator.kfree(mem);
            let ghost pt_f = pt@;
            uvm_dealloc(pt, allocator, pgdir, a, old_sz);
            proof {
                lemma_uvm_alloc_failed(pt0, ptp, pt_f, pt@, al_f.push(mem), allocator@, pgdir, old_sz, lo, a);
                lemma_frames_returned(ptp, pt_f, pt@, alp, al_f.push(mem), allocator@, al0, pgdir, lo as int, a as int, old_sz);
                if !slot_taken(pt0, pgdir, a, 0) {
                    assert(al_f.len() == 0);
                }
            }
            false
        },
    }
}

/// Grow the user memory of `pgdir` from `old_sz` to `new_sz` bytes: map a
/// fresh zeroed page, user-writable, at every page from the boundary at or
/// above `old_sz` below `new_sz`, and return the new size. A smaller new
/// size changes nothing and returns `old_sz`. When memory runs out or a page
/// is mapped already, the pages mapped so far are unmapped and freed again,
/// and the result is `None`.
pub fn uvm_alloc(pt: &mut PageTables, allocator: &mut Allocator, pgdir: u64, old_sz: u64, new_sz: u64) -> (r: Option<u64>)
    requires
        old(pt).wf(),
        tree(old(pt)@),
        old(allocator).wf(),
        alloc_ok(old(pt)@, old(allocator)@),
        old(pt)@.contains_key(pgdir),
        old(pt)@[pgdir].level == 3,
        user_small_pages(old(pt)@, pgdir),
        user_frames_ok(old(pt)@, pgdir, old(allocator)@),
        old_sz <= USER_TOP,
        new_sz <= USER_TOP,
    ensures
        final(pt).wf(),
        tree(final(pt)@),
        final(allocator).wf(),
        alloc_ok(final(pt)@, final(allocator)@),
        final(pt)@.contains_key(pgdir),
        final(pt)@[pgdir].level == 3,
        user_small_pages(final(pt)@, pgdir),
        user_frames_ok(final(pt)@, pgdir, final(allocator)@),
        new_sz < old_sz ==> r == Some(old_sz) && final(pt)@ == old(pt)@ && final(allocator)@ == old(allocator)@,
        new_sz >= old_sz && r is Some ==> {
            &&& r == Some(new_sz)
            &&& forall|b: u64|
                crate::allocator::round_up_page(old_sz as int) <= b < new_sz ==> #[trigger] user_page(final(pt)@, pgdir, b)
            &&& forall|b: u64|
                b < USER_TOP && !(crate::allocator::round_up_page(old_sz as int) <= b < crate::allocator::round_up_page(
                    new_sz as int,
                )) ==> #[trigger] leaf(final(pt)@, pgdir, b) == leaf(old(pt)@, pgdir, b)
        },
        r is None ==> frames_returned(old(allocator)@, final(allocator)@, final(pt)@),
        r is None ==> new_sz >= old_sz && exists|a_f: u64|
            crate::allocator::round_up_page(old_sz as int) <= a_f < new_sz && a_f % 0x1000 == 0
                && #[trigger] alloc_failed_at(
                final(pt)@,
                final(allocator)@,
                old(pt)@,
                pgdir,
                crate::allocator::round_up_page(old_sz as int),
                a_f,
            ),
{
    if new_sz < old_sz {
        return Some(old_sz);
    }
    let ghost pt0 = pt@;
    let ghost al0 = allocator@;
    let lo = crate::allocator::pgroundup(old_sz);
    let mut a = lo;
    proof {
        reveal(alloc_inv);
        crate::mapping::lemma_wf_map(pt);
        assert(al0 =~= al0.take(al0.len() as int));
        reveal(taken_ok);
    }
    while a < new_sz
        invariant
            pt0 == old(pt)@,
            lo == crate::allocator::round_up_page(old_sz as int),
            lo % 0x1000 == 0,
            lo <= a,
            a % 0x1000 == 0,
            new_sz <= USER_TOP,
            a <= new_sz + 0xFFF,
            alloc_inv(pt@, allocator@, pt0, pgdir, lo as int, a as int),
            al0 == old(allocator)@,
            taken_ok(pt@, allocator@, al0, pgdir, lo as int, a as int),
        decreases new_sz + 0x1000 - a,
    {
        if !alloc_page(pt, allocator, pgdir, old_sz, lo, a, Ghost(pt0), Ghost(al0)) {
            return None;
        }
        a = a + 0x1000;
    }
    proof {
        lemma_alloc_inv_open(pt, allocator, pt0, pgdir, lo as int, a as int);
        assert forall|b: u64| lo <= b < new_sz implies #[trigger] user_page(pt@, pgdir, b) by {}
        assert forall|b: u64|
            b < USER_TOP && !(lo <= b < crate::allocator::round_up_page(new_sz as int)) implies #[trigger] leaf(
            pt@,
            pgdir,
            b,
        ) == leaf(pt0, pgdir, b) by {
            assert(!(lo <= b < a));
        }
    }
    Some(new_sz)
}

/// How a page fault was handled.
pub enum Fault {
    /// The address lies outside the process: it is to be killed.
    SegFault,
    /// No memory for the page: the process is to be killed.
    OutOfMemory,
    /// The page could not be mapped: the process is to be killed.
    MapFailed,
    /// The page is mapped now.
    Mapped,
}

/// Handle a page fault at `addr` in a process of `sz` bytes whose page table
/// is `pgdir` (demand paging): inside the process, map a fresh zeroed page,
/// user-writable, at the page of `addr`; outside, refuse.
pub fn handle_page_fault(pt: &mut PageTables, allocator: &mut Allocator, pgdir: u64, sz: u64, addr: u64) -> (r: Fault)
    requires
        old(pt).wf(),
        tree(old(pt)@),
        old(allocator).wf(),
        alloc_ok(old(pt)@, old(allocator)@),
        old(pt)@.contains_key(pgdir),
        old(pt)@[pgdir].level == 3,
        user_small_pages(old(pt)@, pgdir),
        user_frames_ok(old(pt)@, pgdir, old(allocator)@),
        sz <= USER_TOP,
    ensures
        final(pt).wf(),
        tree(final(pt)@),
        final(allocator).wf(),
        alloc_ok(final(pt)@, final(allocator)@),
        final(pt)@.contains_key(pgdir),
        final(pt)@[pgdir].level == 3,
        user_small_pages(final(pt)@, pgdir),
        user_frames_ok(final(pt)@, pgdir, final(allocator)@),
        r is SegFault <==> addr >= sz,
        r is SegFault || r is OutOfMemory ==> final(pt)@ == old(pt)@ && final(allocator)@ == old(allocator)@,
        r is OutOfMemory ==> addr < sz && old(allocator)@.len() == 0,
        r is MapFailed ==> slot_taken(old(pt)@, pgdir, addr, 0) || final(allocator)@.len() == 1,
        r is MapFailed ==> {
            &&& old(allocator)@.len() > 0
            &&& final(allocator)@.len() <= old(allocator)@.len()
            &&& final(allocator)@.last() == old(allocator)@.last()
            &&& final(allocator)@.drop_last() == old(allocator)@.take(final(allocator)@.len() - 1)
        },
        r is MapFailed ==> forall|b: u64| b < USER_TOP ==> #[trigger] leaf(final(pt)@, pgdir, b) == leaf(old(pt)@, pgdir, b),
        r is Mapped ==> forall|b: u64| b / 0x1000 == addr / 0x1000 ==> #[trigger] user_page(final(pt)@, pgdir, b),
        r is Mapped ==> forall|b: u64|
            b < USER_TOP && b / 0x1000 != addr / 0x1000 ==> #[trigger] leaf(final(pt)@, pgdir, b) == leaf(old(pt)@, pgdir, b),
{
    let page = match crate::trap::page_fault_page(addr, sz) {
        None => {
            return Fault::SegFault;
        },
        Some(p) => p,
    };
    let ghost pt0 = pt@;
    let ghost al0 = allocator@;
    proof {
        assert(page == addr - addr % 0x1000);
        assert(page / 0x1000 == addr / 0x1000);
    }
    match map_new_page(pt, allocator, pgdir, page) {
        NewPage::NoMemory => Fault::OutOfMemory,
        NewPage::Mapped(_) => {
            proof {
                assert forall|b: u64| b / 0x1000 == addr / 0x1000 implies #[trigger] user_page(pt@, pgdir, b) by {
                    assert(b / 0x1000 == page / 0x1000);
                }
                assert forall|b: u64| b < USER_TOP && b / 0x1000 != addr / 0x1000 implies #[trigger] leaf(pt@, pgdir, b)
                    == leaf(pt0, pgdir, b) by {
                    assert(b / 0x1000 != page / 0x1000);
                }
            }
            Fault::Mapped
        },
        NewPage::Unmapped(mem) => {
            let ghost al_f = allocator@;
            proof {
                crate::mapping::lemma_wf_map(pt);
                lemma_unmapped_frame_unused(pt0, pt@, al0, pgdir, mem);
                lemma_free_unused(pt@, pgdir, allocator@, mem);
                crate::exec::lemma_slot_same_page(pt0, pgdir, page, addr);
            }
            proof {
                if al_f.len() >= al0.len() {
                    assert(al_f[al0.len() - 1] == al0[al0.len() - 1]);
                    assert(al_f.contains(mem));
                }
            }
            allocator.kfree(mem);
            proof {
                assert(allocator@.drop_last() =~= al_f);
                assert(al_f =~= al0.take(al_f.len() as int));
            }
            Fault::MapFailed
        },
    }
}

/// Grow or shrink the memory of process `p` by `n` bytes. Growing only
/// raises its size: pages are mapped when first touched. Shrinking unmaps
/// and frees the pages above the new size; a shrink below zero leaves the
/// size as it is.
pub fn growproc(p: &mut crate::proc::Process, pt: &mut PageTables, allocator: &mut Allocator, n: i64) -> (r: Result<
    (),
    (),
>)
    requires
        old(pt).wf(),
        tree(old(pt)@),
        old(allocator).wf(),
        alloc_ok(old(pt)@, old(allocator)@),
        old(pt)@.contains_key(old(p).pgdir),
        old(pt)@[old(p).pgdir].level == 3,
        user_small_pages(old(pt)@, old(p).pgdir),
        user_frames_ok(old(pt)@, old(p).pgdir, old(allocator)@),
        old(p).sz <= USER_TOP,
        n > 0 ==> old(p).sz + n <= u64::MAX,
    ensures
        r is Ok,
        final(pt).wf(),
        tree(final(pt)@),
        final(allocator).wf(),
        alloc_ok(final(pt)@, final(allocator)@),
        final(p).pgdir == old(p).pgdir,
        final(p).state == old(p).state,
        final(p).kstack == old(p).kstack,
        final(p).pid == old(p).pid,
        final(pt)@.contains_key(final(p).pgdir),
        user_small_pages(final(pt)@, final(p).pgdir),
        user_frames_ok(final(pt)@, final(p).pgdir, final(allocator)@),
        n >= 0 ==> final(p).sz == old(p).sz + n && final(pt)@ == old(pt)@ && final(allocator)@ == old(allocator)@,
        n < 0 && old(p).sz + n < 0 ==> final(p).sz == old(p).sz && final(pt)@ == old(pt)@ && final(allocator)@ == old(
            allocator,
        )@,
        n < 0 && old(p).sz + n >= 0 ==> {
            &&& final(p).sz == old(p).sz + n
            &&& final(allocator)@ == old(allocator)@ + freed_frames(
                old(pt)@,
                old(p).pgdir,
                crate::allocator::round_up_page(old(p).sz + n),
                crate::allocator::round_up_page(old(p).sz as int),
            )
            &&& forall|b: u64|
                b < USER_TOP ==> #[trigger] leaf(final(pt)@, final(p).pgdir, b) == if crate::allocator::round_up_page(
                    old(p).sz + n,
                ) <= b < crate::allocator::round_up_page(old(p).sz as int) {
                    None
                } else {
                    leaf(old(pt)@, old(p).pgdir, b)
                }
        },
{
    if n > 0 {
        p.sz = p.sz + n as u64;
    } else if n < 0 {
        let new_sz: u64 = if (p.sz as i64) + n < 0 {
            p.sz
        } else {
            ((p.sz as i64) + n) as u64
        };
        let sz = uvm_dealloc(pt, allocator, p.pgdir, p.sz, new_sz);
        p.sz = sz;
    }
    Ok(())
}

} // verus!
