use vstd::prelude::*;
use crate::allocator::Allocator;
use crate::mapping::{huge_at, map_first, map_last, map_pages, slot_taken, vpn};
use crate::util::{KERNBASE, PG_SIZE};
use crate::uvm::{lemma_user_apart, lemma_user_page_step, user_small_pages, USER_TOP};
use crate::vm::{
    alloc_ok, extends, grows_leafy, index_at, leaf, make_pte, no_huge_on_path, pte_addr, pte_flags,
    table_page_ok, tables_from, tree, walk, PageTable, PageTables, ADDR_MASK, FLAGS_MASK, PTE_HUGE_PAGE,
    PTE_PRESENT,
};

verus! {

/// The entry mapping `va` under `pgdir` and its level, read from the
/// tables: what `leaf` describes.
pub fn read_leaf(pt: &mut PageTables, allocator: &mut Allocator, pgdir: u64, va: u64) -> (r: Option<(u64, u8)>)
    requires
        old(pt).wf(),
        tree(old(pt)@),
        old(allocator).wf(),
        alloc_ok(old(pt)@, old(allocator)@),
        old(pt)@.contains_key(pgdir),
        old(pt)@[pgdir].level == 3,
    ensures
        final(pt)@ == old(pt)@,
        final(allocator)@ == old(allocator)@,
        final(pt).wf(),
        final(allocator).wf(),
        r == match leaf(old(pt)@, pgdir, va) {
            Some((e, l)) => Some((e, l as u8)),
            None => None::<(u64, u8)>,
        },
{
    match walk(pt, allocator, pgdir, va, false, 1) {
        None => None,
        Some((t1, i1)) => {
            let e1 = match pt.tables.get(&t1) {
                Some(tb) => tb.entries[i1],
                None => {
                    return None;
                },
            };
            if e1 & PTE_PRESENT != 0 && e1 & PTE_HUGE_PAGE != 0 {
                return Some((e1, 1));
            }
            if e1 & PTE_PRESENT == 0 {
                return None;
            }
            assert(crate::vm::is_pointer(e1, 1));
            let t0 = (e1 & ADDR_MASK) + KERNBASE;
            match pt.tables.get(&t0) {
                None => None,
                Some(tb) => {
                    let e0 = tb.entries[index_at(va, 0)];
                    if e0 & PTE_PRESENT != 0 {
                        Some((e0, 0))
                    } else {
                        None
                    }
                },
            }
        },
    }
}

/// A user page that `uvm_copy` duplicated: its address, the physical address
/// of the page copied from, the fresh page (a kernel address) copied to, and
/// the flags of the mapping.
#[derive(Clone, Copy, Debug, PartialEq, Eq, Structural)]
pub struct PageCopy {
    pub va: u64,
    pub src: u64,
    pub dst: u64,
    pub flags: u64,
}

/// Map a fresh page from the allocator at the user page `va` of `pgdir`,
/// with `flags`, as the copy of the page at physical address `src`.
fn copy_page(pt: &mut PageTables, allocator: &mut Allocator, pgdir: u64, va: u64, src: u64, flags: u64) -> (r:
    Option<PageCopy>)
    requires
        old(pt).wf(),
        tree(old(pt)@),
        old(allocator).wf(),
        alloc_ok(old(pt)@, old(allocator)@),
        old(pt)@.contains_key(pgdir),
        old(pt)@[pgdir].level == 3,
        user_small_pages(old(pt)@, pgdir),
        va < USER_TOP,
        va % 0x1000 == 0,
    ensures
        final(pt).wf(),
        tree(final(pt)@),
        final(allocator).wf(),
        alloc_ok(final(pt)@, final(allocator)@),
        grows_leafy(old(pt)@, final(pt)@),
        final(allocator)@.len() <= old(allocator)@.len(),
        final(allocator)@ == old(allocator)@.take(final(allocator)@.len() as int),
        tables_from(old(pt)@, old(allocator)@, final(pt)@),
        final(pt)@.contains_key(pgdir),
        final(pt)@[pgdir].level == 3,
        user_small_pages(final(pt)@, pgdir),
        forall|b: u64|
            b < USER_TOP && b / 0x1000 != va / 0x1000 ==> #[trigger] leaf(final(pt)@, pgdir, b) == leaf(old(pt)@, pgdir, b)
                && slot_taken(final(pt)@, pgdir, b, 0) == slot_taken(old(pt)@, pgdir, b, 0),
        r matches Some(c) ==> {
            &&& c.va == va && c.src == src && c.flags == flags
            &&& leaf(final(pt)@, pgdir, va) == Some((make_pte((c.dst - KERNBASE) as u64, flags | PTE_PRESENT), 0int))
            &&& old(allocator)@.contains(c.dst)
            &&& !final(allocator)@.contains(c.dst)
            &&& !final(pt)@.contains_key(c.dst)
        },
        r is None ==> final(allocator)@.len() == 0 || slot_taken(old(pt)@, pgdir, va, 0),
{
    let ghost pt0 = pt@;
    let ghost al0 = allocator@;
    let mem = allocator.kalloc();
    if mem == 0 {
        proof {
            crate::vm::lemma_extends_refl(pt0);
            assert(grows_leafy(pt0, pt0));
            assert(al0 =~= al0.take(al0.len() as int));
        }
        return None;
    }
    let ghost al1 = allocator@;
    proof {
        assert(al0[al0.len() - 1] == mem);
        assert(table_page_ok(mem));
        assert forall|k: int| 0 <= k < al1.len() implies !pt0.contains_key(#[trigger] al1[k]) && table_page_ok(al1[k]) by {
            assert(al1[k] == al0[k]);
        }
        assert(map_first(va) == va);
        assert(map_last(va, 0x1000) == va);
        assert forall|x: u64| map_first(va) <= x <= map_last(va, 0x1000) && !huge_at(
            map_first(va),
            map_last(va, 0x1000),
            (mem - KERNBASE) as int,
            x as int,
        ) implies #[trigger] no_huge_on_path(pt0, pgdir, x) by {}
    }
    let ok = map_pages(pt, allocator, pgdir, va, mem - KERNBASE, 0x1000, flags);
    let ghost pt1 = pt@;
    proof {
        lemma_user_page_step(pt0, pt1, pgdir, va, (mem - KERNBASE) as u64);
        assert(allocator@ =~= al0.take(allocator@.len() as int));
        assert(!al1.contains(mem)) by {
            if al1.contains(mem) {
                let k = choose|k: int| 0 <= k < al1.len() && al1[k] == mem;
                assert(al0[k] == al0[al0.len() - 1]);
            }
        }
        assert(!allocator@.contains(mem)) by {
            if allocator@.contains(mem) {
                let k = choose|k: int| 0 <= k < allocator@.len() && allocator@[k] == mem;
                assert(al1[k] == mem);
            }
        }
        assert(!pt1.contains_key(mem)) by {
            if pt1.contains_key(mem) {
                assert(pt0.contains_key(mem) || al1.contains(mem));
            }
        }
        assert(al0.contains(mem)) by {
            assert(al0[al0.len() - 1] == mem);
        }
        assert forall|t: u64| #[trigger] pt1.contains_key(t) implies pt0.contains_key(t) || al0.contains(t) by {
            if !pt0.contains_key(t) {
                assert(al1.contains(t));
                let k = choose|k: int| 0 <= k < al1.len() && al1[k] == t;
                assert(al0[k] == t);
            }
        }
        assert forall|b: u64| b < USER_TOP && b / 0x1000 != va / 0x1000 implies #[trigger] leaf(pt1, pgdir, b) == leaf(
            pt0,
            pgdir,
            b,
        ) && slot_taken(pt1, pgdir, b, 0) == slot_taken(pt0, pgdir, b, 0) by {
            lemma_user_apart(va, b);
            assert forall|c: u64| map_first(va) <= c <= map_last(va, 0x1000) implies vpn(c as int) != vpn(b as int) by {}
        }
        if !ok {
            if allocator@.len() != 0 {
                let x = choose|x: u64|
                    map_first(va) <= x <= map_last(va, 0x1000) && x as int % (PG_SIZE as int) == 0 && #[trigger] slot_taken(
                        pt0,
                        pgdir,
                        x,
                        crate::mapping::chunk_level(map_first(va), map_last(va, 0x1000), (mem - KERNBASE) as int, x as int),
                    );
                assert(x == va);
                assert(!huge_at(va as int, va as int, (mem - KERNBASE) as int, va as int));
            }
        } else {
            assert(!huge_at(va as int, va as int, (mem - KERNBASE) as int, va as int));
            assert(va - va % 0x1000 == va);
        }
    }
    if !ok {
        return None;
    }
    Some(PageCopy { va, src, dst: mem, flags })
}

/// Whether `c` is a copy made under `new_pgdir`: a page-aligned user
/// address mapped, with the copy's flags, to the fresh page `c.dst`, which
/// came from the allocator's free pages `al0`, is no longer free and is no
/// page table; and, when the old table mapped the address at the start, the
/// copy is of that mapping's page and flags.
pub open spec fn copy_made(
    pt0: Map<u64, PageTable>,
    pt: Map<u64, PageTable>,
    al0: Seq<u64>,
    al: Seq<u64>,
    old_pgdir: u64,
    new_pgdir: u64,
    c: PageCopy,
) -> bool {
    &&& c.va % 0x1000 == 0
    &&& c.va < USER_TOP
    &&& leaf(pt, new_pgdir, c.va) == Some((make_pte((c.dst - KERNBASE) as u64, c.flags | PTE_PRESENT), 0int))
    &&& al0.contains(c.dst)
    &&& !al.contains(c.dst)
    &&& !pt.contains_key(c.dst)
    &&& leaf(pt0, old_pgdir, c.va) is Some ==> c.src == pte_addr(leaf(pt0, old_pgdir, c.va).unwrap().0)
        && c.flags == pte_flags(leaf(pt0, old_pgdir, c.va).unwrap().0)
}

/// Whether the page at `b`, mapped by entry `e`, is among the copies.
pub open spec fn copied(copies: Seq<PageCopy>, b: u64, e: u64) -> bool {
    exists|k: int|
        0 <= k < copies.len() && (#[trigger] copies[k]).va == b && copies[k].src == pte_addr(e) && copies[k].flags
            == pte_flags(e)
}

/// Whether the old table maps page `b` with a 4 KiB page.
pub open spec fn small_leaf(pt: Map<u64, PageTable>, pgdir: u64, b: u64) -> bool {
    leaf(pt, pgdir, b) matches Some((e, l)) && l == 0
}

proof fn lemma_take_not_contains(al0: Seq<u64>, al1: Seq<u64>, al2: Seq<u64>, x: u64)
    requires
        al1 == al0.take(al1.len() as int),
        al2 == al0.take(al2.len() as int),
        al2.len() <= al1.len() <= al0.len(),
        !al1.contains(x),
    ensures
        !al2.contains(x),
{
    if al2.contains(x) {
        let k = choose|k: int| 0 <= k < al2.len() && al2[k] == x;
        assert(al1[k] == x);
    }
}

/// What `uvm_copy` has done once it reached page `i`: the copies made so
/// far (below `i`), every page below `i` that the old table mapped with a
/// 4 KiB page among them, and the level-0 slots of `new_pgdir` from `i` on
/// as they were.
#[verifier::opaque]
spec fn copy_inv(
    pt0: Map<u64, PageTable>,
    pt: Map<u64, PageTable>,
    al0: Seq<u64>,
    al: Seq<u64>,
    old_pgdir: u64,
    new_pgdir: u64,
    i: int,
    sz: int,
    copies: Seq<PageCopy>,
) -> bool {
    &&& forall|k: int|
        0 <= k < copies.len() ==> copies[k].va < i && copies[k].va < sz && copy_made(
            pt0,
            pt,
            al0,
            al,
            old_pgdir,
            new_pgdir,
            #[trigger] copies[k],
        )
    &&& forall|b: u64|
        b < i && b % 0x1000 == 0 && #[trigger] small_leaf(pt0, old_pgdir, b) ==> copied(
            copies,
            b,
            leaf(pt0, old_pgdir, b).unwrap().0,
        )
    &&& forall|b: u64| i <= b < USER_TOP ==> #[trigger] slot_taken(pt, new_pgdir, b, 0) == slot_taken(pt0, new_pgdir, b, 0)
}

/// Whether one of the copies is for the page of `b`.
pub open spec fn copied_page(copies: Seq<PageCopy>, b: u64) -> bool {
    exists|k: int| 0 <= k < copies.len() && (#[trigger] copies[k]).va / 0x1000 == b / 0x1000
}

/// A new copy of page `va` keeps every change to `new_pgdir` among the
/// copies' pages.
proof fn lemma_new_leaves_step(
    pt0: Map<u64, PageTable>,
    ptc: Map<u64, PageTable>,
    pt1: Map<u64, PageTable>,
    new_pgdir: u64,
    copies0: Seq<PageCopy>,
    c: PageCopy,
)
    requires
        forall|b: u64|
            b < USER_TOP && #[trigger] leaf(ptc, new_pgdir, b) != leaf(pt0, new_pgdir, b) ==> copied_page(copies0, b),
        forall|b: u64|
            b < USER_TOP && b / 0x1000 != c.va / 0x1000 ==> #[trigger] leaf(pt1, new_pgdir, b) == leaf(ptc, new_pgdir, b),
    ensures
        forall|b: u64|
            b < USER_TOP && #[trigger] leaf(pt1, new_pgdir, b) != leaf(pt0, new_pgdir, b) ==> copied_page(copies0.push(c), b),
{
    let cs = copies0.push(c);
    assert forall|b: u64| b < USER_TOP && #[trigger] leaf(pt1, new_pgdir, b) != leaf(pt0, new_pgdir, b) implies copied_page(
        cs,
        b,
    ) by {
        if b / 0x1000 == c.va / 0x1000 {
            assert(cs[copies0.len() as int] == c);
        } else {
            assert(leaf(ptc, new_pgdir, b) != leaf(pt0, new_pgdir, b));
            let k = choose|k: int| 0 <= k < copies0.len() && (#[trigger] copies0[k]).va / 0x1000 == b / 0x1000;
            assert(cs[k] == copies0[k]);
        }
    }
}

/// The copies made before a failure stay mapped: every page below `i` that
/// the old table mapped with a 4 KiB page is mapped in `new_pgdir`.
proof fn lemma_copies_kept(
    pt0: Map<u64, PageTable>,
    ptc: Map<u64, PageTable>,
    ptf: Map<u64, PageTable>,
    al0: Seq<u64>,
    alc: Seq<u64>,
    old_pgdir: u64,
    new_pgdir: u64,
    i: int,
    sz: int,
    copies: Seq<PageCopy>,
)
    requires
        copy_inv(pt0, ptc, al0, alc, old_pgdir, new_pgdir, i, sz, copies),
        extends(ptc, ptf),
        forall|t: u64| #[trigger] ptc.contains_key(t) ==> ptc[t].entries@.len() == 512,
    ensures
        forall|b: u64|
            b < i && b % 0x1000 == 0 && #[trigger] small_leaf(pt0, old_pgdir, b) ==> leaf(ptf, new_pgdir, b) is Some,
{
    reveal(copy_inv);
    assert forall|b: u64|
        b < i && b % 0x1000 == 0 && #[trigger] small_leaf(pt0, old_pgdir, b) implies leaf(ptf, new_pgdir, b) is Some by {
        assert(copied(copies, b, leaf(pt0, old_pgdir, b).unwrap().0));
        let k = choose|k: int|
            0 <= k < copies.len() && (#[trigger] copies[k]).va == b && copies[k].src == pte_addr(
                leaf(pt0, old_pgdir, b).unwrap().0,
            ) && copies[k].flags == pte_flags(leaf(pt0, old_pgdir, b).unwrap().0);
        assert(copy_made(pt0, ptc, al0, alc, old_pgdir, new_pgdir, copies[k]));
        crate::vm::law_extends_keeps_leaf(ptc, ptf, new_pgdir, b);
    }
}

proof fn lemma_copy_start(pt0: Map<u64, PageTable>, al0: Seq<u64>, old_pgdir: u64, new_pgdir: u64, sz: int)
    ensures
        copy_inv(pt0, pt0, al0, al0, old_pgdir, new_pgdir, 0, sz, Seq::empty()),
{
    reveal(copy_inv);
}

proof fn lemma_copy_done(
    pt0: Map<u64, PageTable>,
    pt: Map<u64, PageTable>,
    al0: Seq<u64>,
    al: Seq<u64>,
    old_pgdir: u64,
    new_pgdir: u64,
    i: int,
    sz: int,
    copies: Seq<PageCopy>,
)
    requires
        copy_inv(pt0, pt, al0, al, old_pgdir, new_pgdir, i, sz, copies),
        sz <= i,
    ensures
        forall|k: int|
            0 <= k < copies.len() ==> copies[k].va < sz && copy_made(
                pt0,
                pt,
                al0,
                al,
                old_pgdir,
                new_pgdir,
                #[trigger] copies[k],
            ),
        forall|b: u64|
            b < sz && b % 0x1000 == 0 && #[trigger] small_leaf(pt0, old_pgdir, b) ==> copied(
                copies,
                b,
                leaf(pt0, old_pgdir, b).unwrap().0,
            ),
{
    reveal(copy_inv);
}

/// Nothing to copy at page `i`.
proof fn lemma_copy_skip(
    pt0: Map<u64, PageTable>,
    pt: Map<u64, PageTable>,
    al0: Seq<u64>,
    al: Seq<u64>,
    old_pgdir: u64,
    new_pgdir: u64,
    i: int,
    sz: int,
    copies: Seq<PageCopy>,
)
    requires
        copy_inv(pt0, pt, al0, al, old_pgdir, new_pgdir, i, sz, copies),
        i % 0x1000 == 0,
        !small_leaf(pt0, old_pgdir, i as u64),
        0 <= i < USER_TOP,
    ensures
        copy_inv(pt0, pt, al0, al, old_pgdir, new_pgdir, i + 0x1000, sz, copies),
{
    reveal(copy_inv);
    assert forall|b: u64| b < i + 0x1000 && b % 0x1000 == 0 && #[trigger] small_leaf(pt0, old_pgdir, b) implies copied(
        copies,
        b,
        leaf(pt0, old_pgdir, b).unwrap().0,
    ) by {
        if b >= i {
            assert(b == i);
        }
    }
}

/// The copy of page `i` was made.
proof fn lemma_copy_step(
    pt0: Map<u64, PageTable>,
    ptc: Map<u64, PageTable>,
    pt1: Map<u64, PageTable>,
    al0: Seq<u64>,
    alc: Seq<u64>,
    al1: Seq<u64>,
    old_pgdir: u64,
    new_pgdir: u64,
    i: int,
    sz: int,
    copies: Seq<PageCopy>,
    c: PageCopy,
)
    requires
        copy_inv(pt0, ptc, al0, alc, old_pgdir, new_pgdir, i, sz, copies),
        0 <= i < sz <= USER_TOP,
        i % 0x1000 == 0,
        alc == al0.take(alc.len() as int),
        al1 == al0.take(al1.len() as int),
        al1.len() <= alc.len() <= al0.len(),
        tables_from(ptc, alc, pt1),
        c.va == i,
        leaf(pt1, new_pgdir, c.va) == Some((make_pte((c.dst - KERNBASE) as u64, c.flags | PTE_PRESENT), 0int)),
        alc.contains(c.dst),
        !al1.contains(c.dst),
        !pt1.contains_key(c.dst),
        leaf(pt0, old_pgdir, i as u64) is Some ==> c.src == pte_addr(leaf(pt0, old_pgdir, i as u64).unwrap().0)
            && c.flags == pte_flags(leaf(pt0, old_pgdir, i as u64).unwrap().0),
        forall|b: u64|
            b < USER_TOP && b / 0x1000 != i / 0x1000 ==> #[trigger] leaf(pt1, new_pgdir, b) == leaf(ptc, new_pgdir, b)
                && slot_taken(pt1, new_pgdir, b, 0) == slot_taken(ptc, new_pgdir, b, 0),
    ensures
        copy_inv(pt0, pt1, al0, al1, old_pgdir, new_pgdir, i + 0x1000, sz, copies.push(c)),
{
    reveal(copy_inv);
    let cs = copies.push(c);
    assert forall|k: int| 0 <= k < cs.len() implies cs[k].va < i + 0x1000 && cs[k].va < sz && copy_made(
        pt0,
        pt1,
        al0,
        al1,
        old_pgdir,
        new_pgdir,
        #[trigger] cs[k],
    ) by {
        if k < copies.len() {
            let ck = copies[k];
            assert(cs[k] == ck);
            assert(copy_made(pt0, ptc, al0, alc, old_pgdir, new_pgdir, ck));
            assert(ck.va / 0x1000 != i / 0x1000);
            assert(leaf(pt1, new_pgdir, ck.va) == leaf(ptc, new_pgdir, ck.va));
            lemma_take_not_contains(al0, alc, al1, ck.dst);
            assert(!pt1.contains_key(ck.dst)) by {
                if pt1.contains_key(ck.dst) {
                    assert(ptc.contains_key(ck.dst) || alc.contains(ck.dst));
                }
            }
        } else {
            assert(cs[k] == c);
            let w = choose|w: int| 0 <= w < alc.len() && alc[w] == c.dst;
            assert(al0[w] == c.dst);
        }
    }
    assert forall|b: u64| b < i + 0x1000 && b % 0x1000 == 0 && #[trigger] small_leaf(pt0, old_pgdir, b) implies copied(
        cs,
        b,
        leaf(pt0, old_pgdir, b).unwrap().0,
    ) by {
        if b < i {
            assert(copied(copies, b, leaf(pt0, old_pgdir, b).unwrap().0));
            let k = choose|k: int|
                0 <= k < copies.len() && (#[trigger] copies[k]).va == b && copies[k].src == pte_addr(
                    leaf(pt0, old_pgdir, b).unwrap().0,
                ) && copies[k].flags == pte_flags(leaf(pt0, old_pgdir, b).unwrap().0);
            assert(cs[k] == copies[k]);
        } else {
            assert(b == i);
            assert(cs[copies.len() as int] == c);
        }
    }
    assert forall|b: u64| i + 0x1000 <= b < USER_TOP implies #[trigger] slot_taken(pt1, new_pgdir, b, 0) == slot_taken(
        pt0,
        new_pgdir,
        b,
        0,
    ) by {
        assert(b / 0x1000 != i / 0x1000);
        assert(leaf(pt1, new_pgdir, b) == leaf(ptc, new_pgdir, b));
        assert(slot_taken(ptc, new_pgdir, b, 0) == slot_taken(pt0, new_pgdir, b, 0));
    }
}

/// A copy failed at page `i` for want of memory or a taken slot.
proof fn lemma_copy_failed(
    pt0: Map<u64, PageTable>,
    ptc: Map<u64, PageTable>,
    al0: Seq<u64>,
    alc: Seq<u64>,
    old_pgdir: u64,
    new_pgdir: u64,
    i: int,
    sz: int,
    copies: Seq<PageCopy>,
)
    requires
        copy_inv(pt0, ptc, al0, alc, old_pgdir, new_pgdir, i, sz, copies),
        0 <= i < sz <= USER_TOP,
        i % 0x1000 == 0,
        slot_taken(ptc, new_pgdir, i as u64, 0),
    ensures
        exists|b: u64| b < sz && b % 0x1000 == 0 && #[trigger] slot_taken(pt0, new_pgdir, b, 0),
{
    reveal(copy_inv);
    assert(slot_taken(pt0, new_pgdir, i as u64, 0));
}

/// Whatever a table mapped it still maps after the tables only grew.
proof fn lemma_old_kept(pt0: Map<u64, PageTable>, pt: Map<u64, PageTable>, pgdir: u64)
    requires
        grows_leafy(pt0, pt),
        forall|t: u64| #[trigger] pt0.contains_key(t) ==> pt0[t].entries@.len() == 512,
    ensures
        forall|b: u64| #[trigger] leaf(pt0, pgdir, b) is Some ==> leaf(pt, pgdir, b) == leaf(pt0, pgdir, b),
{
    assert forall|b: u64| #[trigger] leaf(pt0, pgdir, b) is Some implies leaf(pt, pgdir, b) == leaf(pt0, pgdir, b) by {
        crate::vm::law_extends_keeps_leaf(pt0, pt, pgdir, b);
    }
}

/// Duplicate the user memory of `old_pgdir` below `sz` into `new_pgdir`:
/// every present 4 KiB page gets a fresh page mapped at the same address
/// with the same flags, and the result lists the pages whose contents the
/// caller copies. `None` when memory runs out or a page of `new_pgdir` is
/// already mapped; the copies made so far stay mapped.
pub fn uvm_copy(pt: &mut PageTables, allocator: &mut Allocator, old_pgdir: u64, new_pgdir: u64, sz: u64) -> (r:
    Option<Vec<PageCopy>>)
    requires
        old(pt).wf(),
        tree(old(pt)@),
        old(allocator).wf(),
        alloc_ok(old(pt)@, old(allocator)@),
        old(pt)@.contains_key(old_pgdir),
        old(pt)@[old_pgdir].level == 3,
        old(pt)@.contains_key(new_pgdir),
        old(pt)@[new_pgdir].level == 3,
        user_small_pages(old(pt)@, new_pgdir),
        sz <= USER_TOP,
    ensures
        final(pt).wf(),
        tree(final(pt)@),
        final(allocator).wf(),
        alloc_ok(final(pt)@, final(allocator)@),
        grows_leafy(old(pt)@, final(pt)@),
        final(allocator)@.len() <= old(allocator)@.len(),
        final(allocator)@ == old(allocator)@.take(final(allocator)@.len() as int),
        tables_from(old(pt)@, old(allocator)@, final(pt)@),
        final(pt)@.contains_key(new_pgdir),
        final(pt)@[new_pgdir].level == 3,
        user_small_pages(final(pt)@, new_pgdir),
        forall|b: u64|
            #[trigger] leaf(old(pt)@, old_pgdir, b) is Some ==> leaf(final(pt)@, old_pgdir, b) == leaf(old(pt)@, old_pgdir, b),
        r matches Some(copies) ==> {
            &&& forall|b: u64|
                b < USER_TOP && #[trigger] leaf(final(pt)@, new_pgdir, b) != leaf(old(pt)@, new_pgdir, b) ==> copied_page(
                    copies@,
                    b,
                )
            &&& forall|k: int|
                0 <= k < copies@.len() ==> copies@[k].va < sz && copy_made(
                    old(pt)@,
                    final(pt)@,
                    old(allocator)@,
                    final(allocator)@,
                    old_pgdir,
                    new_pgdir,
                    #[trigger] copies@[k],
                )
            &&& forall|b: u64|
                b < sz && b % 0x1000 == 0 && #[trigger] small_leaf(old(pt)@, old_pgdir, b) ==> copied(
                    copies@,
                    b,
                    leaf(old(pt)@, old_pgdir, b).unwrap().0,
                )
        },
        r is None ==> final(allocator)@.len() == 0 || exists|b: u64|
            b < sz && b % 0x1000 == 0 && #[trigger] slot_taken(old(pt)@, new_pgdir, b, 0),
        r is None ==> exists|i_f: u64|
            i_f < sz && i_f % 0x1000 == 0 && #[trigger] small_leaf(final(pt)@, old_pgdir, i_f) && forall|b: u64|
                b < i_f && b % 0x1000 == 0 && #[trigger] small_leaf(old(pt)@, old_pgdir, b) ==> leaf(
                    final(pt)@,
                    new_pgdir,
                    b,
                ) is Some,
{
    let ghost pt0 = pt@;
    let ghost al0 = allocator@;
    let mut copies: Vec<PageCopy> = Vec::new();
    let mut i: u64 = 0;
    proof {
        crate::vm::lemma_extends_refl(pt0);
        assert(grows_leafy(pt0, pt0));
        assert(al0 =~= al0.take(al0.len() as int));
        lemma_copy_start(pt0, al0, old_pgdir, new_pgdir, sz as int);
        assert(copies@ =~= Seq::<PageCopy>::empty());
    }
    while i < sz
        invariant
            pt0 == old(pt)@,
            al0 == old(allocator)@,
            pt.wf(),
            tree(pt@),
            allocator.wf(),
            alloc_ok(pt@, allocator@),
            grows_leafy(pt0, pt@),
            allocator@.len() <= al0.len(),
            allocator@ == al0.take(allocator@.len() as int),
            tables_from(pt0, al0, pt@),
            pt@.contains_key(old_pgdir),
            pt@[old_pgdir].level == 3,
            pt@.contains_key(new_pgdir),
            pt@[new_pgdir].level == 3,
            user_small_pages(pt@, new_pgdir),
            forall|t: u64| #[trigger] pt0.contains_key(t) ==> pt0[t].entries@.len() == 512,
            sz <= USER_TOP,
            i % 0x1000 == 0,
            i <= USER_TOP,
            i < sz + 0x1000,
            copy_inv(pt0, pt@, al0, allocator@, old_pgdir, new_pgdir, i as int, sz as int, copies@),
            forall|b: u64|
                b < USER_TOP && #[trigger] leaf(pt@, new_pgdir, b) != leaf(pt0, new_pgdir, b) ==> copied_page(copies@, b),
        decreases sz + 0x1000 - i,
    {
        let ghost ptc = pt@;
        let ghost alc = allocator@;
        let lf = read_leaf(pt, allocator, old_pgdir, i);
        proof {
            if leaf(pt0, old_pgdir, i).is_some() {
                crate::vm::law_extends_keeps_leaf(pt0, ptc, old_pgdir, i);
            }
        }
        match lf {
            Some((e, 0)) => {
                let src = e & ADDR_MASK;
                let flags = e & FLAGS_MASK;
                let ghost copies0 = copies@;
                match copy_page(pt, allocator, new_pgdir, i, src, flags) {
                    None => {
                        proof {
                            if allocator@.len() != 0 {
                                lemma_copy_failed(pt0, ptc, al0, alc, old_pgdir, new_pgdir, i as int, sz as int, copies0);
                            }
                            crate::address_space::lemma_grows_leafy_trans(pt0, ptc, pt@);
                            crate::mapping::lemma_tables_from_trans(pt0, al0, ptc, alc, pt@);
                            assert(allocator@ =~= al0.take(allocator@.len() as int));
                            lemma_old_kept(pt0, pt@, old_pgdir);
                            lemma_copies_kept(pt0, ptc, pt@, al0, alc, old_pgdir, new_pgdir, i as int, sz as int, copies0);
                            crate::vm::law_extends_keeps_leaf(ptc, pt@, old_pgdir, i);
                            assert(small_leaf(pt@, old_pgdir, i));
                        }
                        return None;
                    },
                    Some(c) => {
                        proof {
                            lemma_new_leaves_step(pt0, ptc, pt@, new_pgdir, copies0, c);
                        }
                        copies.push(c);
                        proof {
                            crate::address_space::lemma_grows_leafy_trans(pt0, ptc, pt@);
                            crate::mapping::lemma_tables_from_trans(pt0, al0, ptc, alc, pt@);
                            assert(allocator@ =~= al0.take(allocator@.len() as int));
                            lemma_copy_step(
                                pt0,
                                ptc,
                                pt@,
                                al0,
                                alc,
                                allocator@,
                                old_pgdir,
                                new_pgdir,
                                i as int,
                                sz as int,
                                copies0,
                                c,
                            );
                        }
                    },
                }
            },
            _ => {
                proof {
                    lemma_copy_skip(pt0, ptc, al0, alc, old_pgdir, new_pgdir, i as int, sz as int, copies@);
                }
            },
        }
        i = i + 0x1000;
    }
    proof {
        lemma_copy_done(pt0, pt@, al0, allocator@, old_pgdir, new_pgdir, i as int, sz as int, copies@);
        lemma_old_kept(pt0, pt@, old_pgdir);
    }
    Some(copies)
}

} // verus!
