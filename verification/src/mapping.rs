use vstd::prelude::*;
use crate::allocator::Allocator;
use crate::util::PG_SIZE;
use crate::vm::{
    alloc_ok, tables_from, base_entry, child, extends, grows, grows_leafy, is_pointer, lemma_extends_trans, lemma_grows_leafy,
    lemma_grows_path, lemma_path_extends, lemma_path_write, law_extends_keeps_leaf, law_pte_fields, leaf,
    no_huge_on_path, pgrounddown, read_entry, walk, write_entry, PageTableEntry, lemma_index_bits, lemma_path_contains, lemma_path_level, lemma_same_2m, lemma_span,
    lemma_tree_indices, lemma_same_indices_path, lemma_path_monotone, make_pte, page_floor, path, pt_index, pte_huge, pte_present, tables_ok, tree, PageTables,
    PageTable, PG_SIZE_2M, PTE_HUGE_PAGE, PTE_PRESENT,
};

verus! {

/// The first page of the range `[va, va + sz)`.
pub open spec fn map_first(va: u64) -> int {
    page_floor(va as int)
}

/// The last page of the range `[va, va + sz)`.
pub open spec fn map_last(va: u64, sz: u64) -> int {
    page_floor(va + sz - 1)
}

/// Whether `map_pages` maps address `a` with a 2 MiB page: the 2 MiB block
/// around `a` lies whole in the range of pages `[start, end]`, and the
/// physical address it goes to is 2 MiB-aligned too.
pub open spec fn huge_at(start: int, end: int, pa: int, a: int) -> bool {
    let b = a - a % (PG_SIZE_2M as int);
    &&& start <= b
    &&& b + PG_SIZE_2M <= end + PG_SIZE
    &&& (pa + b - start) % (PG_SIZE_2M as int) == 0
}

/// Whether the range `[start, end]` and its physical memory from `pa` are
/// mapped with 2 MiB pages only: both 2 MiB-aligned and the range a whole
/// number of 2 MiB blocks.
pub open spec fn all_huge(start: int, end: int, pa: int) -> bool {
    &&& start % (PG_SIZE_2M as int) == 0
    &&& pa % (PG_SIZE_2M as int) == 0
    &&& (end + PG_SIZE - start) % (PG_SIZE_2M as int) == 0
}

/// Whether `[start, end]` lies within one 1 GiB-aligned region, whose 2 MiB
/// pages all sit in one table.
pub open spec fn one_region(start: int, end: int) -> bool {
    start / 0x4000_0000 == end / 0x4000_0000
}

/// How many pages `map_pages` takes from the allocator at most for its
/// tables: the two tables below the root when the range is 2 MiB pages in
/// one 1 GiB region; otherwise three per page it maps (a table for each
/// level below the root), a page being a 2 MiB one when the whole range is
/// mapped with them.
pub open spec fn map_frames_bound(start: int, end: int, pa: int) -> int {
    if all_huge(start, end, pa) && one_region(start, end) {
        2
    } else if all_huge(start, end, pa) {
        3 * ((end + PG_SIZE - start) / (PG_SIZE_2M as int))
    } else {
        3 * ((end + PG_SIZE - start) / (PG_SIZE as int))
    }
}

/// Addresses in one 1 GiB region reach the same level-1 table.
proof fn lemma_same_region_path(pt: Map<u64, PageTable>, root: u64, a: u64, c: u64)
    requires
        a / 0x4000_0000 == c / 0x4000_0000,
    ensures
        path(pt, root, a, 1) == path(pt, root, c, 1),
{
    assert((a as int / 0x80_0000_0000) == (a as int / 0x4000_0000) / 512);
    assert((c as int / 0x80_0000_0000) == (c as int / 0x4000_0000) / 512);
    assert(pt_index(a, 2) == pt_index(c, 2));
    assert(pt_index(a, 3) == pt_index(c, 3));
    crate::vm::lemma_same_indices_path(pt, root, a, c, 1);
}

/// A 2 MiB chunk of a range in one 1 GiB region takes tables only the first
/// time; afterwards its level-1 table is reached from the range's start.
proof fn lemma_region_chunk(
    ptp: Map<u64, PageTable>,
    ptn: Map<u64, PageTable>,
    alp: Seq<u64>,
    aln: Seq<u64>,
    al0: Seq<u64>,
    pgdir: u64,
    start: u64,
    end: u64,
    addr: u64,
    first: bool,
    ok: bool,
)
    requires
        start / 0x4000_0000 == end / 0x4000_0000,
        start <= addr <= end,
        !first ==> path(ptp, pgdir, start, 1) is Some,
        first ==> alp.len() == al0.len(),
        al0.len() - alp.len() <= 2,
        alp.len() - aln.len() <= 2,
        path(ptp, pgdir, addr, 1) is Some ==> aln == alp,
        ok ==> path(ptn, pgdir, addr, 1) is Some,
    ensures
        al0.len() - aln.len() <= 2,
        ok ==> path(ptn, pgdir, start, 1) is Some,
{
    assert(addr / 0x4000_0000 == start / 0x4000_0000) by (nonlinear_arith)
        requires
            start / 0x4000_0000 == end / 0x4000_0000,
            start <= addr <= end,
    ;
    lemma_same_region_path(ptp, pgdir, addr, start);
    lemma_same_region_path(ptn, pgdir, addr, start);
}

/// In a range mapped with 2 MiB pages only, every 2 MiB step from its start
/// is a 2 MiB page.
proof fn lemma_all_huge_step(start: int, end: int, pa: int, a: int)
    requires
        all_huge(start, end, pa),
        start <= a <= end,
        (a - start) % (PG_SIZE_2M as int) == 0,
        0 <= pa,
    ensures
        huge_at(start, end, pa, a),
        a % (PG_SIZE_2M as int) == 0,
{
    assert(a % (PG_SIZE_2M as int) == 0);
    assert(a + PG_SIZE_2M <= end + PG_SIZE);
}

/// Three pages per chunk begun stay within `map_frames_bound`.
proof fn lemma_chunks_bound(start: int, end: int, pa: int, n: int)
    requires
        map_range_ok(start, end, pa),
        0 <= n,
        n * PG_SIZE <= end + PG_SIZE - start,
        all_huge(start, end, pa) ==> n * PG_SIZE_2M <= end + PG_SIZE - start,
        !(all_huge(start, end, pa) && one_region(start, end)),
    ensures
        3 * n <= map_frames_bound(start, end, pa),
{
    let len = end + PG_SIZE - start;
    if all_huge(start, end, pa) {
        let m = len / (PG_SIZE_2M as int);
        assert(m * 0x20_0000 == len);
        assert(n <= m) by (nonlinear_arith)
            requires
                n * 0x20_0000 <= len,
                m * 0x20_0000 == len,
        ;
    } else {
        let m = len / (PG_SIZE as int);
        assert(len % 0x1000 == 0);
        assert(m * 0x1000 == len);
        assert(n <= m) by (nonlinear_arith)
            requires
                n * 0x1000 <= len,
                m * 0x1000 == len,
        ;
    }
}

/// The level of the entry that maps `a`: 1 for a 2 MiB page, 0 for 4 KiB.
pub open spec fn chunk_level(start: int, end: int, pa: int, a: int) -> int {
    if huge_at(start, end, pa, a) {
        1
    } else {
        0
    }
}

/// The entry, and its level, that `map_pages` leaves for an address `a` of
/// the range: its physical address lies as far from `pa` as the page of `a`
/// lies from `start`.
pub open spec fn mapped_entry(start: int, end: int, pa: int, perm: u64, a: int) -> (u64, int) {
    if huge_at(start, end, pa, a) {
        (
            make_pte((pa + (a - a % (PG_SIZE_2M as int)) - start) as u64, perm | PTE_PRESENT | PTE_HUGE_PAGE),
            1,
        )
    } else {
        (make_pte((pa + (a - a % (PG_SIZE as int)) - start) as u64, perm | PTE_PRESENT), 0)
    }
}

/// Whether the entry for `a` at `level` exists and is present.
pub open spec fn slot_taken(pt: Map<u64, PageTable>, root: u64, a: u64, level: int) -> bool {
    match path(pt, root, a, level) {
        None => false,
        Some(t) => pte_present(pt[t].entries@[pt_index(a, level)]),
    }
}

/// The page number that the four levels of tables decode from `a`.
pub open spec fn vpn(a: int) -> int {
    (a / (PG_SIZE as int)) % 0x10_0000_0000
}

/// The well-formedness of `PageTables`, over its map.
pub open spec fn wf_map(pt: Map<u64, PageTable>) -> bool {
    &&& tables_ok(pt)
    &&& forall|t: u64, i: int|
        #![trigger pt[t].entries@[i]]
        pt.contains_key(t) && 0 <= i < 512 && pt[t].level >= 2 ==> !pte_huge(pt[t].entries@[i])
}

pub(crate) proof fn lemma_wf_map(pt: &PageTables)
    ensures
        pt.wf() == wf_map(pt@),
{
}

/// The chunk of the mapping that starts at `c`, done before `addr`, changed
/// entry `i` of table `t`: `t` is on the walk for `c` and the entry is the
/// one `c` selects there.
pub open spec fn changed_by(
    pt: Map<u64, PageTable>,
    root: u64,
    start: int,
    end: int,
    pa: int,
    addr: int,
    c: u64,
    t: u64,
    i: int,
) -> bool {
    &&& start <= c < addr
    &&& c <= end
    &&& c as int % (PG_SIZE as int) == 0
    &&& (huge_at(start, end, pa, c as int) ==> c as int % (PG_SIZE_2M as int) == 0)
    &&& path(pt, root, c, pt[t].level as int) == Some(t)
    &&& pt_index(c, pt[t].level as int) == i
    &&& (is_pointer(pt[t].entries@[i], pt[t].level as int) || chunk_level(start, end, pa, c as int)
        == pt[t].level)
}

/// Every entry that differs from what it was in `pt0` was changed by a
/// chunk done before `addr`.
pub open spec fn changes_explained(
    pt: Map<u64, PageTable>,
    pt0: Map<u64, PageTable>,
    root: u64,
    start: int,
    end: int,
    pa: int,
    addr: int,
) -> bool {
    forall|t: u64, i: int|
        #![trigger pt[t].entries@[i]]
        pt.contains_key(t) && 0 <= i < 512 && pt[t].entries@[i] != base_entry(pt0, t, i) ==> exists|c: u64|
            #[trigger] changed_by(pt, root, start, end, pa, addr, c, t, i)
}

/// Addresses in the same 4 KiB page select the same entry at every level.
pub(crate) proof fn lemma_same_page(a: u64, b: u64)
    requires
        a / 0x1000 == b / 0x1000,
    ensures
        forall|l: int| 0 <= l <= 3 ==> #[trigger] pt_index(a, l) == pt_index(b, l),
{
    assert((a as int / 0x20_0000) == (a as int / 0x1000) / 512);
    assert((b as int / 0x20_0000) == (b as int / 0x1000) / 512);
    assert((a as int / 0x4000_0000) == (a as int / 0x1000) / 0x4_0000);
    assert((b as int / 0x4000_0000) == (b as int / 0x1000) / 0x4_0000);
    assert((a as int / 0x80_0000_0000) == (a as int / 0x1000) / 0x800_0000);
    assert((b as int / 0x80_0000_0000) == (b as int / 0x1000) / 0x800_0000);
}

/// A changed entry on the walk for `b` at level `l` has a chunk that
/// explains it, and that chunk selects the same entries as `b` from level
/// `l` up.
proof fn lemma_slot_witness(
    pt: Map<u64, PageTable>,
    pt0: Map<u64, PageTable>,
    root: u64,
    start: int,
    end: int,
    pa: int,
    addr: int,
    b: u64,
    l: int,
) -> (c: u64)
    requires
        changes_explained(pt, pt0, root, start, end, pa, addr),
        tables_ok(pt),
        tree(pt),
        pt.contains_key(root),
        pt[root].level == 3,
        0 <= l <= 1,
        path(pt, root, b, l).is_some(),
        pt[path(pt, root, b, l).unwrap()].entries@[pt_index(b, l)] != base_entry(
            pt0,
            path(pt, root, b, l).unwrap(),
            pt_index(b, l),
        ),
    ensures
        changed_by(pt, root, start, end, pa, addr, c, path(pt, root, b, l).unwrap(), pt_index(b, l)),
        pt[path(pt, root, b, l).unwrap()].level == l,
        forall|l2: int| l <= l2 <= 3 ==> #[trigger] pt_index(c, l2) == pt_index(b, l2),
{
    let t = path(pt, root, b, l).unwrap();
    let i = pt_index(b, l);
    lemma_path_contains(pt, root, b, l);
    lemma_path_level(pt, root, b, l);
    assert(0 <= i < 512);
    assert(pt[t].entries@[i] != base_entry(pt0, t, i));
    let c = choose|c: u64| #[trigger] changed_by(pt, root, start, end, pa, addr, c, t, i);
    lemma_tree_indices(pt, root, c, b, l);
    c
}

/// The entry that the chunk at `addr` is about to fill, at its own level,
/// is as it was in `pt0`; the level-1 entry above a 4 KiB chunk is as it
/// was or points to a table.
proof fn lemma_own_slot(
    pt: Map<u64, PageTable>,
    pt0: Map<u64, PageTable>,
    root: u64,
    start: int,
    end: int,
    pa: int,
    addr: u64,
    l: int,
)
    requires
        changes_explained(pt, pt0, root, start, end, pa, addr as int),
        tables_ok(pt),
        tree(pt),
        pt.contains_key(root),
        pt[root].level == 3,
        start <= addr <= end,
        end - start < 0x8000_0000_0000,
        addr as int % (PG_SIZE as int) == 0,
        huge_at(start, end, pa, addr as int) ==> addr as int % (PG_SIZE_2M as int) == 0,
        0 <= l <= 1,
        l == 0 ==> !huge_at(start, end, pa, addr as int),
        path(pt, root, addr, l).is_some(),
    ensures
        ({
            let t = path(pt, root, addr, l).unwrap();
            let e = pt[t].entries@[pt_index(addr, l)];
            e == base_entry(pt0, t, pt_index(addr, l)) || (l == 1 && !huge_at(start, end, pa, addr as int)
                && is_pointer(e, 1))
        }),
{
    let t = path(pt, root, addr, l).unwrap();
    let i = pt_index(addr, l);
    let e = pt[t].entries@[i];
    if e != base_entry(pt0, t, i) {
        let c = lemma_slot_witness(pt, pt0, root, start, end, pa, addr as int, addr, l);
        lemma_span(c, addr, l);
        if l == 0 {
            assert(c == addr);
        } else {
            if huge_at(start, end, pa, addr as int) {
                assert(c == addr);
            } else if !is_pointer(e, 1) {
                assert(chunk_level(start, end, pa, c as int) == 1);
                assert(c - c % 0x20_0000 == addr - addr % 0x20_0000);
                assert(huge_at(start, end, pa, addr as int));
            }
        }
    }
}

/// The entries an address does not share with the range keep their values.
proof fn lemma_outside_slot(
    pt: Map<u64, PageTable>,
    pt0: Map<u64, PageTable>,
    root: u64,
    start: int,
    end: int,
    pa: int,
    addr: int,
    b: u64,
    l: int,
)
    requires
        changes_explained(pt, pt0, root, start, end, pa, addr),
        tables_ok(pt),
        tree(pt),
        pt.contains_key(root),
        pt[root].level == 3,
        0 <= start,
        end + PG_SIZE <= u64::MAX,
        forall|c: u64| start <= c <= end ==> vpn(c as int) != vpn(b as int),
        0 <= l <= 1,
        path(pt, root, b, l).is_some(),
    ensures
        ({
            let t = path(pt, root, b, l).unwrap();
            let e = pt[t].entries@[pt_index(b, l)];
            e == base_entry(pt0, t, pt_index(b, l)) || (l == 1 && is_pointer(e, 1))
        }),
{
    let t = path(pt, root, b, l).unwrap();
    let i = pt_index(b, l);
    let e = pt[t].entries@[i];
    if e != base_entry(pt0, t, i) {
        let c = lemma_slot_witness(pt, pt0, root, start, end, pa, addr, b, l);
        if l == 0 {
            lemma_vpn_indices(c, b);
            assert(vpn(c as int) != vpn(b as int));
        } else if !is_pointer(e, 1) {
            assert(chunk_level(start, end, pa, c as int) == 1);
            assert(huge_at(start, end, pa, c as int));
            assert(c % 0x20_0000 == 0);
            let k = pt_index(b, 0);
            assert(0 <= k < 512);
            assert(c + k * 0x1000 <= end);
            let c2 = (c + k * 0x1000) as u64;
            lemma_block_page(c, k, c2);
            lemma_vpn_indices(c2, b);
            assert(vpn(c2 as int) != vpn(b as int));
        }
    }
}

/// Addresses that select the same entry at every level have the same page
/// number.
pub(crate) proof fn lemma_vpn_indices(a: u64, b: u64)
    requires
        forall|l: int| 0 <= l <= 3 ==> #[trigger] pt_index(a, l) == pt_index(b, l),
    ensures
        vpn(a as int) == vpn(b as int),
{
    lemma_index_bits(a);
    lemma_index_bits(b);
    assert(pt_index(a, 0) == pt_index(b, 0));
    assert(pt_index(a, 1) == pt_index(b, 1));
    assert(pt_index(a, 2) == pt_index(b, 2));
    assert(pt_index(a, 3) == pt_index(b, 3));
    assert((a / 0x1000) % 0x10_0000_0000 == (b / 0x1000) % 0x10_0000_0000) by (bit_vector)
        requires
            (a >> 12u64) & 0x1FF == (b >> 12u64) & 0x1FF,
            (a >> 21u64) & 0x1FF == (b >> 21u64) & 0x1FF,
            (a >> 30u64) & 0x1FF == (b >> 30u64) & 0x1FF,
            (a >> 39u64) & 0x1FF == (b >> 39u64) & 0x1FF,
    ;
}

/// The `k`-th 4 KiB page of a 2 MiB block selects the block's entries
/// above level 0 and `k` at level 0.
proof fn lemma_block_page(c: u64, k: int, c2: u64)
    requires
        c % 0x20_0000 == 0,
        0 <= k < 512,
        c2 == c + k * 0x1000,
    ensures
        pt_index(c2, 0) == k,
        forall|l: int| 1 <= l <= 3 ==> #[trigger] pt_index(c2, l) == pt_index(c, l),
{
    assert(c2 / 0x20_0000 == c / 0x20_0000);
    assert(c2 as int / 0x1000 == c as int / 0x1000 + k);
    assert((c as int / 0x1000) % 512 == 0);
    lemma_same_2m(c, c2);
}

/// Tables taken from a prefix of a free list were taken from the list.
pub proof fn lemma_tables_from_trans(
    pt0: Map<u64, PageTable>,
    al0: Seq<u64>,
    pt1: Map<u64, PageTable>,
    al1: Seq<u64>,
    pt2: Map<u64, PageTable>,
)
    requires
        tables_from(pt0, al0, pt1),
        tables_from(pt1, al1, pt2),
        al1.len() <= al0.len(),
        al1 == al0.take(al1.len() as int),
    ensures
        tables_from(pt0, al0, pt2),
{
    assert forall|t: u64| #[trigger] pt2.contains_key(t) implies pt0.contains_key(t) || al0.contains(t) by {
        if !pt1.contains_key(t) {
            assert(al1.contains(t));
            let k = choose|k: int| 0 <= k < al1.len() && al1[k] == t;
            assert(al0[k] == t);
        }
    }
}

/// Two steps of growth, the second by `walk`, are growth by leaves and
/// fresh pointers.
proof fn lemma_grows_compose(a: Map<u64, PageTable>, b: Map<u64, PageTable>, c: Map<u64, PageTable>)
    requires
        grows_leafy(a, b),
        grows(b, c),
        tables_ok(a),
    ensures
        grows_leafy(a, c),
{
    lemma_extends_trans(a, b, c);
    assert forall|t: u64, i: int|
        c.contains_key(t) && 0 <= i < 512 && #[trigger] c[t].entries@[i] != base_entry(a, t, i) && is_pointer(
            c[t].entries@[i],
            c[t].level as int,
        ) implies !a.contains_key(child(c[t].entries@[i])) by {
        if b.contains_key(t) {
            if c[t].entries@[i] == b[t].entries@[i] {
                assert(b[t].entries@[i] != base_entry(a, t, i));
            } else {
                assert(!b.contains_key(child(c[t].entries@[i])));
                if a.contains_key(child(c[t].entries@[i])) {
                    assert(b.contains_key(child(c[t].entries@[i])));
                }
            }
        } else {
            if a.contains_key(t) {
                assert(b.contains_key(t));
            }
            crate::vm::lemma_zero_entry();
            if a.contains_key(child(c[t].entries@[i])) {
                assert(b.contains_key(child(c[t].entries@[i])));
            }
        }
    }
}

/// Writing a value that is no pointer over an entry that is not present
/// keeps the tables well formed, a tree, and grown only by leaves.
proof fn lemma_write_leaf(
    pt0: Map<u64, PageTable>,
    pt: Map<u64, PageTable>,
    pt2: Map<u64, PageTable>,
    t: u64,
    i: int,
    v: u64,
)
    requires
        wf_map(pt),
        tree(pt),
        grows_leafy(pt0, pt),
        pt.contains_key(t),
        0 <= i < 512,
        pt[t].level <= 1,
        !pte_present(pt[t].entries@[i]),
        !is_pointer(v, pt[t].level as int),
        pt2 == pt.insert(t, pt2[t]),
        pt2[t].level == pt[t].level,
        pt2[t].entries@ == pt[t].entries@.update(i, v),
    ensures
        wf_map(pt2),
        tree(pt2),
        extends(pt, pt2),
        grows_leafy(pt0, pt2),
        pt2.dom() == pt.dom(),
{
    assert forall|t2: u64| #[trigger] pt2.contains_key(t2) implies pt2[t2].entries@.len() == 512 && pt2[t2].level
        <= 3 by {
    }
    assert forall|t2: u64, j: int|
        pt2.contains_key(t2) && 0 <= j < 512 && is_pointer(#[trigger] pt2[t2].entries@[j], pt2[t2].level as int) implies {
            &&& crate::vm::pte_addr(pt2[t2].entries@[j]) < crate::vm::TABLE_PA_LIMIT
            &&& pt2.contains_key(child(pt2[t2].entries@[j]))
            &&& pt2[child(pt2[t2].entries@[j])].level == pt2[t2].level - 1
        } by {
        assert(pt2[t2].entries@[j] == pt[t2].entries@[j]);
    }
    assert forall|t2: u64, j: int|
        pt2.contains_key(t2) && 0 <= j < 512 && pt2[t2].level >= 2 implies !pte_huge(#[trigger] pt2[t2].entries@[j]) by {
        assert(pt2[t2].entries@[j] == pt[t2].entries@[j]);
    }
    assert forall|t1: u64, i1: int, t2: u64, i2: int|
        pt2.contains_key(t1) && pt2.contains_key(t2) && 0 <= i1 < 512 && 0 <= i2 < 512 && is_pointer(
            #[trigger] pt2[t1].entries@[i1],
            pt2[t1].level as int,
        ) && is_pointer(#[trigger] pt2[t2].entries@[i2], pt2[t2].level as int) && child(pt2[t1].entries@[i1])
            == child(pt2[t2].entries@[i2]) implies t1 == t2 && i1 == i2 by {
        assert(pt2[t1].entries@[i1] == pt[t1].entries@[i1]);
        assert(pt2[t2].entries@[i2] == pt[t2].entries@[i2]);
    }
    assert forall|t2: u64, j: int|
        pt.contains_key(t2) && 0 <= j < pt[t2].entries@.len() && pte_present(pt[t2].entries@[j]) implies #[trigger] pt2[t2].entries@[j]
        == pt[t2].entries@[j] by {
    }
    assert(extends(pt, pt2));
    lemma_extends_trans(pt0, pt, pt2);
    assert forall|t2: u64, j: int|
        pt2.contains_key(t2) && 0 <= j < 512 && #[trigger] pt2[t2].entries@[j] != base_entry(pt0, t2, j) && is_pointer(
            pt2[t2].entries@[j],
            pt2[t2].level as int,
        ) implies !pt0.contains_key(child(pt2[t2].entries@[j])) by {
        assert(pt2[t2].entries@[j] == pt[t2].entries@[j]);
    }
    assert(pt2.dom() =~= pt.dom());
}

/// After the walk for the chunk at `addr`, every change is explained, the
/// walk's own by that chunk.
proof fn lemma_explained_walk(
    pt: Map<u64, PageTable>,
    pt_w: Map<u64, PageTable>,
    pt0: Map<u64, PageTable>,
    root: u64,
    start: int,
    end: int,
    pa: int,
    addr: u64,
    addr_next: int,
)
    requires
        changes_explained(pt, pt0, root, start, end, pa, addr as int),
        grows(pt, pt_w),
        grows_leafy(pt0, pt),
        tables_ok(pt),
        forall|t: u64, i: int|
            #![trigger pt_w[t].entries@[i]]
            pt_w.contains_key(t) && 0 <= i < 512 && pt_w[t].entries@[i] != base_entry(pt, t, i) ==> path(
                pt_w,
                root,
                addr,
                pt_w[t].level as int,
            ) == Some(t) && pt_index(addr, pt_w[t].level as int) == i,
        start <= addr <= end,
        addr as int % (PG_SIZE as int) == 0,
        huge_at(start, end, pa, addr as int) ==> addr as int % (PG_SIZE_2M as int) == 0,
        addr < addr_next,
    ensures
        changes_explained(pt_w, pt0, root, start, end, pa, addr_next),
{
    assert forall|t: u64, i: int|
        pt_w.contains_key(t) && 0 <= i < 512 && #[trigger] pt_w[t].entries@[i] != base_entry(pt0, t, i) implies exists|c: u64|
        #[trigger] changed_by(pt_w, root, start, end, pa, addr_next, c, t, i) by {
        if pt_w[t].entries@[i] != base_entry(pt, t, i) {
            if pt.contains_key(t) {
                assert(is_pointer(pt_w[t].entries@[i], pt[t].level as int));
            } else {
                assert(pt_w[t].entries@[i] != 0u64);
            }
            assert(changed_by(pt_w, root, start, end, pa, addr_next, addr, t, i));
        } else {
            if !pt.contains_key(t) {
                if pt0.contains_key(t) {
                    assert(pt.contains_key(t));
                }
                assert(false);
            }
            assert(pt[t].entries@[i] != base_entry(pt0, t, i));
            let c = choose|c: u64| #[trigger] changed_by(pt, root, start, end, pa, addr as int, c, t, i);
            lemma_path_extends(pt, pt_w, root, c, pt[t].level as int);
            assert(changed_by(pt_w, root, start, end, pa, addr_next, c, t, i));
        }
    }
}

/// After the chunk at `addr` writes its entry, every change is explained.
proof fn lemma_explained_write(
    pt_w: Map<u64, PageTable>,
    pt2: Map<u64, PageTable>,
    pt0: Map<u64, PageTable>,
    root: u64,
    start: int,
    end: int,
    pa: int,
    addr: u64,
    addr_next: int,
    t: u64,
    i: int,
    v: u64,
)
    requires
        changes_explained(pt_w, pt0, root, start, end, pa, addr_next),
        extends(pt_w, pt2),
        pt2[t].entries@ == pt_w[t].entries@.update(i, v),
        tables_ok(pt_w),
        pt2 == pt_w.insert(t, pt2[t]),
        pt_w.contains_key(t),
        pt2[t].level == pt_w[t].level,
        pt_w[t].level == chunk_level(start, end, pa, addr as int),
        path(pt2, root, addr, pt_w[t].level as int) == Some(t),
        pt_index(addr, pt_w[t].level as int) == i,
        start <= addr <= end,
        addr as int % (PG_SIZE as int) == 0,
        huge_at(start, end, pa, addr as int) ==> addr as int % (PG_SIZE_2M as int) == 0,
        addr < addr_next,
    ensures
        changes_explained(pt2, pt0, root, start, end, pa, addr_next),
{
    assert forall|t2: u64, j: int|
        pt2.contains_key(t2) && 0 <= j < 512 && #[trigger] pt2[t2].entries@[j] != base_entry(pt0, t2, j) implies exists|c: u64|
        #[trigger] changed_by(pt2, root, start, end, pa, addr_next, c, t2, j) by {
        if t2 == t && j == i {
            assert(changed_by(pt2, root, start, end, pa, addr_next, addr, t2, j));
        } else {
            assert(pt2[t2] == pt_w[t2] || t2 == t);
            assert(pt2[t2].entries@[j] == pt_w[t2].entries@[j]);
            let c = choose|c: u64| #[trigger] changed_by(pt_w, root, start, end, pa, addr_next, c, t2, j);
            lemma_path_extends(pt_w, pt2, root, c, pt_w[t2].level as int);
            assert(changed_by(pt2, root, start, end, pa, addr_next, c, t2, j));
        }
    }
}

/// An address whose entries at levels 0 and 1 are as they were, or whose
/// level-1 entry now points to a fresh table, translates as before.
proof fn lemma_leaf_same(pt0: Map<u64, PageTable>, pt: Map<u64, PageTable>, root: u64, b: u64)
    requires
        tables_ok(pt0),
        tables_ok(pt),
        grows_leafy(pt0, pt),
        pt0.contains_key(root),
        pt0[root].level == 3,
        path(pt, root, b, 0).is_some() ==> pt[path(pt, root, b, 0).unwrap()].entries@[pt_index(b, 0)]
            == base_entry(pt0, path(pt, root, b, 0).unwrap(), pt_index(b, 0)),
        path(pt, root, b, 1).is_some() ==> ({
            let e = pt[path(pt, root, b, 1).unwrap()].entries@[pt_index(b, 1)];
            e == base_entry(pt0, path(pt, root, b, 1).unwrap(), pt_index(b, 1)) || is_pointer(e, 1)
        }),
    ensures
        leaf(pt, root, b) == leaf(pt0, root, b),
{
    crate::vm::lemma_zero_entry();
    assert(pt.contains_key(root) && pt[root].level == 3);
    match path(pt, root, b, 1) {
        None => {
            if path(pt0, root, b, 1).is_some() {
                lemma_path_extends(pt0, pt, root, b, 1);
            }
        },
        Some(t1) => {
            lemma_path_contains(pt, root, b, 1);
            lemma_path_level(pt, root, b, 1);
            let i1 = pt_index(b, 1);
            assert(0 <= i1 < 512);
            let e1 = pt[t1].entries@[i1];
            let i0 = pt_index(b, 0);
            assert(0 <= i0 < 512);
            if pt0.contains_key(t1) {
                lemma_grows_path(pt0, pt, root, b, 1);
                if e1 == pt0[t1].entries@[i1] {
                    if !(pte_present(e1) && pte_huge(e1)) {
                        if path(pt0, root, b, 0).is_some() {
                            lemma_path_extends(pt0, pt, root, b, 0);
                            lemma_path_contains(pt0, root, b, 0);
                        }
                        match path(pt, root, b, 0) {
                            None => {},
                            Some(t0) => {
                                assert(is_pointer(e1, 1));
                                assert(pt0.contains_key(child(e1)));
                                assert(path(pt0, root, b, 0) == Some(t0));
                            },
                        }
                    }
                } else {
                    assert(is_pointer(e1, 1));
                    assert(!pte_present(pt0[t1].entries@[i1]));
                    assert(!pt0.contains_key(child(e1)));
                    match path(pt, root, b, 0) {
                        None => {},
                        Some(t0) => {
                            assert(t0 == child(e1));
                        },
                    }
                }
            } else {
                if path(pt0, root, b, 1).is_some() {
                    lemma_path_extends(pt0, pt, root, b, 1);
                    lemma_path_contains(pt0, root, b, 1);
                }
                if e1 != 0u64 {
                    assert(is_pointer(e1, 1));
                    assert(!pt0.contains_key(child(e1)));
                    match path(pt, root, b, 0) {
                        None => {},
                        Some(t0) => {
                            assert(t0 == child(e1));
                        },
                    }
                }
            }
        },
    }
}

/// Addresses that share no page with the range `[start, end]` translate as
/// they did.
proof fn lemma_outside_leaf(
    pt: Map<u64, PageTable>,
    pt0: Map<u64, PageTable>,
    root: u64,
    start: int,
    end: int,
    pa: int,
    addr: int,
)
    requires
        changes_explained(pt, pt0, root, start, end, pa, addr),
        tables_ok(pt0),
        tables_ok(pt),
        tree(pt),
        grows_leafy(pt0, pt),
        pt0.contains_key(root),
        pt0[root].level == 3,
        0 <= start,
        end + PG_SIZE <= u64::MAX,
    ensures
        forall|b: u64|
            (forall|c: u64| start <= c <= end ==> vpn(c as int) != vpn(b as int)) ==> #[trigger] leaf(pt, root, b)
                == leaf(pt0, root, b),
{
    assert forall|b: u64| (forall|c: u64| start <= c <= end ==> vpn(c as int) != vpn(b as int)) implies #[trigger] leaf(
        pt,
        root,
        b,
    ) == leaf(pt0, root, b) by {
        if path(pt, root, b, 0).is_some() {
            lemma_outside_slot(pt, pt0, root, start, end, pa, addr, b, 0);
        }
        if path(pt, root, b, 1).is_some() {
            lemma_outside_slot(pt, pt0, root, start, end, pa, addr, b, 1);
        }
        lemma_leaf_same(pt0, pt, root, b);
    }
}

/// The 2 MiB block number that the upper three levels of tables decode
/// from `a`.
pub open spec fn vpn2(a: int) -> int {
    (a / (PG_SIZE_2M as int)) % 0x800_0000
}

/// Addresses that select the same entries at levels 1 to 3 lie in blocks
/// with the same number.
proof fn lemma_vpn2_indices(a: u64, b: u64)
    requires
        forall|l: int| 1 <= l <= 3 ==> #[trigger] pt_index(a, l) == pt_index(b, l),
    ensures
        vpn2(a as int) == vpn2(b as int),
{
    lemma_index_bits(a);
    lemma_index_bits(b);
    assert(pt_index(a, 1) == pt_index(b, 1));
    assert(pt_index(a, 2) == pt_index(b, 2));
    assert(pt_index(a, 3) == pt_index(b, 3));
    assert((a / 0x20_0000) % 0x800_0000 == (b / 0x20_0000) % 0x800_0000) by (bit_vector)
        requires
            (a >> 21u64) & 0x1FF == (b >> 21u64) & 0x1FF,
            (a >> 30u64) & 0x1FF == (b >> 30u64) & 0x1FF,
            (a >> 39u64) & 0x1FF == (b >> 39u64) & 0x1FF,
    ;
}

/// Addresses in the same page lie in the same block.
pub proof fn lemma_vpn_vpn2(a: int, b: int)
    requires
        0 <= a,
        0 <= b,
        vpn(a) == vpn(b),
    ensures
        vpn2(a) == vpn2(b),
{
    assert(a / 0x20_0000 == (a / 0x1000) / 512);
    assert(b / 0x20_0000 == (b / 0x1000) / 512);
    let x = a / 0x1000;
    let y = b / 0x1000;
    assert(x % 0x10_0000_0000 == y % 0x10_0000_0000);
    assert((x / 512) % 0x800_0000 == (x % 0x10_0000_0000) / 512) by (nonlinear_arith)
        requires
            x >= 0,
    {
        vstd::arithmetic::div_mod::lemma_mod_breakdown(x, 512, 0x800_0000);
    }
    assert((y / 512) % 0x800_0000 == (y % 0x10_0000_0000) / 512) by (nonlinear_arith)
        requires
            y >= 0,
    {
        vstd::arithmetic::div_mod::lemma_mod_breakdown(y, 512, 0x800_0000);
    }
}

/// An address whose block shares nothing with the range has both of its
/// lower entries as they were.
proof fn lemma_outside_slot2(
    pt: Map<u64, PageTable>,
    pt0: Map<u64, PageTable>,
    root: u64,
    start: int,
    end: int,
    pa: int,
    addr: int,
    b: u64,
    l: int,
)
    requires
        changes_explained(pt, pt0, root, start, end, pa, addr),
        tables_ok(pt),
        tree(pt),
        pt.contains_key(root),
        pt[root].level == 3,
        forall|c: u64| start <= c <= end ==> vpn2(c as int) != vpn2(b as int),
        0 <= l <= 1,
        path(pt, root, b, l).is_some(),
    ensures
        pt[path(pt, root, b, l).unwrap()].entries@[pt_index(b, l)] == base_entry(
            pt0,
            path(pt, root, b, l).unwrap(),
            pt_index(b, l),
        ),
{
    let t = path(pt, root, b, l).unwrap();
    let i = pt_index(b, l);
    if pt[t].entries@[i] != base_entry(pt0, t, i) {
        let c = lemma_slot_witness(pt, pt0, root, start, end, pa, addr, b, l);
        lemma_vpn2_indices(c, b);
        assert(vpn2(c as int) != vpn2(b as int));
    }
}

/// Where the entry at level `l` on the walk for `b` is as it was, whether
/// it is present is as it was.
proof fn lemma_slot_same(pt0: Map<u64, PageTable>, pt: Map<u64, PageTable>, root: u64, b: u64, l: int)
    requires
        tables_ok(pt0),
        tables_ok(pt),
        grows_leafy(pt0, pt),
        pt0.contains_key(root),
        pt0[root].level == 3,
        0 <= l <= 1,
        path(pt, root, b, l).is_some() ==> pt[path(pt, root, b, l).unwrap()].entries@[pt_index(b, l)]
            == base_entry(pt0, path(pt, root, b, l).unwrap(), pt_index(b, l)),
    ensures
        slot_taken(pt, root, b, l) == slot_taken(pt0, root, b, l),
{
    crate::vm::lemma_zero_entry();
    if path(pt0, root, b, l).is_some() {
        lemma_path_extends(pt0, pt, root, b, l);
        lemma_path_contains(pt0, root, b, l);
    }
    match path(pt, root, b, l) {
        None => {},
        Some(t) => {
            lemma_path_contains(pt, root, b, l);
            if pt0.contains_key(t) {
                lemma_grows_path(pt0, pt, root, b, l);
            }
        },
    }
}

/// Addresses whose blocks share nothing with the range `[start, end]` have
/// their lower entries present exactly where they were.
proof fn lemma_outside_slots(
    pt: Map<u64, PageTable>,
    pt0: Map<u64, PageTable>,
    root: u64,
    start: int,
    end: int,
    pa: int,
    addr: int,
)
    requires
        changes_explained(pt, pt0, root, start, end, pa, addr),
        tables_ok(pt0),
        tables_ok(pt),
        tree(pt),
        grows_leafy(pt0, pt),
        pt0.contains_key(root),
        pt0[root].level == 3,
        0 <= start,
        end + PG_SIZE <= u64::MAX,
    ensures
        forall|b: u64, l: int|
            (forall|c: u64| start <= c <= end ==> vpn2(c as int) != vpn2(b as int)) && 0 <= l <= 1
                ==> #[trigger] slot_taken(pt, root, b, l) == slot_taken(pt0, root, b, l),
        forall|b: u64|
            (forall|c: u64| start <= c <= end ==> vpn(c as int) != vpn(b as int)) ==> #[trigger] slot_taken(
                pt,
                root,
                b,
                0,
            ) == slot_taken(pt0, root, b, 0),
{
    assert forall|b: u64| (forall|c: u64| start <= c <= end ==> vpn(c as int) != vpn(b as int)) implies #[trigger] slot_taken(
        pt,
        root,
        b,
        0,
    ) == slot_taken(pt0, root, b, 0) by {
        if path(pt, root, b, 0).is_some() {
            lemma_outside_slot(pt, pt0, root, start, end, pa, addr, b, 0);
        }
        lemma_slot_same(pt0, pt, root, b, 0);
    }
    assert forall|b: u64, l: int|
        (forall|c: u64| start <= c <= end ==> vpn2(c as int) != vpn2(b as int)) && 0 <= l <= 1 implies #[trigger] slot_taken(
        pt,
        root,
        b,
        l,
    ) == slot_taken(pt0, root, b, l) by {
        if path(pt, root, b, l).is_some() {
            lemma_outside_slot2(pt, pt0, root, start, end, pa, addr, b, l);
        }
        lemma_slot_same(pt0, pt, root, b, l);
    }
}

/// The addresses of the chunk at `addr` map as `map_pages` promises.
proof fn lemma_chunk_leaf(
    pt: Map<u64, PageTable>,
    root: u64,
    start: int,
    end: int,
    pa: int,
    perm: u64,
    addr: u64,
    t: u64,
    v: u64,
    level: int,
    b: u64,
)
    requires
        tables_ok(pt),
        pt.contains_key(root),
        pt[root].level == 3,
        level == chunk_level(start, end, pa, addr as int),
        path(pt, root, addr, level) == Some(t),
        pt[t].entries@[pt_index(addr, level)] == v,
        v == make_pte(
            (pa + addr - start) as u64,
            if level == 1 {
                perm | PTE_PRESENT | PTE_HUGE_PAGE
            } else {
                perm | PTE_PRESENT
            },
        ),
        pte_present(v),
        level == 1 ==> pte_huge(v),
        level == 0 ==> no_huge_on_path(pt, root, addr),
        addr as int % (PG_SIZE as int) == 0,
        level == 1 ==> addr as int % (PG_SIZE_2M as int) == 0,
        addr <= b < addr + (if level == 1 {
            PG_SIZE_2M as int
        } else {
            PG_SIZE as int
        }),
    ensures
        leaf(pt, root, b) == Some(mapped_entry(start, end, pa, perm, b as int)),
{
    if level == 0 {
        assert(b / 0x1000 == addr / 0x1000 && b - b % 0x20_0000 == addr - addr % 0x20_0000 && b - b % 0x1000
            == addr) by (bit_vector)
            requires
                addr % 0x1000 == 0,
                addr <= b,
                b < addr + 0x1000,
        ;
        lemma_same_page(addr, b);
        lemma_same_indices_path(pt, root, b, addr, 0);
        lemma_same_indices_path(pt, root, b, addr, 1);
        lemma_path_monotone(pt, root, addr, 0, 1);
    } else {
        assert(b / 0x20_0000 == addr / 0x20_0000 && b - b % 0x20_0000 == addr) by (bit_vector)
            requires
                addr % 0x20_0000 == 0,
                addr <= b,
                b < addr + 0x20_0000,
        ;
        lemma_same_2m(addr, b);
        lemma_same_indices_path(pt, root, b, addr, 1);
    }
}

/// Whether the 4 KiB-mapped addresses of the range meet no large page on
/// their walks.
pub open spec fn range_small(pt: Map<u64, PageTable>, pgdir: u64, start: int, end: int, pa: int) -> bool {
    forall|b: u64|
        start <= b <= end && !huge_at(start, end, pa, b as int) ==> #[trigger] no_huge_on_path(pt, pgdir, b)
}

/// The level-1 entry on the walk for an address that the range maps with a
/// 4 KiB page was not written as a large page.
proof fn lemma_small_slot(
    pt: Map<u64, PageTable>,
    pt0: Map<u64, PageTable>,
    root: u64,
    start: int,
    end: int,
    pa: int,
    addr: int,
    b: u64,
)
    requires
        changes_explained(pt, pt0, root, start, end, pa, addr),
        tables_ok(pt),
        tree(pt),
        pt.contains_key(root),
        pt[root].level == 3,
        start <= b <= end,
        end - start < 0x8000_0000_0000,
        !huge_at(start, end, pa, b as int),
        path(pt, root, b, 1).is_some(),
    ensures
        ({
            let t = path(pt, root, b, 1).unwrap();
            let e = pt[t].entries@[pt_index(b, 1)];
            e == base_entry(pt0, t, pt_index(b, 1)) || is_pointer(e, 1)
        }),
{
    let t = path(pt, root, b, 1).unwrap();
    let i = pt_index(b, 1);
    let e = pt[t].entries@[i];
    if e != base_entry(pt0, t, i) && !is_pointer(e, 1) {
        let c = lemma_slot_witness(pt, pt0, root, start, end, pa, addr, b, 1);
        assert(chunk_level(start, end, pa, c as int) == 1);
        if c <= b {
            lemma_span(c, b, 1);
        } else {
            lemma_span(b, c, 1);
        }
        assert(c - c % 0x20_0000 == b - b % 0x20_0000);
    }
}

/// The range's 4 KiB-mapped addresses keep meeting no large page.
proof fn lemma_range_small(
    pt: Map<u64, PageTable>,
    pt0: Map<u64, PageTable>,
    root: u64,
    start: int,
    end: int,
    pa: int,
    addr: int,
)
    requires
        changes_explained(pt, pt0, root, start, end, pa, addr),
        tables_ok(pt0),
        tables_ok(pt),
        tree(pt),
        grows_leafy(pt0, pt),
        pt0.contains_key(root),
        pt0[root].level == 3,
        end - start < 0x8000_0000_0000,
        range_small(pt0, root, start, end, pa),
    ensures
        range_small(pt, root, start, end, pa),
{
    assert forall|b: u64| start <= b <= end && !huge_at(start, end, pa, b as int) implies #[trigger] no_huge_on_path(
        pt,
        root,
        b,
    ) by {
        assert(no_huge_on_path(pt0, root, b));
        if path(pt, root, b, 1).is_some() {
            lemma_small_slot(pt, pt0, root, start, end, pa, addr, b);
            let t1 = path(pt, root, b, 1).unwrap();
            lemma_path_contains(pt, root, b, 1);
            if pt0.contains_key(t1) {
                lemma_grows_path(pt0, pt, root, b, 1);
            } else {
                crate::vm::lemma_zero_entry();
            }
        }
    }
}

/// A chunk done before `addr` ends at or before `addr`.
proof fn lemma_chunk_before(start: int, end: int, pa: int, addr: u64, c: u64)
    requires
        start <= c < addr <= end,
        c as int % (PG_SIZE as int) == 0,
        addr as int % (PG_SIZE as int) == 0,
        huge_at(start, end, pa, c as int) ==> c as int % (PG_SIZE_2M as int) == 0,
        huge_at(start, end, pa, addr as int) ==> addr as int % (PG_SIZE_2M as int) == 0,
    ensures
        c + (if huge_at(start, end, pa, c as int) {
            PG_SIZE_2M as int
        } else {
            PG_SIZE as int
        }) <= addr,
{
    if huge_at(start, end, pa, c as int) && addr < c + 0x20_0000 {
        assert(addr - addr % 0x20_0000 == c);
        assert(huge_at(start, end, pa, addr as int));
    }
}

/// Addresses of the range from `addr` on, which no chunk has reached yet,
/// translate as they did: a failed walk for the chunk at `addr` only adds
/// tables.
#[verifier::rlimit(60)]
#[verifier::spinoff_prover]
proof fn lemma_pending_leaf(
    ptp: Map<u64, PageTable>,
    ptw: Map<u64, PageTable>,
    pt0: Map<u64, PageTable>,
    root: u64,
    start: int,
    end: int,
    pa: int,
    addr: u64,
    level: int,
    b: u64,
)
    requires
        changes_explained(ptp, pt0, root, start, end, pa, addr as int),
        grows(ptp, ptw),
        grows_leafy(pt0, ptp),
        tables_ok(pt0),
        tables_ok(ptp),
        tables_ok(ptw),
        tree(ptp),
        pt0.contains_key(root),
        pt0[root].level == 3,
        0 <= level <= 1,
        forall|t: u64, i: int|
            #![trigger ptw[t].entries@[i]]
            ptw.contains_key(t) && 0 <= i < 512 && ptw[t].entries@[i] != base_entry(ptp, t, i) ==> ptw[t].level > level,
        start <= addr <= end,
        end - start < 0x8000_0000_0000,
        start % (PG_SIZE as int) == 0,
        end % (PG_SIZE as int) == 0,
        addr as int % (PG_SIZE as int) == 0,
        huge_at(start, end, pa, addr as int) ==> addr as int % (PG_SIZE_2M as int) == 0,
        addr <= b < end + PG_SIZE,
    ensures
        leaf(ptw, root, b) == leaf(pt0, root, b),
{
    crate::vm::lemma_zero_entry();
    assert(ptp.contains_key(root) && ptp[root].level == 3);
    assert(ptw.contains_key(root) && ptw[root].level == 3);
    lemma_grows_leafy(ptp, ptw);
    lemma_grows_compose(pt0, ptp, ptw);
    if let Some(t0) = path(ptw, root, b, 0) {
        let i0 = pt_index(b, 0);
        lemma_path_contains(ptw, root, b, 0);
        lemma_path_level(ptw, root, b, 0);
        assert(0 <= i0 < 512);
        if ptw[t0].entries@[i0] != base_entry(ptp, t0, i0) {
            assert(false);
        }
        if ptp.contains_key(t0) {
            lemma_grows_path(ptp, ptw, root, b, 0);
            if ptp[t0].entries@[i0] != base_entry(pt0, t0, i0) {
                let c = lemma_slot_witness(ptp, pt0, root, start, end, pa, addr as int, b, 0);
                lemma_span(c, b, 0);
                lemma_chunk_before(start, end, pa, addr, c);
            }
        } else {
            if pt0.contains_key(t0) {
                assert(ptp.contains_key(t0));
            }
        }
    }
    if let Some(t1) = path(ptw, root, b, 1) {
        let i1 = pt_index(b, 1);
        lemma_path_contains(ptw, root, b, 1);
        lemma_path_level(ptw, root, b, 1);
        assert(0 <= i1 < 512);
        let e1 = ptw[t1].entries@[i1];
        if e1 != base_entry(ptp, t1, i1) {
            if !ptp.contains_key(t1) {
                assert(e1 != 0u64);
            }
        } else if ptp.contains_key(t1) {
            lemma_grows_path(ptp, ptw, root, b, 1);
            if e1 != base_entry(pt0, t1, i1) && !is_pointer(e1, 1) {
                let c = lemma_slot_witness(ptp, pt0, root, start, end, pa, addr as int, b, 1);
                lemma_span(c, b, 1);
                lemma_chunk_before(start, end, pa, addr, c);
                assert(chunk_level(start, end, pa, c as int) == 1);
            }
        } else {
            if pt0.contains_key(t1) {
                assert(ptp.contains_key(t1));
            }
        }
    }
    lemma_leaf_same(pt0, ptw, root, b);
}

/// A mapping that stopped at `a_f`: the range maps as promised before it,
/// and as it did before the mapping from it on.
pub open spec fn stopped_at(
    pt: Map<u64, PageTable>,
    pt0: Map<u64, PageTable>,
    pgdir: u64,
    start: int,
    end: int,
    pa: int,
    perm: u64,
    a_f: u64,
) -> bool {
    &&& forall|b: u64| start <= b < a_f ==> #[trigger] leaf(pt, pgdir, b) == Some(mapped_entry(start, end, pa, perm, b as int))
    &&& forall|b: u64| a_f <= b < end + PG_SIZE ==> #[trigger] leaf(pt, pgdir, b) == leaf(pt0, pgdir, b)
}

/// What holds between chunks of `map_pages`: the tables are well formed, a
/// tree, grown from `pt0` only by what the chunks before `addr` did, and
/// every address before `addr` maps as promised.
#[verifier::opaque]
pub open spec fn map_inv(
    pt: Map<u64, PageTable>,
    al: Seq<u64>,
    pt0: Map<u64, PageTable>,
    al0: Seq<u64>,
    pgdir: u64,
    start: int,
    end: int,
    pa: int,
    perm: u64,
    addr: int,
) -> bool {
    &&& wf_map(pt)
    &&& tree(pt)
    &&& al.no_duplicates()
    &&& !al.contains(0u64)
    &&& alloc_ok(pt, al)
    &&& al.len() <= al0.len()
    &&& al == al0.take(al.len() as int)
    &&& tables_from(pt0, al0, pt)
    &&& pt.contains_key(pgdir)
    &&& pt[pgdir].level == 3
    &&& wf_map(pt0)
    &&& pt0.contains_key(pgdir)
    &&& pt0[pgdir].level == 3
    &&& grows_leafy(pt0, pt)
    &&& changes_explained(pt, pt0, pgdir, start, end, pa, addr)
    &&& forall|b: u64| start <= b < addr ==> #[trigger] leaf(pt, pgdir, b) == Some(mapped_entry(start, end, pa, perm, b as int))
    &&& forall|a: u64|
        start <= a <= end && !huge_at(start, end, pa, a as int) ==> #[trigger] no_huge_on_path(pt0, pgdir, a)
}

/// The arithmetic of a range of pages: aligned, small enough, and far
/// enough from the top of the address space.
pub open spec fn map_range_ok(start: int, end: int, pa: int) -> bool {
    &&& start % (PG_SIZE as int) == 0
    &&& end % (PG_SIZE as int) == 0
    &&& 0 <= start <= end
    &&& end + PG_SIZE_2M <= u64::MAX
    &&& 0 <= pa
    &&& pa + (end - start) + PG_SIZE <= u64::MAX
    &&& end - start < 0x8000_0000_0000
}

/// What a failed `map_pages` leaves: tables and free list in good order,
/// nothing present changed, nothing outside the range changed at all.
pub open spec fn map_failed_ok(
    pt: Map<u64, PageTable>,
    al: Seq<u64>,
    pt0: Map<u64, PageTable>,
    al0: Seq<u64>,
    pgdir: u64,
    start: int,
    end: int,
) -> bool {
    &&& wf_map(pt)
    &&& tree(pt)
    &&& al.no_duplicates()
    &&& !al.contains(0u64)
    &&& alloc_ok(pt, al)
    &&& grows_leafy(pt0, pt)
    &&& al.len() <= al0.len()
    &&& al == al0.take(al.len() as int)
    &&& tables_from(pt0, al0, pt)
    &&& pt.contains_key(pgdir)
    &&& pt[pgdir].level == 3
    &&& forall|b: u64|
        (forall|c: u64| start <= c <= end ==> vpn(c as int) != vpn(b as int)) ==> #[trigger] leaf(pt, pgdir, b)
            == leaf(pt0, pgdir, b)
    &&& forall|b: u64, l: int|
        (forall|c: u64| start <= c <= end ==> vpn2(c as int) != vpn2(b as int)) && 0 <= l <= 1
            ==> #[trigger] slot_taken(pt, pgdir, b, l) == slot_taken(pt0, pgdir, b, l)
    &&& forall|b: u64|
        (forall|c: u64| start <= c <= end ==> vpn(c as int) != vpn(b as int)) ==> #[trigger] slot_taken(pt, pgdir, b, 0)
            == slot_taken(pt0, pgdir, b, 0)
}

/// Addresses in the same 2 MiB block share their level-1 slot.
proof fn lemma_same_block_slot(pt: Map<u64, PageTable>, root: u64, a: u64, c: u64)
    requires
        a / 0x20_0000 == c / 0x20_0000,
    ensures
        slot_taken(pt, root, a, 1) == slot_taken(pt, root, c, 1),
{
    assert((a as int / 0x4000_0000) == (a as int / 0x20_0000) / 512);
    assert((c as int / 0x4000_0000) == (c as int / 0x20_0000) / 512);
    assert((a as int / 0x80_0000_0000) == (a as int / 0x20_0000) / 0x4_0000);
    assert((c as int / 0x80_0000_0000) == (c as int / 0x20_0000) / 0x4_0000);
    assert(pt_index(a, 1) == pt_index(c, 1));
    crate::vm::lemma_same_indices_path(pt, root, a, c, 1);
}

/// The chunk at `addr` had a free slot: so did every page of it.
proof fn lemma_free_slots_step(pt0: Map<u64, PageTable>, pgdir: u64, start: int, end: int, pa: int, addr: u64, use_2m: bool)
    requires
        forall|a: u64|
            start <= a < addr && a as int % (PG_SIZE as int) == 0 ==> !#[trigger] slot_taken(
                pt0,
                pgdir,
                a,
                chunk_level(start, end, pa, a as int),
            ),
        !slot_taken(pt0, pgdir, addr, chunk_level(start, end, pa, addr as int)),
        use_2m == huge_at(start, end, pa, addr as int),
        use_2m ==> addr as int % (PG_SIZE_2M as int) == 0,
        addr as int % (PG_SIZE as int) == 0,
        start <= addr,
    ensures
        forall|a: u64|
            start <= a < addr + (if use_2m { PG_SIZE_2M as int } else { PG_SIZE as int }) && a as int % (PG_SIZE as int)
                == 0 ==> !#[trigger] slot_taken(pt0, pgdir, a, chunk_level(start, end, pa, a as int)),
{
    assert forall|a: u64|
        start <= a < addr + (if use_2m { PG_SIZE_2M as int } else { PG_SIZE as int }) && a as int % (PG_SIZE as int)
            == 0 implies !#[trigger] slot_taken(pt0, pgdir, a, chunk_level(start, end, pa, a as int)) by {
        if a >= addr {
            if use_2m {
                assert(a / 0x20_0000 == addr / 0x20_0000);
                assert(a - a % 0x20_0000 == addr - addr % 0x20_0000);
                assert(huge_at(start, end, pa, a as int));
                lemma_same_block_slot(pt0, pgdir, a, addr);
            } else {
                assert(a == addr);
            }
        }
    }
}

/// An entry that is free after the tables grew was free before.
proof fn lemma_slot_free(pt0: Map<u64, PageTable>, ptw: Map<u64, PageTable>, pgdir: u64, a: u64, level: int, t: u64, i: int)
    requires
        grows_leafy(pt0, ptw),
        forall|t2: u64| #[trigger] pt0.contains_key(t2) ==> pt0[t2].entries@.len() == 512,
        0 <= level <= 3,
        path(ptw, pgdir, a, level) == Some(t),
        i == pt_index(a, level),
        !pte_present(ptw[t].entries@[i]),
    ensures
        !slot_taken(pt0, pgdir, a, level),
{
    if slot_taken(pt0, pgdir, a, level) {
        lemma_path_extends(pt0, ptw, pgdir, a, level);
        let t0 = path(pt0, pgdir, a, level).unwrap();
        assert(pte_present(pt0[t0].entries@[i]));
        assert(0 <= i < 512);
        assert(ptw[t0].entries@[i] == pt0[t0].entries@[i]);
    }
}

/// Map the chunk of `map_pages` at `addr`: one 2 MiB page or one 4 KiB
/// page, as `huge_at` decides.
#[verifier::rlimit(30)]
fn map_chunk(
    pt: &mut PageTables,
    allocator: &mut Allocator,
    pgdir: u64,
    start: u64,
    end: u64,
    pa: u64,
    perm: u64,
    addr: u64,
    cur: u64,
    Ghost(pt0): Ghost<Map<u64, PageTable>>,
    Ghost(al0): Ghost<Seq<u64>>,
) -> (r: bool)
    requires
        map_inv(old(pt)@, old(allocator)@, pt0, al0, pgdir, start as int, end as int, pa as int, perm, addr as int),
        map_range_ok(start as int, end as int, pa as int),
        start <= addr <= end,
        addr as int % (PG_SIZE as int) == 0,
        huge_at(start as int, end as int, pa as int, addr as int) ==> addr as int % (PG_SIZE_2M as int) == 0,
        cur == pa + (addr - start),
    ensures
        r ==> map_inv(
            final(pt)@,
            final(allocator)@,
            pt0,
            al0,
            pgdir,
            start as int,
            end as int,
            pa as int,
            perm,
            addr + (if huge_at(start as int, end as int, pa as int, addr as int) {
                PG_SIZE_2M as int
            } else {
                PG_SIZE as int
            }),
        ),
        !r ==> map_failed_ok(final(pt)@, final(allocator)@, pt0, al0, pgdir, start as int, end as int),
        !r ==> range_small(final(pt)@, pgdir, start as int, end as int, pa as int),
        !r ==> final(allocator)@.len() == 0 || slot_taken(
            pt0,
            pgdir,
            addr,
            chunk_level(start as int, end as int, pa as int, addr as int),
        ),
        !r ==> forall|b: u64|
            start <= b < addr ==> #[trigger] leaf(final(pt)@, pgdir, b) == Some(
                mapped_entry(start as int, end as int, pa as int, perm, b as int),
            ),
        !r ==> forall|b: u64| addr <= b < end + PG_SIZE ==> #[trigger] leaf(final(pt)@, pgdir, b) == leaf(pt0, pgdir, b),
        old(allocator)@.len() - final(allocator)@.len() <= 3,
        r ==> !slot_taken(pt0, pgdir, addr, chunk_level(start as int, end as int, pa as int, addr as int)),
        old(allocator)@.len() - final(allocator)@.len() <= 3 - chunk_level(start as int, end as int, pa as int, addr as int),
        path(old(pt)@, pgdir, addr, chunk_level(start as int, end as int, pa as int, addr as int)) is Some
            ==> final(allocator)@ == old(allocator)@,
        r ==> path(final(pt)@, pgdir, addr, chunk_level(start as int, end as int, pa as int, addr as int)) is Some,
        forall|k: int|
            final(allocator)@.len() <= k < old(allocator)@.len() ==> #[trigger] final(pt)@.contains_key(
                old(allocator)@[k],
            ),
        forall|t: u64| #[trigger] old(pt)@.contains_key(t) ==> final(pt)@.contains_key(t),
{
    let use_2m = addr % PG_SIZE_2M == 0 && cur % PG_SIZE_2M == 0 && addr + PG_SIZE_2M <= end + (PG_SIZE as u64);
    let level: u8 = if use_2m {
        1
    } else {
        0
    };
    let ghost ptp = pt@;
    let ghost alp = allocator@;
    let ghost nxt: int = if use_2m {
        addr + PG_SIZE_2M
    } else {
        addr + PG_SIZE
    };
    proof {
        reveal(map_inv);
        assert(use_2m == huge_at(start as int, end as int, pa as int, addr as int));
        lemma_wf_map(pt);
        if !use_2m {
            if path(ptp, pgdir, addr, 1).is_some() {
                lemma_own_slot(ptp, pt0, pgdir, start as int, end as int, pa as int, addr, 1);
                let t1 = path(ptp, pgdir, addr, 1).unwrap();
                if pt0.contains_key(t1) {
                    lemma_grows_path(pt0, ptp, pgdir, addr, 1);
                    assert(no_huge_on_path(pt0, pgdir, addr));
                } else {
                    crate::vm::lemma_zero_entry();
                }
            }
            assert(no_huge_on_path(ptp, pgdir, addr));
        }
    }
    let w = walk(pt, allocator, pgdir, addr, true, level);
    let ghost ptw = pt@;
    proof {
        lemma_wf_map(pt);
        lemma_grows_leafy(ptp, ptw);
        lemma_grows_compose(pt0, ptp, ptw);
        lemma_explained_walk(ptp, ptw, pt0, pgdir, start as int, end as int, pa as int, addr, nxt);
        lemma_tables_from_trans(pt0, al0, ptp, alp, ptw);
        assert(allocator@ == al0.take(allocator@.len() as int)) by {
            assert(allocator@ =~= al0.take(allocator@.len() as int));
        }
    }
    match w {
        None => {
            proof {
                lemma_outside_leaf(ptw, pt0, pgdir, start as int, end as int, pa as int, nxt);
                lemma_outside_slots(ptw, pt0, pgdir, start as int, end as int, pa as int, nxt);
                lemma_range_small(ptw, pt0, pgdir, start as int, end as int, pa as int, nxt);
                assert forall|b: u64| start <= b < addr implies #[trigger] leaf(ptw, pgdir, b) == Some(
                    mapped_entry(start as int, end as int, pa as int, perm, b as int),
                ) by {
                    law_extends_keeps_leaf(ptp, ptw, pgdir, b);
                }
                assert forall|b: u64| addr <= b < end + PG_SIZE implies #[trigger] leaf(ptw, pgdir, b) == leaf(
                    pt0,
                    pgdir,
                    b,
                ) by {
                    lemma_pending_leaf(ptp, ptw, pt0, pgdir, start as int, end as int, pa as int, addr, level as int, b);
                }
            }
            false
        },
        Some((t, i)) => {
            let e = read_entry(pt, t, i);
            proof {
                if ptw[t].entries@[i as int] != base_entry(ptp, t, i as int) {
                    assert(false);
                }
                if ptp.contains_key(t) {
                    lemma_grows_path(ptp, ptw, pgdir, addr, level as int);
                    lemma_own_slot(ptp, pt0, pgdir, start as int, end as int, pa as int, addr, level as int);
                } else {
                    if pt0.contains_key(t) {
                        assert(ptp.contains_key(t));
                    }
                }
                assert(e == base_entry(pt0, t, i as int));
            }
            if e & PTE_PRESENT != 0 {
                proof {
                    if !pt0.contains_key(t) {
                        crate::vm::lemma_zero_entry();
                    }
                    lemma_grows_path(pt0, ptw, pgdir, addr, level as int);
                    assert(slot_taken(pt0, pgdir, addr, chunk_level(start as int, end as int, pa as int, addr as int)));
                    lemma_outside_leaf(ptw, pt0, pgdir, start as int, end as int, pa as int, nxt);
                lemma_outside_slots(ptw, pt0, pgdir, start as int, end as int, pa as int, nxt);
                lemma_range_small(ptw, pt0, pgdir, start as int, end as int, pa as int, nxt);
                assert forall|b: u64| start <= b < addr implies #[trigger] leaf(ptw, pgdir, b) == Some(
                    mapped_entry(start as int, end as int, pa as int, perm, b as int),
                ) by {
                    law_extends_keeps_leaf(ptp, ptw, pgdir, b);
                }
                assert forall|b: u64| addr <= b < end + PG_SIZE implies #[trigger] leaf(ptw, pgdir, b) == leaf(
                    pt0,
                    pgdir,
                    b,
                ) by {
                    lemma_pending_leaf(ptp, ptw, pt0, pgdir, start as int, end as int, pa as int, addr, level as int, b);
                }
                }
                return false;
            }
            let mut flags = perm | PTE_PRESENT;
            if use_2m {
                flags = flags | PTE_HUGE_PAGE;
            }
            let v = PageTableEntry::new(cur, flags).0;
            proof {
                lemma_slot_free(pt0, ptw, pgdir, addr, level as int, t, i as int);
                law_pte_fields(cur, flags);
                if use_2m {
                    assert(flags & 1u64 != 0 && flags & 128u64 != 0) by (bit_vector)
                        requires
                            flags == perm | 1u64 | 128u64,
                    ;
                } else {
                    assert(flags & 1u64 != 0) by (bit_vector)
                        requires
                            flags == perm | 1u64,
                    ;
                }
                assert(!is_pointer(v, level as int));
            }
            write_entry(pt, t, i, v);
            let ghost pt2 = pt@;
            proof {
                lemma_write_leaf(pt0, ptw, pt2, t, i as int, v);
                lemma_path_write(ptw, t, pt2[t], pgdir, addr, level as int);
                lemma_path_write(ptw, t, pt2[t], pgdir, addr, 1);
                lemma_explained_write(ptw, pt2, pt0, pgdir, start as int, end as int, pa as int, addr, nxt, t, i as int, v);
                lemma_extends_trans(ptp, ptw, pt2);
                assert(pt2[t].entries@[i as int] == v);
                if level == 0 {
                    let t1 = path(ptw, pgdir, addr, 1).unwrap();
                    lemma_path_monotone(ptw, pgdir, addr, 0, 1);
                    lemma_path_level(ptw, pgdir, addr, 1);
                    assert(pt2[t1] == ptw[t1]);
                    assert(no_huge_on_path(pt2, pgdir, addr));
                }
                assert forall|b: u64| start <= b < nxt implies #[trigger] leaf(pt2, pgdir, b) == Some(
                    mapped_entry(start as int, end as int, pa as int, perm, b as int),
                ) by {
                    if b < addr {
                        law_extends_keeps_leaf(ptp, pt2, pgdir, b);
                    } else {
                        lemma_chunk_leaf(pt2, pgdir, start as int, end as int, pa as int, perm, addr, t, v, level as int, b);
                    }
                }
                assert forall|k: int| 0 <= k < allocator@.len() implies !pt2.contains_key(#[trigger] allocator@[k]) by {
                    assert(!ptw.contains_key(allocator@[k]));
                }
                assert(map_inv(pt2, allocator@, pt0, al0, pgdir, start as int, end as int, pa as int, perm, nxt));
            }
            true
        },
    }
}

/// The promises of a finished `map_pages`, from what holds after its last
/// chunk.
proof fn lemma_map_done(
    pt: Map<u64, PageTable>,
    al: Seq<u64>,
    pt0: Map<u64, PageTable>,
    al0: Seq<u64>,
    pgdir: u64,
    start: int,
    end: int,
    pa: int,
    perm: u64,
)
    requires
        map_inv(pt, al, pt0, al0, pgdir, start, end, pa, perm, end + PG_SIZE),
        map_range_ok(start, end, pa),
    ensures
        map_failed_ok(pt, al, pt0, al0, pgdir, start, end),
        range_small(pt, pgdir, start, end, pa),
        forall|b: u64| start <= b < end + PG_SIZE ==> #[trigger] leaf(pt, pgdir, b) == Some(mapped_entry(start, end, pa, perm, b as int)),
{
    reveal(map_inv);
    lemma_outside_leaf(pt, pt0, pgdir, start, end, pa, end + PG_SIZE);
    lemma_outside_slots(pt, pt0, pgdir, start, end, pa, end + PG_SIZE);
    lemma_range_small(pt, pt0, pgdir, start, end, pa, end + PG_SIZE);
}

/// Map the pages of `[va, va + sz)` to the physical memory from `pa` on,
/// present and with `perm`: with a 2 MiB page wherever a whole 2 MiB block
/// of the range goes to a 2 MiB-aligned physical address, with 4 KiB pages
/// elsewhere. Tables are allocated as needed. Fails when a page of the range
/// is already mapped or memory for tables runs out; what was mapped before
/// the failure stays mapped.
#[verifier::rlimit(40)]
#[verifier::spinoff_prover]
pub fn map_pages(
    pt: &mut PageTables,
    allocator: &mut Allocator,
    pgdir: u64,
    va: u64,
    pa: u64,
    sz: u64,
    perm: u64,
) -> (r: bool)
    requires
        old(pt).wf(),
        tree(old(pt)@),
        old(allocator).wf(),
        alloc_ok(old(pt)@, old(allocator)@),
        old(pt)@.contains_key(pgdir),
        old(pt)@[pgdir].level == 3,
        sz > 0,
        va + sz - 1 + PG_SIZE_2M <= u64::MAX,
        pa + (map_last(va, sz) - map_first(va)) + PG_SIZE <= u64::MAX,
        map_last(va, sz) - map_first(va) < 0x8000_0000_0000,
        forall|a: u64|
            map_first(va) <= a <= map_last(va, sz) && !huge_at(map_first(va), map_last(va, sz), pa as int, a as int)
                ==> #[trigger] no_huge_on_path(old(pt)@, pgdir, a),
    ensures
        final(pt).wf(),
        tree(final(pt)@),
        final(allocator).wf(),
        alloc_ok(final(pt)@, final(allocator)@),
        grows_leafy(old(pt)@, final(pt)@),
        final(allocator)@.len() <= old(allocator)@.len(),
        final(allocator)@ == old(allocator)@.take(final(allocator)@.len() as int),
        tables_from(old(pt)@, old(allocator)@, final(pt)@),
        final(pt)@.contains_key(pgdir),
        final(pt)@[pgdir].level == 3,
        forall|b: u64|
            (forall|c: u64| map_first(va) <= c <= map_last(va, sz) ==> vpn(c as int) != vpn(b as int))
                ==> #[trigger] leaf(final(pt)@, pgdir, b) == leaf(old(pt)@, pgdir, b),
        forall|b: u64, l: int|
            (forall|c: u64| map_first(va) <= c <= map_last(va, sz) ==> vpn2(c as int) != vpn2(b as int)) && 0 <= l <= 1
                ==> #[trigger] slot_taken(final(pt)@, pgdir, b, l) == slot_taken(old(pt)@, pgdir, b, l),
        forall|b: u64|
            (forall|c: u64| map_first(va) <= c <= map_last(va, sz) ==> vpn(c as int) != vpn(b as int))
                ==> #[trigger] slot_taken(final(pt)@, pgdir, b, 0) == slot_taken(old(pt)@, pgdir, b, 0),
        range_small(final(pt)@, pgdir, map_first(va), map_last(va, sz), pa as int),
        r ==> forall|a: u64|
            map_first(va) <= a <= map_last(va, sz) && a as int % (PG_SIZE as int) == 0 ==> !#[trigger] slot_taken(
                old(pt)@,
                pgdir,
                a,
                chunk_level(map_first(va), map_last(va, sz), pa as int, a as int),
            ),
        old(allocator)@.len() - final(allocator)@.len() <= map_frames_bound(map_first(va), map_last(va, sz), pa as int),
        forall|k: int|
            final(allocator)@.len() <= k < old(allocator)@.len() ==> #[trigger] final(pt)@.contains_key(
                old(allocator)@[k],
            ),
        old(allocator)@.len() > map_frames_bound(map_first(va), map_last(va, sz), pa as int) && (forall|a: u64|
            map_first(va) <= a <= map_last(va, sz) && a as int % (PG_SIZE as int) == 0 ==> !#[trigger] slot_taken(
                old(pt)@,
                pgdir,
                a,
                chunk_level(map_first(va), map_last(va, sz), pa as int, a as int),
            )) ==> r,
        r ==> forall|b: u64|
            map_first(va) <= b < map_last(va, sz) + PG_SIZE ==> #[trigger] leaf(final(pt)@, pgdir, b) == Some(
                mapped_entry(map_first(va), map_last(va, sz), pa as int, perm, b as int),
            ),
        !r ==> exists|a_f: u64|
            map_first(va) <= a_f <= map_last(va, sz) && a_f as int % (PG_SIZE as int) == 0 && #[trigger] stopped_at(
                final(pt)@,
                old(pt)@,
                pgdir,
                map_first(va),
                map_last(va, sz),
                pa as int,
                perm,
                a_f,
            ),
        !r ==> exists|a_f: u64|
            map_first(va) <= a_f <= map_last(va, sz) && a_f as int % (PG_SIZE as int) == 0 && #[trigger] stopped_at(
                final(pt)@,
                old(pt)@,
                pgdir,
                map_first(va),
                map_last(va, sz),
                pa as int,
                perm,
                a_f,
            ) && (final(allocator)@.len() == 0 || slot_taken(
                old(pt)@,
                pgdir,
                a_f,
                chunk_level(map_first(va), map_last(va, sz), pa as int, a_f as int),
            )),
        !r ==> final(allocator)@.len() == 0 || exists|a: u64|
            map_first(va) <= a <= map_last(va, sz) && a as int % (PG_SIZE as int) == 0 && #[trigger] slot_taken(
                old(pt)@,
                pgdir,
                a,
                chunk_level(map_first(va), map_last(va, sz), pa as int, a as int),
            ),
{
    let ghost pt0 = pt@;
    let ghost al0 = allocator@;
    let start = pgrounddown(va);
    let end = pgrounddown(va + sz - 1);
    let mut addr = start;
    let mut cur = pa;
    let ghost mut n: int = 0;
    proof {
        reveal(map_inv);
        lemma_wf_map(pt);
        crate::vm::lemma_extends_refl(pt0);
        assert(grows_leafy(pt0, pt0));
        assert(changes_explained(pt0, pt0, pgdir, start as int, end as int, pa as int, addr as int));
        assert(al0 == al0.take(al0.len() as int));
        assert(map_inv(pt0, al0, pt0, al0, pgdir, start as int, end as int, pa as int, perm, addr as int));
    }
    while addr <= end
        invariant
            pt0 == old(pt)@,
            al0 == old(allocator)@,
            start == map_first(va),
            end == map_last(va, sz),
            map_range_ok(start as int, end as int, pa as int),
            start <= addr <= end + PG_SIZE,
            addr as int % (PG_SIZE as int) == 0,
            addr <= end ==> (huge_at(start as int, end as int, pa as int, addr as int) ==> addr as int % (
            PG_SIZE_2M as int) == 0),
            cur == pa + (addr - start),
            map_inv(pt@, allocator@, pt0, al0, pgdir, start as int, end as int, pa as int, perm, addr as int),
            0 <= n,
            al0.len() - allocator@.len() <= 3 * n,
            forall|k: int| allocator@.len() <= k < al0.len() ==> #[trigger] pt@.contains_key(al0[k]),
            all_huge(start as int, end as int, pa as int) && one_region(start as int, end as int) && n >= 1
                ==> path(pt@, pgdir, start, 1) is Some,
            all_huge(start as int, end as int, pa as int) && one_region(start as int, end as int) ==> al0.len()
                - allocator@.len() <= 2,
            forall|a: u64|
                start <= a < addr && a as int % (PG_SIZE as int) == 0 ==> !#[trigger] slot_taken(
                    pt0,
                    pgdir,
                    a,
                    chunk_level(start as int, end as int, pa as int, a as int),
                ),
            n * PG_SIZE <= addr - start,
            all_huge(start as int, end as int, pa as int) ==> n * PG_SIZE_2M == addr - start,
        decreases end + PG_SIZE - addr,
    {
        let use_2m = addr % PG_SIZE_2M == 0 && cur % PG_SIZE_2M == 0 && addr + PG_SIZE_2M <= end + (PG_SIZE as u64);
        proof {
            assert(use_2m == huge_at(start as int, end as int, pa as int, addr as int));
            if all_huge(start as int, end as int, pa as int) {
                assert((addr - start) % (PG_SIZE_2M as int) == 0) by (nonlinear_arith)
                    requires
                        n * 0x20_0000 == addr - start,
                ;
                lemma_all_huge_step(start as int, end as int, pa as int, addr as int);
            }
            reveal(map_inv);
            n = n + 1;
        }
        let ghost first = n == 1;
        let ghost ptp = pt@;
        let ghost alp = allocator@;
        let ok = map_chunk(pt, allocator, pgdir, start, end, pa, perm, addr, cur, Ghost(pt0), Ghost(al0));
        proof {
            if all_huge(start as int, end as int, pa as int) && one_region(start as int, end as int) {
                lemma_region_chunk(ptp, pt@, alp, allocator@, al0, pgdir, start, end, addr, first, ok);
            }
            assert forall|k: int| allocator@.len() <= k < al0.len() implies #[trigger] pt@.contains_key(al0[k]) by {
                if k < alp.len() {
                    assert(alp[k] == al0[k]);
                } else {
                    assert(ptp.contains_key(al0[k]));
                }
            }
        }
        if !ok {
            proof {
                lemma_wf_map(pt);
                assert(stopped_at(pt@, pt0, pgdir, map_first(va), map_last(va, sz), pa as int, perm, addr));
                if all_huge(start as int, end as int, pa as int) {
                    assert(addr + PG_SIZE_2M <= end + PG_SIZE);
                }
                if !(all_huge(start as int, end as int, pa as int) && one_region(start as int, end as int)) {
                    lemma_chunks_bound(start as int, end as int, pa as int, n);
                }
            }
            return false;
        }
        proof {
            lemma_free_slots_step(pt0, pgdir, start as int, end as int, pa as int, addr, use_2m);
            let a2 = (addr + 0x1000) as u64;
            assert(a2 % 0x20_0000 != 0 ==> a2 - a2 % 0x20_0000 == addr - addr % 0x20_0000) by (bit_vector)
                requires
                    addr % 0x1000 == 0,
                    a2 == addr + 0x1000,
            ;
        }
        if use_2m {
            addr = addr + PG_SIZE_2M;
            cur = cur + PG_SIZE_2M;
        } else {
            addr = addr + (PG_SIZE as u64);
            cur = cur + (PG_SIZE as u64);
        }
    }
    proof {
        assert(addr == end + PG_SIZE);
        if !(all_huge(start as int, end as int, pa as int) && one_region(start as int, end as int)) {
            lemma_chunks_bound(start as int, end as int, pa as int, n);
        }
        lemma_map_done(pt@, allocator@, pt0, al0, pgdir, start as int, end as int, pa as int, perm);
        lemma_wf_map(pt);
    }
    true
}

} // verus!
