use vstd::prelude::*;
use crate::allocator::Allocator;
use crate::address_space::{highmem_mapped, uvm_create};
use crate::elf::{
    check_segment, elf_header_fields, parse_elf_header, parse_program_header, program_header_of, ElfHeader,
    ProgramHeader, Segment, ELF_HEADER_SIZE, ELF_MAGIC, PROGRAM_HEADER_SIZE, PT_LOAD,
};
use crate::proc::{Process, ProcessState};
use crate::trap::TrapFrame;
use crate::mapping::{huge_at, map_first, map_last, map_pages, slot_taken, vpn};
use crate::util::{KERNBASE, PG_SIZE};
use crate::uvm::{map_new_page, user_page, user_small_pages, NewPage, USER_TOP};
use crate::vm::{
    alloc_ok, grows_leafy, tables_from, tables_ok, law_extends_keeps_leaf, law_pte_fields, leaf, no_huge_on_path, page_floor, read_entry,
    translate, tree, walk, PageTable, PageTables, PageTableEntry, PTE_PRESENT, TABLE_PA_LIMIT,
};

verus! {

/// Whether the page of `b` is one of the pages of segment `ph`.
pub open spec fn in_segment_pages(ph: ProgramHeader, b: u64) -> bool {
    page_floor(ph.vaddr as int) <= page_floor(b as int) < ph.vaddr + ph.memsz
}

/// The number of pieces a segment's `filesz` file bytes at `vaddr` are
/// copied in: one per page they touch.
pub open spec fn chunk_count(vaddr: int, filesz: int) -> int {
    if filesz <= 0 {
        0
    } else {
        (page_floor(vaddr + filesz - 1) - page_floor(vaddr)) / (PG_SIZE as int) + 1
    }
}

/// Where piece `k` starts: at `vaddr` for the first, at a page boundary
/// for the others.
pub open spec fn chunk_start(vaddr: int, k: int) -> int {
    if k == 0 {
        vaddr
    } else {
        page_floor(vaddr) + k * (PG_SIZE as int)
    }
}

/// Where piece `k` ends: at the next page boundary, or at the end of the
/// file bytes.
pub open spec fn chunk_end(vaddr: int, filesz: int, k: int) -> int {
    let e = page_floor(vaddr) + (k + 1) * (PG_SIZE as int);
    if vaddr + filesz < e {
        vaddr + filesz
    } else {
        e
    }
}

/// A piece of a segment's file bytes: `len` bytes of the file at `file_off`
/// go to kernel address `kva`.
#[derive(Clone, Copy, Debug, PartialEq, Eq, Structural)]
pub struct CopyChunk {
    pub kva: u64,
    pub file_off: u32,
    pub len: u32,
}

/// Piece `k` of the segment `ph`, with its destination read from the page
/// table: the kernel address of the physical memory its start maps to.
pub open spec fn chunk_spec(pt: Map<u64, PageTable>, pgdir: u64, ph: ProgramHeader, k: int) -> CopyChunk {
    let v = chunk_start(ph.vaddr as int, k);
    CopyChunk {
        kva: (translate(pt, pgdir, v as u64).unwrap() + KERNBASE) as u64,
        file_off: (ph.off + (v - ph.vaddr)) as u32,
        len: (chunk_end(ph.vaddr as int, ph.filesz as int, k) - v) as u32,
    }
}

/// One piece of the copy: how long it is, where the next one starts, and
/// how many there are.
proof fn lemma_chunk_step(vaddr: int, filesz: int, k: int, cur: int)
    requires
        0 <= vaddr,
        0 < filesz,
        0 <= k,
        cur == chunk_start(vaddr, k),
        vaddr <= cur < vaddr + filesz,
    ensures
        ({
            let m = PG_SIZE - cur as int % (PG_SIZE as int);
            let n = if m < vaddr + filesz - cur {
                m
            } else {
                vaddr + filesz - cur
            };
            &&& 0 < n <= PG_SIZE
            &&& cur + n == chunk_end(vaddr, filesz, k)
            &&& cur + n < vaddr + filesz ==> cur + n == chunk_start(vaddr, k + 1)
            &&& k < chunk_count(vaddr, filesz)
            &&& cur + n == vaddr + filesz ==> k + 1 == chunk_count(vaddr, filesz)
        }),
{
    let f = vaddr - vaddr % 4096;
    let l = (vaddr + filesz - 1) - (vaddr + filesz - 1) % 4096;
    assert(f % 4096 == 0);
    assert(cur - cur % 4096 == f + k * 4096) by {
        if k > 0 {
            assert((f + k * 4096) % 4096 == 0);
        }
    }
    assert(l % 4096 == 0);
    assert(f + k * 4096 <= l);
    let q = (l - f) / 4096;
    assert(l - f == q * 4096);
    assert(k <= q);
    if vaddr + filesz <= f + (k + 1) * 4096 {
        assert(l <= f + k * 4096);
        assert(q == k);
    }
}

/// What holds while `map_segment_pages` works through its pages: the
/// tables are in good order, the pages before `a` are mapped, and nothing
/// else that a user address reaches has changed.
#[verifier::opaque]
pub open spec fn pages_inv(
    pt: Map<u64, PageTable>,
    al: Seq<u64>,
    pt0: Map<u64, PageTable>,
    al0: Seq<u64>,
    pgdir: u64,
    lo: int,
    a: int,
) -> bool {
    &&& crate::mapping::wf_map(pt)
    &&& tree(pt)
    &&& al.no_duplicates()
    &&& !al.contains(0u64)
    &&& alloc_ok(pt, al)
    &&& grows_leafy(pt0, pt)
    &&& al.len() <= al0.len()
    &&& al == al0.take(al.len() as int)
    &&& tables_from(pt0, al0, pt)
    &&& pt.contains_key(pgdir)
    &&& pt[pgdir].level == 3
    &&& user_small_pages(pt, pgdir)
    &&& forall|b: u64| lo <= b < a ==> #[trigger] user_page(pt, pgdir, b)
    &&& forall|b: u64| b < USER_TOP && !(lo <= b < a) ==> #[trigger] leaf(pt, pgdir, b) == leaf(pt0, pgdir, b)
    &&& forall|b: u64| a <= b < USER_TOP ==> #[trigger] slot_taken(pt, pgdir, b, 0) == slot_taken(pt0, pgdir, b, 0)
}

proof fn lemma_pages_inv_start(pt: &PageTables, al: &Allocator, pgdir: u64, lo: int)
    requires
        pt.wf(),
        tree(pt@),
        al.wf(),
        alloc_ok(pt@, al@),
        pt@.contains_key(pgdir),
        pt@[pgdir].level == 3,
        user_small_pages(pt@, pgdir),
    ensures
        pages_inv(pt@, al@, pt@, al@, pgdir, lo, lo),
{
    reveal(pages_inv);
    crate::vm::lemma_extends_refl(pt@);
    assert(grows_leafy(pt@, pt@));
    assert(al@ =~= al@.take(al@.len() as int));
}

proof fn lemma_pages_inv_open(
    pt: &PageTables,
    al: &Allocator,
    pt0: Map<u64, PageTable>,
    al0: Seq<u64>,
    pgdir: u64,
    lo: int,
    a: int,
)
    requires
        pages_inv(pt@, al@, pt0, al0, pgdir, lo, a),
    ensures
        pt.wf(),
        tree(pt@),
        al.wf(),
        alloc_ok(pt@, al@),
        pt@.contains_key(pgdir),
        pt@[pgdir].level == 3,
        user_small_pages(pt@, pgdir),
{
    reveal(pages_inv);
    crate::mapping::lemma_wf_map(pt);
}

/// What `map_segment_pages` promises once every page is mapped.
#[verifier::rlimit(40)]
#[verifier::spinoff_prover]
proof fn lemma_pages_inv_done(
    pt: &PageTables,
    al: &Allocator,
    pt0: Map<u64, PageTable>,
    al0: Seq<u64>,
    pgdir: u64,
    lo: int,
    a: int,
    end: int,
)
    requires
        pages_inv(pt@, al@, pt0, al0, pgdir, lo, a),
        lo <= a,
        end <= a,
        a < end + 0x1000 || a == lo,
        a % 0x1000 == 0,
    ensures
        pt.wf(),
        tree(pt@),
        al.wf(),
        alloc_ok(pt@, al@),
        grows_leafy(pt0, pt@),
        al@.len() <= al0.len(),
        al@ == al0.take(al@.len() as int),
        tables_from(pt0, al0, pt@),
        pt@.contains_key(pgdir),
        pt@[pgdir].level == 3,
        user_small_pages(pt@, pgdir),
        forall|b: u64| lo <= b && page_floor(b as int) < end ==> #[trigger] user_page(pt@, pgdir, b),
        forall|b: u64|
            b < USER_TOP && !(lo <= b && page_floor(b as int) < end) ==> #[trigger] leaf(pt@, pgdir, b) == leaf(
                pt0,
                pgdir,
                b,
            ),
{
    reveal(pages_inv);
    crate::mapping::lemma_wf_map(pt);
    assert forall|b: u64| lo <= b && page_floor(b as int) < end implies #[trigger] user_page(pt@, pgdir, b) by {
        assert(b < a);
    }
    assert forall|b: u64| b < USER_TOP && !(lo <= b && page_floor(b as int) < end) implies #[trigger] leaf(
        pt@,
        pgdir,
        b,
    ) == leaf(pt0, pgdir, b) by {
        if lo <= b < a {
            assert(page_floor(b as int) < end);
        }
    }
}

/// One more page mapped keeps the invariant of `map_segment_pages`; a page
/// that could not be mapped leaves what its caller promises on failure.
proof fn lemma_pages_step(
    ptp: Map<u64, PageTable>,
    alp: Seq<u64>,
    pt1: &PageTables,
    al1: &Allocator,
    pt0: Map<u64, PageTable>,
    al0: Seq<u64>,
    pgdir: u64,
    lo: int,
    a: u64,
    end: int,
    mapped: bool,
)
    requires
        pages_inv(ptp, alp, pt0, al0, pgdir, lo, a as int),
        lo <= a < USER_TOP,
        a < end,
        !mapped ==> al1@.len() == 0 || slot_taken(ptp, pgdir, a, 0),
        a % 0x1000 == 0,
        pt1.wf(),
        tree(pt1@),
        al1.wf(),
        alloc_ok(pt1@, al1@),
        grows_leafy(ptp, pt1@),
        al1@.len() <= alp.len(),
        al1@ == alp.take(al1@.len() as int),
        tables_from(ptp, alp, pt1@),
        pt1@.contains_key(pgdir),
        pt1@[pgdir].level == 3,
        user_small_pages(pt1@, pgdir),
        forall|b: u64|
            b < USER_TOP && b / 0x1000 != a / 0x1000 ==> #[trigger] leaf(pt1@, pgdir, b) == leaf(ptp, pgdir, b)
                && slot_taken(pt1@, pgdir, b, 0) == slot_taken(ptp, pgdir, b, 0),
        mapped ==> forall|b: u64| b / 0x1000 == a / 0x1000 ==> #[trigger] user_page(pt1@, pgdir, b),
    ensures
        mapped ==> pages_inv(pt1@, al1@, pt0, al0, pgdir, lo, a + 0x1000),
        grows_leafy(pt0, pt1@),
        al1@.len() <= al0.len(),
        al1@ == al0.take(al1@.len() as int),
        tables_from(pt0, al0, pt1@),
        forall|b: u64|
            b < USER_TOP && !(lo <= b && page_floor(b as int) < end) ==> #[trigger] leaf(pt1@, pgdir, b) == leaf(
                pt0,
                pgdir,
                b,
            ),
        !mapped ==> al1@.len() == 0 || exists|b: u64| lo <= b && page_floor(b as int) < end && #[trigger] slot_taken(pt0, pgdir, b, 0),
{
    reveal(pages_inv);
    lemma_grows_leafy_trans(pt0, ptp, pt1@);
    assert(al1@ =~= al0.take(al1@.len() as int));
    crate::mapping::lemma_tables_from_trans(pt0, al0, ptp, alp, pt1@);
    crate::mapping::lemma_wf_map(pt1);
    assert forall|b: u64| b < USER_TOP && !(lo <= b && page_floor(b as int) < end) implies #[trigger] leaf(
        pt1@,
        pgdir,
        b,
    ) == leaf(pt0, pgdir, b) by {
        assert(!(lo <= b < a));
        assert(b / 0x1000 != a / 0x1000);
        assert(leaf(pt1@, pgdir, b) == leaf(ptp, pgdir, b));
    }
    if !mapped && al1@.len() != 0 {
        assert(slot_taken(ptp, pgdir, a, 0) == slot_taken(pt0, pgdir, a, 0));
        assert(page_floor(a as int) == a);
        assert(slot_taken(pt0, pgdir, a, 0));
    }
    if mapped {
        assert forall|b: u64| lo <= b < a + 0x1000 implies #[trigger] user_page(pt1@, pgdir, b) by {
            if b < a {
                assert(b / 0x1000 != a / 0x1000);
                assert(user_page(ptp, pgdir, b));
                assert(leaf(pt1@, pgdir, b) == leaf(ptp, pgdir, b));
            } else {
                assert(b / 0x1000 == a / 0x1000);
            }
        }
        assert forall|b: u64| a + 0x1000 <= b < USER_TOP implies #[trigger] slot_taken(pt1@, pgdir, b, 0) == slot_taken(
            pt0,
            pgdir,
            b,
            0,
        ) by {
            assert(b / 0x1000 != a / 0x1000);
            assert(leaf(pt1@, pgdir, b) == leaf(ptp, pgdir, b));
            assert(slot_taken(pt1@, pgdir, b, 0) == slot_taken(ptp, pgdir, b, 0));
        }
    }
}

/// How many pages start in `[lo, end)`, `lo` being page-aligned.
pub open spec fn page_count(lo: int, end: int) -> int {
    if end <= lo {
        0
    } else {
        (end - lo + 0xFFF) / 0x1000
    }
}

/// How many pages the segment of `ph` covers.
pub open spec fn seg_pages(ph: ProgramHeader) -> int {
    page_count(page_floor(ph.vaddr as int), ph.vaddr + ph.memsz)
}

/// The most pages loading the `k`-th program header takes: four per page
/// of a loadable segment (the page and the tables to map it).
pub open spec fn ph_frames(phs: Seq<Vec<u8>>, k: int) -> int {
    if phs[k]@.len() == PROGRAM_HEADER_SIZE && ph_at(phs, k).type_ == PT_LOAD {
        4 * seg_pages(ph_at(phs, k))
    } else {
        0
    }
}

/// The most pages loading the first `n` program headers takes.
pub open spec fn exec_frames(phs: Seq<Vec<u8>>, n: int) -> int
    decreases n,
{
    if n <= 0 {
        0
    } else {
        exec_frames(phs, n - 1) + ph_frames(phs, n - 1)
    }
}

/// The most pages `exec` takes from the allocator: the new page table with
/// the kernel's high mappings, the segments, and the two stack pages.
pub open spec fn exec_frames_bound(phs: Seq<Vec<u8>>) -> int {
    crate::address_space::UVM_FRAMES + exec_frames(phs, phs.len() as int) + 8
}

proof fn lemma_exec_frames_nonneg(phs: Seq<Vec<u8>>, n: int)
    ensures
        0 <= exec_frames(phs, n),
    decreases n,
{
    if n > 0 {
        lemma_exec_frames_nonneg(phs, n - 1);
        assert(ph_frames(phs, n - 1) >= 0);
    }
}

proof fn lemma_exec_frames_mono(phs: Seq<Vec<u8>>, i: int, n: int)
    requires
        0 <= i <= n,
    ensures
        0 <= exec_frames(phs, i) <= exec_frames(phs, n),
    decreases n - i,
{
    lemma_exec_frames_nonneg(phs, i);
    if i < n {
        lemma_exec_frames_mono(phs, i, n - 1);
        assert(ph_frames(phs, n - 1) >= 0);
    }
}

/// The pages up to and including the one at `a` stay within the count.
proof fn lemma_page_count_step(lo: int, a: int, end: int)
    requires
        lo <= a < end,
        (a - lo) % 0x1000 == 0,
    ensures
        (a - lo) / 0x1000 + 1 <= page_count(lo, end),
        a + 0x1000 <= end ==> (a + 0x1000 - lo) / 0x1000 == (a - lo) / 0x1000 + 1,
        a + 0x1000 > end ==> (a - lo) / 0x1000 + 1 == page_count(lo, end),
{
    let q = (a - lo) / 0x1000;
    assert(q * 0x1000 == a - lo);
    assert((end - lo + 0xFFF) / 0x1000 >= q + 1);
    if a + 0x1000 > end {
        assert((end - lo + 0xFFF) / 0x1000 <= q + 1);
    }
}

/// Map a fresh zeroed page, user-writable, at every page of `[lo, end)`.
/// Fails when memory runs out or a page is already mapped.
fn map_segment_pages(pt: &mut PageTables, allocator: &mut Allocator, pgdir: u64, lo: u64, end: u64) -> (r: bool)
    requires
        old(pt).wf(),
        tree(old(pt)@),
        old(allocator).wf(),
        alloc_ok(old(pt)@, old(allocator)@),
        old(pt)@.contains_key(pgdir),
        old(pt)@[pgdir].level == 3,
        user_small_pages(old(pt)@, pgdir),
        lo % 0x1000 == 0,
        lo <= end,
        end <= USER_TOP,
    ensures
        final(pt).wf(),
        tree(final(pt)@),
        final(allocator).wf(),
        alloc_ok(final(pt)@, final(allocator)@),
        grows_leafy(old(pt)@, final(pt)@),
        final(allocator)@.len() <= old(allocator)@.len(),
        final(allocator)@ == old(allocator)@.take(final(allocator)@.len() as int),
        tables_from(old(pt)@, old(allocator)@, final(pt)@),
        final(pt)@.contains_key(pgdir),
        final(pt)@[pgdir].level == 3,
        user_small_pages(final(pt)@, pgdir),
        forall|b: u64|
            b < USER_TOP && !(lo <= b && page_floor(b as int) < end) ==> #[trigger] leaf(final(pt)@, pgdir, b) == leaf(
                old(pt)@,
                pgdir,
                b,
            ),
        r ==> forall|b: u64| lo <= b && page_floor(b as int) < end ==> #[trigger] user_page(final(pt)@, pgdir, b),
        !r ==> final(allocator)@.len() == 0 || exists|b: u64|
            lo <= b && page_floor(b as int) < end && #[trigger] slot_taken(old(pt)@, pgdir, b, 0),
        old(allocator)@.len() - final(allocator)@.len() <= 4 * page_count(lo as int, end as int),
{
    let ghost pt0 = pt@;
    let ghost al0 = allocator@;
    let mut a = lo;
    proof {
        lemma_pages_inv_start(pt, allocator, pgdir, lo as int);
    }
    while a < end
        invariant
            pt0 == old(pt)@,
            al0 == old(allocator)@,
            end <= USER_TOP,
            lo <= a,
            a % 0x1000 == 0,
            a < end + 0x1000,
            pages_inv(pt@, allocator@, pt0, al0, pgdir, lo as int, a as int),
            (a - lo) % 0x1000 == 0,
            a <= end ==> al0.len() - allocator@.len() <= 4 * ((a - lo) / 0x1000),
            a > end ==> al0.len() - allocator@.len() <= 4 * page_count(lo as int, end as int),
        decreases end + 0x1000 - a,
    {
        let ghost ptp = pt@;
        let ghost alp = allocator@;
        proof {
            lemma_pages_inv_open(pt, allocator, pt0, al0, pgdir, lo as int, a as int);
        }
        let page = map_new_page(pt, allocator, pgdir, a);
        let mapped = match page {
            NewPage::Mapped(_) => true,
            _ => false,
        };
        proof {
            lemma_pages_step(ptp, alp, pt, allocator, pt0, al0, pgdir, lo as int, a, end as int, mapped);
            lemma_page_count_step(lo as int, a as int, end as int);
        }
        if !mapped {
            return false;
        }
        a = a + 0x1000;
    }
    proof {
        lemma_pages_inv_done(pt, allocator, pt0, al0, pgdir, lo as int, a as int, end as int);
    }
    true
}

/// The piece of file bytes that starts at user address `cur`, with `rem`
/// bytes left and the file at `off`: up to the end of the page, into the
/// kernel address of the memory `cur` maps to.
fn copy_chunk(pt: &mut PageTables, allocator: &mut Allocator, pgdir: u64, cur: u64, rem: u64, off: u64) -> (r:
    CopyChunk)
    requires
        old(pt).wf(),
        tree(old(pt)@),
        old(allocator).wf(),
        alloc_ok(old(pt)@, old(allocator)@),
        old(pt)@.contains_key(pgdir),
        old(pt)@[pgdir].level == 3,
        user_page(old(pt)@, pgdir, cur),
        rem > 0,
    ensures
        final(pt)@ == old(pt)@,
        final(allocator)@ == old(allocator)@,
        r.kva == translate(old(pt)@, pgdir, cur).unwrap() + KERNBASE,
        r.file_off == off as u32,
        r.len == (if PG_SIZE - cur as int % (PG_SIZE as int) < rem {
            PG_SIZE - cur as int % (PG_SIZE as int)
        } else {
            rem as int
        }),
{
    proof {
        crate::uvm::lemma_no_huge_leaf(pt@, pgdir, cur);
    }
    let w = walk(pt, allocator, pgdir, cur, false, 0);
    let (t, i) = match w {
        Some(x) => x,
        None => {
            proof {
                assert(false);
            }
            return CopyChunk { kva: 0, file_off: 0, len: 0 };
        },
    };
    let e = read_entry(pt, t, i);
    let pa = PageTableEntry(e).addr();
    let kva = pa + KERNBASE;
    let page_offset = cur % 0x1000;
    let n = if 0x1000 - page_offset < rem {
        0x1000 - page_offset
    } else {
        rem
    };
    proof {
        assert(leaf(pt@, pgdir, cur) == Some((e, 0int)));
        assert(pa < TABLE_PA_LIMIT);
        assert((e & 0x000f_ffff_ffff_f000u64) % 0x1000 == 0) by (bit_vector);
        assert(translate(pt@, pgdir, cur) == Some((pa + page_offset) as u64));
    }
    let file_off: u32 = #[verifier::truncate] (off as u32);
    CopyChunk { kva: kva + page_offset, file_off, len: n as u32 }
}

/// Load a program segment into the user page table `pgdir`: map a fresh
/// zeroed page, user-writable, for every page of `[vaddr, vaddr + memsz)`,
/// then cut the file bytes into the pieces to copy, one per page. Fails
/// when memory runs out, when a page is already mapped, or when the segment
/// reaches beyond user space. That last refusal is this library's own rule,
/// stricter than mapping whatever the header names: addresses from `USER_TOP`
/// on are either not canonical or the kernel's half, and the page-table
/// entries for them would be the kernel's own, shared by every address
/// space, so a segment there is refused rather than mapped.
#[verifier::rlimit(40)]
#[verifier::spinoff_prover]
pub fn load_segment(pt: &mut PageTables, allocator: &mut Allocator, pgdir: u64, ph: &ProgramHeader) -> (r: Option<
    Vec<CopyChunk>,
>)
    requires
        old(pt).wf(),
        tree(old(pt)@),
        old(allocator).wf(),
        alloc_ok(old(pt)@, old(allocator)@),
        old(pt)@.contains_key(pgdir),
        old(pt)@[pgdir].level == 3,
        user_small_pages(old(pt)@, pgdir),
        ph.filesz <= ph.memsz,
        ph.vaddr + ph.memsz <= u64::MAX,
        ph.off + ph.filesz <= u64::MAX,
    ensures
        final(pt).wf(),
        tree(final(pt)@),
        final(allocator).wf(),
        alloc_ok(final(pt)@, final(allocator)@),
        grows_leafy(old(pt)@, final(pt)@),
        final(allocator)@.len() <= old(allocator)@.len(),
        final(allocator)@ == old(allocator)@.take(final(allocator)@.len() as int),
        final(pt)@.contains_key(pgdir),
        final(pt)@[pgdir].level == 3,
        user_small_pages(final(pt)@, pgdir),
        forall|b: u64|
            b < USER_TOP && !in_segment_pages(*ph, b) ==> #[trigger] leaf(final(pt)@, pgdir, b) == leaf(
                old(pt)@,
                pgdir,
                b,
            ),
        ph.vaddr + ph.memsz > USER_TOP ==> r is None && final(pt)@ == old(pt)@ && final(allocator)@ == old(
            allocator,
        )@,
        r matches Some(chunks) ==> {
            &&& forall|b: u64| in_segment_pages(*ph, b) ==> #[trigger] user_page(final(pt)@, pgdir, b)
            &&& chunks@.len() == chunk_count(ph.vaddr as int, ph.filesz as int)
            &&& forall|k: int| 0 <= k < chunks@.len() ==> #[trigger] chunks@[k] == chunk_spec(final(pt)@, pgdir, *ph, k)
        },
        old(allocator)@.len() - final(allocator)@.len() <= 4 * seg_pages(*ph),
        r is None ==> ph.vaddr + ph.memsz > USER_TOP || final(allocator)@.len() == 0 || exists|b: u64|
            in_segment_pages(*ph, b) && #[trigger] slot_taken(old(pt)@, pgdir, b, 0),
{
    let ghost pt0 = pt@;
    let ghost al0 = allocator@;
    let end = ph.vaddr + ph.memsz;
    if end > USER_TOP {
        return None;
    }
    let lo = crate::vm::pgrounddown(ph.vaddr);
    let ok = map_segment_pages(pt, allocator, pgdir, lo, end);
    if !ok {
        return None;
    }
    let ghost ptm = pt@;
    let ghost alm = allocator@;
    let mut chunks: Vec<CopyChunk> = Vec::new();
    let mut cur = ph.vaddr;
    let mut off = ph.off;
    let mut rem = ph.filesz;
    while rem > 0
        invariant
            pt@ == ptm,
            allocator@ == alm,
            pt.wf(),
            tree(pt@),
            allocator.wf(),
            alloc_ok(pt@, allocator@),
            pt@.contains_key(pgdir),
            pt@[pgdir].level == 3,
            forall|b: u64| in_segment_pages(*ph, b) ==> #[trigger] user_page(pt@, pgdir, b),
            ph.filesz <= ph.memsz,
            ph.vaddr + ph.memsz <= USER_TOP,
            ph.off + ph.filesz <= u64::MAX,
            rem > 0 ==> cur == chunk_start(ph.vaddr as int, chunks@.len() as int),
            ph.vaddr <= cur,
            rem == ph.vaddr + ph.filesz - cur,
            off == ph.off + (cur - ph.vaddr),
            rem > 0 ==> chunks@.len() < chunk_count(ph.vaddr as int, ph.filesz as int),
            rem == 0 ==> chunks@.len() == chunk_count(ph.vaddr as int, ph.filesz as int),
            forall|k: int| 0 <= k < chunks@.len() ==> #[trigger] chunks@[k] == chunk_spec(ptm, pgdir, *ph, k),
        decreases rem,
    {
        proof {
            assert(page_floor(cur as int) <= cur);
            assert(page_floor(ph.vaddr as int) <= page_floor(cur as int));
            assert(in_segment_pages(*ph, cur));
            lemma_chunk_step(ph.vaddr as int, ph.filesz as int, chunks@.len() as int, cur as int);
        }
        let c = copy_chunk(pt, allocator, pgdir, cur, rem, off);
        let n = c.len as u64;
        chunks.push(c);
        rem = rem - n;
        cur = cur + n;
        off = off + n;
    }
    Some(chunks)
}

/// Growth by leaves and fresh pointers, twice, is such growth.
proof fn lemma_grows_leafy_trans(a: Map<u64, PageTable>, b: Map<u64, PageTable>, c: Map<u64, PageTable>)
    requires
        grows_leafy(a, b),
        grows_leafy(b, c),
    ensures
        grows_leafy(a, c),
{
    crate::address_space::lemma_grows_leafy_trans(a, b, c);
}

/// Top of the user stack that `exec` sets up.
pub const STACK_TOP: u64 = 0x8000_0000;

/// Check the ELF header that a read of `ELF_HEADER_SIZE` bytes gave: it must
/// be whole and carry the ELF magic.
pub fn exec_check_header(b: &[u8]) -> (r: Option<ElfHeader>)
    ensures
        r is Some <==> b@.len() == ELF_HEADER_SIZE && crate::bytes::le32(b@, 0) == ELF_MAGIC,
        r matches Some(h) ==> elf_header_fields(b@, h),
{
    if b.len() != ELF_HEADER_SIZE {
        return None;
    }
    let h = parse_elf_header(b);
    if h.magic != ELF_MAGIC {
        return None;
    }
    Some(h)
}

/// Whether `exec` loads the segment of program header `ph`.
pub open spec fn loadable(ph: ProgramHeader) -> bool {
    &&& ph.type_ == PT_LOAD
    &&& ph.filesz <= ph.memsz
    &&& ph.vaddr + ph.memsz <= u64::MAX
}

/// Whether the `i`-th program header makes `exec` fail on its own: it was
/// not read whole, or it is a loadable segment that is malformed or reaches
/// beyond user space.
pub open spec fn ph_rejected(phs: Seq<Vec<u8>>, i: int) -> bool {
    ||| phs[i]@.len() != PROGRAM_HEADER_SIZE
    ||| {
        let ph = program_header_of(phs[i]@);
        &&& ph.type_ == PT_LOAD
        &&& (ph.memsz < ph.filesz || ph.vaddr + ph.memsz > USER_TOP)
    }
}

/// Whether copying the file bytes of the `i`-th program header can be done
/// without the file offset running past the end of the address space.
pub open spec fn ph_offsets_fit(phs: Seq<Vec<u8>>, i: int) -> bool {
    phs[i]@.len() == PROGRAM_HEADER_SIZE && loadable(program_header_of(phs[i]@)) ==> program_header_of(phs[i]@).off
        + program_header_of(phs[i]@).filesz <= u64::MAX
}

/// The program header read as the `i`-th.
pub open spec fn ph_at(phs: Seq<Vec<u8>>, i: int) -> ProgramHeader {
    program_header_of(phs[i]@)
}

/// The pieces to copy for the first `n` program headers, in order, with
/// their destinations read from the page table `pt`.
pub open spec fn exec_chunks(pt: Map<u64, PageTable>, pgdir: u64, phs: Seq<Vec<u8>>, n: int) -> Seq<CopyChunk>
    decreases n,
{
    if n <= 0 {
        Seq::empty()
    } else {
        let ph = ph_at(phs, n - 1);
        exec_chunks(pt, pgdir, phs, n - 1) + if loadable(ph) {
            Seq::new(
                chunk_count(ph.vaddr as int, ph.filesz as int) as nat,
                |k: int| chunk_spec(pt, pgdir, ph, k),
            )
        } else {
            Seq::empty()
        }
    }
}

/// Where a user program starts: its page table, entry point, stack pointer,
/// and the file bytes still to be copied into its memory.
pub struct ExecImage {
    pub pgdir: u64,
    pub entry: u64,
    pub sp: u64,
    pub chunks: Vec<CopyChunk>,
}

/// Every piece's start lies among the segment's file bytes.
proof fn lemma_chunk_start_in(vaddr: int, filesz: int, k: int)
    requires
        0 <= vaddr,
        0 <= k < chunk_count(vaddr, filesz),
    ensures
        vaddr <= chunk_start(vaddr, k) < vaddr + filesz,
        page_floor(vaddr) <= page_floor(chunk_start(vaddr, k)),
{
    let f = vaddr - vaddr % 4096;
    let l = (vaddr + filesz - 1) - (vaddr + filesz - 1) % 4096;
    assert(f <= l);
    let q = (l - f) / 4096;
    assert(l - f == q * 4096) by {
        assert(f % 4096 == 0);
        assert(l % 4096 == 0);
    }
    if k > 0 {
        assert(k <= q);
        assert((f + k * 4096) % 4096 == 0);
        assert(f + k * 4096 <= l);
    }
}

/// The pieces of the loaded segments keep their destinations while later
/// segments are loaded.
proof fn lemma_exec_chunks_stable(
    pt1: Map<u64, PageTable>,
    pt2: Map<u64, PageTable>,
    pgdir: u64,
    phs: Seq<Vec<u8>>,
    n: int,
)
    requires
        crate::vm::extends(pt1, pt2),
        forall|t: u64| #[trigger] pt1.contains_key(t) ==> pt1[t].entries@.len() == 512,
        forall|j: int, b: u64|
            0 <= j < n && loadable(ph_at(phs, j)) && #[trigger] in_segment_pages(ph_at(phs, j), b) ==> user_page(
                pt1,
                pgdir,
                b,
            ),
    ensures
        exec_chunks(pt2, pgdir, phs, n) == exec_chunks(pt1, pgdir, phs, n),
    decreases n,
{
    if n > 0 {
        lemma_exec_chunks_stable(pt1, pt2, pgdir, phs, n - 1);
        let ph = ph_at(phs, n - 1);
        if loadable(ph) {
            let c = chunk_count(ph.vaddr as int, ph.filesz as int) as nat;
            assert forall|k: int| 0 <= k < c implies chunk_spec(pt2, pgdir, ph, k) == chunk_spec(pt1, pgdir, ph, k) by {
                lemma_chunk_start_in(ph.vaddr as int, ph.filesz as int, k);
                let v = chunk_start(ph.vaddr as int, k) as u64;
                assert(page_floor(v as int) <= v);
                assert(in_segment_pages(ph_at(phs, n - 1), v));
                assert(user_page(pt1, pgdir, v));
                law_extends_keeps_leaf(pt1, pt2, pgdir, v);
            }
            assert(Seq::new(c, |k: int| chunk_spec(pt2, pgdir, ph, k)) =~= Seq::new(c, |k: int| chunk_spec(pt1, pgdir, ph, k)));
        }
    }
}

/// What holds between program headers in `exec`: the new address space meets
/// no large page at user addresses and keeps the kernel's high mappings;
/// the headers so far were all fine; the segments loaded so far are mapped,
/// and nothing else is; the pieces so far are those of the loaded segments.
#[verifier::opaque]
pub open spec fn exec_inv(pt: Map<u64, PageTable>, pgdir: u64, phs: Seq<Vec<u8>>, i: int, chunks: Seq<CopyChunk>) -> bool {
    &&& user_small_pages(pt, pgdir)
    &&& highmem_mapped(pt, pgdir)
    &&& forall|j: int| 0 <= j < i ==> !#[trigger] ph_rejected(phs, j)
    &&& forall|j: int, b: u64|
        0 <= j < i && loadable(ph_at(phs, j)) && #[trigger] in_segment_pages(ph_at(phs, j), b) ==> user_page(pt, pgdir, b)
    &&& forall|b: u64|
        b < USER_TOP && leaf(pt, pgdir, b).is_some() ==> exists|j: int|
            0 <= j < i && loadable(ph_at(phs, j)) && #[trigger] in_segment_pages(ph_at(phs, j), b)
    &&& chunks == exec_chunks(pt, pgdir, phs, i)
}

/// A program header that is not loaded keeps the invariant of `exec`.
proof fn lemma_exec_skip(pt: Map<u64, PageTable>, pgdir: u64, phs: Seq<Vec<u8>>, i: int, chunks: Seq<CopyChunk>)
    requires
        exec_inv(pt, pgdir, phs, i, chunks),
        0 <= i,
        !ph_rejected(phs, i),
        !loadable(ph_at(phs, i)),
    ensures
        exec_inv(pt, pgdir, phs, i + 1, chunks),
{
    reveal(exec_inv);
    assert(exec_chunks(pt, pgdir, phs, i + 1) =~= exec_chunks(pt, pgdir, phs, i));
    assert forall|b: u64|
        b < USER_TOP && leaf(pt, pgdir, b).is_some() implies exists|j: int|
        0 <= j < i + 1 && loadable(ph_at(phs, j)) && #[trigger] in_segment_pages(ph_at(phs, j), b) by {
        let j = choose|j: int| 0 <= j < i && loadable(ph_at(phs, j)) && #[trigger] in_segment_pages(ph_at(phs, j), b);
    }
}

/// A loaded segment keeps the invariant of `exec`.
proof fn lemma_exec_load(
    pt1: Map<u64, PageTable>,
    pt2: Map<u64, PageTable>,
    pgdir: u64,
    phs: Seq<Vec<u8>>,
    i: int,
    chunks: Seq<CopyChunk>,
    cs: Seq<CopyChunk>,
)
    requires
        exec_inv(pt1, pgdir, phs, i, chunks),
        0 <= i,
        !ph_rejected(phs, i),
        loadable(ph_at(phs, i)),
        crate::vm::tables_ok(pt1),
        grows_leafy(pt1, pt2),
        user_small_pages(pt2, pgdir),
        forall|b: u64|
            b < USER_TOP && !in_segment_pages(ph_at(phs, i), b) ==> #[trigger] leaf(pt2, pgdir, b) == leaf(pt1, pgdir, b),
        forall|b: u64| in_segment_pages(ph_at(phs, i), b) ==> #[trigger] user_page(pt2, pgdir, b),
        cs.len() == chunk_count(ph_at(phs, i).vaddr as int, ph_at(phs, i).filesz as int),
        forall|k: int| 0 <= k < cs.len() ==> #[trigger] cs[k] == chunk_spec(pt2, pgdir, ph_at(phs, i), k),
    ensures
        exec_inv(pt2, pgdir, phs, i + 1, chunks + cs),
{
    reveal(exec_inv);
    assert forall|a: u64|
        KERNBASE <= a < KERNBASE + crate::address_space::LINEAR_MAP_SIZE implies #[trigger] leaf(pt2, pgdir, a) == leaf(
        pt1,
        pgdir,
        a,
    ) by {
        law_extends_keeps_leaf(pt1, pt2, pgdir, a);
    }
    assert forall|a: u64|
        crate::util::DEVBASE <= a < crate::util::DEVBASE + crate::address_space::DEV_MAP_SIZE implies #[trigger] leaf(
        pt2,
        pgdir,
        a,
    ) == leaf(pt1, pgdir, a) by {
        law_extends_keeps_leaf(pt1, pt2, pgdir, a);
    }
    assert forall|j: int, b: u64|
        0 <= j < i + 1 && loadable(ph_at(phs, j)) && #[trigger] in_segment_pages(ph_at(phs, j), b) implies user_page(
        pt2,
        pgdir,
        b,
    ) by {
        if j < i {
            if user_page(pt1, pgdir, b) {
                law_extends_keeps_leaf(pt1, pt2, pgdir, b);
            }
        }
    }
    assert forall|b: u64|
        b < USER_TOP && leaf(pt2, pgdir, b).is_some() implies exists|j: int|
        0 <= j < i + 1 && loadable(ph_at(phs, j)) && #[trigger] in_segment_pages(ph_at(phs, j), b) by {
        if !in_segment_pages(ph_at(phs, i), b) {
            assert(leaf(pt1, pgdir, b).is_some());
            let j = choose|j: int| 0 <= j < i && loadable(ph_at(phs, j)) && #[trigger] in_segment_pages(ph_at(phs, j), b);
        }
    }
    lemma_exec_chunks_stable(pt1, pt2, pgdir, phs, i);
    let ph = ph_at(phs, i);
    assert(cs =~= Seq::new(chunk_count(ph.vaddr as int, ph.filesz as int) as nat, |k: int| chunk_spec(pt2, pgdir, ph, k)));
}

/// A present 4 KiB entry of a user address with no large page on its walk
/// is its leaf.
proof fn lemma_slot_leaf(pt: Map<u64, PageTable>, pgdir: u64, b: u64)
    requires
        user_small_pages(pt, pgdir),
        b < USER_TOP,
        slot_taken(pt, pgdir, b, 0),
    ensures
        leaf(pt, pgdir, b).is_some(),
{
    assert(no_huge_on_path(pt, pgdir, b));
    crate::vm::lemma_path_monotone(pt, pgdir, b, 0, 1);
}

/// Addresses of one page agree on whether their 4 KiB entry is present.
pub proof fn lemma_slot_same_page(pt: Map<u64, PageTable>, pgdir: u64, a: u64, b: u64)
    requires
        a / 0x1000 == b / 0x1000,
    ensures
        slot_taken(pt, pgdir, a, 0) == slot_taken(pt, pgdir, b, 0),
{
    crate::mapping::lemma_same_page(a, b);
    crate::vm::lemma_same_indices_path(pt, pgdir, a, b, 0);
}

/// Map the two pages of the user stack below `STACK_TOP`. Fails only when
/// memory runs out for a page itself; a page that cannot be mapped (its
/// tables could not be allocated, or it is mapped already) is left so.
fn map_stack(pt: &mut PageTables, allocator: &mut Allocator, pgdir: u64) -> (r: bool)
    requires
        old(pt).wf(),
        tree(old(pt)@),
        old(allocator).wf(),
        alloc_ok(old(pt)@, old(allocator)@),
        old(pt)@.contains_key(pgdir),
        old(pt)@[pgdir].level == 3,
        user_small_pages(old(pt)@, pgdir),
    ensures
        final(pt).wf(),
        tree(final(pt)@),
        final(allocator).wf(),
        alloc_ok(final(pt)@, final(allocator)@),
        grows_leafy(old(pt)@, final(pt)@),
        final(allocator)@.len() <= old(allocator)@.len(),
        final(allocator)@ == old(allocator)@.take(final(allocator)@.len() as int),
        tables_from(old(pt)@, old(allocator)@, final(pt)@),
        final(pt)@.contains_key(pgdir),
        final(pt)@[pgdir].level == 3,
        user_small_pages(final(pt)@, pgdir),
        forall|b: u64|
            b < USER_TOP && !(STACK_TOP - 0x2000 <= b < STACK_TOP) ==> #[trigger] leaf(final(pt)@, pgdir, b) == leaf(
                old(pt)@,
                pgdir,
                b,
            ),
        !r ==> final(allocator)@.len() == 0,
        old(allocator)@.len() - final(allocator)@.len() <= 8,
        r ==> forall|b: u64|
            STACK_TOP - 0x2000 <= b < STACK_TOP ==> #[trigger] user_page(final(pt)@, pgdir, b) || final(allocator)@.len()
                == 0 || slot_taken(old(pt)@, pgdir, b, 0),
{
    let ghost pt0 = pt@;
    let ghost al0 = allocator@;
    let base = STACK_TOP - 0x2000;
    let p1 = map_new_page(pt, allocator, pgdir, base);
    let ghost pt1 = pt@;
    let ghost al1 = allocator@;
    if let NewPage::NoMemory = p1 {
        return false;
    }
    let p2 = map_new_page(pt, allocator, pgdir, base + 0x1000);
    proof {
        lemma_grows_leafy_trans(pt0, pt1, pt@);
        assert(allocator@ =~= al0.take(allocator@.len() as int));
        crate::mapping::lemma_tables_from_trans(pt0, al0, pt1, al1, pt@);
        assert forall|b: u64| b < USER_TOP && !(STACK_TOP - 0x2000 <= b < STACK_TOP) implies #[trigger] leaf(
            pt@,
            pgdir,
            b,
        ) == leaf(pt0, pgdir, b) by {
            assert(leaf(pt@, pgdir, b) == leaf(pt1, pgdir, b));
        }
        assert forall|b: u64| STACK_TOP - 0x2000 <= b < STACK_TOP implies #[trigger] user_page(pt@, pgdir, b) || allocator@.len()
            == 0 || slot_taken(pt0, pgdir, b, 0) by {
            if b < base + 0x1000 {
                lemma_slot_same_page(pt0, pgdir, base, b);
                assert(b / 0x1000 != (base + 0x1000) / 0x1000);
                assert(leaf(pt@, pgdir, b) == leaf(pt1, pgdir, b));
                if p1 is Unmapped {
                    if al1.len() == 0 {
                        assert(p2 is NoMemory);
                    }
                }
            } else {
                lemma_slot_same_page(pt0, pgdir, (base + 0x1000) as u64, b);
                assert(base / 0x1000 != (base + 0x1000) / 0x1000);
                assert(leaf(pt1, pgdir, (base + 0x1000) as u64) == leaf(pt0, pgdir, (base + 0x1000) as u64));
                assert(slot_taken(pt1, pgdir, (base + 0x1000) as u64, 0) == slot_taken(pt0, pgdir, (base + 0x1000) as u64, 0));
            }
        }
    }
    if let NewPage::NoMemory = p2 {
        return false;
    }
    true
}

/// The invariant of `exec` gives what loading a segment needs.
proof fn lemma_exec_inv_small(pt: Map<u64, PageTable>, pgdir: u64, phs: Seq<Vec<u8>>, i: int, chunks: Seq<CopyChunk>)
    requires
        exec_inv(pt, pgdir, phs, i, chunks),
    ensures
        user_small_pages(pt, pgdir),
{
    reveal(exec_inv);
}

/// A page of the `i`-th segment that is taken already belongs to an
/// earlier segment.
proof fn lemma_exec_overlap(
    pt: Map<u64, PageTable>,
    pgdir: u64,
    phs: Seq<Vec<u8>>,
    i: int,
    chunks: Seq<CopyChunk>,
    b: u64,
)
    requires
        exec_inv(pt, pgdir, phs, i, chunks),
        loadable(ph_at(phs, i)),
        !ph_rejected(phs, i),
        in_segment_pages(ph_at(phs, i), b),
        slot_taken(pt, pgdir, b, 0),
    ensures
        exists|j: int| 0 <= j < i && loadable(ph_at(phs, j)) && #[trigger] in_segment_pages(ph_at(phs, j), b),
{
    reveal(exec_inv);
    assert(b < USER_TOP);
    lemma_slot_leaf(pt, pgdir, b);
}

/// The invariant of `exec` at its start, in a fresh user address space.
proof fn lemma_exec_inv_start(pt: Map<u64, PageTable>, pgdir: u64, phs: Seq<Vec<u8>>)
    requires
        highmem_mapped(pt, pgdir),
        forall|b: u64|
            crate::address_space::block_apart(b, KERNBASE as int, crate::address_space::LINEAR_MAP_SIZE as int)
                && crate::address_space::block_apart(
                b,
                crate::util::DEVBASE as int,
                crate::address_space::DEV_MAP_SIZE as int,
            ) ==> #[trigger] leaf(pt, pgdir, b).is_none(),
    ensures
        exec_inv(pt, pgdir, phs, 0, Seq::empty()),
{
    reveal(exec_inv);
    crate::uvm::lemma_fresh_user_small(pt, pgdir);
    assert forall|b: u64| b < USER_TOP implies !(#[trigger] leaf(pt, pgdir, b)).is_some() by {
        crate::uvm::lemma_user_apart(b, b);
        assert(crate::address_space::block_apart(b, KERNBASE as int, crate::address_space::LINEAR_MAP_SIZE as int));
        assert(crate::address_space::block_apart(b, crate::util::DEVBASE as int, crate::address_space::DEV_MAP_SIZE as int));
        assert(leaf(pt, pgdir, b).is_none());
    }
}

/// What `exec` promises after its last program header and the stack.
proof fn lemma_exec_done(
    pt1: Map<u64, PageTable>,
    pt2: Map<u64, PageTable>,
    pgdir: u64,
    phs: Seq<Vec<u8>>,
    n: int,
    chunks: Seq<CopyChunk>,
)
    requires
        exec_inv(pt1, pgdir, phs, n, chunks),
        tables_ok(pt1),
        grows_leafy(pt1, pt2),
    ensures
        highmem_mapped(pt2, pgdir),
        forall|j: int| 0 <= j < n ==> !#[trigger] ph_rejected(phs, j),
        forall|j: int, b: u64|
            0 <= j < n && loadable(ph_at(phs, j)) && #[trigger] in_segment_pages(ph_at(phs, j), b) ==> user_page(
                pt2,
                pgdir,
                b,
            ),
        chunks == exec_chunks(pt2, pgdir, phs, n),
        forall|b: u64|
            b < USER_TOP && slot_taken(pt1, pgdir, b, 0) ==> exists|j: int|
                0 <= j < n && loadable(ph_at(phs, j)) && #[trigger] in_segment_pages(ph_at(phs, j), b),
{
    reveal(exec_inv);
    assert forall|a: u64|
        KERNBASE <= a < KERNBASE + crate::address_space::LINEAR_MAP_SIZE implies #[trigger] leaf(pt2, pgdir, a) == leaf(
        pt1,
        pgdir,
        a,
    ) by {
        law_extends_keeps_leaf(pt1, pt2, pgdir, a);
    }
    assert forall|a: u64|
        crate::util::DEVBASE <= a < crate::util::DEVBASE + crate::address_space::DEV_MAP_SIZE implies #[trigger] leaf(
        pt2,
        pgdir,
        a,
    ) == leaf(pt1, pgdir, a) by {
        law_extends_keeps_leaf(pt1, pt2, pgdir, a);
    }
    assert forall|j: int, b: u64|
        0 <= j < n && loadable(ph_at(phs, j)) && #[trigger] in_segment_pages(ph_at(phs, j), b) implies user_page(
        pt2,
        pgdir,
        b,
    ) by {
        law_extends_keeps_leaf(pt1, pt2, pgdir, b);
    }
    lemma_exec_chunks_stable(pt1, pt2, pgdir, phs, n);
    assert forall|b: u64| b < USER_TOP && slot_taken(pt1, pgdir, b, 0) implies exists|j: int|
        0 <= j < n && loadable(ph_at(phs, j)) && #[trigger] in_segment_pages(ph_at(phs, j), b) by {
        lemma_slot_leaf(pt1, pgdir, b);
    }
}

/// The computing part of `exec`: build a new user address space for the
/// program whose ELF header is `hdr` and whose program headers were read as
/// `phs` (each the bytes that a read of one header gave), load its segments,
/// map its stack, and say which file bytes to copy where. The new address
/// space is not yet installed: see `exec_commit`. Fails on a program header
/// that was not read whole or that describes a malformed segment or one
/// beyond user space (see `load_segment`: a rule of this library, where a
/// loader that maps whatever the header names would write into the kernel's
/// shared tables), on segments that share a page, and when memory runs out.
pub fn exec(pt: &mut PageTables, allocator: &mut Allocator, hdr: &ElfHeader, phs: &Vec<Vec<u8>>) -> (r: Option<
    ExecImage,
>)
    requires
        old(pt).wf(),
        tree(old(pt)@),
        old(allocator).wf(),
        alloc_ok(old(pt)@, old(allocator)@),
        forall|i: int| 0 <= i < phs@.len() ==> #[trigger] ph_offsets_fit(phs@, i),
    ensures
        final(pt).wf(),
        tree(final(pt)@),
        final(allocator).wf(),
        alloc_ok(final(pt)@, final(allocator)@),
        grows_leafy(old(pt)@, final(pt)@),
        final(allocator)@.len() <= old(allocator)@.len(),
        final(allocator)@ == old(allocator)@.take(final(allocator)@.len() as int),
        r matches Some(img) ==> {
            &&& !old(pt)@.contains_key(img.pgdir)
            &&& final(pt)@.contains_key(img.pgdir)
            &&& final(pt)@[img.pgdir].level == 3
            &&& highmem_mapped(final(pt)@, img.pgdir)
            &&& user_small_pages(final(pt)@, img.pgdir)
            &&& img.entry == hdr.entry
            &&& img.sp == STACK_TOP
            &&& forall|i: int| 0 <= i < phs@.len() ==> !#[trigger] ph_rejected(phs@, i)
            &&& forall|j: int, b: u64|
                0 <= j < phs@.len() && loadable(ph_at(phs@, j)) && #[trigger] in_segment_pages(ph_at(phs@, j), b)
                    ==> user_page(final(pt)@, img.pgdir, b)
            &&& img.chunks@ == exec_chunks(final(pt)@, img.pgdir, phs@, phs@.len() as int)
            &&& forall|b: u64|
                STACK_TOP - 0x2000 <= b < STACK_TOP ==> #[trigger] user_page(final(pt)@, img.pgdir, b)
                    || final(allocator)@.len() == 0 || exists|j: int|
                    0 <= j < phs@.len() && loadable(ph_at(phs@, j)) && #[trigger] in_segment_pages(ph_at(phs@, j), b)
        },
        r is None ==> final(allocator)@.len() == 0 || (exists|i: int| 0 <= i < phs@.len() && #[trigger] ph_rejected(phs@, i))
            || (exists|i: int, j: int, b: u64|
            0 <= j < i < phs@.len() && loadable(ph_at(phs@, i)) && loadable(ph_at(phs@, j)) && #[trigger] in_segment_pages(
                ph_at(phs@, i),
                b,
            ) && #[trigger] in_segment_pages(ph_at(phs@, j), b)),
        old(allocator)@.len() - final(allocator)@.len() <= exec_frames_bound(phs@),
        old(allocator)@.len() > exec_frames_bound(phs@) ==> final(allocator)@.len() > 0,
{
    let ghost pt0 = pt@;
    let ghost al0 = allocator@;
    proof {
        lemma_exec_frames_mono(phs@, 0, phs@.len() as int);
    }
    let pgdir = match uvm_create(pt, allocator) {
        Some(p) => p,
        None => {
            return None;
        },
    };
    let ghost ptc = pt@;
    let ghost alc = allocator@;
    let mut chunks: Vec<CopyChunk> = Vec::new();
    proof {
        lemma_exec_inv_start(pt@, pgdir, phs@);
        assert(chunks@ =~= Seq::<CopyChunk>::empty());
    }
    let mut i: usize = 0;
    while i < phs.len()
        invariant
            pt0 == old(pt)@,
            al0 == old(allocator)@,
            pt.wf(),
            tree(pt@),
            allocator.wf(),
            alloc_ok(pt@, allocator@),
            grows_leafy(pt0, pt@),
            allocator@.len() <= al0.len(),
            allocator@ == al0.take(allocator@.len() as int),
            !pt0.contains_key(pgdir),
            pt@.contains_key(pgdir),
            pt@[pgdir].level == 3,
            i <= phs@.len(),
            forall|k: int| 0 <= k < phs@.len() ==> #[trigger] ph_offsets_fit(phs@, k),
            exec_inv(pt@, pgdir, phs@, i as int, chunks@),
            al0.len() - allocator@.len() <= crate::address_space::UVM_FRAMES + exec_frames(phs@, i as int),
        decreases phs@.len() - i,
    {
        let ghost pti = pt@;
        let ghost ali = allocator@;
        proof {
            lemma_exec_frames_mono(phs@, i as int + 1, phs@.len() as int);
            lemma_exec_frames_mono(phs@, i as int, i as int + 1);
            assert(exec_frames(phs@, i as int + 1) == exec_frames(phs@, i as int) + ph_frames(phs@, i as int));
        }
        if phs[i].len() != PROGRAM_HEADER_SIZE {
            proof {
                assert(ph_rejected(phs@, i as int));
            }
            return None;
        }
        let ph = parse_program_header(phs[i].as_slice());
        proof {
            assert(ph == ph_at(phs@, i as int));
            assert(ph_offsets_fit(phs@, i as int));
        }
        match check_segment(&ph) {
            Segment::Skip => {
                proof {
                    lemma_exec_skip(pt@, pgdir, phs@, i as int, chunks@);
                }
            },
            Segment::Bad => {
                proof {
                    assert(ph_rejected(phs@, i as int));
                }
                return None;
            },
            Segment::Load => {
                proof {
                    lemma_exec_inv_small(pt@, pgdir, phs@, i as int, chunks@);
                    assert(ph_frames(phs@, i as int) == 4 * seg_pages(ph));
                }
                let loaded = load_segment(pt, allocator, pgdir, &ph);
                proof {
                    crate::address_space::lemma_grows_leafy_trans(pt0, pti, pt@);
                    assert(allocator@ =~= al0.take(allocator@.len() as int));
                }
                match loaded {
                    None => {
                        proof {
                            if ph.vaddr + ph.memsz > USER_TOP {
                                assert(ph_rejected(phs@, i as int));
                            } else if allocator@.len() != 0 {
                                let b = choose|b: u64| in_segment_pages(ph, b) && #[trigger] slot_taken(pti, pgdir, b, 0);
                                reveal(exec_inv);
                                assert(!ph_rejected(phs@, i as int));
                                lemma_exec_overlap(pti, pgdir, phs@, i as int, chunks@, b);
                            }
                        }
                        return None;
                    },
                    Some(cs) => {
                        proof {
                            reveal(exec_inv);
                            assert(!ph_rejected(phs@, i as int));
                            reveal(exec_inv);
                            lemma_exec_load(pti, pt@, pgdir, phs@, i as int, chunks@, cs@);
                        }
                        let mut cs = cs;
                        chunks.append(&mut cs);
                    },
                }
            },
        }
        i = i + 1;
    }
    let ghost ptl = pt@;
    let ghost all = allocator@;
    proof {
        lemma_exec_inv_small(pt@, pgdir, phs@, i as int, chunks@);
    }
    let ok = map_stack(pt, allocator, pgdir);
    proof {
        crate::address_space::lemma_grows_leafy_trans(pt0, ptl, pt@);
        assert(allocator@ =~= al0.take(allocator@.len() as int));
    }
    if !ok {
        return None;
    }
    proof {
        lemma_exec_done(ptl, pt@, pgdir, phs@, phs@.len() as int, chunks@);
        assert forall|b: u64| STACK_TOP - 0x2000 <= b < STACK_TOP implies #[trigger] user_page(pt@, pgdir, b)
            || allocator@.len() == 0 || exists|j: int|
            0 <= j < phs@.len() && loadable(ph_at(phs@, j)) && #[trigger] in_segment_pages(ph_at(phs@, j), b) by {
            if !user_page(pt@, pgdir, b) && allocator@.len() != 0 {
                assert(slot_taken(ptl, pgdir, b, 0));
            }
        }
    }
    Some(ExecImage { pgdir, entry: hdr.entry, sp: STACK_TOP, chunks })
}

/// Install a loaded program in process `p`: its new page table, running,
/// and the trap frame it returns to user mode with set to the program's
/// entry point and stack.
pub fn exec_commit(p: &mut Process, tf: &mut TrapFrame, img: &ExecImage)
    ensures
        final(p).pgdir == img.pgdir,
        final(p).state == ProcessState::RUNNING,
        final(p).kstack == old(p).kstack,
        final(p).pid == old(p).pid,
        final(p).sz == old(p).sz,
        final(p).name@ == old(p).name@,
        final(p).ofile@ == old(p).ofile@,
        final(tf).rip == img.entry,
        final(tf).rsp == img.sp,
        final(tf).cs == old(tf).cs,
        final(tf).ss == old(tf).ss,
        final(tf).rflags == old(tf).rflags,
{
    p.pgdir = img.pgdir;
    p.state = ProcessState::RUNNING;
    tf.rip = img.entry;
    tf.rsp = img.sp;
}

} // verus!
