use lib::address_space::{kvm_create, uvm_create};
use lib::allocator::Allocator;
use lib::elf::{parse_elf_header, ElfHeader};
use lib::exec::{exec, exec_check_header, exec_commit, load_segment, CopyChunk, STACK_TOP};
use lib::file::{FileTable, FileType};
use lib::mapping::map_pages;
use lib::proc::{
    first_unused, init_cpus, init_process, killed, mycpu, next_runnable, sleep, wakeup, yield_proc, Cpu,
    InitProcess, Process, ProcessState, NPROC,
};
use lib::sleeplock::SleepLockSafe;
use lib::syscall::sys_sbrk;
use lib::trap::TrapFrame;
use lib::util::{DEVBASE, DEVSPACE, KERNBASE};
use lib::uvm::{growproc, handle_page_fault, uvm_alloc, uvm_dealloc, Fault};
use lib::vm::{pgrounddown, pgroundup, walk, PageTableEntry, PageTables, ADDR_MASK, PTE_PRESENT, PTE_USER, PTE_WRITABLE};
use lib::uvmcopy::{read_leaf, uvm_copy};

/// An allocator holding `n` pages of the linear map, from physical 2 MiB up.
fn pages(n: u64) -> Allocator {
    let mut a = Allocator::new();
    for i in 0..n {
        a.kfree(KERNBASE + 0x20_0000 + i * 4096);
    }
    a
}

/// The entry mapping `va` under `root` and its level, read from the tables.
fn leaf(pt: &PageTables, root: u64, va: u64) -> Option<(u64, u32)> {
    let mut t = root;
    for level in (1..=3u32).rev() {
        let idx = ((va >> (12 + 9 * level)) & 0x1ff) as usize;
        let e = pt.tables.get(&t)?.entries[idx];
        if e & 1 == 0 {
            return None;
        }
        if level == 1 && e & 0x80 != 0 {
            return Some((e, 1));
        }
        t = (e & ADDR_MASK) + KERNBASE;
    }
    let e = pt.tables.get(&t)?.entries[((va >> 12) & 0x1ff) as usize];
    if e & 1 == 0 {
        None
    } else {
        Some((e, 0))
    }
}

fn translate(pt: &PageTables, root: u64, va: u64) -> Option<u64> {
    leaf(pt, root, va).map(|(e, l)| (e & ADDR_MASK) + va % if l == 1 { 0x20_0000 } else { 0x1000 })
}

fn zero_tf() -> TrapFrame {
    TrapFrame {
        rax: 0, rbx: 0, rcx: 0, rdx: 0, rbp: 0, rsi: 0, rdi: 0, r8: 0, r9: 0, r10: 0, r11: 0, r12: 0,
        r13: 0, r14: 0, r15: 0, trap_num: 0, error_code: 0, rip: 0, cs: 0x23, rflags: 0x202, rsp: 0, ss: 0x1b,
    }
}

#[test]
fn page_rounding() {
    assert_eq!(pgrounddown(0x1fff), 0x1000);
    assert_eq!(pgrounddown(0x1000), 0x1000);
    assert_eq!(pgroundup(0x1001), 0x2000);
    assert_eq!(pgroundup(0), 0);
}

#[test]
fn page_table_entry_fields() {
    let e = PageTableEntry::new(0x1234_5678_9abc, PTE_PRESENT | PTE_WRITABLE | 0x1000);
    assert_eq!(e.addr(), 0x1234_5678_9000);
    assert_eq!(e.flags(), 3);
    assert!(e.is_present());
    assert!(!PageTableEntry::new(0x5000, PTE_USER).is_present());
}

#[test]
fn kernel_address_space_translates() {
    let mut pt = PageTables::new();
    let mut a = pages(16);
    let root = kvm_create(&mut pt, &mut a).expect("enough pages");
    assert_eq!(root, KERNBASE + 0x20_0000 + 15 * 4096);
    assert_eq!(translate(&pt, root, KERNBASE + 0x12_3456), Some(0x12_3456));
    assert_eq!(translate(&pt, root, 0x3f00_0123), Some(0x3f00_0123));
    assert_eq!(translate(&pt, root, DEVBASE + 0x20), Some(DEVSPACE + 0x20));
    assert_eq!(leaf(&pt, root, KERNBASE).map(|(_, l)| l), Some(1));
    assert_eq!(translate(&pt, root, 0x4000_0000), None);
    assert_eq!(translate(&pt, root, 0x7000_0000_0000), None);
}

#[test]
fn kernel_address_space_needs_memory() {
    let mut pt = PageTables::new();
    let mut a = Allocator::new();
    assert_eq!(kvm_create(&mut pt, &mut a), None);
    let mut b = pages(2);
    assert_eq!(kvm_create(&mut pt, &mut b), None);
    assert!(b.freelist.is_empty());
}

#[test]
fn user_address_space_maps_only_the_kernel() {
    let mut pt = PageTables::new();
    let mut a = pages(16);
    let root = uvm_create(&mut pt, &mut a).unwrap();
    assert_eq!(translate(&pt, root, KERNBASE + 0x5000), Some(0x5000));
    assert_eq!(translate(&pt, root, 0x5000), None);
    let mut none = Allocator::new();
    assert_eq!(uvm_create(&mut pt, &mut none), None);
}

#[test]
fn walk_without_allocation_finds_nothing_new() {
    let mut pt = PageTables::new();
    let mut a = pages(16);
    let root = uvm_create(&mut pt, &mut a).unwrap();
    let free_before = a.freelist.len();
    assert_eq!(walk(&mut pt, &mut a, root, 0x40_0000, false, 0), None);
    assert_eq!(a.freelist.len(), free_before);
    let (t, i) = walk(&mut pt, &mut a, root, 0x40_3000, true, 0).unwrap();
    assert_eq!(i, 3);
    assert!(pt.tables.get(&t).is_some());
    assert_eq!(a.freelist.len(), free_before - 3);
    assert_eq!(walk(&mut pt, &mut a, root, 0x40_5000, false, 0), Some((t, 5)));
}

#[test]
fn map_pages_maps_each_page() {
    let mut pt = PageTables::new();
    let mut a = pages(16);
    let root = uvm_create(&mut pt, &mut a).unwrap();
    assert!(map_pages(&mut pt, &mut a, root, 0x40_0000, 0x80_0000, 0x2000, PTE_WRITABLE | PTE_USER));
    assert_eq!(translate(&pt, root, 0x40_0010), Some(0x80_0010));
    assert_eq!(translate(&pt, root, 0x40_1ff0), Some(0x80_1ff0));
    assert_eq!(translate(&pt, root, 0x40_2000), None);
    let (e, l) = leaf(&pt, root, 0x40_0000).unwrap();
    assert_eq!(l, 0);
    assert_eq!(e & 0xfff, PTE_PRESENT | PTE_WRITABLE | PTE_USER);
    // Mapping over a present page fails.
    assert!(!map_pages(&mut pt, &mut a, root, 0x40_1000, 0x90_0000, 0x1000, PTE_WRITABLE | PTE_USER));
    assert_eq!(translate(&pt, root, 0x40_1000), Some(0x80_1000));
}

#[test]
fn user_memory_grows_and_shrinks() {
    let mut pt = PageTables::new();
    let mut a = pages(32);
    let root = uvm_create(&mut pt, &mut a).unwrap();
    assert_eq!(uvm_alloc(&mut pt, &mut a, root, 0, 3 * 4096 + 5), Some(3 * 4096 + 5));
    for va in [0u64, 0x1000, 0x2000, 0x3000] {
        assert!(leaf(&pt, root, va).is_some());
        let (e, _) = leaf(&pt, root, va).unwrap();
        assert_eq!(e & 0xfff, PTE_PRESENT | PTE_WRITABLE | PTE_USER);
    }
    assert!(leaf(&pt, root, 0x4000).is_none());
    let free_before = a.freelist.len();
    let frame3 = translate(&pt, root, 0x3000).unwrap();
    assert_eq!(uvm_dealloc(&mut pt, &mut a, root, 3 * 4096 + 5, 4096), 4096);
    assert!(leaf(&pt, root, 0x1000).is_none());
    assert!(leaf(&pt, root, 0x3000).is_none());
    assert!(leaf(&pt, root, 0).is_some());
    assert_eq!(a.freelist.len(), free_before + 3);
    assert!(a.freelist.contains(&(frame3 + KERNBASE)));
    // Shrinking to a larger size changes nothing.
    assert_eq!(uvm_dealloc(&mut pt, &mut a, root, 4096, 8192), 4096);
    assert_eq!(uvm_alloc(&mut pt, &mut a, root, 8192, 4096), Some(8192));
}

#[test]
fn user_memory_growth_fails_without_memory() {
    let mut pt = PageTables::new();
    let mut a = pages(8);
    let root = uvm_create(&mut pt, &mut a).unwrap();
    let left = a.freelist.len() as u64;
    assert_eq!(uvm_alloc(&mut pt, &mut a, root, 0, (left + 4) * 4096), None);
    assert!(leaf(&pt, root, 0).is_none());
}

#[test]
fn page_faults_map_pages_on_demand() {
    let mut pt = PageTables::new();
    let mut a = pages(16);
    let root = uvm_create(&mut pt, &mut a).unwrap();
    assert!(matches!(handle_page_fault(&mut pt, &mut a, root, 0x3000, 0x3000), Fault::SegFault));
    assert!(matches!(handle_page_fault(&mut pt, &mut a, root, 0x3000, 0x2abc), Fault::Mapped));
    assert!(leaf(&pt, root, 0x2000).is_some());
    assert!(leaf(&pt, root, 0x1000).is_none());
    let mut empty = Allocator::new();
    assert!(matches!(handle_page_fault(&mut pt, &mut empty, root, 0x3000, 0x1000), Fault::OutOfMemory));
}

#[test]
fn sbrk_grows_lazily_and_shrinks() {
    let mut pt = PageTables::new();
    let mut a = pages(16);
    let root = uvm_create(&mut pt, &mut a).unwrap();
    let mut p = Process::new();
    p.pgdir = root;
    let mut tf = zero_tf();
    tf.rdi = 8192;
    assert_eq!(sys_sbrk(&mut p, &mut pt, &mut a, &tf), 0);
    assert_eq!(p.sz, 8192);
    assert!(leaf(&pt, root, 0).is_none());
    assert!(matches!(handle_page_fault(&mut pt, &mut a, root, p.sz, 0x1000), Fault::Mapped));
    tf.rdi = (-4096i64) as u64;
    assert_eq!(sys_sbrk(&mut p, &mut pt, &mut a, &tf), 8192);
    assert_eq!(p.sz, 4096);
    assert!(leaf(&pt, root, 0x1000).is_none());
    assert_eq!(growproc(&mut p, &mut pt, &mut a, -100_000), Ok(()));
    assert_eq!(p.sz, 4096);
}

fn elf_image(vaddr: u64, off: u64, filesz: u64, memsz: u64) -> (Vec<u8>, Vec<u8>) {
    let mut h = vec![0u8; 64];
    h[0..4].copy_from_slice(&[0x7f, b'E', b'L', b'F']);
    h[24..32].copy_from_slice(&0x1010u64.to_le_bytes());
    h[32..40].copy_from_slice(&64u64.to_le_bytes());
    h[56..58].copy_from_slice(&1u16.to_le_bytes());
    let mut ph = vec![0u8; 56];
    ph[0..4].copy_from_slice(&1u32.to_le_bytes());
    ph[8..16].copy_from_slice(&off.to_le_bytes());
    ph[16..24].copy_from_slice(&vaddr.to_le_bytes());
    ph[32..40].copy_from_slice(&filesz.to_le_bytes());
    ph[40..48].copy_from_slice(&memsz.to_le_bytes());
    (h, ph)
}

#[test]
fn exec_header_check() {
    let (h, _) = elf_image(0x1000, 0, 0, 0);
    assert!(exec_check_header(&h).is_some());
    assert!(exec_check_header(&h[..63]).is_none());
    let mut bad = h.clone();
    bad[1] = b'X';
    assert!(exec_check_header(&bad).is_none());
}

#[test]
fn exec_loads_segments_and_stack() {
    let mut pt = PageTables::new();
    let mut a = pages(32);
    let (h, ph) = elf_image(0x1ff0, 0x100, 0x20, 0x2000);
    let hdr: ElfHeader = exec_check_header(&h).unwrap();
    let img = exec(&mut pt, &mut a, &hdr, &vec![ph]).expect("loads");
    assert_eq!(img.entry, 0x1010);
    assert_eq!(img.sp, STACK_TOP);
    for va in [0x1000u64, 0x2000, 0x3000, STACK_TOP - 0x2000, STACK_TOP - 0x1000] {
        let (e, l) = leaf(&pt, img.pgdir, va).unwrap();
        assert_eq!(l, 0);
        assert_eq!(e & 0xfff, PTE_PRESENT | PTE_WRITABLE | PTE_USER);
    }
    assert!(leaf(&pt, img.pgdir, 0x4000).is_none());
    // The 0x20 file bytes straddle a page boundary: two pieces.
    assert_eq!(img.chunks.len(), 2);
    let c0: CopyChunk = img.chunks[0];
    assert_eq!((c0.file_off, c0.len), (0x100, 0x10));
    assert_eq!(c0.kva, translate(&pt, img.pgdir, 0x1ff0).unwrap() + KERNBASE);
    assert_eq!((img.chunks[1].file_off, img.chunks[1].len), (0x110, 0x10));
    assert_eq!(img.chunks[1].kva, translate(&pt, img.pgdir, 0x2000).unwrap() + KERNBASE);
    let mut p = Process::new();
    let mut tf = zero_tf();
    exec_commit(&mut p, &mut tf, &img);
    assert_eq!(p.pgdir, img.pgdir);
    assert_eq!(p.state, ProcessState::RUNNING);
    assert_eq!((tf.rip, tf.rsp, tf.cs), (0x1010, STACK_TOP, 0x23));
}

#[test]
fn exec_rejects_bad_segments() {
    let mut pt = PageTables::new();
    let mut a = pages(32);
    let (h, ph) = elf_image(0x1000, 0, 0x3000, 0x1000);
    let hdr = parse_elf_header(&h);
    assert!(exec(&mut pt, &mut a, &hdr, &vec![ph]).is_none());
    let (_, short) = elf_image(0x1000, 0, 0x10, 0x1000);
    assert!(exec(&mut pt, &mut a, &hdr, &vec![short[..40].to_vec()]).is_none());
    let (_, high) = elf_image(0x7fff_ffff_f000, 0, 0, 0x2000);
    assert!(exec(&mut pt, &mut a, &hdr, &vec![high]).is_none());
}

#[test]
fn load_segment_refuses_mapped_pages() {
    let mut pt = PageTables::new();
    let mut a = pages(32);
    let root = uvm_create(&mut pt, &mut a).unwrap();
    let (_, ph) = elf_image(0x5000, 0, 0x10, 0x1000);
    let phd = lib::elf::parse_program_header(&ph);
    assert!(load_segment(&mut pt, &mut a, root, &phd).is_some());
    assert!(load_segment(&mut pt, &mut a, root, &phd).is_none());
}

#[test]
fn first_process_is_set_up() {
    let mut procs: Vec<Process> = (0..NPROC).map(|_| Process::new()).collect();
    procs[0].state = ProcessState::RUNNING;
    let mut pid = 0usize;
    let mut pt = PageTables::new();
    let mut a = pages(32);
    let mut ft = FileTable::new();
    match init_process(&mut procs, &mut pid, &mut pt, &mut a, &mut ft, 0xabc) {
        InitProcess::Ready { slot, code_page, tf_addr, tf, context_addr, context } => {
            assert_eq!(slot, 1);
            let p = &procs[1];
            assert_eq!(pid, 1);
            assert_eq!(p.pid, 1);
            assert_eq!(p.state, ProcessState::RUNNABLE);
            assert_eq!(&p.name[..4], b"init");
            assert_eq!(tf_addr, p.kstack + 4096 - 176);
            assert_eq!(context_addr, tf_addr - 56);
            assert_eq!(p.context, context_addr);
            assert_eq!(context.rip, 0xabc);
            assert_eq!((tf.rip, tf.rflags), (0, 0x202));
            assert_eq!(translate(&pt, p.pgdir, 0x10), Some(code_page - KERNBASE + 0x10));
            for fd in 0..3 {
                let f = p.ofile[fd].unwrap();
                assert_eq!(ft.files[f].f_type, FileType::Device);
                assert_eq!(ft.files[f].major, 1);
            }
        }
        _ => panic!("expected the process to be ready"),
    }
}

#[test]
fn first_process_needs_a_slot_and_memory() {
    let mut full: Vec<Process> = (0..2).map(|_| Process::new()).collect();
    full[0].state = ProcessState::RUNNING;
    full[1].state = ProcessState::SLEEPING;
    let mut pid = 0usize;
    let mut pt = PageTables::new();
    let mut a = pages(32);
    let mut ft = FileTable::new();
    assert!(matches!(init_process(&mut full, &mut pid, &mut pt, &mut a, &mut ft, 0), InitProcess::NoSlot));
    assert_eq!(pid, 0);
    let mut procs: Vec<Process> = (0..2).map(|_| Process::new()).collect();
    let mut none = Allocator::new();
    assert!(matches!(
        init_process(&mut procs, &mut pid, &mut pt, &mut none, &mut ft, 0),
        InitProcess::OutOfMemory
    ));
}

#[test]
fn scheduling_states() {
    let mut procs: Vec<Process> = (0..4).map(|_| Process::new()).collect();
    assert_eq!(first_unused(&procs), Some(0));
    procs[0].state = ProcessState::RUNNING;
    procs[2].state = ProcessState::RUNNABLE;
    assert_eq!(next_runnable(&procs, 0), Some(2));
    assert_eq!(next_runnable(&procs, 3), None);
    sleep(&mut procs[0], 77);
    assert_eq!(procs[0].state, ProcessState::SLEEPING);
    sleep(&mut procs[1], 78);
    wakeup(&mut procs, 77);
    assert_eq!(procs[0].state, ProcessState::RUNNABLE);
    assert_eq!(procs[0].chan, 0);
    assert_eq!(procs[1].state, ProcessState::SLEEPING);
    yield_proc(&mut procs[3]);
    assert_eq!(procs[3].state, ProcessState::RUNNABLE);
    assert!(!killed(&procs[3]));
    procs[3].state = ProcessState::ZOMBIE;
    assert!(killed(&procs[3]));
}

#[test]
fn cpus_are_numbered() {
    let mut cpus: Vec<Cpu> = (0..4).map(|_| Cpu::new()).collect();
    assert_eq!(mycpu(&cpus, false, 3), 0);
    init_cpus(&mut cpus);
    assert_eq!(cpus[2].lapicid, 2);
    assert_eq!(mycpu(&cpus, true, 3), 3);
}

#[test]
fn sleep_lock_is_taken_once() {
    let mut l = SleepLockSafe::new(5u32);
    let g = l.lock().expect("free");
    assert!(l.lock().is_none());
    *l.get_mut() += 1;
    l.unlock(g);
    assert!(!l.locked);
    assert_eq!(l.data, 6);
    assert!(l.lock().is_some());
}

#[test]
fn uvm_copy_duplicates_mapped_pages() {
    let mut pt = PageTables::new();
    let mut a = pages(64);
    let old = uvm_create(&mut pt, &mut a).unwrap();
    assert_eq!(uvm_alloc(&mut pt, &mut a, old, 0, 2 * 4096), Some(2 * 4096));
    // A hole at page 2, a page at 3.
    assert!(matches!(handle_page_fault(&mut pt, &mut a, old, 4 * 4096, 3 * 4096), Fault::Mapped));
    let new = uvm_create(&mut pt, &mut a).unwrap();
    let copies = uvm_copy(&mut pt, &mut a, old, new, 4 * 4096).expect("enough memory");
    let vas: Vec<u64> = copies.iter().map(|c| c.va).collect();
    assert_eq!(vas, vec![0, 0x1000, 0x3000]);
    for c in &copies {
        assert_eq!(translate(&pt, old, c.va), Some(c.src));
        assert_eq!(translate(&pt, new, c.va), Some(c.dst - KERNBASE));
        assert_ne!(c.src, c.dst - KERNBASE);
        let (e, _) = leaf(&pt, new, c.va).unwrap();
        assert_eq!(e & 0xfff, c.flags | PTE_PRESENT);
        assert_eq!(c.flags, PTE_PRESENT | PTE_WRITABLE | PTE_USER);
    }
    assert!(leaf(&pt, new, 0x2000).is_none());
    assert_eq!(read_leaf(&mut pt, &mut a, old, 0x1000), leaf(&pt, old, 0x1000).map(|(e, l)| (e, l as u8)));
    assert_eq!(read_leaf(&mut pt, &mut a, old, 0x2000), None);
}

#[test]
fn uvm_copy_fails_without_memory() {
    let mut pt = PageTables::new();
    let mut a = pages(16);
    let old = uvm_create(&mut pt, &mut a).unwrap();
    assert_eq!(uvm_alloc(&mut pt, &mut a, old, 0, 4096), Some(4096));
    let new = uvm_create(&mut pt, &mut a).unwrap();
    let mut none = Allocator::new();
    assert!(uvm_copy(&mut pt, &mut none, old, new, 4096).is_none());
    assert!(uvm_copy(&mut pt, &mut a, old, new, 0).unwrap().is_empty());
}

#[test]
fn kernel_address_space_succeeds_with_eight_free_pages() {
    let mut pt = PageTables::new();
    let mut a = pages(8);
    let root = kvm_create(&mut pt, &mut a).expect("eight pages are enough");
    assert_eq!(translate(&pt, root, KERNBASE + 0x1000), Some(0x1000));
    assert_eq!(translate(&pt, root, DEVBASE), Some(DEVSPACE));
    let mut pt2 = PageTables::new();
    let mut b = pages(6);
    assert!(uvm_create(&mut pt2, &mut b).is_some());
}
