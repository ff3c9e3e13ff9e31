use vstd::prelude::*;
use crate::address_space::{highmem_mapped, uvm_create};
use crate::allocator::Allocator;
use crate::file::{filealloc, first_unused_file, is_first_unused, lemma_first_unused_file, File, FileTable, FileType};
use crate::gdt::{UCODE_SELECTOR, UDATA_SELECTOR};
use crate::trap::{TrapFrame, TRAPFRAME_SIZE};
use crate::util::{KERNBASE, PG_SIZE};
use crate::uvm::{map_new_page, user_page, NewPage, USER_PERM};
use crate::vm::{alloc_ok, grows_leafy, leaf, make_pte, tree, PageTables, PTE_PRESENT};

verus! {

/// Number of process slots.
pub const NPROC: usize = 64;
/// Size of a process's kernel stack.
pub const KSTACK_SIZE: usize = PG_SIZE;
/// Open files per process.
pub const NFILE: usize = 16;
/// Number of CPUs.
pub const NCPU: usize = 8;

/// Callee-saved registers of a kernel context switch.
#[derive(Clone, Copy, Debug)]
pub struct Context {
    pub r15: u64,
    pub r14: u64,
    pub r13: u64,
    pub r12: u64,
    pub rbx: u64,
    pub rbp: u64,
    pub rip: u64,
}

#[allow(non_camel_case_types)]
#[derive(Clone, Copy, PartialEq, Eq, Structural, Debug)]
pub enum ProcessState {
    UNUSED,
    EMBRYO,
    SLEEPING,
    RUNNABLE,
    RUNNING,
    ZOMBIE,
}

/// A process slot. Addresses (kernel stack, saved context, page directory)
/// are kernel virtual addresses; `ofile` holds indices into the file table.
pub struct Process {
    pub state: ProcessState,
    pub kstack: u64,
    pub context: u64,
    pub pgdir: u64,
    pub pid: usize,
    pub chan: u64,
    pub name: Vec<u8>,
    pub ofile: Vec<Option<usize>>,
    /// Size of the process's memory, in bytes from address 0.
    pub sz: u64,
}

impl Process {
    pub fn new() -> (r: Self)
        ensures
            r.state == ProcessState::UNUSED,
            r.kstack == 0,
            r.context == 0,
            r.pgdir == 0,
            r.pid == 0,
            r.chan == 0,
            r.sz == 0,
            r.name@ == Seq::new(16, |i: int| 0u8),
            r.ofile@ == Seq::new(NFILE as nat, |i: int| None::<usize>),
    {
        let mut name: Vec<u8> = Vec::new();
        while name.len() < 16
            invariant
                name.len() <= 16,
                forall|i: int| 0 <= i < name.len() ==> name@[i] == 0u8,
            decreases 16 - name.len(),
        {
            name.push(0u8);
        }
        let mut ofile: Vec<Option<usize>> = Vec::new();
        while ofile.len() < NFILE
            invariant
                ofile.len() <= NFILE,
                forall|i: int| 0 <= i < ofile.len() ==> ofile@[i] == None::<usize>,
            decreases NFILE - ofile.len(),
        {
            ofile.push(None);
        }
        assert(name@ =~= Seq::new(16, |i: int| 0u8));
        assert(ofile@ =~= Seq::new(NFILE as nat, |i: int| None::<usize>));
        Process {
            state: ProcessState::UNUSED,
            kstack: 0,
            context: 0,
            pgdir: 0,
            pid: 0,
            chan: 0,
            name,
            ofile,
            sz: 0,
        }
    }
}

/// Per-CPU state. `process` is the index of the process running on the CPU.
#[derive(Clone, Copy, Debug)]
pub struct Cpu {
    pub lapicid: u32,
    pub scheduler_context: u64,
    pub process: Option<usize>,
    pub started: bool,
    pub ncli: usize,
    pub intena: bool,
}

impl Cpu {
    pub fn new() -> (r: Self)
        ensures
            r.lapicid == 0,
            r.scheduler_context == 0,
            r.process.is_none(),
            !r.started,
            r.ncli == 0,
            !r.intena,
    {
        Cpu { lapicid: 0, scheduler_context: 0, process: None, started: false, ncli: 0, intena: false }
    }
}

/// Number the CPUs: CPU `i` gets local APIC id `i`.
pub fn init_cpus(cpus: &mut Vec<Cpu>)
    requires
        old(cpus)@.len() <= u32::MAX,
    ensures
        final(cpus)@.len() == old(cpus)@.len(),
        forall|i: int| 0 <= i < final(cpus)@.len() ==> (#[trigger] final(cpus)@[i]) == (Cpu {
            lapicid: i as u32,
            ..old(cpus)@[i]
        }),
{
    let mut i: usize = 0;
    while i < cpus.len()
        invariant
            cpus@.len() == old(cpus)@.len(),
            cpus@.len() <= u32::MAX,
            i <= cpus@.len(),
            forall|k: int| 0 <= k < i ==> (#[trigger] cpus@[k]) == (Cpu { lapicid: k as u32, ..old(cpus)@[k] }),
            forall|k: int| i <= k < cpus@.len() ==> (#[trigger] cpus@[k]) == old(cpus)@[k],
        decreases cpus@.len() - i,
    {
        cpus[i].lapicid = i as u32;
        i = i + 1;
    }
}

/// The CPU whose local APIC id is `apic_id`: the first with that id. Before the
/// CPUs are numbered (`initialized` false) it is CPU 0.
pub fn mycpu(cpus: &Vec<Cpu>, initialized: bool, apic_id: u32) -> (r: usize)
    requires
        cpus@.len() > 0,
        initialized ==> exists|i: int| 0 <= i < cpus@.len() && (#[trigger] cpus@[i]).lapicid == apic_id,
    ensures
        !initialized ==> r == 0,
        initialized ==> r < cpus@.len() && cpus@[r as int].lapicid == apic_id && forall|j: int|
            0 <= j < r ==> (#[trigger] cpus@[j]).lapicid != apic_id,
{
    if !initialized {
        return 0;
    }
    let mut i: usize = 0;
    while i < cpus.len()
        invariant
            initialized,
            i <= cpus@.len(),
            exists|k: int| 0 <= k < cpus@.len() && (#[trigger] cpus@[k]).lapicid == apic_id,
            forall|j: int| 0 <= j < i ==> (#[trigger] cpus@[j]).lapicid != apic_id,
        decreases cpus@.len() - i,
    {
        if cpus[i].lapicid == apic_id {
            return i;
        }
        i = i + 1;
    }
    0
}

/// Put process `p` to sleep on channel `chan`.
pub fn sleep(p: &mut Process, chan: u64)
    ensures
        final(p).state == ProcessState::SLEEPING,
        final(p).chan == chan,
        final(p).kstack == old(p).kstack,
        final(p).context == old(p).context,
        final(p).pgdir == old(p).pgdir,
        final(p).pid == old(p).pid,
        final(p).name == old(p).name,
        final(p).ofile == old(p).ofile,
        final(p).sz == old(p).sz,
{
    p.chan = chan;
    p.state = ProcessState::SLEEPING;
}

/// The process slot after a wakeup on `chan`.
pub open spec fn woken(p: Process, chan: u64) -> Process {
    if p.state == ProcessState::SLEEPING && p.chan == chan {
        Process { state: ProcessState::RUNNABLE, chan: 0, ..p }
    } else {
        p
    }
}

/// Make every process sleeping on `chan` runnable.
pub fn wakeup(procs: &mut Vec<Process>, chan: u64)
    ensures
        final(procs)@.len() == old(procs)@.len(),
        forall|i: int| 0 <= i < old(procs)@.len() ==> (#[trigger] final(procs)@[i]) == woken(old(procs)@[i], chan),
{
    let mut i: usize = 0;
    while i < procs.len()
        invariant
            procs@.len() == old(procs)@.len(),
            i <= procs@.len(),
            forall|k: int| 0 <= k < i ==> (#[trigger] procs@[k]) == woken(old(procs)@[k], chan),
            forall|k: int| i <= k < procs@.len() ==> (#[trigger] procs@[k]) == old(procs)@[k],
        decreases procs@.len() - i,
    {
        if procs[i].state == ProcessState::SLEEPING && procs[i].chan == chan {
            procs[i].state = ProcessState::RUNNABLE;
            procs[i].chan = 0;
        }
        i = i + 1;
    }
}

/// Give up the CPU: the running process becomes runnable.
pub fn yield_proc(p: &mut Process)
    ensures
        *final(p) == (Process { state: ProcessState::RUNNABLE, ..*old(p) }),
{
    p.state = ProcessState::RUNNABLE;
}

/// The next process the scheduler runs in its sweep: the first runnable slot
/// at or after `from`.
pub fn next_runnable(procs: &Vec<Process>, from: usize) -> (r: Option<usize>)
    ensures
        match r {
            Some(i) => from <= i < procs@.len() && procs@[i as int].state == ProcessState::RUNNABLE
                && forall|j: int| from <= j < i ==> (#[trigger] procs@[j]).state != ProcessState::RUNNABLE,
            None => forall|j: int| from <= j < procs@.len() ==> (#[trigger] procs@[j]).state != ProcessState::RUNNABLE,
        },
{
    let mut i = from;
    while i < procs.len()
        invariant
            from <= i,
            forall|j: int| from <= j < i && j < procs@.len() ==> (#[trigger] procs@[j]).state != ProcessState::RUNNABLE,
        decreases procs@.len() - i,
    {
        if procs[i].state == ProcessState::RUNNABLE {
            return Some(i);
        }
        i = i + 1;
    }
    None
}

/// Whether process `p` has been killed.
pub fn killed(p: &Process) -> (r: bool)
    ensures
        r == (p.state == ProcessState::ZOMBIE),
{
    p.state == ProcessState::ZOMBIE
}

/// After a wakeup no process is left sleeping on the channel, and processes
/// that were not sleeping on it are untouched.
pub proof fn law_wakeup_leaves_none_asleep(p: Process, chan: u64)
    ensures
        !(woken(p, chan).state == ProcessState::SLEEPING && woken(p, chan).chan == chan),
        !(p.state == ProcessState::SLEEPING && p.chan == chan) ==> woken(p, chan) == p,
{
}


/// Size in bytes of a saved `Context` (seven registers of 8 bytes).
pub const CONTEXT_SIZE: u64 = 56;
/// Flags register of a process entering user mode: interrupts enabled.
pub const USER_RFLAGS: u64 = 0x202;

/// The trap frame that takes the first process to user mode: at address 0,
/// with its stack at the top of its first page, interrupts enabled.
pub open spec fn init_trapframe() -> TrapFrame {
    TrapFrame {
        rax: 0,
        rbx: 0,
        rcx: 0,
        rdx: 0,
        rbp: 0,
        rsi: 0,
        rdi: 0,
        r8: 0,
        r9: 0,
        r10: 0,
        r11: 0,
        r12: 0,
        r13: 0,
        r14: 0,
        r15: 0,
        trap_num: 0,
        error_code: 0,
        rip: 0,
        cs: UCODE_SELECTOR as u64,
        rflags: USER_RFLAGS,
        rsp: PG_SIZE as u64,
        ss: UDATA_SELECTOR as u64,
    }
}

/// A console file, open for reading and writing.
pub open spec fn console_file(f: File) -> File {
    File { f_type: FileType::Device, major: 1, readable: true, writable: true, ..f }
}

/// One step of opening the console as descriptor `k`: the first unused file
/// becomes a console file with one reference and descriptor `k` names it;
/// with no unused file nothing changes.
pub open spec fn console_step(files: Seq<File>, ofile: Seq<Option<usize>>, k: int) -> (Seq<File>, Seq<Option<usize>>) {
    match first_unused_file(files) {
        Some(f) => (
            files.update(f, console_file(File { refcnt: 1, ..files[f] })),
            ofile.update(k, Some(f as usize)),
        ),
        None => (files, ofile),
    }
}

/// The file table and descriptors after opening the console as descriptors
/// `0..n`, in that order.
pub open spec fn console_opened(files: Seq<File>, ofile: Seq<Option<usize>>, n: nat) -> (
    Seq<File>,
    Seq<Option<usize>>,
)
    decreases n,
{
    if n == 0 {
        (files, ofile)
    } else {
        let prev = console_opened(files, ofile, (n - 1) as nat);
        console_step(prev.0, prev.1, n - 1)
    }
}

/// What `init_process` leaves its caller to do.
pub enum InitProcess {
    /// Every process slot is in use: nothing was done.
    NoSlot,
    /// Memory ran out for the page table or the init code: the kernel
    /// cannot go on.
    OutOfMemory,
    /// Memory ran out for the kernel stack: the slot is free again.
    NoStack,
    /// The process in `slot` is runnable once the init code is copied to the
    /// page at kernel address `code_page`, `tf` is written at `tf_addr` and
    /// `context` at `context_addr`.
    Ready { slot: usize, code_page: u64, tf_addr: u64, tf: TrapFrame, context_addr: u64, context: Context },
}

/// The index of the first unused process slot, if any.
pub fn first_unused(procs: &Vec<Process>) -> (r: Option<usize>)
    ensures
        match r {
            Some(i) => i < procs@.len() && procs@[i as int].state == ProcessState::UNUSED && forall|j: int|
                0 <= j < i ==> (#[trigger] procs@[j]).state != ProcessState::UNUSED,
            None => forall|j: int| 0 <= j < procs@.len() ==> (#[trigger] procs@[j]).state != ProcessState::UNUSED,
        },
{
    let mut i: usize = 0;
    while i < procs.len()
        invariant
            i <= procs@.len(),
            forall|j: int| 0 <= j < i ==> (#[trigger] procs@[j]).state != ProcessState::UNUSED,
        decreases procs@.len() - i,
    {
        if procs[i].state == ProcessState::UNUSED {
            return Some(i);
        }
        i = i + 1;
    }
    None
}

/// Open the console as file descriptors 0, 1 and 2 of `p`, as far as files
/// are free in the table.
fn open_console(p: &mut Process, ft: &mut FileTable)
    requires
        old(ft).wf(),
        old(p).ofile@.len() == NFILE,
    ensures
        final(ft).wf(),
        final(p).ofile@.len() == NFILE,
        final(p).state == old(p).state,
        final(p).kstack == old(p).kstack,
        final(p).context == old(p).context,
        final(p).pgdir == old(p).pgdir,
        final(p).pid == old(p).pid,
        final(p).chan == old(p).chan,
        final(p).name@ == old(p).name@,
        final(p).sz == old(p).sz,
        forall|k: int| 3 <= k < NFILE ==> final(p).ofile@[k] == old(p).ofile@[k],
        forall|k: int|
            0 <= k < 3 ==> match #[trigger] final(p).ofile@[k] {
                Some(f) => f < crate::file::NFILE && final(ft).files@[f as int] == console_file(
                    File { refcnt: 1, ..old(ft).files@[f as int] },
                ) && old(ft).files@[f as int].refcnt == 0,
                None => old(p).ofile@[k] is None,
            } || final(p).ofile@[k] == old(p).ofile@[k],
        (final(ft).files@, final(p).ofile@) == console_opened(old(ft).files@, old(p).ofile@, 3),
{
    let mut i: usize = 0;
    while i < 3
        invariant
            ft.wf(),
            i <= 3,
            p.ofile@.len() == NFILE,
            p.state == old(p).state,
            p.kstack == old(p).kstack,
            p.context == old(p).context,
            p.pgdir == old(p).pgdir,
            p.pid == old(p).pid,
            p.chan == old(p).chan,
            p.name@ == old(p).name@,
            p.sz == old(p).sz,
            forall|k: int| i <= k < NFILE ==> p.ofile@[k] == old(p).ofile@[k],
            forall|f: int|
                0 <= f < crate::file::NFILE ==> #[trigger] ft.files@[f] == old(ft).files@[f] || ft.files@[f].refcnt
                    != 0,
            forall|k: int|
                0 <= k < i ==> match #[trigger] p.ofile@[k] {
                    Some(f) => f < crate::file::NFILE && ft.files@[f as int] == console_file(
                        File { refcnt: 1, ..old(ft).files@[f as int] },
                    ) && old(ft).files@[f as int].refcnt == 0,
                    None => old(p).ofile@[k] is None,
                } || p.ofile@[k] == old(p).ofile@[k],
            (ft.files@, p.ofile@) == console_opened(old(ft).files@, old(p).ofile@, i as nat),
        decreases 3 - i,
    {
        let ghost ft1 = ft.files@;
        match filealloc(ft) {
            Some(f) => {
                let mut file = ft.files[f];
                file.f_type = FileType::Device;
                file.major = 1;
                file.readable = true;
                file.writable = true;
                ft.files.set(f, file);
                proof {
                    assert(ft1[f as int].refcnt == 0);
                    assert(ft1[f as int] == old(ft).files@[f as int]);
                    lemma_first_unused_file(ft1, f as int);
                }
                p.ofile.set(i, Some(f));
                proof {
                    assert(ft.files@ =~= ft1.update(f as int, console_file(File { refcnt: 1, ..ft1[f as int] })));
                }
            },
            None => {
                proof {
                    if exists|j: int| is_first_unused(ft1, j) {
                        let j = choose|j: int| is_first_unused(ft1, j);
                        assert(ft1[j].refcnt != 0);
                    }
                }
            },
        }
        i = i + 1;
    }
}

/// The memory of the first process: its page table, kernel stack and
/// init-code page, or how far their allocation got.
pub enum InitMemory {
    /// No memory for the page table or the init code.
    OutOfMemory,
    /// A page table but no kernel stack.
    NoStack(u64),
    /// Page table, kernel stack, init-code page (mapped at user address 0
    /// unless memory for its tables ran out).
    Ready(u64, u64, u64),
}

/// Most pages the first process's memory takes from the allocator: its
/// page table with the high mappings, its kernel stack, and its init-code
/// page with the tables that map it.
pub const INIT_FRAMES: u64 = 10;

/// Whether page 0 of `pgdir` maps the page at kernel address `code_page`,
/// user-writable.
pub open spec fn code_mapped(pt: Map<u64, crate::vm::PageTable>, pgdir: u64, code_page: u64) -> bool {
    forall|b: u64|
        b < PG_SIZE ==> #[trigger] leaf(pt, pgdir, b) == Some(
            (make_pte((code_page - KERNBASE) as u64, USER_PERM | PTE_PRESENT), 0int),
        )
}

/// Whether `kstack` was taken from the free list `al0` before `code_page`:
/// it lies nearer the end, from where pages are taken.
pub open spec fn taken_before(al0: Seq<u64>, kstack: u64, code_page: u64) -> bool {
    exists|i: int, j: int|
        0 <= j < i < al0.len() && #[trigger] al0[i] == kstack && #[trigger] al0[j] == code_page
}

/// Allocate the memory of the first process.
fn init_memory(pt: &mut PageTables, allocator: &mut Allocator) -> (r: InitMemory)
    requires
        old(pt).wf(),
        tree(old(pt)@),
        old(allocator).wf(),
        alloc_ok(old(pt)@, old(allocator)@),
    ensures
        final(pt).wf(),
        tree(final(pt)@),
        final(allocator).wf(),
        alloc_ok(final(pt)@, final(allocator)@),
        grows_leafy(old(pt)@, final(pt)@),
        final(allocator)@.len() <= old(allocator)@.len(),
        final(allocator)@ == old(allocator)@.take(final(allocator)@.len() as int),
        r is OutOfMemory || r is NoStack ==> final(allocator)@.len() == 0,
        old(allocator)@.len() - final(allocator)@.len() <= INIT_FRAMES,
        r matches InitMemory::Ready(pgdir, kstack, code_page) ==> {
            &&& !old(pt)@.contains_key(pgdir)
            &&& final(pt)@.contains_key(pgdir)
            &&& highmem_mapped(final(pt)@, pgdir)
            &&& (forall|b: u64| b < PG_SIZE ==> #[trigger] user_page(final(pt)@, pgdir, b)) || final(allocator)@.len() == 0
            &&& code_mapped(final(pt)@, pgdir, code_page) || final(allocator)@.len() == 0
            &&& leaf(final(pt)@, pgdir, 0) is Some ==> code_mapped(final(pt)@, pgdir, code_page)
            &&& taken_before(old(allocator)@, kstack, code_page)
            &&& crate::vm::table_page_ok(kstack)
            &&& crate::vm::table_page_ok(code_page)
            &&& code_page != kstack
        },
{
    let ghost pt0 = pt@;
    let ghost al0 = allocator@;
    let pgdir = match uvm_create(pt, allocator) {
        Some(d) => d,
        None => {
            return InitMemory::OutOfMemory;
        },
    };
    let ghost pt1 = pt@;
    let ghost al1 = allocator@;
    let kstack = allocator.kalloc();
    if kstack == 0 {
        return InitMemory::NoStack(pgdir);
    }
    proof {
        assert(al1[al1.len() - 1] == kstack);
        assert(crate::vm::table_page_ok(kstack));
        assert forall|k: int| 0 <= k < allocator@.len() implies !pt1.contains_key(#[trigger] allocator@[k])
            && crate::vm::table_page_ok(allocator@[k]) by {
            assert(allocator@[k] == al1[k]);
        }
        assert(allocator@ =~= al0.take(allocator@.len() as int));
        crate::uvm::lemma_fresh_user_small(pt1, pgdir);
        crate::uvm::lemma_user_apart(0, 0);
        assert(crate::address_space::block_apart(0, KERNBASE as int, crate::address_space::LINEAR_MAP_SIZE as int));
        assert(crate::address_space::block_apart(0, crate::util::DEVBASE as int, crate::address_space::DEV_MAP_SIZE as int));
        assert(crate::vm::leaf(pt1, pgdir, 0).is_none());
        assert(!crate::mapping::slot_taken(pt1, pgdir, 0, 0));
    }
    let ghost al2 = allocator@;
    let page = map_new_page(pt, allocator, pgdir, 0);
    proof {
        crate::address_space::lemma_grows_leafy_trans(pt0, pt1, pt@);
        assert(allocator@ =~= al0.take(allocator@.len() as int));
    }
    let code_page = match page {
        NewPage::NoMemory => {
            return InitMemory::OutOfMemory;
        },
        NewPage::Unmapped(m) => m,
        NewPage::Mapped(m) => m,
    };
    proof {
        assert(!al2.contains(kstack)) by {
            if al2.contains(kstack) {
                let k = choose|k: int| 0 <= k < al2.len() && al2[k] == kstack;
                assert(al1[k] == al1[al1.len() - 1]);
            }
        }
        assert(al2.contains(code_page));
        assert forall|a: u64|
            KERNBASE <= a < KERNBASE + crate::address_space::LINEAR_MAP_SIZE implies #[trigger] crate::vm::leaf(
            pt@,
            pgdir,
            a,
        ) == crate::vm::leaf(pt1, pgdir, a) by {
            crate::vm::law_extends_keeps_leaf(pt1, pt@, pgdir, a);
        }
        assert forall|a: u64|
            crate::util::DEVBASE <= a < crate::util::DEVBASE + crate::address_space::DEV_MAP_SIZE implies #[trigger] crate::vm::leaf(
            pt@,
            pgdir,
            a,
        ) == crate::vm::leaf(pt1, pgdir, a) by {
            crate::vm::law_extends_keeps_leaf(pt1, pt@, pgdir, a);
        }
        if allocator@.len() != 0 {
            assert(page is Mapped);
        }
        if page is Mapped {
            assert forall|b: u64| b < PG_SIZE implies #[trigger] leaf(pt@, pgdir, b) == Some(
                (make_pte((code_page - KERNBASE) as u64, USER_PERM | PTE_PRESENT), 0int),
            ) by {
                assert(b / 0x1000 == 0u64 / 0x1000);
            }
        } else {
            assert(leaf(pt@, pgdir, 0) == leaf(pt1, pgdir, 0));
        }
        let i = al1.len() - 1;
        let j = al2.len() - 1;
        assert(al0[i] == al1[i]);
        assert(al0[j] == al2[j]);
        assert(taken_before(al0, kstack, code_page));
    }
    InitMemory::Ready(pgdir, kstack, code_page)
}

/// Create the first user process: take the first unused slot, give it the
/// next pid, a page table with the kernel's high mappings, a kernel stack
/// and a page for the init code at user address 0, the console as files
/// 0 to 2, and the name "init", and make it runnable. The caller copies the
/// init code and writes the trap frame and the context that the result
/// names.
pub fn init_process(
    procs: &mut Vec<Process>,
    pid_counter: &mut usize,
    pt: &mut PageTables,
    allocator: &mut Allocator,
    ft: &mut FileTable,
    forkret: u64,
) -> (r: InitProcess)
    requires
        old(pt).wf(),
        tree(old(pt)@),
        old(allocator).wf(),
        alloc_ok(old(pt)@, old(allocator)@),
        old(ft).wf(),
        *old(pid_counter) < usize::MAX,
        forall|k: int|
            0 <= k < old(procs)@.len() ==> (#[trigger] old(procs)@[k]).ofile@.len() == NFILE && old(procs)@[k].name@.len()
                == 16,
    ensures
        final(pt).wf(),
        tree(final(pt)@),
        final(allocator).wf(),
        alloc_ok(final(pt)@, final(allocator)@),
        grows_leafy(old(pt)@, final(pt)@),
        final(allocator)@.len() <= old(allocator)@.len(),
        final(allocator)@ == old(allocator)@.take(final(allocator)@.len() as int),
        final(ft).wf(),
        final(procs)@.len() == old(procs)@.len(),
        r is NoSlot <==> forall|j: int| 0 <= j < old(procs)@.len() ==> (#[trigger] old(procs)@[j]).state != ProcessState::UNUSED,
        r is NoSlot ==> final(procs)@ == old(procs)@ && *final(pid_counter) == *old(pid_counter),
        r is OutOfMemory || r is NoStack ==> final(allocator)@.len() == 0,
        old(allocator)@.len() - final(allocator)@.len() <= INIT_FRAMES,
        old(allocator)@.len() > INIT_FRAMES && !(r is NoSlot) ==> r is Ready && final(allocator)@.len() > 0,
        r matches InitProcess::Ready { slot, code_page, tf_addr, tf, context_addr, context } ==> {
            let p = final(procs)@[slot as int];
            &&& slot < old(procs)@.len()
            &&& old(procs)@[slot as int].state == ProcessState::UNUSED
            &&& forall|j: int| 0 <= j < slot ==> (#[trigger] old(procs)@[j]).state != ProcessState::UNUSED
            &&& forall|j: int| 0 <= j < old(procs)@.len() && j != slot ==> #[trigger] final(procs)@[j] == old(procs)@[j]
            &&& *final(pid_counter) == *old(pid_counter) + 1
            &&& p.pid == *final(pid_counter)
            &&& p.state == ProcessState::RUNNABLE
            &&& !old(pt)@.contains_key(p.pgdir)
            &&& final(pt)@.contains_key(p.pgdir)
            &&& highmem_mapped(final(pt)@, p.pgdir)
            &&& (forall|b: u64| b < PG_SIZE ==> #[trigger] user_page(final(pt)@, p.pgdir, b)) || final(allocator)@.len() == 0
            &&& code_mapped(final(pt)@, p.pgdir, code_page) || final(allocator)@.len() == 0
            &&& leaf(final(pt)@, p.pgdir, 0) is Some ==> code_mapped(final(pt)@, p.pgdir, code_page)
            &&& taken_before(old(allocator)@, p.kstack, code_page)
            &&& crate::vm::table_page_ok(p.kstack)
            &&& crate::vm::table_page_ok(code_page)
            &&& code_page != p.kstack
            &&& tf_addr == p.kstack + KSTACK_SIZE - TRAPFRAME_SIZE
            &&& tf == init_trapframe()
            &&& context_addr == tf_addr - CONTEXT_SIZE
            &&& p.context == context_addr
            &&& context == (Context { r15: 0, r14: 0, r13: 0, r12: 0, rbx: 0, rbp: 0, rip: forkret })
            &&& p.name@ == seq![105u8, 110u8, 105u8, 116u8] + old(procs)@[slot as int].name@.subrange(4, 16)
            &&& p.sz == old(procs)@[slot as int].sz
            &&& p.ofile@.len() == NFILE
            &&& forall|k: int| 3 <= k < NFILE ==> p.ofile@[k] == old(procs)@[slot as int].ofile@[k]
            &&& forall|k: int|
                0 <= k < 3 ==> match #[trigger] p.ofile@[k] {
                    Some(f) => f < crate::file::NFILE && final(ft).files@[f as int] == console_file(
                        File { refcnt: 1, ..old(ft).files@[f as int] },
                    ) && old(ft).files@[f as int].refcnt == 0,
                    None => old(procs)@[slot as int].ofile@[k] is None,
                } || p.ofile@[k] == old(procs)@[slot as int].ofile@[k]
            &&& (final(ft).files@, p.ofile@) == console_opened(old(ft).files@, old(procs)@[slot as int].ofile@, 3)
        },
        !(r is Ready) ==> final(ft).files@ == old(ft).files@,
{
    let ghost pt0 = pt@;
    let ghost al0 = allocator@;
    let slot = match first_unused(procs) {
        Some(i) => i,
        None => {
            proof {
                crate::vm::lemma_extends_refl(pt0);
                assert(grows_leafy(pt0, pt0));
                assert(al0 =~= al0.take(al0.len() as int));
            }
            return InitProcess::NoSlot;
        },
    };
    let mut p = procs.remove(slot);
    *pid_counter = *pid_counter + 1;
    p.pid = *pid_counter;
    p.state = ProcessState::EMBRYO;
    let (pgdir, kstack, code_page) = match init_memory(pt, allocator) {
        InitMemory::OutOfMemory => {
            procs.insert(slot, p);
            return InitProcess::OutOfMemory;
        },
        InitMemory::NoStack(pgdir) => {
            p.pgdir = pgdir;
            p.kstack = 0;
            p.state = ProcessState::UNUSED;
            procs.insert(slot, p);
            return InitProcess::NoStack;
        },
        InitMemory::Ready(pgdir, kstack, code_page) => (pgdir, kstack, code_page),
    };
    p.pgdir = pgdir;
    p.kstack = kstack;
    let tf_addr = kstack + ((KSTACK_SIZE as u64) - TRAPFRAME_SIZE);
    let tf = TrapFrame {
        rax: 0,
        rbx: 0,
        rcx: 0,
        rdx: 0,
        rbp: 0,
        rsi: 0,
        rdi: 0,
        r8: 0,
        r9: 0,
        r10: 0,
        r11: 0,
        r12: 0,
        r13: 0,
        r14: 0,
        r15: 0,
        trap_num: 0,
        error_code: 0,
        rip: 0,
        cs: UCODE_SELECTOR as u64,
        rflags: USER_RFLAGS,
        rsp: PG_SIZE as u64,
        ss: UDATA_SELECTOR as u64,
    };
    let context_addr = tf_addr - CONTEXT_SIZE;
    p.context = context_addr;
    let context = Context { r15: 0, r14: 0, r13: 0, r12: 0, rbx: 0, rbp: 0, rip: forkret };
    p.state = ProcessState::RUNNABLE;
    p.name.set(0, 105u8);
    p.name.set(1, 110u8);
    p.name.set(2, 105u8);
    p.name.set(3, 116u8);
    open_console(&mut p, ft);
    procs.insert(slot, p);
    proof {
        assert(procs@[slot as int].name@ =~= seq![105u8, 110u8, 105u8, 116u8] + old(procs)@[slot as int].name@.subrange(
            4,
            16,
        ));
        assert forall|j: int| 0 <= j < old(procs)@.len() && j != slot implies #[trigger] procs@[j] == old(procs)@[j] by {
        }
    }
    InitProcess::Ready { slot, code_page, tf_addr, tf, context_addr, context }
}
}
