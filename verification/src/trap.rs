use vstd::prelude::*;
use crate::util::{IRQ_TIMER, IRQ_UART, IRQ_VIRTIO, T_IRQ0, T_PAGE_FAULT, T_SYSCALL};

verus! {

/// Registers saved on the kernel stack when a trap enters the kernel.
#[derive(Clone, Copy, Debug)]
pub struct TrapFrame {
    pub rax: u64,
    pub rbx: u64,
    pub rcx: u64,
    pub rdx: u64,
    pub rbp: u64,
    pub rsi: u64,
    pub rdi: u64,
    pub r8: u64,
    pub r9: u64,
    pub r10: u64,
    pub r11: u64,
    pub r12: u64,
    pub r13: u64,
    pub r14: u64,
    pub r15: u64,
    pub trap_num: u64,
    pub error_code: u64,
    pub rip: u64,
    pub cs: u64,
    pub rflags: u64,
    pub rsp: u64,
    pub ss: u64,
}

/// Size in bytes of a `TrapFrame` (22 registers of 8 bytes).
pub const TRAPFRAME_SIZE: u64 = 176;

/// An interrupt gate of the interrupt descriptor table.
#[derive(Clone, Copy, Debug)]
pub struct GateDesc {
    pub offset_low: u16,
    pub selector: u16,
    pub ist: u8,
    pub type_attr: u8,
    pub offset_mid: u16,
    pub offset_high: u32,
    pub reserved: u32,
}

/// The interrupt gate that enters the handler at `addr` through code segment
/// `selector`: the handler address is split into its low 16, middle 16 and
/// high 32 bits.
pub fn gate_desc(addr: u64, selector: u16, type_attr: u8) -> (r: GateDesc)
    ensures
        r.offset_low == addr % 0x1_0000,
        r.offset_mid == (addr / 0x1_0000) % 0x1_0000,
        r.offset_high == addr / 0x1_0000_0000,
        r.offset_low + r.offset_mid * 0x1_0000 + r.offset_high * 0x1_0000_0000 == addr,
        r.selector == selector,
        r.ist == 0,
        r.type_attr == type_attr,
        r.reserved == 0,
{
    let lo = (addr & 0xFFFF) as u16;
    let mid = ((addr >> 16) & 0xFFFF) as u16;
    let hi = (addr >> 32) as u32;
    assert((addr & 0xFFFF) == addr % 0x1_0000) by (bit_vector);
    assert(((addr >> 16) & 0xFFFF) == (addr / 0x1_0000) % 0x1_0000) by (bit_vector);
    assert((addr >> 32) == addr / 0x1_0000_0000) by (bit_vector);
    GateDesc { offset_low: lo, selector, ist: 0, type_attr, offset_mid: mid, offset_high: hi, reserved: 0 }
}

/// Type byte of a present, kernel-only 64-bit interrupt gate.
pub const GATE_KERNEL: u8 = 0x8E;
/// Type byte of a present interrupt gate that user code may invoke.
pub const GATE_USER: u8 = 0xEE;

/// The 256 gates of the interrupt descriptor table for the given handler
/// addresses: all kernel-only interrupt gates through `selector`, except the
/// system call gate, which user code may invoke.
pub fn idt_entries(vectors: &[u64], selector: u16) -> (r: Vec<GateDesc>)
    requires
        vectors@.len() == 256,
    ensures
        r@.len() == 256,
        forall|i: int| 0 <= i < 256 ==> {
            &&& (#[trigger] r@[i]).offset_low + r@[i].offset_mid * 0x1_0000 + r@[i].offset_high * 0x1_0000_0000 == vectors@[i]
            &&& r@[i].selector == selector
            &&& r@[i].type_attr == (if i == T_SYSCALL { GATE_USER } else { GATE_KERNEL })
        },
{
    let mut r: Vec<GateDesc> = Vec::new();
    let mut i: usize = 0;
    while i < 256
        invariant
            vectors@.len() == 256,
            i <= 256,
            r@.len() == i,
            forall|k: int| 0 <= k < i ==> {
                &&& (#[trigger] r@[k]).offset_low + r@[k].offset_mid * 0x1_0000 + r@[k].offset_high * 0x1_0000_0000 == vectors@[k]
                &&& r@[k].selector == selector
                &&& r@[k].type_attr == GATE_KERNEL
            },
        decreases 256 - i,
    {
        r.push(gate_desc(vectors[i], selector, GATE_KERNEL));
        i = i + 1;
    }
    let g = r[T_SYSCALL as usize];
    r.set(T_SYSCALL as usize, GateDesc { type_attr: GATE_USER, ..g });
    r
}

/// How the kernel handles a trap.
#[derive(PartialEq, Eq, Structural, Debug)]
pub enum TrapKind {
    /// Timer interrupt: give up the CPU, then acknowledge.
    Timer,
    /// Serial-port interrupt: feed input to the console, then acknowledge.
    Uart,
    /// Disk interrupt: wake waiting processes, then acknowledge.
    Virtio,
    /// System call.
    Syscall,
    /// Page fault.
    PageFault,
    /// Anything else: report and halt.
    Unknown,
}

/// Classify a trap by its number.
pub fn trap_kind(trap_num: u64) -> (r: TrapKind)
    ensures
        r == (if trap_num == T_IRQ0 + IRQ_TIMER {
            TrapKind::Timer
        } else if trap_num == T_IRQ0 + IRQ_UART {
            TrapKind::Uart
        } else if trap_num == T_IRQ0 + IRQ_VIRTIO {
            TrapKind::Virtio
        } else if trap_num == T_SYSCALL {
            TrapKind::Syscall
        } else if trap_num == T_PAGE_FAULT {
            TrapKind::PageFault
        } else {
            TrapKind::Unknown
        }),
{
    if trap_num == (T_IRQ0 + IRQ_TIMER) as u64 {
        TrapKind::Timer
    } else if trap_num == (T_IRQ0 + IRQ_UART) as u64 {
        TrapKind::Uart
    } else if trap_num == (T_IRQ0 + IRQ_VIRTIO) as u64 {
        TrapKind::Virtio
    } else if trap_num == T_SYSCALL as u64 {
        TrapKind::Syscall
    } else if trap_num == T_PAGE_FAULT as u64 {
        TrapKind::PageFault
    } else {
        TrapKind::Unknown
    }
}

/// A page fault at `addr` in a process of size `sz`: outside the process it
/// is a segmentation fault (`None`: the process exits); inside, the page
/// containing `addr` is to be allocated and mapped (demand paging).
pub fn page_fault_page(addr: u64, sz: u64) -> (r: Option<u64>)
    ensures
        addr >= sz ==> r.is_none(),
        addr < sz ==> r == Some(crate::vm::page_floor(addr as int) as u64),
{
    if addr >= sz {
        None
    } else {
        Some(crate::vm::pgrounddown(addr))
    }
}

}
