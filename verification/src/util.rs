use vstd::prelude::*;

verus! {

/// First kernel virtual address: physical memory is mapped linearly from here.
pub const KERNBASE: u64 = 0xFFFF_FFFF_8000_0000;
/// First virtual address of the device window.
pub const DEVBASE: u64 = 0xFFFF_FFFF_4000_0000;
/// First physical address of device space.
pub const DEVSPACE: u64 = 0xFE00_0000;
/// Physical address of the I/O APIC.
pub const IOAPIC_ADDR: u64 = 0xFEC0_0000;
/// Physical address of the local APIC.
pub const LAPIC_ADDR: u64 = 0xFEE0_0000;
/// Amount of physical memory the kernel manages.
pub const PHYS_MEM: u64 = 0x1000_0000;
/// Size of a page.
pub const PG_SIZE: usize = 4096;

/// Interrupt vector of the system call gate.
pub const T_SYSCALL: u32 = 64;
/// Interrupt vector of the page-fault exception.
pub const T_PAGE_FAULT: u32 = 14;
/// First vector used for hardware IRQs.
pub const T_IRQ0: u32 = 32;
pub const IRQ_TIMER: u32 = 0;
pub const IRQ_UART: u32 = 4;
pub const IRQ_VIRTIO: u32 = 11;
pub const IRQ_ERROR: u32 = 19;

/// Kernel virtual address of a physical address.
pub fn p2v(x: u64) -> (r: u64)
    requires
        x + KERNBASE <= u64::MAX,
    ensures
        r == x + KERNBASE,
{
    x + KERNBASE
}


/// Physical address of a kernel virtual address of the linear map.
pub fn v2p(x: u64) -> (r: u64)
    requires
        x >= KERNBASE,
    ensures
        r == x - KERNBASE,
{
    x - KERNBASE
}

/// Virtual address, in the device window, of a physical device address.
pub fn io2v(x: u64) -> (r: u64)
    requires
        DEVSPACE <= x,
        x - DEVSPACE + DEVBASE <= u64::MAX,
    ensures
        r == x - DEVSPACE + DEVBASE,
{
    x - DEVSPACE + DEVBASE
}

/// Translating to the kernel's virtual address and back gives the physical address again.
pub proof fn law_v2p_undoes_p2v(x: u64)
    requires
        x + KERNBASE <= u64::MAX,
    ensures
        (x + KERNBASE) - KERNBASE == x,
{
}

}
