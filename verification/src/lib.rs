use vstd::prelude::*;

pub mod address_space;
pub mod allocator;
pub mod bio;
pub mod bytes;
pub mod console;
pub mod elf;
pub mod exec;
pub mod file;
pub mod fs;
pub mod gdt;
pub mod heap;
pub mod log;
pub mod mapping;
pub mod mkfs;
pub mod pci;
pub mod pipe;
pub mod proc;
pub mod sleeplock;
pub mod syscall;
pub mod trap;
pub mod uart;
pub mod util;
pub mod user;
pub mod uvm;
pub mod uvmcopy;
pub mod virtio;
pub mod vm;

verus! {
}
