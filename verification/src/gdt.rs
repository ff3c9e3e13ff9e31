use vstd::prelude::*;

verus! {

pub const KCODE_SELECTOR_INDEX: usize = 1;
pub const KDATA_SELECTOR_INDEX: usize = 2;
pub const UCODE_SELECTOR_INDEX: usize = 3;
pub const UDATA_SELECTOR_INDEX: usize = 4;
pub const TSS_SELECTOR_INDEX: usize = 5;
/// Kernel code segment selector.
pub const KCODE_SELECTOR: u16 = 8;
/// Kernel data segment selector.
pub const KDATA_SELECTOR: u16 = 16;
/// User code segment selector (privilege level 3).
pub const UCODE_SELECTOR: u16 = 27;
/// User data segment selector (privilege level 3).
pub const UDATA_SELECTOR: u16 = 35;
/// Task state segment selector.
pub const TSS_SELECTOR: u16 = 40;
/// Number of entries of the global descriptor table.
pub const GDT_ENTRIES: usize = 7;
/// Size of a task state segment in bytes.
pub const TSS_SIZE: u64 = 104;

/// A 64-bit task state segment.
#[derive(Clone, Copy, Debug)]
pub struct TaskStateSegment {
    pub reserved1: u32,
    /// RSP0 to RSP2: stacks for entering privilege levels 0 to 2.
    pub privilege_stack_table: [u64; 3],
    pub reserved2: u64,
    pub interrupt_stack_table: [u64; 7],
    pub reserved3: u64,
    pub reserved4: u16,
    pub iomap_base: u16,
}

impl TaskStateSegment {
    /// An empty task state segment whose I/O map starts at its end.
    pub fn new() -> (r: Self)
        ensures
            r.privilege_stack_table@ == seq![0u64, 0, 0],
            r.interrupt_stack_table@ == Seq::new(7, |i: int| 0u64),
            r.iomap_base == 104,
            r.reserved1 == 0 && r.reserved2 == 0 && r.reserved3 == 0 && r.reserved4 == 0,
    {
        let r = TaskStateSegment {
            reserved1: 0,
            privilege_stack_table: [0; 3],
            reserved2: 0,
            interrupt_stack_table: [0; 7],
            reserved3: 0,
            reserved4: 0,
            iomap_base: 104,
        };
        assert(r.privilege_stack_table@ =~= seq![0u64, 0, 0]);
        assert(r.interrupt_stack_table@ =~= Seq::new(7, |i: int| 0u64));
        r
    }
}

/// Set the stack the CPU switches to when it enters the kernel from user mode.
pub fn set_kernel_stack(tss: &mut TaskStateSegment, stack: u64)
    ensures
        final(tss).privilege_stack_table@ == old(tss).privilege_stack_table@.update(0, stack),
        final(tss).interrupt_stack_table == old(tss).interrupt_stack_table,
        final(tss).iomap_base == old(tss).iomap_base,
{
    tss.privilege_stack_table[0] = stack;
}

/// A segment descriptor.
#[derive(Copy, Clone, Debug)]
pub struct Descriptor(pub u64);

/// Descriptor bits.
pub const DESC_RW: u64 = 0x200_0000_0000;
pub const DESC_EXEC: u64 = 0x800_0000_0000;
pub const DESC_S: u64 = 0x1000_0000_0000;
pub const DESC_DPL3: u64 = 0x6000_0000_0000;
pub const DESC_PRESENT: u64 = 0x8000_0000_0000;
pub const DESC_LONG: u64 = 0x20_0000_0000_0000;

impl Descriptor {
    /// The null descriptor.
    pub fn default() -> (r: Self)
        ensures
            r.0 == 0,
    {
        Descriptor(0)
    }

    /// Kernel 64-bit code segment: executable, code/data, privilege 0, present, long mode.
    pub fn kernel_code_segment() -> (r: Self)
        ensures
            r.0 == DESC_EXEC | DESC_S | DESC_PRESENT | DESC_LONG,
            r.0 == 0x0020_9800_0000_0000,
    {
        let r = Descriptor(DESC_EXEC | DESC_S | DESC_PRESENT | DESC_LONG);
        assert(DESC_EXEC | DESC_S | DESC_PRESENT | DESC_LONG == 0x0020_9800_0000_0000u64) by (bit_vector);
        r
    }

    /// Kernel data segment: writable, code/data, privilege 0, present.
    pub fn kernel_data_segment() -> (r: Self)
        ensures
            r.0 == DESC_RW | DESC_S | DESC_PRESENT,
            r.0 == 0x0000_9200_0000_0000,
    {
        let r = Descriptor(DESC_RW | DESC_S | DESC_PRESENT);
        assert(DESC_RW | DESC_S | DESC_PRESENT == 0x0000_9200_0000_0000u64) by (bit_vector);
        r
    }

    /// User 64-bit code segment: executable, code/data, privilege 3, present, long mode.
    pub fn user_code_segment() -> (r: Self)
        ensures
            r.0 == DESC_EXEC | DESC_S | DESC_DPL3 | DESC_PRESENT | DESC_LONG,
            r.0 == 0x0020_f800_0000_0000,
    {
        let r = Descriptor(DESC_EXEC | DESC_S | DESC_DPL3 | DESC_PRESENT | DESC_LONG);
        assert(DESC_EXEC | DESC_S | DESC_DPL3 | DESC_PRESENT | DESC_LONG == 0x0020_f800_0000_0000u64) by (bit_vector);
        r
    }

    /// User data segment: writable, code/data, privilege 3, present.
    pub fn user_data_segment() -> (r: Self)
        ensures
            r.0 == DESC_RW | DESC_S | DESC_DPL3 | DESC_PRESENT,
            r.0 == 0x0000_f200_0000_0000,
    {
        let r = Descriptor(DESC_RW | DESC_S | DESC_DPL3 | DESC_PRESENT);
        assert(DESC_RW | DESC_S | DESC_DPL3 | DESC_PRESENT == 0x0000_f200_0000_0000u64) by (bit_vector);
        r
    }

    /// The two descriptors of a task state segment at address `ptr`: base and
    /// limit (`TSS_SIZE - 1`) scattered over the low descriptor as the
    /// hardware lays them out, type "available TSS", privilege 3, present;
    /// the high descriptor holds the base's upper 32 bits.
    pub fn tss_segment(ptr: u64) -> (r: (Self, Self))
        ensures
            r.0.0 == (103u64 | ((ptr & 0xFF_FFFF) << 16u64) | (0x9u64 << 40u64) | (3u64 << 45u64) | (1u64
                << 47u64) | ((ptr & 0xFF00_0000) << 32u64)),
            r.1.0 == ptr >> 32u64,
            r.0.0 & 0xFFFF == 103,
            (r.0.0 >> 16u64) & 0xFF_FFFF == ptr & 0xFF_FFFF,
            (r.0.0 >> 56u64) == (ptr >> 24u64) & 0xFF,
    {
        let size: u64 = TSS_SIZE - 1;
        let low = (size & 0xFFFF) | ((ptr & 0xFF_FFFF) << 16u64) | (0x9u64 << 40u64) | (3u64 << 45u64) | (1u64
            << 47u64) | ((size & 0xF_0000) << 32u64) | ((ptr & 0xFF00_0000) << 32u64);
        let high = ptr >> 32u64;
        assert(low == (103u64 | ((ptr & 0xFF_FFFF) << 16u64) | (0x9u64 << 40u64) | (3u64 << 45u64) | (1u64
            << 47u64) | ((ptr & 0xFF00_0000) << 32u64))) by (bit_vector)
            requires
                size == 103,
                low == (size & 0xFFFF) | ((ptr & 0xFF_FFFF) << 16u64) | (0x9u64 << 40u64) | (3u64 << 45u64) | (1u64
                    << 47u64) | ((size & 0xF_0000) << 32u64) | ((ptr & 0xFF00_0000) << 32u64),
        ;
        assert(low & 0xFFFF == 103 && (low >> 16u64) & 0xFF_FFFF == ptr & 0xFF_FFFF && (low >> 56u64) == (ptr
            >> 24u64) & 0xFF) by (bit_vector)
            requires
                low == (103u64 | ((ptr & 0xFF_FFFF) << 16u64) | (0x9u64 << 40u64) | (3u64 << 45u64) | (1u64
                    << 47u64) | ((ptr & 0xFF00_0000) << 32u64)),
        ;
        (Descriptor(low), Descriptor(high))
    }
}

/// A global descriptor table: null, kernel code, kernel data, user code,
/// user data, and the two halves of the task state segment.
#[derive(Clone, Copy, Debug)]
pub struct GlobalDescriptorTable {
    pub table: [Descriptor; 7],
}

impl GlobalDescriptorTable {
    /// A table of null descriptors.
    pub fn new() -> (r: Self)
        ensures
            forall|i: int| 0 <= i < GDT_ENTRIES ==> (#[trigger] r.table@[i]).0 == 0,
    {
        GlobalDescriptorTable { table: [Descriptor(0); 7] }
    }

    /// Store a descriptor at `index` and return its selector.
    pub fn set_entry(&mut self, index: usize, desc: Descriptor) -> (r: u16)
        requires
            index < GDT_ENTRIES,
        ensures
            final(self).table@ == old(self).table@.update(index as int, desc),
            r == index * 8,
    {
        self.table[index] = desc;
        (index * 8) as u16
    }
}

/// The descriptor table of a CPU whose task state segment is at `tss_addr`.
pub fn build_gdt(tss_addr: u64) -> (r: GlobalDescriptorTable)
    ensures
        r.table@[0].0 == 0,
        r.table@[KCODE_SELECTOR_INDEX as int] == Descriptor::kernel_code_segment_spec(),
        r.table@[KDATA_SELECTOR_INDEX as int].0 == 0x0000_9200_0000_0000,
        r.table@[UCODE_SELECTOR_INDEX as int].0 == 0x0020_f800_0000_0000,
        r.table@[UDATA_SELECTOR_INDEX as int].0 == 0x0000_f200_0000_0000,
        r.table@[TSS_SELECTOR_INDEX as int].0 & 0xFFFF == 103,
        r.table@[TSS_SELECTOR_INDEX as int + 1].0 == tss_addr >> 32u64,
{
    let mut gdt = GlobalDescriptorTable::new();
    gdt.set_entry(KCODE_SELECTOR_INDEX, Descriptor::kernel_code_segment());
    gdt.set_entry(KDATA_SELECTOR_INDEX, Descriptor::kernel_data_segment());
    gdt.set_entry(UCODE_SELECTOR_INDEX, Descriptor::user_code_segment());
    gdt.set_entry(UDATA_SELECTOR_INDEX, Descriptor::user_data_segment());
    let (lo, hi) = Descriptor::tss_segment(tss_addr);
    gdt.set_entry(TSS_SELECTOR_INDEX, lo);
    gdt.set_entry(TSS_SELECTOR_INDEX + 1, hi);
    gdt
}

impl Descriptor {
    pub open spec fn kernel_code_segment_spec() -> Descriptor {
        Descriptor(0x0020_9800_0000_0000)
    }
}

}
