use vstd::prelude::*;

verus! {

/// I/O port that selects a PCI configuration register.
pub const CONFIG_ADDRESS: u16 = 0xCF8;
/// I/O port through which the selected register is read and written.
pub const CONFIG_DATA: u16 = 0xCFC;
/// PCI vendor id of virtio devices.
pub const VIRTIO_VENDOR_ID: u32 = 0x1AF4;

/// A PCI device found on the bus.
#[derive(Clone, Copy, Debug)]
pub struct PciDevice {
    pub bus: u8,
    pub slot: u8,
    pub func: u8,
    pub vendor_id: u16,
    pub device_id: u16,
    /// I/O base address from BAR0.
    pub base_addr: u32,
    pub irq_line: u8,
}

/// The configuration address that selects register `offset` (rounded down to
/// a multiple of 4) of function `func` of device `slot` on bus `bus`.
pub open spec fn config_address(bus: u8, slot: u8, func: u8, offset: u8) -> u32 {
    0x8000_0000u32 | ((bus as u32) << 16u32) | ((slot as u32) << 11u32) | ((func as u32) << 8u32) | ((
    offset as u32) & 0xFCu32)
}

/// The value written to `CONFIG_ADDRESS` before reading a configuration register.
pub fn pci_config_address(bus: u8, slot: u8, func: u8, offset: u8) -> (r: u32)
    ensures
        r == config_address(bus, slot, func, offset),
        r & 0x8000_0000 != 0,
        r & 3 == 0,
{
    let r = 0x8000_0000u32 | ((bus as u32) << 16u32) | ((slot as u32) << 11u32) | ((func as u32) << 8u32)
        | ((offset as u32) & 0xFCu32);
    let b = bus as u32;
    let s = slot as u32;
    let f = func as u32;
    let o = offset as u32;
    assert((0x8000_0000u32 | (b << 16u32) | (s << 11u32) | (f << 8u32) | (o & 0xFCu32)) & 0x8000_0000 != 0
        && (0x8000_0000u32 | (b << 16u32) | (s << 11u32) | (f << 8u32) | (o & 0xFCu32)) & 3 == 0)
        by (bit_vector);
    r
}

/// Whether the first configuration register (vendor id in the low half)
/// shows a present virtio device.
pub fn is_virtio(id_reg: u32) -> (r: bool)
    ensures
        r == (id_reg & 0xFFFF == VIRTIO_VENDOR_ID),
{
    (id_reg & 0xFFFF) == VIRTIO_VENDOR_ID
}

/// Whether a slot is empty: vendor id all ones.
pub fn is_absent(id_reg: u32) -> (r: bool)
    ensures
        r == (id_reg & 0xFFFF == 0xFFFF),
{
    (id_reg & 0xFFFF) == 0xFFFF
}

/// The virtio device in a slot, from its configuration registers: the id
/// register (vendor id low, device id high), BAR0 (an I/O base, whose two
/// low flag bits are cleared) and the interrupt register (line in the low byte).
pub fn check_device(bus: u8, slot: u8, id_reg: u32, bar0: u32, irq_reg: u32) -> (r: PciDevice)
    ensures
        r.bus == bus,
        r.slot == slot,
        r.func == 0,
        r.vendor_id == id_reg & 0xFFFF,
        r.device_id == (id_reg >> 16u32) & 0xFFFF,
        r.base_addr == bar0 & !3u32,
        r.irq_line == irq_reg & 0xFF,
{
    let vendor_id = id_reg & 0xFFFF;
    let device_id = (id_reg >> 16u32) & 0xFFFF;
    assert(id_reg & 0xFFFF <= 0xFFFF && (id_reg >> 16u32) & 0xFFFF <= 0xFFFF && irq_reg & 0xFF <= 0xFF) by (bit_vector);
    PciDevice {
        bus,
        slot,
        func: 0,
        vendor_id: vendor_id as u16,
        device_id: device_id as u16,
        base_addr: bar0 & !3u32,
        irq_line: (irq_reg & 0xFF) as u8,
    }
}

/// The command register with I/O space (bit 0) and bus mastering (bit 2) enabled.
pub fn enable_command(command: u32) -> (r: u32)
    ensures
        r == command | 5,
        r & 1 == 1,
        r & 4 == 4,
{
    let r = command | 0x4 | 0x1;
    assert((command | 4 | 1) == (command | 5) && (command | 5) & 1 == 1 && (command | 5) & 4 == 4) by (bit_vector);
    r
}

}
