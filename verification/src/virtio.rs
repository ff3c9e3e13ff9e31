use vstd::prelude::*;
use crate::util::PG_SIZE;

verus! {

pub const VIRTIO_LEGACY_DEVICE_ID: u16 = 0x1001;
pub const VIRTIO_BLK_T_IN: u32 = 0;
pub const VIRTIO_BLK_T_OUT: u32 = 1;
pub const VIRTIO_REG_HOST_FEATURES: u16 = 0;
pub const VIRTIO_REG_GUEST_FEATURES: u16 = 4;
pub const VIRTIO_REG_QUEUE_ADDR: u16 = 8;
pub const VIRTIO_REG_QUEUE_SIZE: u16 = 12;
pub const VIRTIO_REG_QUEUE_SELECT: u16 = 14;
pub const VIRTIO_REG_QUEUE_NOTIFY: u16 = 16;
pub const VIRTIO_REG_DEVICE_STATUS: u16 = 18;
pub const VIRTIO_REG_ISR_STATUS: u16 = 19;
pub const VIRTIO_STATUS_ACKNOWLEDGE: u8 = 1;
pub const VIRTIO_STATUS_DRIVER: u8 = 2;
pub const VIRTIO_STATUS_DRIVER_OK: u8 = 4;
/// Number of descriptors of the virtqueue.
pub const QUEUE_SIZE: usize = 256;
/// Descriptor flag: the chain continues at `next`.
pub const VRING_DESC_F_NEXT: u16 = 1;
/// Descriptor flag: the device writes this buffer.
pub const VRING_DESC_F_WRITE: u16 = 2;
/// Size of a block request header.
pub const BLK_REQ_SIZE: u32 = 16;

/// A virtqueue descriptor.
#[derive(Clone, Copy, Debug, PartialEq, Eq, Structural)]
pub struct VRingDesc {
    pub addr: u64,
    pub len: u32,
    pub flags: u16,
    pub next: u16,
}

/// The block driver's state: the device's I/O base, the `next` link of every
/// descriptor (the driver alone writes them, so this is exactly what the
/// descriptor table holds), the head of the free descriptor chain, and the
/// driver's positions in the used and available rings.
pub struct VirtioDriver {
    pub io_base: u16,
    pub next: Vec<u16>,
    pub free_head: u16,
    pub used_idx: u16,
    pub avail_idx: u16,
}

/// A request as submitted: its three descriptors (header, data, status), the
/// descriptor contents to write, the available-ring slot that receives the
/// head, and the new available index to publish before notifying the device.
pub struct Submission {
    pub head: u16,
    pub data: u16,
    pub status: u16,
    pub descs: [VRingDesc; 3],
    pub ring_slot: usize,
    pub avail_idx: u16,
}

/// The driver after submitting a request, and the submission: three
/// descriptors taken from the head of the free chain and chained header,
/// data, status; the header is the request at `req_paddr`, the data
/// descriptor covers the `len` bytes at `buf_paddr`, which the device writes
/// when the request is a read, and the device writes the one status byte at
/// `status_paddr`; the head goes into the next available-ring slot, and the
/// available index advances.
pub open spec fn submitted(
    s0: VirtioDriver,
    s1: VirtioDriver,
    write: bool,
    req_paddr: u64,
    buf_paddr: u64,
    len: u32,
    status_paddr: u64,
    r: Submission,
) -> bool {
    let h = s0.free_head;
    let d = s0.next@[h as int];
    let st = s0.next@[d as int];
    &&& r.head == h && r.data == d && r.status == st
    &&& s1.free_head == s0.next@[st as int]
    &&& s1.next@ == s0.next@.update(h as int, d).update(d as int, st).update(st as int, 0)
    &&& r.descs[0] == (VRingDesc { addr: req_paddr, len: BLK_REQ_SIZE, flags: VRING_DESC_F_NEXT, next: d })
    &&& r.descs[1] == (VRingDesc {
        addr: buf_paddr,
        len,
        flags: if write { VRING_DESC_F_NEXT } else { VRING_DESC_F_NEXT | VRING_DESC_F_WRITE },
        next: st,
    })
    &&& r.descs[2] == (VRingDesc { addr: status_paddr, len: 1, flags: VRING_DESC_F_WRITE, next: 0 })
    &&& r.ring_slot == s0.avail_idx % (QUEUE_SIZE as u16)
    &&& r.avail_idx == (s0.avail_idx + 1) % 0x1_0000
    &&& s1.avail_idx == r.avail_idx
    &&& s1.used_idx == s0.used_idx
    &&& s1.io_base == s0.io_base
}

impl VirtioDriver {
    pub open spec fn wf(&self) -> bool {
        &&& self.next@.len() == QUEUE_SIZE
        &&& self.free_head < QUEUE_SIZE
        &&& forall|i: int| 0 <= i < QUEUE_SIZE ==> #[trigger] self.next@[i] < QUEUE_SIZE
    }

    /// A fresh driver: descriptors chained in order, the last one back to 0
    /// (the descriptor table starts zeroed), all rings at index 0.
    pub fn new(io_base: u16) -> (r: Self)
        ensures
            r.wf(),
            r.io_base == io_base,
            r.free_head == 0,
            r.used_idx == 0,
            r.avail_idx == 0,
            forall|i: int| 0 <= i < QUEUE_SIZE - 1 ==> #[trigger] r.next@[i] == i + 1,
            r.next@[QUEUE_SIZE - 1] == 0,
    {
        let mut next: Vec<u16> = Vec::new();
        let mut i: usize = 0;
        while i < QUEUE_SIZE - 1
            invariant
                i <= QUEUE_SIZE - 1,
                next@.len() == i,
                forall|k: int| 0 <= k < i ==> #[trigger] next@[k] == k + 1,
            decreases QUEUE_SIZE - 1 - i,
        {
            next.push((i + 1) as u16);
            i = i + 1;
        }
        next.push(0);
        VirtioDriver { io_base, next, free_head: 0, used_idx: 0, avail_idx: 0 }
    }

    /// Take the descriptor at the head of the free chain.
    pub fn alloc_desc(&mut self) -> (r: u16)
        requires
            old(self).wf(),
        ensures
            final(self).wf(),
            r == old(self).free_head,
            final(self).free_head == old(self).next@[r as int],
            final(self).next == old(self).next,
            final(self).used_idx == old(self).used_idx,
            final(self).avail_idx == old(self).avail_idx,
            final(self).io_base == old(self).io_base,
    {
        let idx = self.free_head;
        self.free_head = self.next[idx as usize];
        idx
    }

    /// Put a descriptor back at the head of the free chain.
    pub fn free_desc(&mut self, idx: u16)
        requires
            old(self).wf(),
            idx < QUEUE_SIZE,
        ensures
            final(self).wf(),
            final(self).free_head == idx,
            final(self).next@ == old(self).next@.update(idx as int, old(self).free_head),
            final(self).used_idx == old(self).used_idx,
            final(self).avail_idx == old(self).avail_idx,
            final(self).io_base == old(self).io_base,
    {
        let h = self.free_head;
        self.next.set(idx as usize, h);
        self.free_head = idx;
    }

    /// Submit a block request for `sector`: three descriptors are taken from
    /// the free chain and chained header, data, status. The header is the
    /// request at `req_paddr`; the data descriptor covers the `len` bytes at
    /// `buf_paddr`, which the device writes when the request is a read; the
    /// device writes the one status byte at `status_paddr`. The head goes
    /// into the next available-ring slot, and the available index advances.
    pub fn submit(&mut self, write: bool, req_paddr: u64, buf_paddr: u64, len: u32, status_paddr: u64) -> (r: Submission)
        requires
            old(self).wf(),
        ensures
            final(self).wf(),
            submitted(*old(self), *final(self), write, req_paddr, buf_paddr, len, status_paddr, r),
    {
        let head = self.alloc_desc();
        let data = self.alloc_desc();
        let status = self.alloc_desc();
        self.next.set(head as usize, data);
        self.next.set(data as usize, status);
        self.next.set(status as usize, 0);
        let flags = if write { VRING_DESC_F_NEXT } else { VRING_DESC_F_NEXT | VRING_DESC_F_WRITE };
        let descs = [
            VRingDesc { addr: req_paddr, len: BLK_REQ_SIZE, flags: VRING_DESC_F_NEXT, next: data },
            VRingDesc { addr: buf_paddr, len, flags, next: status },
            VRingDesc { addr: status_paddr, len: 1, flags: VRING_DESC_F_WRITE, next: 0 },
        ];
        let slot = (self.avail_idx % (QUEUE_SIZE as u16)) as usize;
        self.avail_idx = self.avail_idx.wrapping_add(1);
        Submission { head, data, status, descs, ring_slot: slot, avail_idx: self.avail_idx }
    }

    /// Whether the request whose chain starts at `head` is complete: the
    /// device's used index (`device_used_idx`) is past the driver's, and the
    /// used-ring entry at the driver's position (`used_id`) names `head`.
    pub fn is_complete(&self, device_used_idx: u16, used_id: u32, head: u16) -> (r: bool)
        ensures
            r == (self.used_idx != device_used_idx && used_id % 0x1_0000 == head),
    {
        let low = (used_id & 0xFFFF) as u16;
        assert(used_id & 0xFFFF == used_id % 0x1_0000) by (bit_vector);
        self.used_idx != device_used_idx && low == head
    }

    /// The used-ring slot the driver looks at next.
    pub fn used_slot(&self) -> (r: usize)
        ensures
            r == self.used_idx % (QUEUE_SIZE as u16),
            r < QUEUE_SIZE,
    {
        (self.used_idx % (QUEUE_SIZE as u16)) as usize
    }

    /// After completion of the request at `head`: step past its used-ring
    /// entry and return its three descriptors to the free chain (header
    /// first, then data, then status, following the chain's links).
    pub fn finish(&mut self, head: u16)
        requires
            old(self).wf(),
            head < QUEUE_SIZE,
        ensures
            final(self).wf(),
            final(self).used_idx == (old(self).used_idx + 1) % 0x1_0000,
            final(self).avail_idx == old(self).avail_idx,
            final(self).io_base == old(self).io_base,
            ({
                let n0 = old(self).next@;
                let d = n0[head as int];
                let st = n0[d as int];
                &&& final(self).free_head == st
                &&& final(self).next@ == n0.update(head as int, old(self).free_head).update(d as int, head).update(st as int, d)
            }),
    {
        self.used_idx = self.used_idx.wrapping_add(1);
        let data = self.next[head as usize];
        let status = self.next[data as usize];
        self.free_desc(head);
        self.free_desc(data);
        self.free_desc(status);
    }
}

/// Whether the interrupt status register calls for waking the waiting
/// processes: a used-buffer or configuration-change notification.
pub fn isr_wakes(status: u8) -> (r: bool)
    ensures
        r == (status & 1 != 0 || status & 3 != 0),
{
    status & 1 != 0 || status & 3 != 0
}

/// The base of the three pages of the virtqueue, allocated in the order
/// `p1`, `p2`, `p3`: the allocator hands out pages from high to low, so they
/// are contiguous exactly when `p3`, `p2`, `p1` follow one another. `None` if
/// they are not.
pub fn queue_base(p1: u64, p2: u64, p3: u64) -> (r: Option<u64>)
    ensures
        r == (if p3 + PG_SIZE == p2 && p2 + PG_SIZE == p1 { Some(p3) } else { None::<u64> }),
{
    if p3 <= u64::MAX - PG_SIZE as u64 && p2 == p3 + PG_SIZE as u64 && p2 <= u64::MAX - PG_SIZE as u64
        && p1 == p2 + PG_SIZE as u64 {
        Some(p3)
    } else {
        None
    }
}

/// The device status after the driver acknowledged the device and declared
/// itself its driver.
pub fn status_driver() -> (r: u8)
    ensures
        r == 3,
{
    assert(1u8 | 2u8 == 3u8) by (bit_vector);
    VIRTIO_STATUS_ACKNOWLEDGE | VIRTIO_STATUS_DRIVER
}

/// Freeing a descriptor and taking one hands the same descriptor back and
/// restores the free chain's head.
pub proof fn law_free_then_alloc(next: Seq<u16>, free_head: u16, idx: u16)
    requires
        0 <= idx < next.len(),
    ensures
        next.update(idx as int, free_head)[idx as int] == free_head,
{
}


/// A request gives back what it took from the free descriptors: after
/// `submit` took three distinct descriptors and `finish` returned the chain
/// at its head, the free chain holds those three (status, data, header) and
/// then goes on where it went on after them before; every other link is as
/// it was.
pub proof fn law_submit_then_finish(
    s0: VirtioDriver,
    s1: VirtioDriver,
    s2: VirtioDriver,
    write: bool,
    req_paddr: u64,
    buf_paddr: u64,
    len: u32,
    status_paddr: u64,
    r: Submission,
)
    requires
        s0.wf(),
        submitted(s0, s1, write, req_paddr, buf_paddr, len, status_paddr, r),
        r.head != r.data && r.data != r.status && r.head != r.status,
        s2.free_head == s1.next@[s1.next@[r.head as int] as int],
        s2.next@ == s1.next@.update(r.head as int, s1.free_head).update(
            s1.next@[r.head as int] as int,
            r.head,
        ).update(s1.next@[s1.next@[r.head as int] as int] as int, s1.next@[r.head as int]),
    ensures
        s2.free_head == r.status,
        s2.next@[r.status as int] == r.data,
        s2.next@[r.data as int] == r.head,
        s2.next@[r.head as int] == s0.next@[r.status as int],
        s2.next@.len() == s0.next@.len(),
        forall|i: int|
            0 <= i < s0.next@.len() && i != r.head && i != r.data && i != r.status ==> #[trigger] s2.next@[i]
                == s0.next@[i],
{
}


/// The header of a block request as the device reads it.
#[derive(Clone, Copy, Debug)]
pub struct VirtioBlkReq {
    pub type_: u32,
    pub reserved: u32,
    pub sector: u64,
}

/// The header of a request for `sector`: a write (`VIRTIO_BLK_T_OUT`) or a read.
pub fn blk_request(write: bool, sector: u64) -> (r: VirtioBlkReq)
    ensures
        r.type_ == (if write { VIRTIO_BLK_T_OUT } else { VIRTIO_BLK_T_IN }),
        r.reserved == 0,
        r.sector == sector,
{
    VirtioBlkReq { type_: if write { VIRTIO_BLK_T_OUT } else { VIRTIO_BLK_T_IN }, reserved: 0, sector }
}

/// Submit a read of `sector` into the `len` bytes at `buf_paddr`; the header
/// (`blk_request(false, sector)`) is at `req_paddr` and the status byte at
/// `status_paddr`.
pub fn read_block(driver: &mut VirtioDriver, req_paddr: u64, buf_paddr: u64, len: u32, status_paddr: u64) -> (r: Submission)
    requires
        old(driver).wf(),
    ensures
        final(driver).wf(),
        submitted(*old(driver), *final(driver), false, req_paddr, buf_paddr, len, status_paddr, r),
{
    driver.submit(false, req_paddr, buf_paddr, len, status_paddr)
}

/// Submit a write of the `len` bytes at `buf_paddr` to `sector`; the header
/// (`blk_request(true, sector)`) is at `req_paddr` and the status byte at
/// `status_paddr`.
pub fn write_block(driver: &mut VirtioDriver, req_paddr: u64, buf_paddr: u64, len: u32, status_paddr: u64) -> (r: Submission)
    requires
        old(driver).wf(),
    ensures
        final(driver).wf(),
        submitted(*old(driver), *final(driver), true, req_paddr, buf_paddr, len, status_paddr, r),
{
    driver.submit(true, req_paddr, buf_paddr, len, status_paddr)
}

}
