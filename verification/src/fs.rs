use vstd::prelude::*;
use crate::sleeplock::SleepLockSafe;
use crate::bytes::{le16, le32, read16, read32};

verus! {

/// Size of a file-system block.
pub const BSIZE: usize = 1024;
pub const EXT2_MAGIC: u16 = 0xEF53;
/// Inode number of the root directory.
pub const ROOT_INO: u32 = 2;
pub const EXT2_NDIR_BLOCKS: usize = 12;
pub const EXT2_IND_BLOCK: usize = 12;
pub const EXT2_DIND_BLOCK: usize = 13;
pub const EXT2_TIND_BLOCK: usize = 14;
pub const EXT2_N_BLOCKS: usize = 15;
/// Size of an on-disk inode.
pub const INODE_SIZE: u32 = 128;
/// Number of group descriptors the kernel keeps.
pub const NGROUPS: usize = 32;
/// Number of in-memory inodes.
pub const NINODE: usize = 10;

/// The ext2 superblock (the fields the kernel reads).
#[derive(Clone, Copy, Debug)]
pub struct SuperBlock {
    pub s_inodes_count: u32,
    pub s_blocks_count: u32,
    pub s_r_blocks_count: u32,
    pub s_free_blocks_count: u32,
    pub s_free_inodes_count: u32,
    pub s_first_data_block: u32,
    pub s_log_block_size: u32,
    pub s_log_frag_size: u32,
    pub s_blocks_per_group: u32,
    pub s_frags_per_group: u32,
    pub s_inodes_per_group: u32,
    pub s_mtime: u32,
    pub s_wtime: u32,
    pub s_mnt_count: u16,
    pub s_max_mnt_count: u16,
    pub s_magic: u16,
    pub s_state: u16,
    pub s_errors: u16,
    pub s_minor_rev_level: u16,
    pub s_lastcheck: u32,
    pub s_checkinterval: u32,
    pub s_creator_os: u32,
    pub s_rev_level: u32,
    pub s_def_resuid: u16,
    pub s_def_resgid: u16,
}

/// The superblock laid out at the start of `b`.
pub open spec fn superblock_of(b: Seq<u8>) -> SuperBlock {
    SuperBlock {
        s_inodes_count: le32(b, 0),
        s_blocks_count: le32(b, 4),
        s_r_blocks_count: le32(b, 8),
        s_free_blocks_count: le32(b, 12),
        s_free_inodes_count: le32(b, 16),
        s_first_data_block: le32(b, 20),
        s_log_block_size: le32(b, 24),
        s_log_frag_size: le32(b, 28),
        s_blocks_per_group: le32(b, 32),
        s_frags_per_group: le32(b, 36),
        s_inodes_per_group: le32(b, 40),
        s_mtime: le32(b, 44),
        s_wtime: le32(b, 48),
        s_mnt_count: le16(b, 52),
        s_max_mnt_count: le16(b, 54),
        s_magic: le16(b, 56),
        s_state: le16(b, 58),
        s_errors: le16(b, 60),
        s_minor_rev_level: le16(b, 62),
        s_lastcheck: le32(b, 64),
        s_checkinterval: le32(b, 68),
        s_creator_os: le32(b, 72),
        s_rev_level: le32(b, 76),
        s_def_resuid: le16(b, 80),
        s_def_resgid: le16(b, 82),
    }
}

/// Decode the superblock at the start of a block.
pub fn parse_superblock(b: &[u8]) -> (r: SuperBlock)
    requires
        b@.len() >= 84,
    ensures
        r == superblock_of(b@),
{
    let _len = b.len();
    SuperBlock {
        s_inodes_count: read32(b, 0),
        s_blocks_count: read32(b, 4),
        s_r_blocks_count: read32(b, 8),
        s_free_blocks_count: read32(b, 12),
        s_free_inodes_count: read32(b, 16),
        s_first_data_block: read32(b, 20),
        s_log_block_size: read32(b, 24),
        s_log_frag_size: read32(b, 28),
        s_blocks_per_group: read32(b, 32),
        s_frags_per_group: read32(b, 36),
        s_inodes_per_group: read32(b, 40),
        s_mtime: read32(b, 44),
        s_wtime: read32(b, 48),
        s_mnt_count: read16(b, 52),
        s_max_mnt_count: read16(b, 54),
        s_magic: read16(b, 56),
        s_state: read16(b, 58),
        s_errors: read16(b, 60),
        s_minor_rev_level: read16(b, 62),
        s_lastcheck: read32(b, 64),
        s_checkinterval: read32(b, 68),
        s_creator_os: read32(b, 72),
        s_rev_level: read32(b, 76),
        s_def_resuid: read16(b, 80),
        s_def_resgid: read16(b, 82),
    }
}

/// A block group descriptor.
#[derive(Clone, Copy, Debug)]
pub struct GroupDesc {
    pub bg_block_bitmap: u32,
    pub bg_inode_bitmap: u32,
    pub bg_inode_table: u32,
    pub bg_free_blocks_count: u16,
    pub bg_free_inodes_count: u16,
    pub bg_used_dirs_count: u16,
    pub bg_pad: u16,
    pub bg_reserved: [u32; 3],
}

/// The group descriptor laid out at `off` in `b`.
pub open spec fn group_desc_of(b: Seq<u8>, off: int) -> GroupDesc {
    GroupDesc {
        bg_block_bitmap: le32(b, off),
        bg_inode_bitmap: le32(b, off + 4),
        bg_inode_table: le32(b, off + 8),
        bg_free_blocks_count: le16(b, off + 12),
        bg_free_inodes_count: le16(b, off + 14),
        bg_used_dirs_count: le16(b, off + 16),
        bg_pad: le16(b, off + 18),
        bg_reserved: [le32(b, off + 20), le32(b, off + 24), le32(b, off + 28)],
    }
}

/// Decode the group descriptor at `off`.
pub fn parse_group_desc(b: &[u8], off: usize) -> (r: GroupDesc)
    requires
        off + 32 <= b@.len(),
    ensures
        r == group_desc_of(b@, off as int),
{
    let _len = b.len();
    GroupDesc {
        bg_block_bitmap: read32(b, off),
        bg_inode_bitmap: read32(b, off + 4),
        bg_inode_table: read32(b, off + 8),
        bg_free_blocks_count: read16(b, off + 12),
        bg_free_inodes_count: read16(b, off + 14),
        bg_used_dirs_count: read16(b, off + 16),
        bg_pad: read16(b, off + 18),
        bg_reserved: [read32(b, off + 20), read32(b, off + 24), read32(b, off + 28)],
    }
}

/// An inode as stored on disk.
#[derive(Clone, Copy, Debug)]
pub struct DiskInode {
    pub i_mode: u16,
    pub i_uid: u16,
    pub i_size: u32,
    pub i_atime: u32,
    pub i_ctime: u32,
    pub i_mtime: u32,
    pub i_dtime: u32,
    pub i_gid: u16,
    pub i_links_count: u16,
    pub i_blocks: u32,
    pub i_flags: u32,
    pub i_osd1: u32,
    pub i_block: [u32; 15],
    pub i_generation: u32,
    pub i_file_acl: u32,
    pub i_dir_acl: u32,
    pub i_faddr: u32,
    pub i_osd2: [u8; 12],
}

/// The block list of the inode laid out at `off` in `b`.
pub open spec fn block_list_of(b: Seq<u8>, off: int) -> Seq<u32> {
    Seq::new(15, |i: int| le32(b, off + 40 + 4 * i))
}

/// The inode laid out at `off` in `b` (its block list is `block_list_of`,
/// its last twelve bytes are `b[off + 116 .. off + 128]`).
pub open spec fn disk_inode_fields(b: Seq<u8>, off: int, r: DiskInode) -> bool {
    &&& r.i_mode == le16(b, off)
    &&& r.i_uid == le16(b, off + 2)
    &&& r.i_size == le32(b, off + 4)
    &&& r.i_atime == le32(b, off + 8)
    &&& r.i_ctime == le32(b, off + 12)
    &&& r.i_mtime == le32(b, off + 16)
    &&& r.i_dtime == le32(b, off + 20)
    &&& r.i_gid == le16(b, off + 24)
    &&& r.i_links_count == le16(b, off + 26)
    &&& r.i_blocks == le32(b, off + 28)
    &&& r.i_flags == le32(b, off + 32)
    &&& r.i_osd1 == le32(b, off + 36)
    &&& r.i_block@ == block_list_of(b, off)
    &&& r.i_generation == le32(b, off + 100)
    &&& r.i_file_acl == le32(b, off + 104)
    &&& r.i_dir_acl == le32(b, off + 108)
    &&& r.i_faddr == le32(b, off + 112)
    &&& r.i_osd2@ == b.subrange(off + 116, off + 128)
}

/// Decode the on-disk inode at `off`.
pub fn parse_disk_inode(b: &[u8], off: usize) -> (r: DiskInode)
    requires
        off + 128 <= b@.len(),
    ensures
        disk_inode_fields(b@, off as int, r),
{
    let _len = b.len();
    let mut blocks = [0u32; 15];
    let mut i: usize = 0;
    while i < 15
        invariant
            off + 128 <= b@.len(),
            _len == b@.len(),
            i <= 15,
            forall|k: int| 0 <= k < i ==> blocks@[k] == le32(b@, off + 40 + 4 * k),
        decreases 15 - i,
    {
        blocks[i] = read32(b, off + 40 + 4 * i);
        i = i + 1;
    }
    let mut osd2 = [0u8; 12];
    let mut j: usize = 0;
    while j < 12
        invariant
            off + 128 <= b@.len(),
            _len == b@.len(),
            j <= 12,
            forall|k: int| 0 <= k < j ==> osd2@[k] == b@[off + 116 + k],
        decreases 12 - j,
    {
        osd2[j] = b[off + 116 + j];
        j = j + 1;
    }
    assert(blocks@ =~= block_list_of(b@, off as int));
    assert(osd2@ =~= b@.subrange(off + 116, off + 128));
    DiskInode {
        i_mode: read16(b, off),
        i_uid: read16(b, off + 2),
        i_size: read32(b, off + 4),
        i_atime: read32(b, off + 8),
        i_ctime: read32(b, off + 12),
        i_mtime: read32(b, off + 16),
        i_dtime: read32(b, off + 20),
        i_gid: read16(b, off + 24),
        i_links_count: read16(b, off + 26),
        i_blocks: read32(b, off + 28),
        i_flags: read32(b, off + 32),
        i_osd1: read32(b, off + 36),
        i_block: blocks,
        i_generation: read32(b, off + 100),
        i_file_acl: read32(b, off + 104),
        i_dir_acl: read32(b, off + 108),
        i_faddr: read32(b, off + 112),
        i_osd2: osd2,
    }
}

impl DiskInode {
    /// The all-zero inode: mode 0 marks it as not yet read from disk.
    pub fn zeroed() -> (r: Self)
        ensures
            r.i_mode == 0,
            r.i_size == 0,
            r.i_block@ == Seq::new(15, |i: int| 0u32),
    {
        let r = DiskInode {
            i_mode: 0,
            i_uid: 0,
            i_size: 0,
            i_atime: 0,
            i_ctime: 0,
            i_mtime: 0,
            i_dtime: 0,
            i_gid: 0,
            i_links_count: 0,
            i_blocks: 0,
            i_flags: 0,
            i_osd1: 0,
            i_block: [0u32; 15],
            i_generation: 0,
            i_file_acl: 0,
            i_dir_acl: 0,
            i_faddr: 0,
            i_osd2: [0u8; 12],
        };
        assert(r.i_block@ =~= Seq::new(15, |i: int| 0u32));
        r
    }
}

/// The header of a directory entry; the name follows it.
#[derive(Clone, Copy, Debug)]
pub struct DirEntry {
    pub inode: u32,
    pub rec_len: u16,
    pub name_len: u8,
    pub file_type: u8,
}

/// Size of a directory entry's header.
pub const DIRENT_SIZE: usize = 8;

/// The directory entry header laid out at `off` in `b`.
pub open spec fn dir_entry_of(b: Seq<u8>, off: int) -> DirEntry {
    DirEntry { inode: le32(b, off), rec_len: le16(b, off + 4), name_len: b[off + 6], file_type: b[off + 7] }
}

/// Decode the directory entry header at `off`.
pub fn parse_dir_entry(b: &[u8], off: usize) -> (r: DirEntry)
    requires
        off + 8 <= b@.len(),
    ensures
        r == dir_entry_of(b@, off as int),
{
    let _len = b.len();
    DirEntry { inode: read32(b, off), rec_len: read16(b, off + 4), name_len: b[off + 6], file_type: b[off + 7] }
}

/// The mounted file system: its superblock and group descriptors.
pub struct Fs {
    pub sb: SuperBlock,
    pub gdt: Vec<GroupDesc>,
}

/// Whether a superblock is one the kernel mounts: the ext2 magic, and, for
/// 1 KiB blocks, the first data block at 1.
pub open spec fn superblock_ok(sb: SuperBlock) -> bool {
    &&& sb.s_magic == EXT2_MAGIC
    &&& !(sb.s_first_data_block != 1 && sb.s_log_block_size == 0)
}

/// Block number of the group descriptor table: just after the first data block.
pub fn gdt_block(sb: &SuperBlock) -> (r: u32)
    requires
        sb.s_first_data_block < u32::MAX,
    ensures
        r == sb.s_first_data_block + 1,
{
    sb.s_first_data_block + 1
}

/// Mount the file system from its superblock block (block 1) and the block
/// of its group descriptor table (`gdt_block`): the superblock is decoded and
/// the first `NGROUPS` descriptors are kept.
pub fn fsinit(sb_block: &[u8], gdt_blk: &[u8]) -> (r: Fs)
    requires
        sb_block@.len() == BSIZE,
        gdt_blk@.len() == BSIZE,
        superblock_ok(superblock_of(sb_block@)),
    ensures
        r.sb == superblock_of(sb_block@),
        r.gdt@.len() == NGROUPS,
        forall|i: int| 0 <= i < NGROUPS ==> #[trigger] r.gdt@[i] == group_desc_of(gdt_blk@, 32 * i),
{
    let sb = parse_superblock(sb_block);
    let mut gdt: Vec<GroupDesc> = Vec::new();
    let mut i: usize = 0;
    while i < NGROUPS
        invariant
            gdt_blk@.len() == BSIZE,
            i <= NGROUPS,
            gdt@.len() == i,
            forall|k: int| 0 <= k < i ==> #[trigger] gdt@[k] == group_desc_of(gdt_blk@, 32 * k),
        decreases NGROUPS - i,
    {
        gdt.push(parse_group_desc(gdt_blk, 32 * i));
        i = i + 1;
    }
    Fs { sb, gdt }
}

/// Where inode `inum` lies on disk: its block and its byte offset there.
/// Inodes are numbered from 1 and grouped `s_inodes_per_group` to a group,
/// each group's inodes in the table its descriptor names.
pub open spec fn inode_location(fs: Fs, inum: u32) -> (u32, u32) {
    let ipg = fs.sb.s_inodes_per_group;
    let group = (inum - 1) / (ipg as int);
    let index = (inum - 1) % (ipg as int);
    let offset_in_table = index * INODE_SIZE;
    (
        (fs.gdt@[group].bg_inode_table + offset_in_table / BSIZE as int) as u32,
        (offset_in_table % BSIZE as int) as u32,
    )
}

/// The inode's location can be computed: a valid inode number whose group is
/// among the kept descriptors, with no overflow on the way.
pub open spec fn inode_location_ok(fs: Fs, inum: u32) -> bool {
    let ipg = fs.sb.s_inodes_per_group;
    &&& fs.gdt@.len() == NGROUPS
    &&& inum >= 1
    &&& ipg > 0
    &&& (inum - 1) / (ipg as int) < NGROUPS
    &&& ((inum - 1) % (ipg as int)) * INODE_SIZE <= u32::MAX
    &&& fs.gdt@[(inum - 1) / (ipg as int)].bg_inode_table + ((inum - 1) % (ipg as int)) * INODE_SIZE
        / (BSIZE as int) <= u32::MAX
}

/// The block holding inode `inum` and the inode's byte offset in it.
pub fn locate_inode(fs: &Fs, inum: u32) -> (r: (u32, u32))
    requires
        inode_location_ok(*fs, inum),
    ensures
        r == inode_location(*fs, inum),
        r.1 + INODE_SIZE <= BSIZE,
{
    let ipg = fs.sb.s_inodes_per_group;
    let group = (inum - 1) / ipg;
    let index = (inum - 1) % ipg;
    let inode_table_block = fs.gdt[group as usize].bg_inode_table;
    let offset_in_table = index * INODE_SIZE;
    let block_offset = offset_in_table / BSIZE as u32;
    let byte_offset = offset_in_table % BSIZE as u32;
    proof {
        let x = index as int;
        assert((x * 128) % 1024 + 128 <= 1024) by (nonlinear_arith)
            requires x >= 0;
    }
    (inode_table_block + block_offset, byte_offset)
}

/// An in-memory inode: which inode of which device it caches, how many
/// references it has, and the on-disk inode behind a sleep lock.
pub struct Inode {
    pub dev: u32,
    pub inum: u32,
    pub refcnt: u32,
    pub lock: SleepLockSafe<DiskInode>,
}

impl Inode {
    pub fn new() -> (r: Self)
        ensures
            r.dev == 0,
            r.inum == 0,
            r.refcnt == 0,
            !r.lock.locked,
            r.lock.data.i_mode == 0,
    {
        Inode { dev: 0, inum: 0, refcnt: 0, lock: SleepLockSafe::new(DiskInode::zeroed()) }
    }

    /// Fill the cached on-disk inode from the block that holds it, if it was
    /// not read yet (mode 0); `off` is the inode's offset in that block.
    pub fn ilock_fill(&mut self, block: &[u8], off: u32)
        requires
            off + 128 <= block@.len(),
        ensures
            final(self).dev == old(self).dev,
            final(self).inum == old(self).inum,
            final(self).refcnt == old(self).refcnt,
            final(self).lock.locked == old(self).lock.locked,
            old(self).lock.data.i_mode != 0 ==> final(self).lock.data == old(self).lock.data,
            old(self).lock.data.i_mode == 0 ==> disk_inode_fields(block@, off as int, final(self).lock.data),
    {
        if self.lock.data.i_mode == 0 {
            self.lock.data = parse_disk_inode(block, off as usize);
        }
    }
}

/// Whether `ip` caches inode `inum` of device `dev` and is in use.
pub open spec fn caches(ip: Inode, dev: u32, inum: u32) -> bool {
    ip.refcnt > 0 && ip.dev == dev && ip.inum == inum
}

/// `iget` can serve the inode: some in-use slot caches it (with a reference
/// count that can grow) or some slot is unused.
pub open spec fn iget_ok(inodes: Seq<Inode>, dev: u32, inum: u32) -> bool {
    ||| exists|i: int| 0 <= i < inodes.len() && caches(#[trigger] inodes[i], dev, inum) && inodes[i].refcnt < u32::MAX
    ||| exists|i: int| 0 <= i < inodes.len() && (#[trigger] inodes[i]).refcnt == 0
}

/// Find the in-memory inode for inode `inum` of device `dev`, taking a
/// reference: the first in-use slot that caches it; failing that, the first
/// unused slot takes it over (keeping the on-disk inode it held).
pub fn iget(inodes: &mut Vec<Inode>, dev: u32, inum: u32) -> (r: usize)
    requires
        iget_ok(old(inodes)@, dev, inum),
        forall|i: int| 0 <= i < old(inodes)@.len() && caches(#[trigger] old(inodes)@[i], dev, inum) ==> old(inodes)@[i].refcnt < u32::MAX,
    ensures
        r < old(inodes)@.len(),
        final(inodes)@.len() == old(inodes)@.len(),
        forall|j: int| 0 <= j < old(inodes)@.len() && j != r ==> #[trigger] final(inodes)@[j] == old(inodes)@[j],
        final(inodes)@[r as int].lock == old(inodes)@[r as int].lock,
        final(inodes)@[r as int].dev == dev,
        final(inodes)@[r as int].inum == inum,
        (exists|i: int| 0 <= i < old(inodes)@.len() && caches(#[trigger] old(inodes)@[i], dev, inum)) ==> {
            &&& caches(old(inodes)@[r as int], dev, inum)
            &&& forall|j: int| 0 <= j < r ==> !caches(#[trigger] old(inodes)@[j], dev, inum)
            &&& final(inodes)@[r as int].refcnt == old(inodes)@[r as int].refcnt + 1
        },
        !(exists|i: int| 0 <= i < old(inodes)@.len() && caches(#[trigger] old(inodes)@[i], dev, inum)) ==> {
            &&& old(inodes)@[r as int].refcnt == 0
            &&& forall|j: int| 0 <= j < r ==> (#[trigger] old(inodes)@[j]).refcnt != 0
            &&& final(inodes)@[r as int].refcnt == 1
        },
{
    let mut empty: Option<usize> = None;
    let mut i: usize = 0;
    while i < inodes.len()
        invariant
            inodes@ == old(inodes)@,
            i <= inodes@.len(),
            forall|j: int| 0 <= j < i ==> !caches(#[trigger] inodes@[j], dev, inum),
            forall|k: int| 0 <= k < old(inodes)@.len() && caches(#[trigger] old(inodes)@[k], dev, inum) ==> old(inodes)@[k].refcnt < u32::MAX,
            match empty {
                Some(e) => e < i && inodes@[e as int].refcnt == 0 && forall|j: int| 0 <= j < e ==> (#[trigger] inodes@[j]).refcnt != 0,
                None => forall|j: int| 0 <= j < i ==> (#[trigger] inodes@[j]).refcnt != 0,
            },
        decreases inodes@.len() - i,
    {
        if inodes[i].refcnt > 0 && inodes[i].dev == dev && inodes[i].inum == inum {
            inodes[i].refcnt = inodes[i].refcnt + 1;
            return i;
        }
        if empty.is_none() && inodes[i].refcnt == 0 {
            empty = Some(i);
        }
        i = i + 1;
    }
    match empty {
        Some(e) => {
            inodes[e].dev = dev;
            inodes[e].inum = inum;
            inodes[e].refcnt = 1;
            e
        },
        None => {
            proof {
                assert(iget_ok(old(inodes)@, dev, inum));
                if exists|k: int| 0 <= k < old(inodes)@.len() && caches(#[trigger] old(inodes)@[k], dev, inum) && old(inodes)@[k].refcnt < u32::MAX {
                    let k = choose|k: int| 0 <= k < old(inodes)@.len() && caches(#[trigger] old(inodes)@[k], dev, inum) && old(inodes)@[k].refcnt < u32::MAX;
                    assert(!caches(inodes@[k], dev, inum));
                } else {
                    let k = choose|k: int| 0 <= k < old(inodes)@.len() && (#[trigger] old(inodes)@[k]).refcnt == 0;
                    assert(inodes@[k].refcnt != 0);
                }
            }
            0
        },
    }
}

/// Dropping an inode reference does nothing yet.
pub fn iput(_ip: &Inode) {
}

/// The inode cache needs no initialisation.
pub fn iinit() {
}

/// The block that lists the disk blocks of block `bn` of a file, when `bn`
/// is past the twelve direct blocks but within the singly indirect ones and
/// the file has that list.
pub open spec fn indirect_of(ip: DiskInode, bn: u32) -> Option<u32> {
    if EXT2_NDIR_BLOCKS <= bn < EXT2_NDIR_BLOCKS + BSIZE / 4 && ip.i_block@[EXT2_IND_BLOCK as int] != 0 {
        Some(ip.i_block@[EXT2_IND_BLOCK as int])
    } else {
        None
    }
}

/// The disk block holding block `bn` of a file, `ind` being the content of
/// the indirect block (when `indirect_of` names one): one of the twelve
/// direct blocks, or entry `bn - 12` of the indirect block; 0 (no block)
/// otherwise.
pub open spec fn block_of(ip: DiskInode, bn: u32, ind: Seq<u8>) -> u32 {
    if bn < EXT2_NDIR_BLOCKS {
        ip.i_block@[bn as int]
    } else if indirect_of(ip, bn) is Some {
        le32(ind, 4 * (bn - EXT2_NDIR_BLOCKS))
    } else {
        0
    }
}

/// The indirect block that must be read to find block `bn` of the file.
pub fn bmap_indirect(ip: &DiskInode, bn: u32) -> (r: Option<u32>)
    ensures
        r == indirect_of(*ip, bn),
{
    if bn < EXT2_NDIR_BLOCKS as u32 {
        return None;
    }
    let bn = bn - EXT2_NDIR_BLOCKS as u32;
    if bn < (BSIZE / 4) as u32 {
        let addr = ip.i_block[EXT2_IND_BLOCK];
        if addr == 0 {
            return None;
        }
        return Some(addr);
    }
    None
}

/// The disk block holding block `bn` of the file; `ind` is the content of
/// the block `bmap_indirect` named, if it named one.
pub fn bmap(ip: &DiskInode, bn: u32, ind: &[u8]) -> (r: u32)
    requires
        indirect_of(*ip, bn) is Some ==> ind@.len() == BSIZE,
    ensures
        r == block_of(*ip, bn, ind@),
{
    if bn < EXT2_NDIR_BLOCKS as u32 {
        return ip.i_block[bn as usize];
    }
    let bn = bn - EXT2_NDIR_BLOCKS as u32;
    if bn < (BSIZE / 4) as u32 {
        let addr = ip.i_block[EXT2_IND_BLOCK];
        if addr == 0 {
            return 0;
        }
        return read32(ind, 4 * bn as usize);
    }
    0
}

/// A read of a file in progress: the next file offset, the bytes still to
/// read, and the bytes read so far.
pub struct Readi {
    pub offset: u32,
    pub m: u32,
    pub out: Vec<u8>,
}

/// How many bytes a read of `n` at `off` transfers at most: none past the end
/// of the file.
pub open spec fn readi_len(size: u32, off: u32, n: u32) -> u32 {
    if off > size {
        0
    } else if off + n > size {
        (size - off) as u32
    } else {
        n
    }
}

/// Start reading `n` bytes of the file at offset `off`.
pub fn readi_start(ip: &DiskInode, off: u32, n: u32) -> (r: Readi)
    requires
        off + n <= u32::MAX,
    ensures
        r.offset == off,
        r.m == readi_len(ip.i_size, off, n),
        r.out@.len() == 0,
{
    let mut m = n;
    if off > ip.i_size {
        return Readi { offset: off, m: 0, out: Vec::new() };
    }
    if off + n > ip.i_size {
        m = ip.i_size - off;
    }
    Readi { offset: off, m, out: Vec::new() }
}

impl Readi {
    /// The indirect block to read before `next_block`, if the next block is
    /// found through one.
    pub fn indirect(&self, ip: &DiskInode) -> (r: Option<u32>)
        ensures
            r == (if self.m == 0 { None::<u32> } else { indirect_of(*ip, self.offset / BSIZE as u32) }),
    {
        if self.m == 0 {
            return None;
        }
        bmap_indirect(ip, self.offset / BSIZE as u32)
    }

    /// The disk block to read next, `ind` being the content of the block
    /// `indirect` named, if any; `None` when the read is over: nothing left
    /// to read, or a hole in the file.
    pub fn next_block(&self, ip: &DiskInode, ind: &[u8]) -> (r: Option<u32>)
        requires
            self.m != 0 && indirect_of(*ip, self.offset / BSIZE as u32) is Some ==> ind@.len() == BSIZE,
        ensures
            r == (if self.m == 0 || block_of(*ip, self.offset / BSIZE as u32, ind@) == 0 {
                None::<u32>
            } else {
                Some(block_of(*ip, self.offset / BSIZE as u32, ind@))
            }),
    {
        if self.m == 0 {
            return None;
        }
        let b = bmap(ip, self.offset / BSIZE as u32, ind);
        if b == 0 {
            None
        } else {
            Some(b)
        }
    }

    /// Take the file's bytes from the content of the block `next_block` named:
    /// from the offset's position in the block to the end of the block or
    /// of the read, whichever comes first.
    pub fn consume(&mut self, block: &[u8])
        requires
            block@.len() == BSIZE,
            old(self).m > 0,
            old(self).offset + old(self).m <= u32::MAX,
        ensures
            ({
                let start = old(self).offset % BSIZE as u32;
                let len = if old(self).m < BSIZE - start { old(self).m as int } else { BSIZE - start };
                &&& final(self).out@ == old(self).out@ + block@.subrange(start as int, start + len)
                &&& final(self).offset == old(self).offset + len
                &&& final(self).m == old(self).m - len
            }),
    {
        let start = (self.offset % BSIZE as u32) as usize;
        let len: usize = if (self.m as usize) < BSIZE - start { self.m as usize } else { BSIZE - start };
        let ghost out0 = self.out@;
        let mut i: usize = 0;
        while i < len
            invariant
                block@.len() == BSIZE,
                start + len <= BSIZE,
                i <= len,
                len <= self.m,
                self.m == old(self).m,
                self.offset == old(self).offset,
                self.out@ == out0 + block@.subrange(start as int, start + i),
            decreases len - i,
        {
            self.out.push(block[start + i]);
            i = i + 1;
            assert(self.out@ =~= out0 + block@.subrange(start as int, start + i));
        }
        assert(len <= self.m);
        self.offset = self.offset + len as u32;
        self.m = self.m - len as u32;
    }
}

/// Whether a mode is that of a directory.
pub open spec fn is_dir_mode(mode: u16) -> bool {
    mode & 0xF000u16 == 0x4000u16
}

pub fn is_dir(mode: u16) -> (r: bool)
    ensures
        r == is_dir_mode(mode),
{
    (mode & 0xF000) == 0x4000
}

/// Whether the entry at `off` is in use and named `name`.
pub open spec fn entry_named(buf: Seq<u8>, off: int, name: Seq<u8>) -> bool {
    &&& dir_entry_of(buf, off).inode != 0
    &&& dir_entry_of(buf, off).name_len == name.len()
    &&& off + 8 + name.len() <= BSIZE
    &&& buf.subrange(off + 8, off + 8 + name.len()) == name
}

/// The result of scanning a directory block for `name` from offset `off`:
/// entries follow one another, each `rec_len` bytes long, up to `n` bytes; an
/// entry with inode 0 is unused; a zero `rec_len`, or an entry header that
/// would run past the block, ends the scan.
pub open spec fn scan_from(buf: Seq<u8>, n: int, name: Seq<u8>, off: int) -> Option<u32>
    decreases BSIZE + 0x10000 - off,
{
    if off < 0 || off >= n || off + 8 > BSIZE {
        None
    } else if entry_named(buf, off, name) {
        Some(dir_entry_of(buf, off).inode)
    } else if dir_entry_of(buf, off).rec_len == 0 {
        None
    } else {
        scan_from(buf, n, name, off + dir_entry_of(buf, off).rec_len)
    }
}

/// Whether the used entry at `off` carries exactly the name `name`: its name
/// length byte is the name's length and its name bytes are the name.
pub open spec fn names_exactly(buf: Seq<u8>, off: int, name: Seq<u8>) -> bool {
    &&& buf[off + 6] as int == name.len()
    &&& forall|j: int| 0 <= j < name.len() ==> #[trigger] buf[off + 8 + j] == name[j]
}

/// A directory scan finds only exact names: when it returns inode `i`, an
/// entry within the scanned bytes holds inode `i` (a used entry, so not 0)
/// and its name is `name`, of the same length, byte for byte. A name that is
/// only a prefix of an entry's name, or has it as a prefix, is not found by
/// that entry.
pub proof fn law_scan_exact(buf: Seq<u8>, n: int, name: Seq<u8>, off: int)
    requires
        buf.len() == BSIZE,
    ensures
        scan_from(buf, n, name, off) matches Some(i) ==> exists|o: int|
            0 <= o < n && o + 8 + name.len() <= BSIZE && #[trigger] names_exactly(buf, o, name) && le32(buf, o) == i
                && i != 0,
    decreases BSIZE + 0x10000 - off,
{
    if off < 0 || off >= n || off + 8 > BSIZE {
    } else if entry_named(buf, off, name) {
        assert forall|j: int| 0 <= j < name.len() implies #[trigger] buf[off + 8 + j] == name[j] by {
            assert(buf.subrange(off + 8, off + 8 + name.len())[j] == buf[off + 8 + j]);
        }
        assert(names_exactly(buf, off, name));
    } else if dir_entry_of(buf, off).rec_len == 0 {
    } else {
        law_scan_exact(buf, n, name, off + dir_entry_of(buf, off).rec_len);
    }
}

/// Look for `name` in the first `n` bytes of a directory block and return
/// the inode number of its entry.
pub fn dir_scan(buf: &[u8], n: usize, name: &[u8]) -> (r: Option<u32>)
    requires
        buf@.len() == BSIZE,
        n <= BSIZE,
    ensures
        r == scan_from(buf@, n as int, name@, 0),
        r matches Some(i) ==> exists|o: int|
            0 <= o < n && o + 8 + name@.len() <= BSIZE && #[trigger] names_exactly(buf@, o, name@) && le32(buf@, o)
                == i && i != 0,
{
    let mut ptr: usize = 0;
    while ptr < n
        invariant
            buf@.len() == BSIZE,
            n <= BSIZE,
            ptr <= BSIZE + 0x10000,
            scan_from(buf@, n as int, name@, ptr as int) == scan_from(buf@, n as int, name@, 0),
        decreases BSIZE + 0x10000 - ptr,
    {
        if ptr + DIRENT_SIZE > BSIZE {
            return None;
        }
        let de = parse_dir_entry(buf, ptr);
        if de.inode != 0 {
            let name_len = de.name_len as usize;
            if name.len() == name_len && ptr + DIRENT_SIZE + name_len <= BSIZE {
                let mut same = true;
                let mut k: usize = 0;
                while k < name_len
                    invariant
                        buf@.len() == BSIZE,
                        name@.len() == name_len,
                        ptr + 8 + name_len <= BSIZE,
                        k <= name_len,
                        same == (forall|j: int| 0 <= j < k ==> buf@[ptr + 8 + j] == name@[j]),
                    decreases name_len - k,
                {
                    if buf[ptr + DIRENT_SIZE + k] != name[k] {
                        same = false;
                    }
                    k = k + 1;
                }
                if same {
                    proof {
                        assert(buf@.subrange(ptr + 8, ptr + 8 + name@.len()) =~= name@);
                        assert(names_exactly(buf@, ptr as int, name@));
                    }
                    return Some(de.inode);
                } else {
                    proof {
                        let j = choose|j: int| 0 <= j < name_len && buf@[ptr + 8 + j] != name@[j];
                        assert(buf@.subrange(ptr + 8, ptr + 8 + name@.len())[j] != name@[j]);
                    }
                }
            }
        }
        if de.rec_len == 0 {
            return None;
        }
        ptr = ptr + de.rec_len as usize;
    }
    None
}


/// The next step of looking a name up in a directory.
#[derive(PartialEq, Eq, Structural, Debug)]
pub enum DirStep {
    /// The name is in the directory, with this inode number.
    Found(u32),
    /// Not in this block: read the directory's next block, at this offset.
    Next(u32),
    /// The directory ended without the name.
    NotFound,
}

/// Directory lookup, one block at a time, in the inode of mode `mode`: `buf`
/// holds the `n` bytes read from it at offset `off`. An inode that is not a
/// directory holds no names; no bytes means the directory ended; otherwise
/// the block is scanned for `name`, and if it is not there the lookup goes on
/// one block further.
pub fn dirlookup(mode: u16, off: u32, n: usize, buf: &[u8], name: &[u8]) -> (r: DirStep)
    requires
        buf@.len() == BSIZE,
        n <= BSIZE,
        off + BSIZE <= u32::MAX,
    ensures
        !is_dir_mode(mode) ==> r == DirStep::NotFound,
        n == 0 ==> r == DirStep::NotFound,
        is_dir_mode(mode) && n > 0 ==> r == (match scan_from(buf@, n as int, name@, 0) {
            Some(i) => DirStep::Found(i),
            None => DirStep::Next((off + BSIZE) as u32),
        }),
        r matches DirStep::Found(i) ==> is_dir_mode(mode) && exists|o: int|
            0 <= o < n && o + 8 + name@.len() <= BSIZE && #[trigger] names_exactly(buf@, o, name@) && le32(buf@, o)
                == i && i != 0,
{
    if !is_dir(mode) || n == 0 {
        return DirStep::NotFound;
    }
    match dir_scan(buf, n, name) {
        Some(i) => DirStep::Found(i),
        None => DirStep::Next(off + BSIZE as u32),
    }
}

}
