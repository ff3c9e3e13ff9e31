use vstd::prelude::*;

verus! {

/// Block size of the image.
pub const MKFS_BSIZE: u32 = 1024;
/// Inode number of the root directory.
pub const MKFS_ROOTINO: u32 = 1;
/// Magic number in the superblock.
pub const FSMAGIC: u32 = 0x10203040;
/// Inode type of a directory.
pub const T_DIR: u16 = 1;
/// Number of inodes of the image.
pub const NINODES: u32 = 200;
/// Number of log blocks.
pub const NLOG: u32 = 30;
/// Total number of blocks of the file system.
pub const FSSIZE: u32 = 1000;
/// Size of an on-disk inode: type, major, minor, link count, size and
/// thirteen block addresses.
pub const DINODE_SIZE: u32 = 64;
/// Size of a directory entry: inode number and a 14-byte name.
pub const MKFS_DIRENT_SIZE: u32 = 16;
/// Size of the image file.
pub const IMAGE_SIZE: u64 = 0x800_0000;

/// The superblock `mkfs` writes.
#[derive(Clone, Copy, Debug, PartialEq, Eq, Structural)]
pub struct MkfsSuperBlock {
    pub magic: u32,
    pub size: u32,
    pub nblocks: u32,
    pub ninodes: u32,
    pub nlog: u32,
    pub logstart: u32,
    pub inodestart: u32,
    pub bmapstart: u32,
}

/// Blocks of the free-block bitmap.
pub open spec fn nbitmap() -> int {
    FSSIZE as int / (MKFS_BSIZE as int * 8) + 1
}

/// Blocks of inodes.
pub open spec fn ninodeblocks() -> int {
    NINODES as int / (MKFS_BSIZE as int / DINODE_SIZE as int) + 1
}

/// The layout: boot block, superblock, log, inodes, bitmap, then data.
pub open spec fn mkfs_layout() -> MkfsSuperBlock {
    let nmeta = 2 + NLOG + ninodeblocks() + nbitmap();
    MkfsSuperBlock {
        magic: FSMAGIC,
        size: FSSIZE,
        nblocks: (FSSIZE - nmeta) as u32,
        ninodes: NINODES,
        nlog: NLOG,
        logstart: 2,
        inodestart: (2 + NLOG) as u32,
        bmapstart: (2 + NLOG + ninodeblocks()) as u32,
    }
}

/// The block holding the root directory's entries: the one after the bitmap
/// and a spare.
pub open spec fn root_data_block() -> int {
    mkfs_layout().bmapstart + nbitmap() + 1
}

/// Where the root inode lies in the image.
pub open spec fn root_inode_offset() -> int {
    let ipb = MKFS_BSIZE as int / DINODE_SIZE as int;
    (mkfs_layout().inodestart + MKFS_ROOTINO as int / ipb) * MKFS_BSIZE + (MKFS_ROOTINO as int % ipb)
        * DINODE_SIZE
}

/// A 32-bit value in little-endian byte order.
pub open spec fn le32_bytes(v: u32) -> Seq<u8> {
    seq![(v % 256) as u8, ((v / 256) % 256) as u8, ((v / 65536) % 256) as u8, (v / 16777216) as u8]
}

/// A 16-bit value in little-endian byte order.
pub open spec fn le16_bytes(v: u16) -> Seq<u8> {
    seq![(v % 256) as u8, (v / 256) as u8]
}

/// `n` zero bytes.
pub open spec fn zeros(n: nat) -> Seq<u8> {
    Seq::new(n, |i: int| 0u8)
}

/// The superblock's block: its eight fields, then zeros.
pub open spec fn superblock_block(sb: MkfsSuperBlock) -> Seq<u8> {
    le32_bytes(sb.magic) + le32_bytes(sb.size) + le32_bytes(sb.nblocks) + le32_bytes(sb.ninodes)
        + le32_bytes(sb.nlog) + le32_bytes(sb.logstart) + le32_bytes(sb.inodestart) + le32_bytes(
        sb.bmapstart,
    ) + zeros((MKFS_BSIZE - 32) as nat)
}

/// The root inode: a directory with one link, holding two entries, whose
/// first block is `data_block`.
pub open spec fn root_inode_bytes(data_block: u32) -> Seq<u8> {
    le16_bytes(T_DIR) + le16_bytes(0) + le16_bytes(0) + le16_bytes(1) + le32_bytes((2 * MKFS_DIRENT_SIZE) as u32)
        + le32_bytes(data_block) + zeros(48)
}

/// The root directory's block: entries `.` and `..`, both the root itself.
pub open spec fn root_dir_block() -> Seq<u8> {
    le16_bytes(MKFS_ROOTINO as u16) + seq![46u8] + zeros(13) + le16_bytes(MKFS_ROOTINO as u16) + seq![
        46u8,
        46u8,
    ] + zeros(12) + zeros((MKFS_BSIZE - 32) as nat)
}

/// A byte with its low `k` bits set.
pub open spec fn low_bits(k: int) -> int
    decreases k,
{
    if k <= 0 {
        0
    } else {
        2 * low_bits(k - 1) + 1
    }
}

/// The bitmap block with blocks `0..=last` marked used (bit `b % 8` of byte
/// `b / 8`).
pub open spec fn bitmap_block(last: int) -> Seq<u8> {
    Seq::new(
        MKFS_BSIZE as nat,
        |i: int|
            if 8 * i + 8 <= last + 1 {
                255u8
            } else if 8 * i > last {
                0u8
            } else {
                low_bits(last + 1 - 8 * i) as u8
            },
    )
}

/// The writes that make the image, as (byte offset, bytes): the superblock
/// at block 1, the root inode, the root directory's block and the bitmap.
pub open spec fn mkfs_writes() -> Seq<(u64, Seq<u8>)> {
    seq![
        (MKFS_BSIZE as u64, superblock_block(mkfs_layout())),
        (root_inode_offset() as u64, root_inode_bytes(root_data_block() as u32)),
        ((root_data_block() * MKFS_BSIZE) as u64, root_dir_block()),
        ((mkfs_layout().bmapstart * MKFS_BSIZE) as u64, bitmap_block(root_data_block())),
    ]
}

/// The superblock of the image.
pub fn mkfs_superblock() -> (r: MkfsSuperBlock)
    ensures
        r == mkfs_layout(),
{
    let nbitmap = FSSIZE / (MKFS_BSIZE * 8) + 1;
    let ninodeblocks = NINODES / (MKFS_BSIZE / DINODE_SIZE) + 1;
    let nmeta = 2 + NLOG + ninodeblocks + nbitmap;
    MkfsSuperBlock {
        magic: FSMAGIC,
        size: FSSIZE,
        nblocks: FSSIZE - nmeta,
        ninodes: NINODES,
        nlog: NLOG,
        logstart: 2,
        inodestart: 2 + NLOG,
        bmapstart: 2 + NLOG + ninodeblocks,
    }
}

fn push_le32(v: &mut Vec<u8>, x: u32)
    ensures
        final(v)@ == old(v)@ + le32_bytes(x),
{
    v.push((x % 256) as u8);
    v.push(((x / 256) % 256) as u8);
    v.push(((x / 65536) % 256) as u8);
    v.push((x / 16777216) as u8);
    assert(v@ =~= old(v)@ + le32_bytes(x));
}

fn push_le16(v: &mut Vec<u8>, x: u16)
    ensures
        final(v)@ == old(v)@ + le16_bytes(x),
{
    v.push((x % 256) as u8);
    v.push((x / 256) as u8);
    assert(v@ =~= old(v)@ + le16_bytes(x));
}

fn push_zeros(v: &mut Vec<u8>, n: usize)
    ensures
        final(v)@ == old(v)@ + zeros(n as nat),
{
    let mut k: usize = 0;
    while k < n
        invariant
            k <= n,
            v@ == old(v)@ + zeros(k as nat),
        decreases n - k,
    {
        v.push(0);
        assert(v@ =~= old(v)@ + zeros((k + 1) as nat));
        k = k + 1;
    }
}

fn low_bits_exec(k: u32) -> (r: u8)
    requires
        k <= 8,
    ensures
        r == low_bits(k as int),
{
    let mut r: u32 = 0;
    let mut j: u32 = 0;
    while j < k
        invariant
            j <= k <= 8,
            r == low_bits(j as int),
            r < 256,
        decreases k - j,
    {
        proof {
            assert(low_bits(j + 1) == 2 * low_bits(j as int) + 1);
            lemma_low_bits_bound(j as int);
        }
        r = 2 * r + 1;
        j = j + 1;
    }
    proof {
        lemma_low_bits_bound(j as int);
    }
    r as u8
}

proof fn lemma_low_bits_bound(k: int)
    requires
        0 <= k <= 8,
    ensures
        0 <= low_bits(k) < 256,
        k < 8 ==> low_bits(k) < 128,
{
    reveal_with_fuel(low_bits, 9);
    assert(low_bits(8) == 255);
    if k < 8 {
        assert(low_bits(7) == 127);
        assert(0 <= low_bits(k) < 128) by {
            if k == 0 {} else if k == 1 {} else if k == 2 {} else if k == 3 {} else if k == 4 {}
            else if k == 5 {} else if k == 6 {} else {}
        }
    }
}

/// The writes that make the image (see `mkfs_writes`); the caller creates a
/// file of `IMAGE_SIZE` zero bytes first.
pub fn mkfs_image() -> (r: Vec<(u64, Vec<u8>)>)
    ensures
        r@.len() == mkfs_writes().len(),
        forall|i: int| 0 <= i < r@.len() ==> (#[trigger] r@[i]).0 == mkfs_writes()[i].0 && r@[i].1@ == mkfs_writes()[i].1,
{
    let sb = mkfs_superblock();
    let nbitmap = FSSIZE / (MKFS_BSIZE * 8) + 1;
    let mut sbb: Vec<u8> = Vec::new();
    push_le32(&mut sbb, sb.magic);
    push_le32(&mut sbb, sb.size);
    push_le32(&mut sbb, sb.nblocks);
    push_le32(&mut sbb, sb.ninodes);
    push_le32(&mut sbb, sb.nlog);
    push_le32(&mut sbb, sb.logstart);
    push_le32(&mut sbb, sb.inodestart);
    push_le32(&mut sbb, sb.bmapstart);
    push_zeros(&mut sbb, (MKFS_BSIZE - 32) as usize);
    let ipb = MKFS_BSIZE / DINODE_SIZE;
    let root_block = sb.inodestart + MKFS_ROOTINO / ipb;
    let root_offset = (MKFS_ROOTINO % ipb) * DINODE_SIZE;
    let root_data = sb.bmapstart + nbitmap + 1;
    let mut ino: Vec<u8> = Vec::new();
    push_le16(&mut ino, T_DIR);
    push_le16(&mut ino, 0);
    push_le16(&mut ino, 0);
    push_le16(&mut ino, 1);
    push_le32(&mut ino, 2 * MKFS_DIRENT_SIZE);
    push_le32(&mut ino, root_data);
    push_zeros(&mut ino, 48);
    let mut dir: Vec<u8> = Vec::new();
    push_le16(&mut dir, MKFS_ROOTINO as u16);
    dir.push(46);
    push_zeros(&mut dir, 13);
    push_le16(&mut dir, MKFS_ROOTINO as u16);
    dir.push(46);
    dir.push(46);
    push_zeros(&mut dir, 12);
    push_zeros(&mut dir, (MKFS_BSIZE - 32) as usize);
    let mut bitmap: Vec<u8> = Vec::new();
    let mut i: u32 = 0;
    while i < MKFS_BSIZE
        invariant
            i <= MKFS_BSIZE,
            root_data == root_data_block(),
            bitmap@.len() == i,
            forall|k: int| 0 <= k < i ==> #[trigger] bitmap@[k] == bitmap_block(root_data as int)[k],
        decreases MKFS_BSIZE - i,
    {
        let b: u8 = if 8 * i + 8 <= root_data + 1 {
            255
        } else if 8 * i > root_data {
            0
        } else {
            low_bits_exec(root_data + 1 - 8 * i)
        };
        bitmap.push(b);
        i = i + 1;
    }
    assert(bitmap@ =~= bitmap_block(root_data as int));
    let mut r: Vec<(u64, Vec<u8>)> = Vec::new();
    r.push((MKFS_BSIZE as u64, sbb));
    r.push((root_block as u64 * MKFS_BSIZE as u64 + root_offset as u64, ino));
    r.push((root_data as u64 * MKFS_BSIZE as u64, dir));
    r.push((sb.bmapstart as u64 * MKFS_BSIZE as u64, bitmap));
    proof {
        assert(dir@ =~= root_dir_block());
        assert(sbb@ =~= superblock_block(mkfs_layout()));
        assert(ino@ =~= root_inode_bytes(root_data_block() as u32));
    }
    r
}

} // verus!
