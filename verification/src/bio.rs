use vstd::prelude::*;
use crate::fs::BSIZE;

verus! {

/// Number of buffers in the block cache.
pub const NBUF: usize = 30;

/// A cached disk block.
pub struct Buf {
    /// Has the data been read from disk?
    pub valid: bool,
    /// Does the content match the disk?
    pub disk: bool,
    pub dev: u32,
    pub blockno: u32,
    pub refcnt: u32,
    /// Neighbours in the cache's circular list (indices into the cache).
    pub prev: usize,
    pub next: usize,
    pub data: Vec<u8>,
}

impl Buf {
    pub fn new() -> (r: Self)
        ensures
            !r.valid,
            !r.disk,
            r.dev == 0,
            r.blockno == 0,
            r.refcnt == 0,
            r.prev == 0,
            r.next == 0,
            r.data@ == Seq::new(BSIZE as nat, |i: int| 0u8),
    {
        let mut data: Vec<u8> = Vec::new();
        while data.len() < BSIZE
            invariant
                data.len() <= BSIZE,
                forall|i: int| 0 <= i < data.len() ==> data@[i] == 0u8,
            decreases BSIZE - data.len(),
        {
            data.push(0u8);
        }
        assert(data@ =~= Seq::new(BSIZE as nat, |i: int| 0u8));
        Buf { valid: false, disk: false, dev: 0, blockno: 0, refcnt: 0, prev: 0, next: 0, data }
    }
}

/// The buffer cache: `NBUF` buffers and the index of the head of its list.
pub struct Bcache {
    pub bufs: Vec<Buf>,
    pub head: usize,
}

/// What `bread` asks of its caller.
pub enum Bread {
    /// The buffer at this index holds the block.
    Cached(usize),
    /// The buffer at index `buf` was assigned to the block, whose content must be
    /// read from disk sector `sector` and handed to `bread_fill`.
    Fetch { buf: usize, sector: u64 },
}

/// Does buffer `b` hold block `blockno` of device `dev`?
pub open spec fn holds(b: Buf, dev: u32, blockno: u32) -> bool {
    b.dev == dev && b.blockno == blockno
}

/// `i` is the first buffer that holds the block.
pub open spec fn is_first_holder(bufs: Seq<Buf>, dev: u32, blockno: u32, i: int) -> bool {
    &&& 0 <= i < bufs.len()
    &&& holds(bufs[i], dev, blockno)
    &&& forall|j: int| 0 <= j < i ==> !holds(#[trigger] bufs[j], dev, blockno)
}

/// `i` is the first buffer not in use.
pub open spec fn is_first_free(bufs: Seq<Buf>, i: int) -> bool {
    &&& 0 <= i < bufs.len()
    &&& bufs[i].refcnt == 0
    &&& forall|j: int| 0 <= j < i ==> (#[trigger] bufs[j]).refcnt != 0
}

pub open spec fn some_holder(bufs: Seq<Buf>, dev: u32, blockno: u32) -> bool {
    exists|i: int| 0 <= i < bufs.len() && holds(#[trigger] bufs[i], dev, blockno)
}

pub open spec fn some_free(bufs: Seq<Buf>) -> bool {
    exists|i: int| 0 <= i < bufs.len() && (#[trigger] bufs[i]).refcnt == 0
}

/// `bget` can serve the block: a buffer holds it (with a reference count that
/// can still grow), or some buffer is unused.
pub open spec fn bget_ok(bufs: Seq<Buf>, dev: u32, blockno: u32) -> bool {
    ||| (some_holder(bufs, dev, blockno) && forall|i: int|
        is_first_holder(bufs, dev, blockno, i) ==> bufs[i].refcnt < u32::MAX)
    ||| (!some_holder(bufs, dev, blockno) && some_free(bufs))
}

/// The state after `bget` served the block with buffer `r`.
pub open spec fn bget_effect(old: Seq<Buf>, dev: u32, blockno: u32, r: int, new: Seq<Buf>) -> bool {
    &&& new.len() == old.len()
    &&& forall|j: int| 0 <= j < old.len() && j != r ==> new[j] == old[j]
    &&& if some_holder(old, dev, blockno) {
        &&& is_first_holder(old, dev, blockno, r)
        &&& new[r] == (Buf { refcnt: (old[r].refcnt + 1) as u32, ..old[r] })
    } else {
        &&& is_first_free(old, r)
        &&& new[r] == (Buf { dev, blockno, valid: false, refcnt: 1, ..old[r] })
    }
}

impl Bcache {
    pub open spec fn wf(&self) -> bool {
        &&& self.bufs@.len() == NBUF
        &&& forall|i: int| 0 <= i < NBUF ==> (#[trigger] self.bufs@[i]).data@.len() == BSIZE
    }

    pub fn new() -> (r: Self)
        ensures
            r.wf(),
            forall|i: int| 0 <= i < NBUF ==> (#[trigger] r.bufs@[i]).refcnt == 0 && !r.bufs@[i].valid,
            single_copy(r.bufs@),
    {
        let mut bufs: Vec<Buf> = Vec::new();
        while bufs.len() < NBUF
            invariant
                bufs.len() <= NBUF,
                forall|i: int| 0 <= i < bufs.len() ==> (#[trigger] bufs@[i]).data@.len() == BSIZE
                    && bufs@[i].refcnt == 0 && !bufs@[i].valid,
            decreases NBUF - bufs.len(),
        {
            bufs.push(Buf::new());
        }
        Bcache { bufs, head: 0 }
    }
}

/// Link the buffers into one circular list, in index order, with buffer 0 as head.
pub fn binit(cache: &mut Bcache)
    requires
        old(cache).wf(),
    ensures
        final(cache).wf(),
        final(cache).head == 0,
        forall|i: int| 0 <= i < NBUF ==> {
            &&& (#[trigger] final(cache).bufs@[i]).next == (i + 1) % (NBUF as int)
            &&& final(cache).bufs@[i].prev == (i + NBUF - 1) % (NBUF as int)
            &&& final(cache).bufs@[i].data == old(cache).bufs@[i].data
            &&& final(cache).bufs@[i].refcnt == old(cache).bufs@[i].refcnt
            &&& final(cache).bufs@[i].valid == old(cache).bufs@[i].valid
            &&& final(cache).bufs@[i].dev == old(cache).bufs@[i].dev
            &&& final(cache).bufs@[i].blockno == old(cache).bufs@[i].blockno
            &&& final(cache).bufs@[i].disk == old(cache).bufs@[i].disk
        },
{
    let n = NBUF;
    let mut i: usize = 0;
    while i < n
        invariant
            n == NBUF,
            i <= n,
            cache.wf(),
            forall|k: int| 0 <= k < i ==> {
                &&& (#[trigger] cache.bufs@[k]).next == (k + 1) % (NBUF as int)
                &&& cache.bufs@[k].prev == (k + NBUF - 1) % (NBUF as int)
            },
            forall|k: int| 0 <= k < NBUF ==> {
                &&& (#[trigger] cache.bufs@[k]).data == old(cache).bufs@[k].data
                &&& cache.bufs@[k].refcnt == old(cache).bufs@[k].refcnt
                &&& cache.bufs@[k].valid == old(cache).bufs@[k].valid
                &&& cache.bufs@[k].dev == old(cache).bufs@[k].dev
                &&& cache.bufs@[k].blockno == old(cache).bufs@[k].blockno
                &&& cache.bufs@[k].disk == old(cache).bufs@[k].disk
            },
        decreases n - i,
    {
        cache.bufs[i].next = (i + 1) % n;
        cache.bufs[i].prev = (i + n - 1) % n;
        i = i + 1;
    }
    cache.head = 0;
}

/// Find the buffer for a block, taking a reference to it.
///
/// The first buffer that holds the block is used; failing that, the first
/// buffer not in use is assigned to the block and marked not valid.
pub fn bget(cache: &mut Bcache, dev: u32, blockno: u32) -> (r: usize)
    requires
        old(cache).wf(),
        bget_ok(old(cache).bufs@, dev, blockno),
    ensures
        final(cache).wf(),
        final(cache).head == old(cache).head,
        bget_effect(old(cache).bufs@, dev, blockno, r as int, final(cache).bufs@),
{
    let mut i: usize = 0;
    while i < NBUF
        invariant
            cache.bufs@ == old(cache).bufs@,
            cache.head == old(cache).head,
            cache.wf(),
            i <= NBUF,
            bget_ok(old(cache).bufs@, dev, blockno),
            forall|j: int| 0 <= j < i ==> !holds(#[trigger] cache.bufs@[j], dev, blockno),
        decreases NBUF - i,
    {
        if cache.bufs[i].dev == dev && cache.bufs[i].blockno == blockno {
            proof {
                assert(some_holder(old(cache).bufs@, dev, blockno));
                assert(is_first_holder(old(cache).bufs@, dev, blockno, i as int));
                assert(old(cache).bufs@[i as int].refcnt < u32::MAX);
            }
            cache.bufs[i].refcnt = cache.bufs[i].refcnt + 1;
            return i;
        }
        i = i + 1;
    }
    proof {
        assert(!some_holder(old(cache).bufs@, dev, blockno));
    }
    let mut i: usize = 0;
    while i < NBUF
        invariant
            cache.bufs@ == old(cache).bufs@,
            cache.head == old(cache).head,
            cache.wf(),
            i <= NBUF,
            !some_holder(old(cache).bufs@, dev, blockno),
            some_free(old(cache).bufs@),
            forall|j: int| 0 <= j < i ==> (#[trigger] cache.bufs@[j]).refcnt != 0,
        decreases NBUF - i,
    {
        if cache.bufs[i].refcnt == 0 {
            cache.bufs[i].dev = dev;
            cache.bufs[i].blockno = blockno;
            cache.bufs[i].valid = false;
            cache.bufs[i].refcnt = 1;
            return i;
        }
        i = i + 1;
    }
    proof {
        let k = choose|k: int| 0 <= k < NBUF && (#[trigger] old(cache).bufs@[k]).refcnt == 0;
        assert(cache.bufs@[k].refcnt != 0);
    }
    0
}

/// Get the buffer for a block. If its content is not yet valid, the caller
/// reads disk sector `2 * blockno` (blocks are two 512-byte sectors) and hands
/// the data to `bread_fill`.
pub fn bread(cache: &mut Bcache, dev: u32, blockno: u32) -> (r: Bread)
    requires
        old(cache).wf(),
        bget_ok(old(cache).bufs@, dev, blockno),
    ensures
        final(cache).wf(),
        final(cache).head == old(cache).head,
        bread_effect(old(cache).bufs@, dev, blockno, r, final(cache).bufs@),
{
    let b = bget(cache, dev, blockno);
    if !cache.bufs[b].valid {
        Bread::Fetch { buf: b, sector: blockno as u64 * 2 }
    } else {
        Bread::Cached(b)
    }
}

/// `bread` took a reference through `bget` and asks for a disk read exactly
/// when the buffer's content is not valid.
pub open spec fn bread_effect(old: Seq<Buf>, dev: u32, blockno: u32, r: Bread, new: Seq<Buf>) -> bool {
    match r {
        Bread::Cached(b) => bget_effect(old, dev, blockno, b as int, new) && new[b as int].valid,
        Bread::Fetch { buf, sector } => {
            &&& bget_effect(old, dev, blockno, buf as int, new)
            &&& !new[buf as int].valid
            &&& sector == 2 * blockno
        },
    }
}

/// Store the block content read from disk in buffer `b` and mark it valid.
pub fn bread_fill(cache: &mut Bcache, b: usize, data: &[u8])
    requires
        old(cache).wf(),
        b < NBUF,
        data@.len() == BSIZE,
    ensures
        final(cache).wf(),
        final(cache).head == old(cache).head,
        final(cache).bufs@ == old(cache).bufs@.update(
            b as int,
            Buf { valid: true, data: final(cache).bufs@[b as int].data, ..old(cache).bufs@[b as int] },
        ),
        final(cache).bufs@[b as int].data@ == data@,
{
    let mut i: usize = 0;
    while i < BSIZE
        invariant
            cache.wf(),
            old(cache).wf(),
            cache.head == old(cache).head,
            b < NBUF,
            i <= BSIZE,
            data@.len() == BSIZE,
            cache.bufs@ == old(cache).bufs@.update(
                b as int,
                Buf { data: cache.bufs@[b as int].data, ..old(cache).bufs@[b as int] },
            ),
            forall|k: int| 0 <= k < i ==> cache.bufs@[b as int].data@[k] == data@[k],
        decreases BSIZE - i,
    {
        let ghost before = cache.bufs@;
        cache.bufs[b].data.set(i, data[i]);
        proof {
            assert(cache.bufs@ =~= before.update(b as int, Buf { data: cache.bufs@[b as int].data, ..before[b as int] }));
            assert(cache.bufs@ =~= old(cache).bufs@.update(
                b as int,
                Buf { data: cache.bufs@[b as int].data, ..old(cache).bufs@[b as int] },
            ));
        }
        i = i + 1;
    }
    cache.bufs[b].valid = true;
    assert(cache.bufs@[b as int].data@ =~= data@);
}

/// Write buffer `b` to disk: returns the sector and the bytes the caller
/// writes there; the buffer is marked valid.
pub fn bwrite(cache: &mut Bcache, b: usize) -> (r: (u64, Vec<u8>))
    requires
        old(cache).wf(),
        b < NBUF,
    ensures
        final(cache).wf(),
        final(cache).head == old(cache).head,
        final(cache).bufs@ == old(cache).bufs@.update(b as int, Buf { valid: true, ..old(cache).bufs@[b as int] }),
        r.0 == 2 * old(cache).bufs@[b as int].blockno,
        r.1@ == old(cache).bufs@[b as int].data@,
{
    let blockno = cache.bufs[b].blockno;
    let data = copy_bytes(&cache.bufs[b].data);
    cache.bufs[b].valid = true;
    (blockno as u64 * 2, data)
}

fn copy_bytes(v: &Vec<u8>) -> (r: Vec<u8>)
    ensures
        r@ == v@,
{
    let mut r: Vec<u8> = Vec::new();
    let mut i: usize = 0;
    while i < v.len()
        invariant
            i <= v.len(),
            r@ == v@.take(i as int),
        decreases v.len() - i,
    {
        r.push(v[i]);
        i = i + 1;
        assert(r@ =~= v@.take(i as int));
    }
    assert(v@.take(v.len() as int) =~= v@);
    r
}

/// Release a reference to buffer `b`.
pub fn brelse(cache: &mut Bcache, b: usize)
    requires
        old(cache).wf(),
        b < NBUF,
        old(cache).bufs@[b as int].refcnt > 0,
    ensures
        final(cache).wf(),
        final(cache).head == old(cache).head,
        final(cache).bufs@ == old(cache).bufs@.update(
            b as int,
            Buf { refcnt: (old(cache).bufs@[b as int].refcnt - 1) as u32, ..old(cache).bufs@[b as int] },
        ),
{
    cache.bufs[b].refcnt = cache.bufs[b].refcnt - 1;
}

/// No block is cached twice: of the buffers that hold a block, only the
/// first may hold valid content.
pub open spec fn single_copy(bufs: Seq<Buf>) -> bool {
    forall|i: int, j: int|
        #![trigger bufs[i], bufs[j]]
        0 <= i < j < bufs.len() && holds(bufs[j], bufs[i].dev, bufs[i].blockno) ==> !bufs[j].valid
}

/// Serving a block with `bget` keeps every block cached at most once, and
/// the buffer it chose is the first that holds the block.
pub proof fn law_bget_single_copy(s0: Seq<Buf>, dev: u32, blockno: u32, r: int, s1: Seq<Buf>)
    requires
        single_copy(s0),
        bget_effect(s0, dev, blockno, r, s1),
    ensures
        single_copy(s1),
        is_first_holder(s1, dev, blockno, r),
{
    if some_holder(s0, dev, blockno) {
        assert forall|i: int, j: int|
            #![trigger s1[i], s1[j]]
            0 <= i < j < s1.len() && holds(s1[j], s1[i].dev, s1[i].blockno) implies !s1[j].valid by {
            assert(s0[i].dev == s1[i].dev && s0[i].blockno == s1[i].blockno);
            assert(s0[j].dev == s1[j].dev && s0[j].blockno == s1[j].blockno && s0[j].valid == s1[j].valid);
        }
        assert forall|j: int| 0 <= j < r implies !holds(#[trigger] s1[j], dev, blockno) by {
            assert(s1[j] == s0[j]);
        }
    } else {
        assert forall|i: int, j: int|
            #![trigger s1[i], s1[j]]
            0 <= i < j < s1.len() && holds(s1[j], s1[i].dev, s1[i].blockno) implies !s1[j].valid by {
            if i == r {
                assert(holds(s0[j], dev, blockno));
            } else if j == r {
            } else {
                assert(s1[i] == s0[i] && s1[j] == s0[j]);
            }
        }
        assert forall|j: int| 0 <= j < r implies !holds(#[trigger] s1[j], dev, blockno) by {
            assert(s1[j] == s0[j]);
        }
    }
}

/// Storing a block's content in the buffer that `bget` chose for it keeps
/// every block cached at most once.
pub proof fn law_fill_single_copy(s1: Seq<Buf>, dev: u32, blockno: u32, b: int, d: Vec<u8>, s2: Seq<Buf>)
    requires
        single_copy(s1),
        is_first_holder(s1, dev, blockno, b),
        s2 == s1.update(b, Buf { valid: true, data: d, ..s1[b] }),
    ensures
        single_copy(s2),
{
    assert forall|i: int, j: int|
        #![trigger s2[i], s2[j]]
        0 <= i < j < s2.len() && holds(s2[j], s2[i].dev, s2[i].blockno) implies !s2[j].valid by {
        if j == b {
            assert(s2[i] == s1[i]);
            assert(holds(s1[i], dev, blockno));
        } else if i == b {
            assert(s2[j] == s1[j]);
            assert(holds(s1[j], s1[b].dev, s1[b].blockno));
        } else {
            assert(s2[i] == s1[i] && s2[j] == s1[j]);
        }
    }
}

/// How many buffers hold the block `(dev, blockno)`.
pub open spec fn holders(bufs: Seq<Buf>, dev: u32, blockno: u32) -> nat
    decreases bufs.len(),
{
    if bufs.len() == 0 {
        0
    } else {
        holders(bufs.drop_last(), dev, blockno) + if holds(bufs.last(), dev, blockno) {
            1nat
        } else {
            0nat
        }
    }
}

/// Replacing one buffer changes the count of holders of a block only by
/// what the old and the new buffer hold.
proof fn lemma_holders_update(bufs: Seq<Buf>, r: int, x: Buf, dev: u32, blockno: u32)
    requires
        0 <= r < bufs.len(),
    ensures
        holders(bufs.update(r, x), dev, blockno) + (if holds(bufs[r], dev, blockno) { 1int } else { 0int })
            == holders(bufs, dev, blockno) + (if holds(x, dev, blockno) { 1int } else { 0int }),
    decreases bufs.len(),
{
    let u = bufs.update(r, x);
    if r == bufs.len() - 1 {
        assert(u.drop_last() =~= bufs.drop_last());
    } else {
        assert(u.drop_last() =~= bufs.drop_last().update(r, x));
        lemma_holders_update(bufs.drop_last(), r, x, dev, blockno);
    }
}

/// A block has a holder exactly when its count is not zero.
proof fn lemma_holders_some(bufs: Seq<Buf>, dev: u32, blockno: u32)
    ensures
        holders(bufs, dev, blockno) > 0 <==> some_holder(bufs, dev, blockno),
    decreases bufs.len(),
{
    if bufs.len() > 0 {
        lemma_holders_some(bufs.drop_last(), dev, blockno);
        if some_holder(bufs, dev, blockno) && !holds(bufs.last(), dev, blockno) {
            let i = choose|i: int| 0 <= i < bufs.len() && holds(#[trigger] bufs[i], dev, blockno);
            assert(bufs.drop_last()[i] == bufs[i]);
        }
        if some_holder(bufs.drop_last(), dev, blockno) {
            let i = choose|i: int| 0 <= i < bufs.drop_last().len() && holds(#[trigger] bufs.drop_last()[i], dev, blockno);
            assert(bufs[i] == bufs.drop_last()[i]);
        }
        if holds(bufs.last(), dev, blockno) {
            assert(holds(bufs[bufs.len() - 1], dev, blockno));
        }
    }
}

/// `bget` never makes a second copy of a block: afterwards the block it
/// served is held by as many buffers as before, or by one if none held it;
/// no other block is held by more buffers than before.
pub proof fn law_bget_copies(s0: Seq<Buf>, dev: u32, blockno: u32, r: int, s1: Seq<Buf>, d2: u32, b2: u32)
    requires
        bget_effect(s0, dev, blockno, r, s1),
        0 <= r < s0.len(),
    ensures
        holders(s1, dev, blockno) == if holders(s0, dev, blockno) == 0 { 1 } else { holders(s0, dev, blockno) },
        holders(s1, d2, b2) <= holders(s0, d2, b2) || (d2 == dev && b2 == blockno),
{
    assert(s1 =~= s0.update(r, s1[r]));
    lemma_holders_update(s0, r, s1[r], dev, blockno);
    lemma_holders_update(s0, r, s1[r], d2, b2);
    lemma_holders_some(s0, dev, blockno);
}

/// A block read into the cache is found there again: once `bread_fill` stored
/// data for the buffer `bget` chose for a block, the next `bget` of that block
/// chooses the same buffer, whose content is valid and is that data.
pub proof fn law_bread_after_fill(
    s0: Seq<Buf>,
    dev: u32,
    blockno: u32,
    b: int,
    s1: Seq<Buf>,
    data: Seq<u8>,
    s2: Seq<Buf>,
    r: int,
    s3: Seq<Buf>,
)
    requires
        bget_effect(s0, dev, blockno, b, s1),
        0 <= b < s1.len(),
        s2 == s1.update(b, Buf { valid: true, data: s2[b].data, ..s1[b] }),
        s2[b].data@ == data,
        bget_effect(s2, dev, blockno, r, s3),
    ensures
        r == b,
        s3[r].valid,
        s3[r].data@ == data,
{
    assert(holds(s2[b], dev, blockno));
    assert(some_holder(s2, dev, blockno));
    if some_holder(s0, dev, blockno) {
        assert forall|j: int| 0 <= j < b implies !holds(#[trigger] s2[j], dev, blockno) by {
            assert(s2[j] == s0[j]);
        }
    } else {
        assert forall|j: int| 0 <= j < b implies !holds(#[trigger] s2[j], dev, blockno) by {
            assert(s2[j] == s0[j]);
            assert(!holds(s0[j], dev, blockno));
        }
    }
    assert(is_first_holder(s2, dev, blockno, b));
}

}
