use vstd::prelude::*;
use crate::allocator::Allocator;

verus! {

/// Capacity of a pipe's ring buffer.
pub const PIPESIZE: usize = 512;

/// A pipe as first laid out: ring buffer, counters and open flags.
pub struct Pipe {
    pub data: Vec<u8>,
    pub nread: usize,
    pub nwrite: usize,
    pub readopen: bool,
    pub writeopen: bool,
}

impl Pipe {
    pub fn new() -> (r: Self)
        ensures
            r.data@ == Seq::new(PIPESIZE as nat, |i: int| 0u8),
            r.nread == 0,
            r.nwrite == 0,
            r.readopen,
            r.writeopen,
    {
        Pipe { data: zeroed_buffer(), nread: 0, nwrite: 0, readopen: true, writeopen: true }
    }
}

fn zeroed_buffer() -> (r: Vec<u8>)
    ensures
        r@ == Seq::new(PIPESIZE as nat, |i: int| 0u8),
{
    let mut v: Vec<u8> = Vec::new();
    while v.len() < PIPESIZE
        invariant
            v.len() <= PIPESIZE,
            forall|i: int| 0 <= i < v.len() ==> v@[i] == 0u8,
        decreases PIPESIZE - v.len(),
    {
        v.push(0u8);
    }
    assert(v@ =~= Seq::new(PIPESIZE as nat, |i: int| 0u8));
    v
}

/// The shared state of a pipe: a ring buffer of `PIPESIZE` bytes, the running
/// counts of bytes read and written, and whether each end is still open.
pub struct PipeData {
    pub data: Vec<u8>,
    pub nread: usize,
    pub nwrite: usize,
    pub readopen: bool,
    pub writeopen: bool,
}

/// What a write into a pipe came to.
pub enum PipeWrite {
    /// All bytes were written.
    Done(usize),
    /// The pipe filled after this many bytes: wake the readers, sleep, and
    /// write the rest later.
    Full(usize),
    /// The read end is closed: the write fails.
    Broken,
}

/// What a read from a pipe came to.
pub enum PipeRead {
    /// These bytes were read (none at end of file: write end closed and pipe empty).
    Data(Vec<u8>),
    /// The pipe is empty and the write end still open: sleep and try again.
    Empty,
    /// The reader was killed while the pipe was empty: the read fails.
    Killed,
}

impl PipeData {
    pub fn new() -> (r: Self)
        ensures
            r.wf(),
            r.buffered() == Seq::<u8>::empty(),
            r.nread == 0,
            r.nwrite == 0,
            r.readopen,
            r.writeopen,
            r.data@ == Seq::new(PIPESIZE as nat, |i: int| 0u8),
    {
        PipeData { data: zeroed_buffer(), nread: 0, nwrite: 0, readopen: true, writeopen: true }
    }

    pub open spec fn wf(&self) -> bool {
        &&& self.data@.len() == PIPESIZE
        &&& self.nread <= self.nwrite
        &&& self.nwrite - self.nread <= PIPESIZE
    }

    /// The bytes written but not yet read, oldest first.
    pub open spec fn buffered(&self) -> Seq<u8> {
        Seq::new(
            (self.nwrite - self.nread) as nat,
            |i: int| self.data@[(self.nread + i) % (PIPESIZE as int)],
        )
    }

    /// Write as much of `src` as fits. Bytes go in behind those already buffered.
    pub fn pipewrite(&mut self, src: &[u8]) -> (r: PipeWrite)
        requires
            old(self).wf(),
            old(self).nwrite + src@.len() <= usize::MAX,
        ensures
            final(self).wf(),
            final(self).readopen == old(self).readopen,
            final(self).writeopen == old(self).writeopen,
            final(self).nread == old(self).nread,
            write_effect(old(self).buffered(), old(self).readopen, src@, r, final(self).buffered()),
    {
        let ghost old_buf = self.buffered();
        let n = src.len();
        let mut written: usize = 0;
        while written < n
            invariant
                self.wf(),
                self.readopen == old(self).readopen,
                self.writeopen == old(self).writeopen,
                self.nread == old(self).nread,
                n == src@.len(),
                written <= n,
                self.nwrite == old(self).nwrite + written,
                old(self).nwrite + n <= usize::MAX,
                self.buffered() == old_buf + src@.take(written as int),
                old_buf == old(self).buffered(),
                written > 0 ==> self.readopen,
            decreases n - written,
        {
            if !self.readopen {
                proof {
                    assert(self.buffered() =~= old_buf + src@.take(0));
                    assert(old_buf + src@.take(0) =~= old_buf);
                    assert(written == 0);
                    assert(src@.len() > 0);
                    assert(write_effect(old_buf, old(self).readopen, src@, PipeWrite::Broken, self.buffered()));
                }
                return PipeWrite::Broken;
            }
            if self.nwrite - self.nread == PIPESIZE {
                proof {
                    assert(self.buffered().len() == PIPESIZE);
                    assert(written == PIPESIZE - old_buf.len());
                }
                return PipeWrite::Full(written);
            }
            let idx = self.nwrite % PIPESIZE;
            let space = PIPESIZE - (self.nwrite - self.nread);
            let mut chunk = if n - written < space { n - written } else { space };
            chunk = if chunk < PIPESIZE - idx { chunk } else { PIPESIZE - idx };
            let mut j: usize = 0;
            let ghost nw: usize = self.nwrite;
            let ghost buf0 = self.buffered();
            while j < chunk
                invariant
                    self.data@.len() == PIPESIZE,
                    self.nwrite == nw,
                    self.nread == old(self).nread,
                    self.readopen == old(self).readopen,
                    self.writeopen == old(self).writeopen,
                    idx == (nw as int) % (PIPESIZE as int),
                    idx + chunk <= PIPESIZE,
                    j <= chunk,
                    written + chunk <= n,
                    n == src@.len(),
                    self.nread <= nw,
                    nw - self.nread + chunk <= PIPESIZE,
                    buf0.len() == nw - self.nread,
                    forall|i: int| 0 <= i < buf0.len() ==> self.data@[(self.nread + i) % (PIPESIZE as int)] == #[trigger] buf0[i],
                    forall|i: int| 0 <= i < j ==> #[trigger] self.data@[idx + i] == src@[written + i],
                decreases chunk - j,
            {
                self.data.set(idx + j, src[written + j]);
                proof {
                    assert forall|i: int| 0 <= i < buf0.len() implies self.data@[(self.nread + i) % (PIPESIZE as int)] == #[trigger] buf0[i] by {
                        let a = (self.nread + i) % (PIPESIZE as int);
                        assert(a != idx + j) by {
                            lemma_ring_distinct(self.nread as int, nw as int, i, j as int);
                        }
                    }
                }
                j = j + 1;
            }
            self.nwrite = self.nwrite + chunk;
            proof {
                let newbuf = old_buf + src@.take((written + chunk) as int);
                assert forall|i: int| 0 <= i < newbuf.len() implies self.buffered()[i] == newbuf[i] by {
                    if i < buf0.len() {
                        assert(self.data@[(self.nread + i) % (PIPESIZE as int)] == buf0[i]);
                    } else {
                        let k = i - buf0.len();
                        assert((self.nread + i) % (PIPESIZE as int) == idx + k) by {
                            lemma_ring_offset(self.nread as int, nw as int, k);
                        }
                        assert(self.data@[idx + k] == src@[written + k]);
                        assert(newbuf[i] == src@[written + k]);
                    }
                }
                assert(self.buffered() =~= newbuf);
            }
            written = written + chunk;
        }
        PipeWrite::Done(written)
    }

    /// Read up to `n` buffered bytes, oldest first.
    pub fn piperead(&mut self, n: usize, killed: bool) -> (r: PipeRead)
        requires
            old(self).wf(),
        ensures
            final(self).wf(),
            final(self).readopen == old(self).readopen,
            final(self).writeopen == old(self).writeopen,
            final(self).nwrite == old(self).nwrite,
            read_effect(old(self).buffered(), old(self).writeopen, n, killed, r, final(self).buffered()),
    {
        if self.nread == self.nwrite && self.writeopen {
            if killed {
                return PipeRead::Killed;
            }
            return PipeRead::Empty;
        }
        let ghost old_buf = self.buffered();
        let mut out: Vec<u8> = Vec::new();
        let mut left = n;
        while left > 0 && self.nread < self.nwrite
            invariant
                self.wf(),
                self.readopen == old(self).readopen,
                self.writeopen == old(self).writeopen,
                self.nwrite == old(self).nwrite,
                out@.len() + left == n,
                self.nread == old(self).nread + out@.len(),
                old_buf == out@ + self.buffered(),
            decreases left,
        {
            let idx = self.nread % PIPESIZE;
            let available = self.nwrite - self.nread;
            let mut chunk = if left < available { left } else { available };
            chunk = if chunk < PIPESIZE - idx { chunk } else { PIPESIZE - idx };
            let ghost buf0 = self.buffered();
            let ghost out0 = out@;
            let mut j: usize = 0;
            while j < chunk
                invariant
                    self.data@.len() == PIPESIZE,
                    idx == (self.nread as int) % (PIPESIZE as int),
                    idx + chunk <= PIPESIZE,
                    chunk <= buf0.len(),
                    buf0 == self.buffered(),
                    self.wf(),
                    j <= chunk,
                    out@ == out0 + buf0.take(j as int),
                decreases chunk - j,
            {
                proof {
                    lemma_ring_offset(self.nread as int, self.nread as int, j as int);
                }
                out.push(self.data[idx + j]);
                proof {
                    assert(out@ =~= out0 + buf0.take((j + 1) as int));
                }
                j = j + 1;
            }
            self.nread = self.nread + chunk;
            proof {
                assert forall|i: int| 0 <= i < self.buffered().len() implies self.buffered()[i] == buf0.skip(chunk as int)[i] by {
                    assert((self.nread + i) % (PIPESIZE as int) == (old_nread(self.nread as int, chunk as int) + (i + chunk)) % (PIPESIZE as int));
                }
                assert(self.buffered() =~= buf0.skip(chunk as int));
                assert(old_buf =~= out@ + self.buffered());
            }
            left = left - chunk;
        }
        proof {
            assert(out@ =~= old_buf.take(out@.len() as int));
            assert(self.buffered() =~= old_buf.skip(out@.len() as int));
        }
        PipeRead::Data(out)
    }

    /// Close one end of the pipe. Returns whether both ends are now closed, in
    /// which case the pipe's memory is to be freed.
    pub fn pipeclose(&mut self, writable: bool) -> (free: bool)
        ensures
            final(self).data == old(self).data,
            final(self).nread == old(self).nread,
            final(self).nwrite == old(self).nwrite,
            writable ==> !final(self).writeopen && final(self).readopen == old(self).readopen,
            !writable ==> !final(self).readopen && final(self).writeopen == old(self).writeopen,
            free == (!final(self).readopen && !final(self).writeopen),
    {
        if writable {
            self.writeopen = false;
        } else {
            self.readopen = false;
        }
        !self.readopen && !self.writeopen
    }
}

spec fn old_nread(x: int, c: int) -> int {
    x - c
}

/// How a write changes the buffered bytes: with the read end open, the longest
/// prefix of `src` that fits goes in behind the buffered bytes; it is all of
/// `src` exactly when the result is `Done`. With the read end closed nothing is
/// written, and a non-empty write fails.
pub open spec fn write_effect(before: Seq<u8>, readopen: bool, src: Seq<u8>, r: PipeWrite, after: Seq<u8>) -> bool {
    if !readopen {
        &&& after == before
        &&& (src.len() == 0 ==> r == PipeWrite::Done(0))
        &&& (src.len() > 0 ==> r == PipeWrite::Broken)
    } else {
        let k = if src.len() <= PIPESIZE - before.len() { src.len() } else { (PIPESIZE - before.len()) as nat };
        &&& after == before + src.take(k as int)
        &&& (k == src.len() ==> r == PipeWrite::Done(k as usize))
        &&& (k < src.len() ==> r == PipeWrite::Full(k as usize))
    }
}

/// How a read changes the buffered bytes: on an empty pipe whose write end is
/// open the reader sleeps (or fails if killed) and nothing changes; otherwise
/// the first `min(n, buffered)` bytes come out, in order.
pub open spec fn read_effect(before: Seq<u8>, writeopen: bool, n: usize, killed: bool, r: PipeRead, after: Seq<u8>) -> bool {
    if before.len() == 0 && writeopen {
        &&& after == before
        &&& r == (if killed { PipeRead::Killed } else { PipeRead::Empty })
    } else {
        let k = if n <= before.len() { n as int } else { before.len() as int };
        &&& r matches PipeRead::Data(v)
        &&& v@ == before.take(k)
        &&& after == before.skip(k)
    }
}

proof fn lemma_ring_distinct(nread: int, nw: int, i: int, j: int)
    requires
        0 <= nread <= nw,
        0 <= i < nw - nread,
        0 <= j,
        nw - nread + j < PIPESIZE,
        nw % 512 + j < PIPESIZE,
    ensures
        (nread + i) % 512 != nw % 512 + j,
{
}

proof fn lemma_ring_offset(nread: int, nw: int, k: int)
    requires
        0 <= nread <= nw,
        0 <= k,
        nw % 512 + k < PIPESIZE,
    ensures
        (nread + (nw - nread) + k) % 512 == nw % 512 + k,
        (nw + k) % 512 == nw % 512 + k,
{
}

/// Bytes come out of a pipe in the order they went in: writing `src` into an
/// empty pipe whose ends are open, then reading at least as many bytes as were
/// accepted, gives back exactly the accepted prefix of `src` and empties the pipe.
pub proof fn law_pipe_fifo(
    src: Seq<u8>,
    w: PipeWrite,
    mid: Seq<u8>,
    n: usize,
    r: PipeRead,
    after: Seq<u8>,
)
    requires
        write_effect(Seq::empty(), true, src, w, mid),
        read_effect(mid, true, n, false, r, after),
        mid.len() > 0,
        n >= mid.len(),
    ensures
        r matches PipeRead::Data(v) && v@ == mid && src.take(v@.len() as int) == v@,
        after.len() == 0,
{
    assert(Seq::<u8>::empty() + src.take(mid.len() as int) =~= src.take(mid.len() as int));
}


/// Allocate the page that holds a new pipe. Fails when memory is exhausted.
pub fn pipealloc(allocator: &mut Allocator) -> (r: Result<u64, ()>)
    requires
        old(allocator).wf(),
    ensures
        final(allocator).wf(),
        old(allocator)@.len() == 0 ==> r is Err && final(allocator)@ == old(allocator)@,
        old(allocator)@.len() > 0 ==> r == Ok::<u64, ()>(old(allocator)@.last()) && final(allocator)@ == old(
            allocator,
        )@.drop_last(),
{
    let p = allocator.kalloc();
    if p == 0 {
        return Err(());
    }
    Ok(p)
}

}
