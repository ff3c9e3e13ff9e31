use vstd::prelude::*;

verus! {

/// Size in bytes of a block header, the unit blocks are measured in.
pub const HEADER_SIZE: u64 = 16;
/// Smallest block: a header and one unit of data.
pub const MIN_UNITS: u64 = 2;
/// Largest block kept in a bin; larger ones go to the large list.
pub const MAX_BIN_UNITS: u64 = 31;
/// Fewest units the heap grows by at a time.
pub const GROW_UNITS: u64 = 4096;
/// Blocks lie below this address (the lower half of the address space).
pub const HEAP_TOP: u64 = 0x8000_0000_0000;

/// A free block: the address of its header and its size in units
/// (header included).
#[derive(Clone, Copy, Debug, PartialEq, Eq, Structural)]
pub struct Block {
    pub addr: u64,
    pub nunits: u64,
}

/// The end of a block: the address of the block after it.
pub open spec fn block_end(b: Block) -> int {
    b.addr + b.nunits * HEADER_SIZE
}

/// Whether two blocks share no byte.
pub open spec fn apart(b: Block, c: Block) -> bool {
    block_end(b) <= c.addr || block_end(c) <= b.addr
}

/// Whether the large blocks are sorted by address and apart, above the
/// sentinel, of some size, and below `HEAP_TOP`.
pub open spec fn large_ok(large: Seq<Block>, sentinel: u64) -> bool {
    &&& forall|i: int, j: int|
        #![trigger large[i], large[j]]
        0 <= i < j < large.len() ==> block_end(large[i]) <= large[j].addr
    &&& forall|i: int|
        0 <= i < large.len() ==> sentinel < (#[trigger] large[i]).addr && 1 <= large[i].nunits
            && block_end(large[i]) <= HEAP_TOP
}

/// The allocator as a value: the bins (each a stack of header addresses,
/// its top last), the large free blocks in address order, the roving
/// list position where searches start, and the sentinel's address.
/// List position 0 is the sentinel, a block of no size below every other;
/// position `k >= 1` is `large[k - 1]`.
pub struct HeapModel {
    pub bins: Seq<Seq<u64>>,
    pub large: Seq<Block>,
    pub rover: int,
    pub sentinel: u64,
}

/// A user-space allocator of blocks measured in 16-byte units: bins of free
/// blocks of each small size, and a circular list of larger free blocks
/// sorted by address, with a roving position where searches start.
pub struct TinyAllocator {
    pub bins: Vec<Vec<u64>>,
    pub large: Vec<Block>,
    pub rover: usize,
    pub sentinel: u64,
}

impl View for TinyAllocator {
    type V = HeapModel;

    open spec fn view(&self) -> HeapModel {
        HeapModel {
            bins: self.bins@.map_values(|v: Vec<u64>| v@),
            large: self.large@,
            rover: self.rover as int,
            sentinel: self.sentinel,
        }
    }
}

/// Whether the model is one the allocator can be in.
pub open spec fn model_ok(s: HeapModel) -> bool {
    &&& s.bins.len() == MAX_BIN_UNITS + 1
    &&& large_ok(s.large, s.sentinel)
    &&& 0 <= s.rover <= s.large.len()
}

impl TinyAllocator {
    pub open spec fn wf(&self) -> bool {
        &&& model_ok(self@)
        &&& free_apart(self@)
    }

    /// An allocator with nothing free, whose sentinel sits at `sentinel`.
    pub fn new(sentinel: u64) -> (r: Self)
        ensures
            r.wf(),
            r@ == (HeapModel {
                bins: Seq::new((MAX_BIN_UNITS + 1) as nat, |n: int| Seq::<u64>::empty()),
                large: Seq::empty(),
                rover: 0,
                sentinel,
            }),
    {
        let mut bins: Vec<Vec<u64>> = Vec::new();
        while bins.len() < 32
            invariant
                bins@.len() <= 32,
                forall|n: int| 0 <= n < bins@.len() ==> (#[trigger] bins@[n])@.len() == 0,
            decreases 32 - bins.len(),
        {
            bins.push(Vec::new());
        }
        let r = TinyAllocator { bins, large: Vec::new(), rover: 0, sentinel };
        assert forall|i: int| 0 <= i < r@.bins.len() implies r@.bins[i] =~= Seq::<u64>::empty() by {
            assert(r@.bins[i] == r.bins@[i]@);
        }
        assert(r@.bins =~= Seq::new((MAX_BIN_UNITS + 1) as nat, |n: int| Seq::<u64>::empty()));
        r
    }
}

/// The size in units of a block for `nbytes` bytes: the data rounded up to
/// whole units, one unit for the header, and at least `MIN_UNITS`.
pub open spec fn units_for(nbytes: int) -> int {
    let n = (nbytes + HEADER_SIZE - 1) / (HEADER_SIZE as int) + 1;
    if n < MIN_UNITS {
        MIN_UNITS as int
    } else {
        n
    }
}

/// The list position `j` steps after position `from`, in a circle of
/// `len + 1` positions (for `0 <= j <= len + 1`).
pub open spec fn circ(from: int, j: int, len: int) -> int {
    if from + j <= len {
        from + j
    } else {
        from + j - (len + 1)
    }
}

/// Whether list position `q` holds a large block of at least `need` units
/// (the sentinel, of no size, never does).
pub open spec fn fits(large: Seq<Block>, q: int, need: int) -> bool {
    1 <= q <= large.len() && large[q - 1].nunits >= need
}

/// Whether `j` steps on from `rover` is the first position, going round the
/// whole circle, whose block has at least `need` units.
pub open spec fn first_fit_at(large: Seq<Block>, rover: int, need: int, j: int) -> bool {
    &&& 1 <= j <= large.len() + 1
    &&& fits(large, circ(rover, j, large.len() as int), need)
    &&& forall|k: int| 1 <= k < j ==> !fits(large, #[trigger] circ(rover, k, large.len() as int), need)
}

/// The number of steps from `rover` to the first position whose block has
/// at least `need` units, if any has.
pub open spec fn first_fit(large: Seq<Block>, rover: int, need: int) -> Option<int> {
    if exists|j: int| first_fit_at(large, rover, need, j) {
        Some(choose|j: int| first_fit_at(large, rover, need, j))
    } else {
        None
    }
}

/// What `malloc` asks of its caller.
#[derive(Clone, Copy, Debug, PartialEq, Eq, Structural)]
pub enum Alloc {
    /// A block: its header address and size in units. The caller records
    /// the size in the header, and hands out the address after it.
    Block(u64, u64),
    /// No block is large enough: the caller grows the heap by this many
    /// units (see `heap_grow`) and asks again, or fails when it cannot.
    Grow(u64),
}

/// The number of units the heap grows by for a request of `need` units.
pub open spec fn grow_units(need: int) -> int {
    if need < GROW_UNITS {
        GROW_UNITS as int
    } else {
        need
    }
}

/// What `malloc` answers for `nbytes` bytes, and the allocator after it:
/// the top of the bin of that size when it holds a block; else the first
/// large block big enough, searching round from the roving position, taken
/// whole when its size is exact and otherwise giving up its tail, with the
/// roving position left on the position before it; else a request to grow.
pub open spec fn spec_malloc(s: HeapModel, nbytes: int) -> (Alloc, HeapModel) {
    let need = units_for(nbytes);
    if need <= MAX_BIN_UNITS && s.bins[need].len() > 0 {
        (
            Alloc::Block(s.bins[need].last(), need as u64),
            HeapModel { bins: s.bins.update(need, s.bins[need].drop_last()), ..s },
        )
    } else {
        match first_fit(s.large, s.rover, need) {
            None => (Alloc::Grow(grow_units(need) as u64), s),
            Some(j) => {
                let q = circ(s.rover, j, s.large.len() as int);
                let b = s.large[q - 1];
                if b.nunits == need {
                    (
                        Alloc::Block(b.addr, need as u64),
                        HeapModel { large: s.large.remove(q - 1), rover: q - 1, ..s },
                    )
                } else {
                    (
                        Alloc::Block((b.addr + (b.nunits - need) * HEADER_SIZE) as u64, need as u64),
                        HeapModel {
                            large: s.large.update(
                                q - 1,
                                Block { addr: b.addr, nunits: (b.nunits - need) as u64 },
                            ),
                            rover: q - 1,
                            ..s
                        },
                    )
                }
            },
        }
    }
}

/// Whether `k` is where a block at address `a` goes in the large list:
/// after the blocks below `a` and before those above it.
pub open spec fn pos_ok(large: Seq<Block>, a: int, k: int) -> bool {
    &&& 0 <= k <= large.len()
    &&& k == 0 || large[k - 1].addr < a
    &&& k == large.len() || a < large[k].addr
}

/// Where a block at address `a` goes in the large list.
pub open spec fn insert_pos(large: Seq<Block>, a: int) -> int {
    choose|k: int| pos_ok(large, a, k)
}

/// Whether `b`, put at index `k`, touches the block after it.
pub open spec fn merges_next(large: Seq<Block>, b: Block, k: int) -> bool {
    k < large.len() && block_end(b) == large[k].addr
}

/// Whether `b`, put at index `k`, touches the block before it.
pub open spec fn merges_prev(large: Seq<Block>, b: Block, k: int) -> bool {
    0 < k && block_end(large[k - 1]) == b.addr
}

/// `b` grown by the block after it when it touches that block.
pub open spec fn absorb_next(large: Seq<Block>, b: Block, k: int) -> Block {
    if merges_next(large, b, k) {
        Block { addr: b.addr, nunits: (b.nunits + large[k].nunits) as u64 }
    } else {
        b
    }
}

/// The large list with `b` put at index `k` and merged with the blocks it
/// touches on either side.
pub open spec fn insert_free_at(large: Seq<Block>, b: Block, k: int) -> Seq<Block> {
    let b1 = absorb_next(large, b, k);
    let right = if merges_next(large, b, k) {
        large.skip(k + 1)
    } else {
        large.skip(k)
    };
    if merges_prev(large, b, k) {
        large.take(k - 1).push(
            Block { addr: large[k - 1].addr, nunits: (large[k - 1].nunits + b1.nunits) as u64 },
        ) + right
    } else {
        large.take(k).push(b1) + right
    }
}

/// The large list after `b` is freed into it.
pub open spec fn insert_free(large: Seq<Block>, b: Block) -> Seq<Block> {
    insert_free_at(large, b, insert_pos(large, b.addr as int))
}

/// Whether `b` shares no byte with any block in the bins.
pub open spec fn bins_apart(s: HeapModel, b: Block) -> bool {
    forall|n: int, k: int| #[trigger] bin_pos(s, n, k) ==> apart(b, bin_block(s, n, k))
}

/// Whether `b` shares no byte with any free block.
pub open spec fn apart_from_free(s: HeapModel, b: Block) -> bool {
    &&& forall|i: int| 0 <= i < s.large.len() ==> apart(b, #[trigger] s.large[i])
    &&& bins_apart(s, b)
}

/// Whether `b` can join the large list: above the sentinel, of some size,
/// below `HEAP_TOP`, and apart from every free block.
pub open spec fn can_insert(s: HeapModel, b: Block) -> bool {
    &&& s.sentinel < b.addr
    &&& 1 <= b.nunits
    &&& block_end(b) <= HEAP_TOP
    &&& forall|i: int| 0 <= i < s.large.len() ==> apart(b, #[trigger] s.large[i])
    &&& bins_apart(s, b)
}

/// Whether the block at `header` of `nunits` units may be freed: it shares
/// no byte with any free block, and a large one can join the large list.
pub open spec fn can_free(s: HeapModel, header: u64, nunits: u64) -> bool {
    &&& apart_from_free(s, Block { addr: header, nunits })
    &&& nunits > MAX_BIN_UNITS ==> can_insert(s, Block { addr: header, nunits })
}

/// The allocator after `b` joins the large list; the roving position is
/// left on the block before it.
pub open spec fn spec_free_large(s: HeapModel, b: Block) -> HeapModel {
    HeapModel {
        large: insert_free(s.large, b),
        rover: insert_pos(s.large, b.addr as int),
        ..s
    }
}

/// The allocator after the block at `header` of `nunits` units is freed:
/// pushed on its bin when small, else put in the large list.
pub open spec fn spec_free(s: HeapModel, header: u64, nunits: u64) -> HeapModel {
    if nunits <= MAX_BIN_UNITS {
        HeapModel { bins: s.bins.update(nunits as int, s.bins[nunits as int].push(header)), ..s }
    } else {
        spec_free_large(s, Block { addr: header, nunits })
    }
}

proof fn lemma_sorted_addrs(large: Seq<Block>, sentinel: u64)
    requires
        large_ok(large, sentinel),
    ensures
        forall|i: int, j: int|
            #![trigger large[i], large[j]]
            0 <= i < j < large.len() ==> large[i].addr < large[j].addr,
{
    assert forall|i: int, j: int| 0 <= i < j < large.len() implies large[i].addr < large[j].addr by {
        assert(1 <= large[i].nunits);
    }
}

proof fn lemma_pos_exists(large: Seq<Block>, a: int)
    requires
        forall|i: int, j: int|
            #![trigger large[i], large[j]]
            0 <= i < j < large.len() ==> large[i].addr < large[j].addr,
        forall|i: int| 0 <= i < large.len() ==> (#[trigger] large[i]).addr != a,
    ensures
        exists|k: int| pos_ok(large, a, k),
    decreases large.len(),
{
    if large.len() == 0 {
        assert(pos_ok(large, a, 0));
    } else if large.last().addr < a {
        assert(pos_ok(large, a, large.len() as int));
    } else {
        let s = large.drop_last();
        assert forall|i: int, j: int| #![trigger s[i], s[j]] 0 <= i < j < s.len() implies s[i].addr < s[j].addr by {
            assert(s[i] == large[i] && s[j] == large[j]);
        }
        assert forall|i: int| 0 <= i < s.len() implies (#[trigger] s[i]).addr != a by {
            assert(s[i] == large[i]);
        }
        lemma_pos_exists(s, a);
        let k = choose|k: int| pos_ok(s, a, k);
        assert(large.last() == large[large.len() - 1]);
        if k < s.len() {
            assert(s[k] == large[k]);
        }
        if k > 0 {
            assert(s[k - 1] == large[k - 1]);
        }
        assert(pos_ok(large, a, k));
    }
}

/// Where a block apart from every large block goes is well defined.
proof fn lemma_insert_pos(s: HeapModel, b: Block)
    requires
        model_ok(s),
        can_insert(s, b),
    ensures
        pos_ok(s.large, b.addr as int, insert_pos(s.large, b.addr as int)),
        forall|k: int| pos_ok(s.large, b.addr as int, k) ==> k == insert_pos(s.large, b.addr as int),
{
    let large = s.large;
    let a = b.addr as int;
    lemma_sorted_addrs(large, s.sentinel);
    assert forall|i: int| 0 <= i < large.len() implies (#[trigger] large[i]).addr != a by {
        assert(apart(b, large[i]));
    }
    lemma_pos_exists(large, a);
    let p = insert_pos(large, a);
    assert forall|k: int| pos_ok(large, a, k) implies k == p by {
        if k < p {
            assert(large[k].addr <= large[p - 1].addr);
        } else if k > p {
            assert(large[p].addr <= large[k - 1].addr);
        }
    }
}

proof fn lemma_sub_ok(large: Seq<Block>, sentinel: u64, lo: int, hi: int)
    requires
        large_ok(large, sentinel),
        0 <= lo <= hi <= large.len(),
    ensures
        large_ok(large.subrange(lo, hi), sentinel),
{
    let s = large.subrange(lo, hi);
    assert forall|i: int, j: int| #![trigger s[i], s[j]] 0 <= i < j < s.len() implies block_end(s[i]) <= s[j].addr by {
        assert(s[i] == large[lo + i] && s[j] == large[lo + j]);
    }
    assert forall|i: int| 0 <= i < s.len() implies sentinel < (#[trigger] s[i]).addr && 1 <= s[i].nunits
        && block_end(s[i]) <= HEAP_TOP by {
        assert(s[i] == large[lo + i]);
    }
}

/// A list made of an ordered left part, a block, and an ordered right
/// part is ordered when the block sits between the two parts.
proof fn lemma_join_ok(left: Seq<Block>, m: Block, right: Seq<Block>, sentinel: u64)
    requires
        large_ok(left, sentinel),
        large_ok(right, sentinel),
        sentinel < m.addr,
        1 <= m.nunits,
        block_end(m) <= HEAP_TOP,
        left.len() > 0 ==> block_end(left.last()) <= m.addr,
        right.len() > 0 ==> block_end(m) <= right[0].addr,
    ensures
        large_ok(left.push(m) + right, sentinel),
{
    let r = left.push(m) + right;
    let n = left.len() as int;
    assert forall|i: int| 0 <= i < n implies block_end(#[trigger] left[i]) <= m.addr by {
        if i < n - 1 {
            assert(block_end(left[i]) <= left[n - 1].addr);
        }
    }
    assert forall|j: int| 0 <= j < right.len() implies block_end(m) <= (#[trigger] right[j]).addr by {
        if j > 0 {
            assert(block_end(right[0]) <= right[j].addr);
        }
    }
    assert forall|i: int, j: int| #![trigger r[i], r[j]] 0 <= i < j < r.len() implies block_end(r[i]) <= r[j].addr by {
        if j < n {
            assert(r[i] == left[i] && r[j] == left[j]);
        } else if j == n {
            assert(r[i] == left[i] && r[j] == m);
        } else if i < n {
            assert(r[i] == left[i] && r[j] == right[j - n - 1]);
        } else if i == n {
            assert(r[i] == m && r[j] == right[j - n - 1]);
        } else {
            assert(r[i] == right[i - n - 1] && r[j] == right[j - n - 1]);
        }
    }
    assert forall|i: int| 0 <= i < r.len() implies sentinel < (#[trigger] r[i]).addr && 1 <= r[i].nunits
        && block_end(r[i]) <= HEAP_TOP by {
        if i < n {
            assert(r[i] == left[i]);
        } else if i > n {
            assert(r[i] == right[i - n - 1]);
        }
    }
}

/// Freeing a block into the large list keeps it ordered and apart.
proof fn lemma_insert_free_ok(s: HeapModel, b: Block, k: int)
    requires
        model_ok(s),
        can_insert(s, b),
        pos_ok(s.large, b.addr as int, k),
    ensures
        large_ok(insert_free_at(s.large, b, k), s.sentinel),
        insert_free_at(s.large, b, k).len() >= k,
{
    let large = s.large;
    let len = large.len() as int;
    let b1 = absorb_next(large, b, k);
    let nx = merges_next(large, b, k);
    let right = if nx {
        large.skip(k + 1)
    } else {
        large.skip(k)
    };
    if nx {
        lemma_sub_ok(large, s.sentinel, k + 1, len);
        assert(right == large.subrange(k + 1, len));
        if k + 1 < len {
            assert(block_end(large[k]) <= large[k + 1].addr);
        }
        assert(block_end(b1) == block_end(large[k]));
    } else {
        lemma_sub_ok(large, s.sentinel, k, len);
        assert(right == large.subrange(k, len));
        if k < len {
            assert(apart(b, large[k]));
        }
    }
    assert(right.len() > 0 ==> block_end(b1) <= right[0].addr);
    assert(block_end(b1) <= HEAP_TOP);
    if merges_prev(large, b, k) {
        let prev = large[k - 1];
        let m = Block { addr: prev.addr, nunits: (prev.nunits + b1.nunits) as u64 };
        lemma_sub_ok(large, s.sentinel, 0, k - 1);
        let left = large.take(k - 1);
        assert(left == large.subrange(0, k - 1));
        if k - 1 > 0 {
            assert(left.last() == large[k - 2]);
            assert(block_end(large[k - 2]) <= large[k - 1].addr);
        }
        assert(block_end(m) == block_end(b1));
        lemma_join_ok(left, m, right, s.sentinel);
    } else {
        lemma_sub_ok(large, s.sentinel, 0, k);
        let left = large.take(k);
        assert(left == large.subrange(0, k));
        if k > 0 {
            assert(left.last() == large[k - 1]);
            assert(apart(b, large[k - 1]));
        }
        lemma_join_ok(left, b1, right, s.sentinel);
    }
}

proof fn lemma_remove_ok(large: Seq<Block>, sentinel: u64, i: int)
    requires
        large_ok(large, sentinel),
        0 <= i < large.len(),
    ensures
        large_ok(large.remove(i), sentinel),
{
    let r = large.remove(i);
    assert forall|x: int, y: int| #![trigger r[x], r[y]] 0 <= x < y < r.len() implies block_end(r[x]) <= r[y].addr by {
        let ox = if x < i {
            x
        } else {
            x + 1
        };
        let oy = if y < i {
            y
        } else {
            y + 1
        };
        assert(r[x] == large[ox] && r[y] == large[oy]);
    }
    assert forall|x: int| 0 <= x < r.len() implies sentinel < (#[trigger] r[x]).addr && 1 <= r[x].nunits
        && block_end(r[x]) <= HEAP_TOP by {
        if x < i {
            assert(r[x] == large[x]);
        } else {
            assert(r[x] == large[x + 1]);
        }
    }
}

proof fn lemma_shrink_ok(large: Seq<Block>, sentinel: u64, i: int, n: u64)
    requires
        large_ok(large, sentinel),
        0 <= i < large.len(),
        1 <= n <= large[i].nunits,
    ensures
        large_ok(large.update(i, Block { addr: large[i].addr, nunits: n }), sentinel),
{
    let r = large.update(i, Block { addr: large[i].addr, nunits: n });
    assert forall|x: int, y: int| #![trigger r[x], r[y]] 0 <= x < y < r.len() implies block_end(r[x]) <= r[y].addr by {
        assert(block_end(r[x]) <= block_end(large[x]));
        assert(r[y].addr == large[y].addr);
    }
    assert forall|x: int| 0 <= x < r.len() implies sentinel < (#[trigger] r[x]).addr && 1 <= r[x].nunits
        && block_end(r[x]) <= HEAP_TOP by {
        assert(block_end(r[x]) <= block_end(large[x]));
    }
}

/// The list position of the first block of at least `need` units, searching
/// round from `rover`, if any.
fn find_fit(large: &Vec<Block>, rover: usize, need: u64) -> (r: Option<usize>)
    requires
        rover <= large@.len(),
    ensures
        match first_fit(large@, rover as int, need as int) {
            None => r is None,
            Some(j) => r == Some(circ(rover as int, j, large@.len() as int) as usize),
        },
{
    let len = large.len();
    let ghost rv = rover as int;
    let mut p: usize = if rover == len {
        0
    } else {
        rover + 1
    };
    let ghost mut j: int = 1;
    loop
        invariant
            rover <= len == large@.len(),
            rv == rover,
            1 <= j <= len + 1,
            p == circ(rv, j, len as int),
            forall|k: int| 1 <= k < j ==> !fits(large@, #[trigger] circ(rv, k, len as int), need as int),
        decreases len + 1 - j,
    {
        if p >= 1 && large[p - 1].nunits >= need {
            proof {
                assert(first_fit_at(large@, rv, need as int, j));
                let jj = choose|jj: int| first_fit_at(large@, rv, need as int, jj);
                if jj < j {
                    assert(!fits(large@, circ(rv, jj, len as int), need as int));
                } else if jj > j {
                    assert(!fits(large@, circ(rv, j, len as int), need as int));
                }
            }
            return Some(p);
        }
        if p == rover {
            proof {
                assert(j == len + 1);
                if exists|jj: int| first_fit_at(large@, rv, need as int, jj) {
                    let jj = choose|jj: int| first_fit_at(large@, rv, need as int, jj);
                    assert(!fits(large@, circ(rv, jj, len as int), need as int));
                }
            }
            return None;
        }
        p = if p == len {
            0
        } else {
            p + 1
        };
        proof {
            j = j + 1;
        }
    }
}

/// Find a free block for `nbytes` bytes: from the bin of its size if that
/// holds one, else from the large list (see `spec_malloc`).
pub fn malloc(heap: &mut TinyAllocator, nbytes: u64) -> (r: Alloc)
    requires
        old(heap).wf(),
        nbytes + HEADER_SIZE - 1 <= u64::MAX,
    ensures
        final(heap).wf(),
        (r, final(heap)@) == spec_malloc(old(heap)@, nbytes as int),
{
    let n1 = (nbytes + (HEADER_SIZE - 1)) / HEADER_SIZE + 1;
    let need = if n1 < MIN_UNITS {
        MIN_UNITS
    } else {
        n1
    };
    let ghost s = heap@;
    assert(need == units_for(nbytes as int));
    if need <= MAX_BIN_UNITS {
        let n = need as usize;
        assert(heap.bins@[n as int]@ == s.bins[need as int]);
        if heap.bins[n].len() > 0 {
            let mut bin = heap.bins.remove(n);
            let p = bin.pop().unwrap();
            heap.bins.insert(n, bin);
            proof {
                assert(heap@.bins =~= s.bins.update(need as int, s.bins[need as int].drop_last())) by {
                    assert forall|i: int| 0 <= i < heap@.bins.len() implies heap@.bins[i] == s.bins.update(
                        need as int,
                        s.bins[need as int].drop_last(),
                    )[i] by {
                        if i < n {
                            assert(heap.bins@[i] == old(heap).bins@[i]);
                        } else if i > n {
                            assert(heap.bins@[i] == old(heap).bins@[i]);
                        }
                    }
                }
                assert(heap@ == spec_malloc(s, nbytes as int).1);
                law_malloc_apart_from_free(s, nbytes as int);
            }
            return Alloc::Block(p, need);
        }
    }
    let len = heap.large.len();
    match find_fit(&heap.large, heap.rover, need) {
        None => {
            let units = if need < GROW_UNITS {
                GROW_UNITS
            } else {
                need
            };
            Alloc::Grow(units)
        },
        Some(q) => {
            let ghost j = first_fit(s.large, s.rover, need as int)->0;
            let b = heap.large[q - 1];
            if b.nunits == need {
                heap.large.remove(q - 1);
                heap.rover = q - 1;
                proof {
                    lemma_remove_ok(s.large, s.sentinel, q - 1);
                    assert(heap@ == spec_malloc(s, nbytes as int).1);
                    law_malloc_apart_from_free(s, nbytes as int);
                }
                Alloc::Block(b.addr, need)
            } else {
                let rest = b.nunits - need;
                heap.large.set(q - 1, Block { addr: b.addr, nunits: rest });
                heap.rover = q - 1;
                proof {
                    lemma_shrink_ok(s.large, s.sentinel, q - 1, rest);
                    assert(block_end(b) <= HEAP_TOP);
                    assert(heap@ == spec_malloc(s, nbytes as int).1);
                    law_malloc_apart_from_free(s, nbytes as int);
                }
                Alloc::Block(b.addr + rest * HEADER_SIZE, need)
            }
        },
    }
}

/// Put `b` into the large list: walk round from the roving position to the
/// block before it, merge it with the blocks it touches, and leave the
/// roving position on the block before it.
fn free_large(heap: &mut TinyAllocator, b: Block)
    requires
        old(heap).wf(),
        can_insert(old(heap)@, b),
    ensures
        final(heap).wf(),
        final(heap)@ == spec_free_large(old(heap)@, b),
{
    let ghost s = heap@;
    let len = heap.large.len();
    let a = b.addr;
    proof {
        lemma_insert_pos(s, b);
    }
    let ghost k = insert_pos(s.large, a as int);
    let ghost rv = s.rover;
    let ghost d = if k >= rv {
        k - rv
    } else {
        k - rv + len + 1
    };
    let mut q: usize = heap.rover;
    let ghost mut j: int = 0;
    loop
        invariant
            heap@ == s,
            model_ok(s),
            can_insert(s, b),
            a == b.addr,
            len == s.large.len(),
            rv == s.rover,
            pos_ok(s.large, a as int, k),
            forall|kk: int| pos_ok(s.large, a as int, kk) ==> kk == k,
            0 <= d <= len,
            circ(rv, d, len as int) == k,
            0 <= j <= d,
            q == circ(rv, j, len as int),
        ensures
            heap@ == s,
            q == k,
        decreases d - j,
    {
        let lower = if q == 0 {
            heap.sentinel
        } else {
            heap.large[q - 1].addr
        };
        if lower < a && (q == len || a < heap.large[q].addr) {
            assert(pos_ok(s.large, a as int, q as int));
            break ;
        }
        assert(!pos_ok(s.large, a as int, q as int));
        assert(j < d);
        q = if q == len {
            0
        } else {
            q + 1
        };
        proof {
            j = j + 1;
        }
    }
    let ghost large0 = heap.large@;
    let nx = q < len && a + b.nunits * HEADER_SIZE == heap.large[q].addr;
    assert(nx == merges_next(s.large, b, k));
    let mut b1 = b;
    if nx {
        let nb = heap.large.remove(q);
        assert(block_end(nb) <= HEAP_TOP);
        b1 = Block { addr: a, nunits: b.nunits + nb.nunits };
    }
    assert(b1 == absorb_next(s.large, b, k));
    let mut pv = false;
    if q > 0 {
        let p = heap.large[q - 1];
        assert(p == s.large[q - 1]);
        pv = p.addr + p.nunits * HEADER_SIZE == a;
    }
    assert(pv == merges_prev(s.large, b, k));
    if pv {
        let p = heap.large[q - 1];
        assert(block_end(p) <= HEAP_TOP);
        heap.large.set(q - 1, Block { addr: p.addr, nunits: p.nunits + b1.nunits });
    } else {
        heap.large.insert(q, b1);
    }
    heap.rover = q;
    proof {
        lemma_insert_free_ok(s, b, k);
        assert(heap.large@ =~= insert_free_at(s.large, b, k));
        assert(heap@ == spec_free_large(s, b));
        lemma_free_large_apart(s, b);
    }
}

/// Give back the block at `header` of `nunits` units (see `spec_free`).
pub fn free(heap: &mut TinyAllocator, header: u64, nunits: u64)
    requires
        old(heap).wf(),
        can_free(old(heap)@, header, nunits),
    ensures
        final(heap).wf(),
        final(heap)@ == spec_free(old(heap)@, header, nunits),
{
    let ghost s = heap@;
    if nunits <= MAX_BIN_UNITS {
        let n = nunits as usize;
        let mut bin = heap.bins.remove(n);
        assert(bin@ == s.bins[n as int]);
        bin.push(header);
        heap.bins.insert(n, bin);
        proof {
            assert(heap@.bins =~= s.bins.update(n as int, s.bins[n as int].push(header))) by {
                assert forall|i: int| 0 <= i < heap@.bins.len() implies heap@.bins[i] == s.bins.update(
                    n as int,
                    s.bins[n as int].push(header),
                )[i] by {
                    if i < n {
                        assert(heap.bins@[i] == old(heap).bins@[i]);
                    } else if i > n {
                        assert(heap.bins@[i] == old(heap).bins@[i]);
                    }
                }
            }
            assert(heap@ == spec_free(s, header, nunits));
            lemma_free_small_apart(s, header, nunits);
        }
    } else {
        free_large(heap, Block { addr: header, nunits });
    }
}

/// Add `units` units of fresh memory at `brk`, just obtained from the
/// kernel, to the large list, as `malloc` asked by `Alloc::Grow`.
pub fn heap_grow(heap: &mut TinyAllocator, brk: u64, units: u64)
    requires
        old(heap).wf(),
        can_insert(old(heap)@, Block { addr: brk, nunits: units }),
    ensures
        final(heap).wf(),
        final(heap)@ == spec_free_large(old(heap)@, Block { addr: brk, nunits: units }),
{
    free_large(heap, Block { addr: brk, nunits: units });
}

/// Whether `b` can join the large list (see `can_insert`).
pub fn insertable(heap: &TinyAllocator, b: Block) -> (r: bool)
    requires
        heap.wf(),
    ensures
        r == can_insert(heap@, b),
{
    if b.addr <= heap.sentinel || b.nunits < 1 || b.addr > HEAP_TOP {
        return false;
    }
    let room = (HEAP_TOP - b.addr) / HEADER_SIZE;
    if b.nunits > room {
        assert(b.nunits * HEADER_SIZE > HEAP_TOP - b.addr) by (nonlinear_arith)
            requires
                b.nunits > room,
                room == (HEAP_TOP - b.addr) / (HEADER_SIZE as int),
                b.addr <= HEAP_TOP,
        ;
        return false;
    }
    assert(b.nunits * HEADER_SIZE <= HEAP_TOP - b.addr) by (nonlinear_arith)
        requires
            b.nunits <= room,
            room == (HEAP_TOP - b.addr) / (HEADER_SIZE as int),
            b.addr <= HEAP_TOP,
    ;
    let end = b.addr + b.nunits * HEADER_SIZE;
    let mut i: usize = 0;
    while i < heap.large.len()
        invariant
            heap.wf(),
            end == block_end(b),
            i <= heap.large@.len(),
            forall|x: int| 0 <= x < i ==> apart(b, #[trigger] heap.large@[x]),
        decreases heap.large@.len() - i,
    {
        let c = heap.large[i];
        assert(block_end(c) <= HEAP_TOP);
        let cend = c.addr + c.nunits * HEADER_SIZE;
        if !(end <= c.addr || cend <= b.addr) {
            assert(!apart(b, heap@.large[i as int]));
            return false;
        }
        i = i + 1;
    }
    apart_from_bins(heap, b)
}

/// Whether `b` shares no byte with any block in the bins.
fn apart_from_bins(heap: &TinyAllocator, b: Block) -> (r: bool)
    requires
        heap.wf(),
    ensures
        r == bins_apart(heap@, b),
{
    let bend: u128 = b.addr as u128 + b.nunits as u128 * 16;
    let mut n: usize = 1;
    while n < heap.bins.len()
        invariant
            heap.wf(),
            1 <= n <= heap.bins@.len(),
            bend == block_end(b),
            forall|n1: int, k1: int| 1 <= n1 < n && #[trigger] bin_pos(heap@, n1, k1) ==> apart(b, bin_block(heap@, n1, k1)),
        decreases heap.bins@.len() - n,
    {
        let mut k: usize = 0;
        while k < heap.bins[n].len()
            invariant
                heap.wf(),
                1 <= n < heap.bins@.len(),
                k <= heap.bins@[n as int]@.len(),
                bend == block_end(b),
                forall|n1: int, k1: int| 1 <= n1 < n && #[trigger] bin_pos(heap@, n1, k1) ==> apart(b, bin_block(heap@, n1, k1)),
                forall|k1: int| 0 <= k1 < k && #[trigger] bin_pos(heap@, n as int, k1) ==> apart(b, bin_block(heap@, n as int, k1)),
            decreases heap.bins@[n as int]@.len() - k,
        {
            let a = heap.bins[n][k];
            assert(heap@.bins[n as int][k as int] == a);
            let cend: u128 = a as u128 + n as u128 * 16;
            if !(bend <= a as u128 || cend <= b.addr as u128) {
                assert(bin_pos(heap@, n as int, k as int));
                assert(!apart(b, bin_block(heap@, n as int, k as int)));
                return false;
            }
            assert(bin_pos(heap@, n as int, k as int) ==> apart(b, bin_block(heap@, n as int, k as int)));
            k = k + 1;
        }
        n = n + 1;
    }
    proof {
        assert forall|n1: int, k1: int| #[trigger] bin_pos(heap@, n1, k1) implies apart(b, bin_block(heap@, n1, k1)) by {
            assert(1 <= n1 < n);
        }
    }
    true
}

/// Whether the block at `header` of `nunits` units may be freed (see
/// `can_free`).
pub fn freeable(heap: &TinyAllocator, header: u64, nunits: u64) -> (r: bool)
    requires
        heap.wf(),
    ensures
        r == can_free(heap@, header, nunits),
{
    let b = Block { addr: header, nunits };
    if nunits > MAX_BIN_UNITS {
        return insertable(heap, b);
    }
    let bend: u128 = header as u128 + nunits as u128 * 16;
    let mut i: usize = 0;
    while i < heap.large.len()
        invariant
            heap.wf(),
            bend == block_end(b),
            b == (Block { addr: header, nunits }),
            i <= heap.large@.len(),
            forall|x: int| 0 <= x < i ==> apart(b, #[trigger] heap.large@[x]),
        decreases heap.large@.len() - i,
    {
        let c = heap.large[i];
        assert(heap@.large[i as int] == c);
        let cend: u128 = c.addr as u128 + c.nunits as u128 * 16;
        assert(cend == block_end(c));
        if !(bend <= c.addr as u128 || cend <= header as u128) {
            assert(block_end(b) > c.addr && block_end(c) > b.addr);
            assert(!apart(b, heap@.large[i as int]));
            assert(!apart_from_free(heap@, b));
            return false;
        }
        i = i + 1;
    }
    apart_from_bins(heap, b)
}

/// Whether address `a` lies in block `b`.
pub open spec fn in_block(b: Block, a: int) -> bool {
    b.addr <= a < block_end(b)
}

/// Whether address `a` lies in some block of the list.
pub open spec fn covers(large: Seq<Block>, a: int) -> bool {
    exists|i: int| 0 <= i < large.len() && in_block(#[trigger] large[i], a)
}

/// Freeing a small block and then asking for that size gives the same block
/// back and leaves the allocator as it was.
pub proof fn law_free_then_malloc_small(s: HeapModel, header: u64, nbytes: int)
    requires
        model_ok(s),
        0 <= nbytes,
        units_for(nbytes) <= MAX_BIN_UNITS,
    ensures
        spec_malloc(spec_free(s, header, units_for(nbytes) as u64), nbytes) == (
        Alloc::Block(header, units_for(nbytes) as u64),
        s,
        ),
{
    let n = units_for(nbytes);
    let s1 = spec_free(s, header, n as u64);
    assert(s1.bins[n] == s.bins[n].push(header));
    assert(s1.bins[n].drop_last() =~= s.bins[n]);
    assert(s1.bins.update(n, s1.bins[n].drop_last()) =~= s.bins);
}

/// Blocks at different places in an ordered list share no address.
proof fn lemma_disjoint(large: Seq<Block>, sentinel: u64, i: int, j: int, a: int)
    requires
        large_ok(large, sentinel),
        0 <= i < large.len(),
        0 <= j < large.len(),
        i != j,
        in_block(large[i], a),
    ensures
        !in_block(large[j], a),
{
    if i < j {
        assert(block_end(large[i]) <= large[j].addr);
    } else {
        assert(block_end(large[j]) <= large[i].addr);
    }
}

/// Freeing a block into the large list loses no free memory and adds
/// exactly the block's own.
pub proof fn law_free_keeps_memory(s: HeapModel, b: Block, a: int)
    requires
        model_ok(s),
        can_insert(s, b),
    ensures
        covers(spec_free_large(s, b).large, a) <==> covers(s.large, a) || in_block(b, a),
{
    lemma_insert_pos(s, b);
    let large = s.large;
    let len = large.len() as int;
    let k = insert_pos(large, b.addr as int);
    let mp = merges_prev(large, b, k);
    let mn = merges_next(large, b, k);
    let b1 = absorb_next(large, b, k);
    let kl = if mp {
        k - 1
    } else {
        k
    };
    let kr = if mn {
        k + 1
    } else {
        k
    };
    let m = if mp {
        Block { addr: large[k - 1].addr, nunits: (large[k - 1].nunits + b1.nunits) as u64 }
    } else {
        b1
    };
    let r = insert_free_at(large, b, k);
    lemma_insert_free_ok(s, b, k);
    assert(r =~= large.take(kl).push(m) + large.skip(kr));
    assert(r.len() == kl + 1 + len - kr);
    if mn {
        assert(block_end(large[k]) <= HEAP_TOP);
        assert(block_end(b1) == block_end(large[k]));
    }
    if mp {
        assert(block_end(large[k - 1]) <= HEAP_TOP);
    }
    assert(r[kl] == m);
    assert(in_block(m, a) <==> (mp && in_block(large[k - 1], a)) || in_block(b, a) || (mn && in_block(
        large[k],
        a,
    )));
    if covers(r, a) {
        let x = choose|x: int| 0 <= x < r.len() && in_block(#[trigger] r[x], a);
        if x < kl {
            assert(r[x] == large[x]);
        } else if x > kl {
            assert(r[x] == large[x - kl - 1 + kr]);
        } else if mp && in_block(large[k - 1], a) {
            assert(in_block(large[k - 1], a));
        } else if mn && in_block(large[k], a) {
            assert(in_block(large[k], a));
        }
    }
    if covers(large, a) {
        let i = choose|i: int| 0 <= i < large.len() && in_block(#[trigger] large[i], a);
        if i < kl {
            assert(r[i] == large[i]);
        } else if i >= kr {
            assert(r[i - kr + kl + 1] == large[i]);
        } else {
            assert(in_block(r[kl], a));
        }
    }
    if in_block(b, a) {
        assert(in_block(r[kl], a));
    }
}

/// The block at position `k` of the bin of `n`-unit blocks.
pub open spec fn bin_block(s: HeapModel, n: int, k: int) -> Block {
    Block { addr: s.bins[n][k], nunits: n as u64 }
}

/// Whether `(n, k)` is a position in the bins.
pub open spec fn bin_pos(s: HeapModel, n: int, k: int) -> bool {
    1 <= n < s.bins.len() && 0 <= k < s.bins[n].len()
}

/// The free blocks share no byte: blocks at two positions of the bins, and
/// a binned block and a large one. (Large blocks are apart by `large_ok`.)
pub open spec fn free_apart(s: HeapModel) -> bool {
    &&& forall|n1: int, k1: int, n2: int, k2: int|
        #![trigger bin_block(s, n1, k1), bin_block(s, n2, k2)]
        bin_pos(s, n1, k1) && bin_pos(s, n2, k2) && (n1 != n2 || k1 != k2) ==> apart(
            bin_block(s, n1, k1),
            bin_block(s, n2, k2),
        )
    &&& forall|n: int, k: int, i: int|
        #![trigger bin_block(s, n, k), s.large[i]]
        bin_pos(s, n, k) && 0 <= i < s.large.len() ==> apart(bin_block(s, n, k), s.large[i])
}

/// Two blocks of some size that are not apart share an address.
proof fn lemma_overlap_point(c: Block, d: Block)
    requires
        c.nunits >= 1,
        d.nunits >= 1,
        !apart(c, d),
    ensures
        in_block(c, if c.addr >= d.addr { c.addr as int } else { d.addr as int }),
        in_block(d, if c.addr >= d.addr { c.addr as int } else { d.addr as int }),
{
}

/// Two blocks that share an address are not apart.
proof fn lemma_shared_point(c: Block, d: Block, a: int)
    requires
        in_block(c, a),
        in_block(d, a),
    ensures
        !apart(c, d),
{
}

/// Freeing a block that shares no byte with any free block into its bin
/// keeps the free blocks apart.
proof fn lemma_free_small_apart(s: HeapModel, header: u64, n: u64)
    requires
        model_ok(s),
        free_apart(s),
        apart_from_free(s, Block { addr: header, nunits: n }),
        n <= MAX_BIN_UNITS,
    ensures
        free_apart(spec_free(s, header, n)),
{
    let s2 = spec_free(s, header, n);
    let nb = Block { addr: header, nunits: n };
    let last = s.bins[n as int].len() as int;
    assert forall|n1: int, k1: int| #[trigger] bin_pos(s2, n1, k1) implies (n1 == n && k1 == last && bin_block(s2, n1, k1)
        == nb) || (bin_pos(s, n1, k1) && bin_block(s2, n1, k1) == bin_block(s, n1, k1)) by {
    }
    assert forall|n1: int, k1: int, n2: int, k2: int|
        #![trigger bin_block(s2, n1, k1), bin_block(s2, n2, k2)]
        bin_pos(s2, n1, k1) && bin_pos(s2, n2, k2) && (n1 != n2 || k1 != k2) implies apart(
            bin_block(s2, n1, k1),
            bin_block(s2, n2, k2),
        ) by {
        assert(bin_pos(s2, n1, k1));
        assert(bin_pos(s2, n2, k2));
        if n1 == n && k1 == last {
            assert(bin_pos(s, n2, k2));
            assert(apart(nb, bin_block(s, n2, k2)));
        } else if n2 == n && k2 == last {
            assert(bin_pos(s, n1, k1));
            assert(apart(nb, bin_block(s, n1, k1)));
        } else {
            assert(bin_pos(s, n1, k1) && bin_pos(s, n2, k2));
            assert(apart(bin_block(s, n1, k1), bin_block(s, n2, k2)));
        }
    }
    assert forall|n1: int, k1: int, i: int|
        #![trigger bin_block(s2, n1, k1), s2.large[i]]
        bin_pos(s2, n1, k1) && 0 <= i < s2.large.len() implies apart(bin_block(s2, n1, k1), s2.large[i]) by {
        assert(bin_pos(s2, n1, k1));
        if n1 == n && k1 == last {
            assert(apart(nb, s.large[i]));
        } else {
            assert(bin_pos(s, n1, k1));
            assert(apart(bin_block(s, n1, k1), s.large[i]));
        }
    }
}

/// Freeing a block that shares no byte with any free block into the large
/// list keeps the free blocks apart.
proof fn lemma_free_large_apart(s: HeapModel, b: Block)
    requires
        model_ok(s),
        free_apart(s),
        can_insert(s, b),
        model_ok(spec_free_large(s, b)),
    ensures
        free_apart(spec_free_large(s, b)),
{
    let s2 = spec_free_large(s, b);
    assert(s2.bins == s.bins);
    assert forall|n1: int, k1: int, n2: int, k2: int|
        #![trigger bin_block(s2, n1, k1), bin_block(s2, n2, k2)]
        bin_pos(s2, n1, k1) && bin_pos(s2, n2, k2) && (n1 != n2 || k1 != k2) implies apart(
            bin_block(s2, n1, k1),
            bin_block(s2, n2, k2),
        ) by {
        assert(bin_block(s2, n1, k1) == bin_block(s, n1, k1));
        assert(bin_block(s2, n2, k2) == bin_block(s, n2, k2));
        assert(bin_pos(s, n1, k1) && bin_pos(s, n2, k2));
    }
    assert forall|n1: int, k1: int, i: int|
        #![trigger bin_block(s2, n1, k1), s2.large[i]]
        bin_pos(s2, n1, k1) && 0 <= i < s2.large.len() implies apart(bin_block(s2, n1, k1), s2.large[i]) by {
        let c = bin_block(s, n1, k1);
        let d = s2.large[i];
        assert(bin_block(s2, n1, k1) == c);
        assert(bin_pos(s, n1, k1));
        if !apart(c, d) {
            assert(1 <= d.nunits);
            lemma_overlap_point(c, d);
            let a = if c.addr >= d.addr { c.addr as int } else { d.addr as int };
            assert(covers(s2.large, a));
            law_free_keeps_memory(s, b, a);
            if covers(s.large, a) {
                let j = choose|j: int| 0 <= j < s.large.len() && in_block(#[trigger] s.large[j], a);
                lemma_shared_point(c, s.large[j], a);
                assert(apart(c, s.large[j]));
            } else {
                lemma_shared_point(b, c, a);
                assert(apart(b, c));
            }
        }
    }
}

/// A block `malloc` hands out shares no byte with any block that stays
/// free, when the free blocks shared none before; and the free blocks
/// still share none.
pub proof fn law_malloc_apart_from_free(s: HeapModel, nbytes: int)
    requires
        model_ok(s),
        free_apart(s),
        0 <= nbytes,
        spec_malloc(s, nbytes).0 is Block,
    ensures
        ({
            let (r, s2) = spec_malloc(s, nbytes);
            let got = Block { addr: r->Block_0, nunits: r->Block_1 };
            &&& forall|n: int, k: int| #[trigger] bin_pos(s2, n, k) ==> apart(got, bin_block(s2, n, k))
            &&& forall|i: int| 0 <= i < s2.large.len() ==> apart(got, #[trigger] s2.large[i])
            &&& free_apart(s2)
        }),
{
    let need = units_for(nbytes);
    let (r, s2) = spec_malloc(s, nbytes);
    let got = Block { addr: r->Block_0, nunits: r->Block_1 };
    if need <= MAX_BIN_UNITS && s.bins[need].len() > 0 {
        let last = s.bins[need].len() - 1;
        assert(got == bin_block(s, need, last));
        assert forall|n: int, k: int| #[trigger] bin_pos(s2, n, k) implies apart(got, bin_block(s2, n, k)) by {
            assert(bin_pos(s, n, k));
            assert(bin_block(s2, n, k) == bin_block(s, n, k));
            assert(bin_pos(s, need, last));
        }
        assert forall|i: int| 0 <= i < s2.large.len() implies apart(got, #[trigger] s2.large[i]) by {
            assert(bin_pos(s, need, last));
            assert(apart(bin_block(s, need, last), s.large[i]));
        }
        assert forall|n1: int, k1: int, n2: int, k2: int|
            #![trigger bin_block(s2, n1, k1), bin_block(s2, n2, k2)]
            bin_pos(s2, n1, k1) && bin_pos(s2, n2, k2) && (n1 != n2 || k1 != k2) implies apart(
                bin_block(s2, n1, k1),
                bin_block(s2, n2, k2),
            ) by {
            assert(bin_block(s2, n1, k1) == bin_block(s, n1, k1));
            assert(bin_block(s2, n2, k2) == bin_block(s, n2, k2));
            assert(bin_pos(s, n1, k1) && bin_pos(s, n2, k2));
        }
        assert forall|n: int, k: int, i: int|
            #![trigger bin_block(s2, n, k), s2.large[i]]
            bin_pos(s2, n, k) && 0 <= i < s2.large.len() implies apart(bin_block(s2, n, k), s2.large[i]) by {
            assert(bin_block(s2, n, k) == bin_block(s, n, k));
            assert(bin_pos(s, n, k));
        }
    } else {
        let large = s.large;
        let j = first_fit(large, s.rover, need)->0;
        assert(first_fit_at(large, s.rover, need, j));
        let q = circ(s.rover, j, large.len() as int);
        let i0 = q - 1;
        let b = large[i0];
        assert(s2.bins == s.bins);
        assert forall|n: int, k: int| #[trigger] bin_pos(s2, n, k) implies apart(got, bin_block(s2, n, k)) by {
            assert(bin_block(s2, n, k) == bin_block(s, n, k));
            assert(apart(bin_block(s, n, k), large[i0]));
        }
        assert forall|n1: int, k1: int, n2: int, k2: int|
            #![trigger bin_block(s2, n1, k1), bin_block(s2, n2, k2)]
            bin_pos(s2, n1, k1) && bin_pos(s2, n2, k2) && (n1 != n2 || k1 != k2) implies apart(
                bin_block(s2, n1, k1),
                bin_block(s2, n2, k2),
            ) by {
            assert(bin_block(s2, n1, k1) == bin_block(s, n1, k1));
            assert(bin_block(s2, n2, k2) == bin_block(s, n2, k2));
        }
        if b.nunits == need {
            let r2 = large.remove(i0);
            assert(s2.large == r2);
            assert forall|i: int| 0 <= i < s2.large.len() implies apart(got, #[trigger] s2.large[i]) by {
                if i < i0 {
                    assert(r2[i] == large[i]);
                    assert(block_end(large[i]) <= large[i0].addr);
                } else {
                    assert(r2[i] == large[i + 1]);
                    assert(block_end(large[i0]) <= large[i + 1].addr);
                }
            }
            assert forall|n: int, k: int, i: int|
                #![trigger bin_block(s2, n, k), s2.large[i]]
                bin_pos(s2, n, k) && 0 <= i < s2.large.len() implies apart(bin_block(s2, n, k), s2.large[i]) by {
                assert(bin_block(s2, n, k) == bin_block(s, n, k));
                if i < i0 {
                    assert(r2[i] == large[i]);
                    assert(apart(bin_block(s, n, k), large[i]));
                } else {
                    assert(r2[i] == large[i + 1]);
                    assert(apart(bin_block(s, n, k), large[i + 1]));
                }
            }
        } else {
            let head = Block { addr: b.addr, nunits: (b.nunits - need) as u64 };
            assert(s2.large == large.update(i0, head));
            assert forall|i: int| 0 <= i < s2.large.len() implies apart(got, #[trigger] s2.large[i]) by {
                if i < i0 {
                    assert(block_end(large[i]) <= large[i0].addr);
                } else if i > i0 {
                    assert(block_end(large[i0]) <= large[i].addr);
                }
            }
            assert forall|n: int, k: int, i: int|
                #![trigger bin_block(s2, n, k), s2.large[i]]
                bin_pos(s2, n, k) && 0 <= i < s2.large.len() implies apart(bin_block(s2, n, k), s2.large[i]) by {
                assert(bin_block(s2, n, k) == bin_block(s, n, k));
                assert(apart(bin_block(s, n, k), large[i]));
            }
        }
    }
}

/// A block that `malloc` takes from the large list was free memory, and
/// the list afterwards holds the free memory it held before, less that
/// block.
pub proof fn law_malloc_takes_free_memory(s: HeapModel, nbytes: int, a: int)
    requires
        model_ok(s),
        0 <= nbytes,
        !(units_for(nbytes) <= MAX_BIN_UNITS && s.bins[units_for(nbytes)].len() > 0),
        spec_malloc(s, nbytes).0 is Block,
    ensures
        ({
            let (r, s2) = spec_malloc(s, nbytes);
            let got = Block { addr: r->Block_0, nunits: r->Block_1 };
            &&& in_block(got, a) ==> covers(s.large, a)
            &&& covers(s2.large, a) <==> covers(s.large, a) && !in_block(got, a)
        }),
{
    let need = units_for(nbytes);
    let large = s.large;
    let j = first_fit(large, s.rover, need)->0;
    assert(first_fit_at(large, s.rover, need, j));
    let q = circ(s.rover, j, large.len() as int);
    let i = q - 1;
    let b = large[i];
    let (r, s2) = spec_malloc(s, nbytes);
    assert(block_end(b) <= HEAP_TOP);
    if b.nunits == need {
        let got = b;
        let r2 = large.remove(i);
        assert(s2.large == r2);
        if in_block(got, a) {
            assert(in_block(large[i], a));
        }
        if covers(r2, a) {
            let x = choose|x: int| 0 <= x < r2.len() && in_block(#[trigger] r2[x], a);
            let ox = if x < i {
                x
            } else {
                x + 1
            };
            assert(r2[x] == large[ox]);
            lemma_disjoint(large, s.sentinel, ox, i, a);
        }
        if covers(large, a) && !in_block(got, a) {
            let y = choose|y: int| 0 <= y < large.len() && in_block(#[trigger] large[y], a);
            if y < i {
                assert(r2[y] == large[y]);
            } else {
                assert(y != i);
                assert(r2[y - 1] == large[y]);
            }
        }
    } else {
        let rest = (b.nunits - need) as u64;
        let got = Block { addr: (b.addr + rest * HEADER_SIZE) as u64, nunits: need as u64 };
        let head = Block { addr: b.addr, nunits: rest };
        let r2 = large.update(i, head);
        assert(s2.large == r2);
        assert(r == Alloc::Block(got.addr, got.nunits));
        assert(in_block(b, a) <==> in_block(head, a) || in_block(got, a));
        if in_block(got, a) {
            assert(in_block(large[i], a));
        }
        if covers(r2, a) {
            let x = choose|x: int| 0 <= x < r2.len() && in_block(#[trigger] r2[x], a);
            if x == i {
                assert(in_block(large[i], a));
            } else {
                assert(r2[x] == large[x]);
                lemma_disjoint(large, s.sentinel, x, i, a);
            }
        }
        if covers(large, a) && !in_block(got, a) {
            let y = choose|y: int| 0 <= y < large.len() && in_block(#[trigger] large[y], a);
            if y == i {
                assert(in_block(r2[i], a));
            } else {
                assert(r2[y] == large[y]);
            }
        }
    }
}

/// Whether no two neighbouring blocks of the list touch.
pub open spec fn coalesced(large: Seq<Block>) -> bool {
    forall|i: int, j: int|
        #![trigger large[i], large[j]]
        0 <= i && j == i + 1 && j < large.len() ==> block_end(large[i]) < large[j].addr
}

/// Freeing into the large list merges the block with the free blocks it
/// touches, so a list with no touching neighbours keeps none.
pub proof fn law_free_coalesces(s: HeapModel, b: Block)
    requires
        model_ok(s),
        can_insert(s, b),
        coalesced(s.large),
    ensures
        coalesced(spec_free_large(s, b).large),
{
    lemma_insert_pos(s, b);
    let large = s.large;
    let len = large.len() as int;
    let k = insert_pos(large, b.addr as int);
    let mp = merges_prev(large, b, k);
    let mn = merges_next(large, b, k);
    let b1 = absorb_next(large, b, k);
    let kl = if mp {
        k - 1
    } else {
        k
    };
    let kr = if mn {
        k + 1
    } else {
        k
    };
    let m = if mp {
        Block { addr: large[k - 1].addr, nunits: (large[k - 1].nunits + b1.nunits) as u64 }
    } else {
        b1
    };
    let r = insert_free_at(large, b, k);
    assert(r =~= large.take(kl).push(m) + large.skip(kr));
    if mn {
        assert(block_end(large[k]) <= HEAP_TOP);
        assert(block_end(b1) == block_end(large[k]));
    }
    if mp {
        assert(block_end(large[k - 1]) <= HEAP_TOP);
    }
    assert forall|i: int, j: int| #![trigger r[i], r[j]] 0 <= i && j == i + 1 && j < r.len() implies block_end(r[i])
        < r[j].addr by {
        if j < kl {
            assert(r[i] == large[i] && r[j] == large[j]);
        } else if j == kl {
            assert(r[i] == large[i] && r[j] == m);
            if mp {
                assert(large[k - 1] == large[i + 1]);
            } else {
                assert(apart(b, large[k - 1]));
            }
        } else if i == kl {
            assert(r[i] == m && r[j] == large[kr]);
            if mn {
                assert(large[k + 1] == large[k + 1]);
            } else {
                assert(apart(b, large[k]));
            }
        } else {
            assert(r[i] == large[i - kl - 1 + kr] && r[j] == large[j - kl - 1 + kr]);
        }
    }
}

/// Taking a block from the large list never makes two free blocks touch.
pub proof fn law_malloc_coalesced(s: HeapModel, nbytes: int)
    requires
        model_ok(s),
        0 <= nbytes,
        coalesced(s.large),
    ensures
        coalesced(spec_malloc(s, nbytes).1.large),
{
    let need = units_for(nbytes);
    let large = s.large;
    if !(need <= MAX_BIN_UNITS && s.bins[need].len() > 0) {
        if let Some(j) = first_fit(large, s.rover, need) {
            assert(first_fit_at(large, s.rover, need, j));
            let i = circ(s.rover, j, large.len() as int) - 1;
            let b = large[i];
            let r = spec_malloc(s, nbytes).1.large;
            if b.nunits == need {
                assert forall|x: int, y: int| #![trigger r[x], r[y]] 0 <= x && y == x + 1 && y < r.len() implies block_end(
                    r[x],
                ) < r[y].addr by {
                    if y < i {
                        assert(r[x] == large[x] && r[y] == large[y]);
                    } else if y == i {
                        assert(r[x] == large[x] && r[y] == large[i + 1]);
                        assert(block_end(large[i]) <= large[i + 1].addr);
                    } else {
                        assert(r[x] == large[x + 1] && r[y] == large[y + 1]);
                    }
                }
            } else {
                assert forall|x: int, y: int| #![trigger r[x], r[y]] 0 <= x && y == x + 1 && y < r.len() implies block_end(
                    r[x],
                ) < r[y].addr by {
                    assert(block_end(r[x]) <= block_end(large[x]));
                    assert(r[y].addr == large[y].addr);
                }
            }
        }
    }
}

} // verus!
