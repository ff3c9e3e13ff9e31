use vstd::prelude::*;
use crate::util::PG_SIZE;

verus! {

/// Round an address up to the next page boundary.
pub fn pgroundup(sz: u64) -> (r: u64)
    requires
        sz + PG_SIZE - 1 <= u64::MAX,
    ensures
        r == round_up_page(sz as int),
{
    let s: u64 = sz + ((PG_SIZE as u64) - 1);
    let r = s & !((PG_SIZE as u64) - 1);
    assert((s & !4095u64) == s - s % 4096) by (bit_vector);
    r
}

/// The page boundary at or above `x`.
pub open spec fn round_up_page(x: int) -> int {
    (x + PG_SIZE - 1) - (x + PG_SIZE - 1) % (PG_SIZE as int)
}

/// The pages `first`, `first + PG_SIZE`, ... that lie wholly below `end`, in ascending order.
pub open spec fn pages_between(first: int, end: int) -> Seq<u64>
    decreases end - first,
{
    if first + PG_SIZE > end || first < 0 {
        Seq::empty()
    } else {
        seq![first as u64] + pages_between(first + PG_SIZE, end)
    }
}

/// The physical page allocator: a stack of free pages.
///
/// Freed pages are pushed on top, and `kalloc` hands out the page on top, so
/// the page freed last is the page allocated first.
pub struct Allocator {
    pub freelist: Vec<u64>,
}

/// A free page, as the allocator threads it into its free list.
pub struct Run {
    pub next: u64,
}

impl View for Allocator {
    type V = Seq<u64>;

    open spec fn view(&self) -> Seq<u64> {
        self.freelist@
    }
}

impl Allocator {
    /// No page occurs twice in the free list and no free page is at address 0
    /// (which `kalloc` uses to say that memory is exhausted).
    pub open spec fn wf(&self) -> bool {
        &&& self@.no_duplicates()
        &&& !self@.contains(0u64)
    }

    pub fn new() -> (r: Self)
        ensures
            r@ == Seq::<u64>::empty(),
            r.wf(),
    {
        Allocator { freelist: Vec::new() }
    }

    /// Free every whole page in `[vstart, vend)`, starting at the first page
    /// boundary at or above `vstart`, in ascending order.
    pub fn init(&mut self, vstart: u64, vend: u64)
        requires
            old(self).wf(),
            vstart + PG_SIZE - 1 <= u64::MAX,
            vend + PG_SIZE <= u64::MAX,
            round_up_page(vstart as int) > 0,
            round_up_page(vstart as int) + PG_SIZE <= u64::MAX,
            forall|i: int|
                0 <= i < old(self)@.len() ==> #[trigger] old(self)@[i] < round_up_page(vstart as int)
                    || old(self)@[i] >= vend,
        ensures
            final(self).wf(),
            final(self)@ == old(self)@ + pages_between(round_up_page(vstart as int), vend as int),
    {
        let mut p = pgroundup(vstart);
        let ghost start = p as int;
        proof {
            assert(p % 4096 == 0);
        }
        while p + (PG_SIZE as u64) <= vend
            invariant
                0 <= start <= p,
                start + PG_SIZE <= u64::MAX,
                p == start || p <= vend,
                p > 0,
                vend + PG_SIZE <= u64::MAX,
                (p - start) % 4096 == 0,
                self.wf(),
                self@ == old(self)@ + pages_between(start, p as int),
                forall|i: int|
                    0 <= i < old(self)@.len() ==> #[trigger] old(self)@[i] < start
                        || old(self)@[i] >= vend,
                forall|i: int| 0 <= i < self@.len() ==> #[trigger] self@[i] < p || self@[i] >= vend,
            decreases vend - p,
        {
            proof {
                lemma_pages_between_snoc(start, p as int);
            }
            self.kfree(p);
            p = p + (PG_SIZE as u64);
        }
        proof {
            lemma_pages_between_stop(start, p as int, vend as int);
        }
    }

    /// Put a page on top of the free list.
    pub fn kfree(&mut self, addr: u64)
        requires
            old(self).wf(),
            addr != 0,
            !old(self)@.contains(addr),
        ensures
            final(self).wf(),
            final(self)@ == old(self)@.push(addr),
    {
        self.freelist.push(addr);
        proof {
            assert(self@.no_duplicates()) by {
                assert forall|i: int, j: int|
                    0 <= i < self@.len() && 0 <= j < self@.len() && i != j implies self@[i]
                    != self@[j] by {
                    if i == old(self)@.len() as int {
                        assert(old(self)@.contains(self@[j]) || self@[j] != addr);
                    } else if j == old(self)@.len() as int {
                        assert(old(self)@.contains(self@[i]));
                    }
                }
            }
            assert(!self@.contains(0u64)) by {
                if self@.contains(0u64) {
                    let k = choose|k: int| 0 <= k < self@.len() && self@[k] == 0u64;
                    if k < old(self)@.len() {
                        assert(old(self)@.contains(0u64));
                    }
                }
            }
        }
    }

    /// Take the page on top of the free list; 0 when no page is free.
    pub fn kalloc(&mut self) -> (r: u64)
        requires
            old(self).wf(),
        ensures
            final(self).wf(),
            old(self)@.len() == 0 ==> r == 0 && final(self)@ == old(self)@,
            old(self)@.len() > 0 ==> r == old(self)@.last() && final(self)@ == old(self)@.drop_last(),
            r != 0 <==> old(self)@.len() > 0,
    {
        match self.freelist.pop() {
            None => 0,
            Some(a) => {
                proof {
                    assert(old(self)@.contains(a));
                    assert(self@ =~= old(self)@.drop_last());
                    assert forall|x: u64| self@.contains(x) implies old(self)@.contains(x) by {
                        let k = choose|k: int| 0 <= k < self@.len() && self@[k] == x;
                        assert(old(self)@[k] == x);
                    }
                }
                a
            },
        }
    }
}

proof fn lemma_pages_between_snoc(first: int, p: int)
    requires
        0 <= first <= p,
        (p - first) % 4096 == 0,
    ensures
        pages_between(first, p + PG_SIZE) == pages_between(first, p).push(p as u64),
    decreases p - first,
{
    if first == p {
        assert(pages_between(p + PG_SIZE, p + PG_SIZE) == Seq::<u64>::empty());
        assert(pages_between(p, p) == Seq::<u64>::empty());
        assert(pages_between(first, p + PG_SIZE) =~= seq![p as u64]);
    } else {
        lemma_pages_between_snoc(first + PG_SIZE, p);
        assert(pages_between(first, p + PG_SIZE) =~= pages_between(first, p).push(p as u64));
    }
}

proof fn lemma_pages_between_stop(first: int, p: int, end: int)
    requires
        0 <= first <= p,
        (p - first) % 4096 == 0,
        p + PG_SIZE > end,
        p == first || p <= end,
    ensures
        pages_between(first, p) == pages_between(first, end),
    decreases p - first,
{
    if first == p {
    } else {
        lemma_pages_between_stop(first + PG_SIZE, p, end);
    }
}

/// A page freed and then allocated is handed back, and the free list is as it
/// was before the free.
pub proof fn law_kalloc_returns_last_freed(free: Seq<u64>, addr: u64)
    ensures
        free.push(addr).last() == addr,
        free.push(addr).drop_last() == free,
{
    assert(free.push(addr).drop_last() =~= free);
}

}
