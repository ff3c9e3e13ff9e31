use lib::allocator::{pgroundup, Allocator};
use lib::heap::{free, freeable, heap_grow, insertable, malloc, Alloc, Block, TinyAllocator};
use lib::pipe::{pipealloc, PipeData, PipeRead, PipeWrite, PIPESIZE};

#[test]
fn pgroundup_rounds_to_pages() {
    assert_eq!(pgroundup(0), 0);
    assert_eq!(pgroundup(1), 4096);
    assert_eq!(pgroundup(4096), 4096);
    assert_eq!(pgroundup(4097), 8192);
}

#[test]
fn init_frees_whole_pages_in_order() {
    let mut a = Allocator::new();
    a.init(0x1000, 0x5000);
    assert_eq!(a.freelist, vec![0x1000, 0x2000, 0x3000, 0x4000]);
    let mut b = Allocator::new();
    b.init(0x1001, 0x3000);
    assert_eq!(b.freelist, vec![0x2000]);
}

#[test]
fn kalloc_takes_the_top_page() {
    let mut a = Allocator::new();
    a.init(0x1000, 0x3000);
    assert_eq!(a.kalloc(), 0x2000);
    assert_eq!(a.kalloc(), 0x1000);
    assert_eq!(a.kalloc(), 0);
    assert!(a.freelist.is_empty());
}

#[test]
fn kalloc_returns_last_freed() {
    let mut a = Allocator::new();
    a.init(0x1000, 0x3000);
    a.kfree(0x9000);
    assert_eq!(a.kalloc(), 0x9000);
    assert_eq!(a.freelist, vec![0x1000, 0x2000]);
}

#[test]
fn pipe_returns_bytes_in_order() {
    let mut p = PipeData::new();
    assert!(matches!(p.pipewrite(b"hello"), PipeWrite::Done(5)));
    assert!(matches!(p.pipewrite(b" world"), PipeWrite::Done(6)));
    match p.piperead(100, false) {
        PipeRead::Data(v) => assert_eq!(v, b"hello world".to_vec()),
        _ => panic!("expected data"),
    }
    assert_eq!(p.nread, 11);
    assert_eq!(p.nwrite, 11);
}

#[test]
fn pipe_read_takes_at_most_n() {
    let mut p = PipeData::new();
    p.pipewrite(b"abcdef");
    match p.piperead(4, false) {
        PipeRead::Data(v) => assert_eq!(v, b"abcd".to_vec()),
        _ => panic!("expected data"),
    }
    match p.piperead(4, false) {
        PipeRead::Data(v) => assert_eq!(v, b"ef".to_vec()),
        _ => panic!("expected data"),
    }
}

#[test]
fn pipe_empty_read_sleeps_or_fails_when_killed() {
    let mut p = PipeData::new();
    assert!(matches!(p.piperead(1, false), PipeRead::Empty));
    assert!(matches!(p.piperead(1, true), PipeRead::Killed));
}

#[test]
fn pipe_read_after_writer_closed_is_end_of_file() {
    let mut p = PipeData::new();
    p.pipewrite(b"x");
    assert!(!p.pipeclose(true));
    match p.piperead(8, false) {
        PipeRead::Data(v) => assert_eq!(v, b"x".to_vec()),
        _ => panic!("expected data"),
    }
    match p.piperead(8, false) {
        PipeRead::Data(v) => assert!(v.is_empty()),
        _ => panic!("expected end of file"),
    }
}

#[test]
fn pipe_fills_then_wraps() {
    let mut p = PipeData::new();
    let big = vec![7u8; PIPESIZE + 10];
    assert!(matches!(p.pipewrite(&big), PipeWrite::Full(n) if n == PIPESIZE));
    match p.piperead(300, false) {
        PipeRead::Data(v) => assert_eq!(v.len(), 300),
        _ => panic!("expected data"),
    }
    let tail: Vec<u8> = (0u8..100).collect();
    assert!(matches!(p.pipewrite(&tail), PipeWrite::Done(100)));
    match p.piperead(1000, false) {
        PipeRead::Data(v) => {
            assert_eq!(v.len(), PIPESIZE - 300 + 100);
            assert_eq!(&v[PIPESIZE - 300..], &tail[..]);
        }
        _ => panic!("expected data"),
    }
}

#[test]
fn pipe_write_to_closed_reader_is_broken() {
    let mut p = PipeData::new();
    assert!(!p.pipeclose(false));
    assert!(matches!(p.pipewrite(b"a"), PipeWrite::Broken));
    assert!(p.pipeclose(true));
}

#[test]
fn pipealloc_needs_a_page() {
    let mut a = Allocator::new();
    assert!(pipealloc(&mut a).is_err());
    a.kfree(0x7000);
    assert_eq!(pipealloc(&mut a), Ok(0x7000));
}

#[test]
fn malloc_on_empty_heap_asks_to_grow() {
    let mut h = TinyAllocator::new(0x1000);
    assert_eq!(malloc(&mut h, 24), Alloc::Grow(4096));
    assert_eq!(malloc(&mut h, 100_000), Alloc::Grow(6251));
}

#[test]
fn malloc_splits_the_tail_of_a_large_block() {
    let mut h = TinyAllocator::new(0x1000);
    heap_grow(&mut h, 0x10000, 4096);
    // 24 bytes: two data units and a header unit.
    assert_eq!(malloc(&mut h, 24), Alloc::Block(0x10000 + 4093 * 16, 3));
    assert_eq!(h.large, vec![Block { addr: 0x10000, nunits: 4093 }]);
    assert_eq!(h.rover, 0);
}

#[test]
fn malloc_rounds_small_requests_up() {
    let mut h = TinyAllocator::new(0x1000);
    heap_grow(&mut h, 0x10000, 4096);
    assert_eq!(malloc(&mut h, 0), Alloc::Block(0x10000 + 4094 * 16, 2));
    assert_eq!(malloc(&mut h, 16), Alloc::Block(0x10000 + 4092 * 16, 2));
    assert_eq!(malloc(&mut h, 17), Alloc::Block(0x10000 + 4089 * 16, 3));
}

#[test]
fn small_block_freed_comes_back() {
    let mut h = TinyAllocator::new(0x1000);
    heap_grow(&mut h, 0x10000, 4096);
    let a = malloc(&mut h, 24);
    let Alloc::Block(addr, n) = a else { panic!("expected a block") };
    free(&mut h, addr, n);
    assert_eq!(h.bins[3], vec![addr]);
    assert_eq!(malloc(&mut h, 24), Alloc::Block(addr, 3));
    assert!(h.bins[3].is_empty());
}

#[test]
fn large_block_of_exact_size_is_taken_whole() {
    let mut h = TinyAllocator::new(0x1000);
    free(&mut h, 0x50000, 40);
    assert_eq!(h.large, vec![Block { addr: 0x50000, nunits: 40 }]);
    assert_eq!(malloc(&mut h, 624), Alloc::Block(0x50000, 40));
    assert!(h.large.is_empty());
}

#[test]
fn free_merges_with_neighbours() {
    let mut h = TinyAllocator::new(0x1000);
    heap_grow(&mut h, 0x10000, 64);
    free(&mut h, 0x10000 + 64 * 16, 32);
    assert_eq!(h.large, vec![Block { addr: 0x10000, nunits: 96 }]);
    free(&mut h, 0x10000 - 32 * 16, 32);
    assert_eq!(h.large, vec![Block { addr: 0x10000 - 32 * 16, nunits: 128 }]);
    free(&mut h, 0x40000, 40);
    assert_eq!(
        h.large,
        vec![Block { addr: 0x10000 - 32 * 16, nunits: 128 }, Block { addr: 0x40000, nunits: 40 }]
    );
    assert_eq!(h.rover, 1);
}

#[test]
fn search_starts_at_the_roving_position() {
    let mut h = TinyAllocator::new(0x1000);
    free(&mut h, 0x20000, 100);
    free(&mut h, 0x40000, 100);
    // The rover sits on the first block; the search starts after it.
    assert_eq!(h.rover, 1);
    assert_eq!(malloc(&mut h, 24), Alloc::Block(0x40000 + 97 * 16, 3));
    // It is left on the position before the block it split.
    assert_eq!(h.rover, 1);
}

#[test]
fn insertable_checks_the_region() {
    let mut h = TinyAllocator::new(0x1000);
    heap_grow(&mut h, 0x10000, 64);
    assert!(!insertable(&h, Block { addr: 0x800, nunits: 4 }));
    assert!(!insertable(&h, Block { addr: 0x10100, nunits: 4 }));
    assert!(!insertable(&h, Block { addr: 0x2000, nunits: 0 }));
    assert!(!insertable(&h, Block { addr: 0x7fff_ffff_ff00, nunits: 64 }));
    assert!(insertable(&h, Block { addr: 0x10400, nunits: 4 }));
}

#[test]
fn a_block_handed_out_overlaps_no_free_block() {
    let mut h = TinyAllocator::new(0x1000);
    free(&mut h, 0x20000, 100);
    free(&mut h, 0x40000, 100);
    free(&mut h, 0x60000, 3);
    let Alloc::Block(addr, n) = malloc(&mut h, 200) else { panic!("expected a block") };
    let end = addr + n * 16;
    for b in &h.large {
        let b_end = b.addr + b.nunits * 16;
        assert!(end <= b.addr || b_end <= addr);
    }
    for (units, bin) in h.bins.iter().enumerate() {
        for &a in bin {
            assert!(end <= a || a + units as u64 * 16 <= addr);
        }
    }
}

#[test]
fn freeing_checks_the_block_is_not_free_already() {
    let mut h = TinyAllocator::new(0x1000);
    free(&mut h, 0x50000, 40);
    free(&mut h, 0x60000, 3);
    // Overlaps the large free block.
    assert!(!freeable(&h, 0x50000 + 16, 3));
    // Overlaps the binned block.
    assert!(!freeable(&h, 0x60000 + 16, 40));
    assert!(!insertable(&h, Block { addr: 0x60000, nunits: 40 }));
    assert!(freeable(&h, 0x70000, 3));
    assert!(freeable(&h, 0x70000, 40));
}
