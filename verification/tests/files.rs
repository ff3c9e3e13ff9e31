use lib::allocator::Allocator;
use lib::bio::{binit, bread, bread_fill, brelse, bwrite, Bcache, Bread, NBUF};
use lib::file::{
    file_advance, filealloc, fileclose, filedup, fileread, filestat, filewrite, CloseAction, File, FileOp,
    FileTable, FileType,
};
use lib::fs::{
    bmap, bmap_indirect, dir_scan, dirlookup, fsinit, gdt_block, is_dir, locate_inode, parse_dir_entry, parse_disk_inode,
    parse_superblock, readi_start, DirStep, DiskInode, BSIZE,
};
use lib::syscall::{
    argfd, exec_args, fdalloc, fetch_str, fetch_word, sys_close, sys_dup, sys_open, sys_open_begin, sys_pipe,
    syscall_number,
    OpenTarget, Syscall,
};
use lib::trap::TrapFrame;

fn tf_with(rdi: u64, rsi: u64) -> TrapFrame {
    TrapFrame {
        rax: 0, rbx: 0, rcx: 0, rdx: 0, rbp: 0, rsi, rdi, r8: 0, r9: 0, r10: 0, r11: 0, r12: 0,
        r13: 0, r14: 0, r15: 0, trap_num: 0, error_code: 0, rip: 0, cs: 0, rflags: 0, rsp: 0, ss: 0,
    }
}

fn put32(b: &mut [u8], off: usize, v: u32) {
    b[off..off + 4].copy_from_slice(&v.to_le_bytes());
}

fn put16(b: &mut [u8], off: usize, v: u16) {
    b[off..off + 2].copy_from_slice(&v.to_le_bytes());
}

#[test]
fn superblock_and_group_descriptors() {
    let mut sb = vec![0u8; BSIZE];
    put32(&mut sb, 0, 128);
    put32(&mut sb, 20, 1);
    put32(&mut sb, 40, 64);
    put16(&mut sb, 56, 0xEF53);
    let s = parse_superblock(&sb);
    assert_eq!(s.s_inodes_count, 128);
    assert_eq!(s.s_inodes_per_group, 64);
    assert_eq!(s.s_magic, 0xEF53);
    assert_eq!(gdt_block(&s), 2);
    let mut gd = vec![0u8; BSIZE];
    put32(&mut gd, 8, 5);
    put32(&mut gd, 32 + 8, 300);
    let fs = fsinit(&sb, &gd);
    assert_eq!(fs.gdt.len(), 32);
    assert_eq!(fs.gdt[0].bg_inode_table, 5);
    assert_eq!(fs.gdt[1].bg_inode_table, 300);
    // Inode 2 is the second of group 0: 128 bytes into the inode table.
    assert_eq!(locate_inode(&fs, 2), (5, 128));
    // Inode 10: offset 9 * 128 = 1152, one block further.
    assert_eq!(locate_inode(&fs, 10), (6, 128));
    // Inode 65 is the first of group 1.
    assert_eq!(locate_inode(&fs, 65), (300, 0));
}

#[test]
fn inodes_and_blocks() {
    let mut b = vec![0u8; BSIZE];
    put16(&mut b, 128, 0x41ED);
    put32(&mut b, 128 + 4, 3000);
    put32(&mut b, 128 + 40, 77);
    put32(&mut b, 128 + 44, 78);
    let ip = parse_disk_inode(&b, 128);
    assert_eq!(ip.i_mode, 0x41ED);
    assert!(is_dir(ip.i_mode));
    assert!(!is_dir(0x81A4));
    assert_eq!(ip.i_size, 3000);
    assert_eq!(bmap(&ip, 0, &[]), 77);
    assert_eq!(bmap(&ip, 1, &[]), 78);
    assert_eq!(bmap_indirect(&ip, 1), None);
    assert_eq!(bmap_indirect(&ip, 12), None);
    assert_eq!(bmap(&ip, 12, &[]), 0);
    let z = DiskInode::zeroed();
    assert_eq!(z.i_mode, 0);
}

#[test]
fn readi_reads_across_blocks_and_stops_at_the_end() {
    let mut ip = DiskInode::zeroed();
    ip.i_size = 1500;
    ip.i_block[0] = 40;
    ip.i_block[1] = 41;
    let mut r = readi_start(&ip, 1000, 1000);
    assert_eq!(r.m, 500);
    assert_eq!(r.next_block(&ip, &[]), Some(40));
    let blk0: Vec<u8> = (0..BSIZE).map(|i| (i % 251) as u8).collect();
    r.consume(&blk0);
    assert_eq!(r.out.len(), 24);
    assert_eq!(r.offset, 1024);
    assert_eq!(r.next_block(&ip, &[]), Some(41));
    let blk1 = vec![9u8; BSIZE];
    r.consume(&blk1);
    assert_eq!(r.m, 0);
    assert_eq!(r.out.len(), 500);
    assert_eq!(&r.out[..24], &blk0[1000..]);
    assert_eq!(r.next_block(&ip, &[]), None);
    assert_eq!(readi_start(&ip, 2000, 10).m, 0);
}

#[test]
fn singly_indirect_blocks_are_resolved() {
    let mut ip = DiskInode::zeroed();
    ip.i_block[12] = 500;
    let mut ind = vec![0u8; BSIZE];
    put32(&mut ind, 0, 901);
    put32(&mut ind, 4 * 255, 902);
    assert_eq!(bmap_indirect(&ip, 12), Some(500));
    assert_eq!(bmap_indirect(&ip, 267), Some(500));
    assert_eq!(bmap_indirect(&ip, 268), None);
    assert_eq!(bmap(&ip, 12, &ind), 901);
    assert_eq!(bmap(&ip, 267, &ind), 902);
    assert_eq!(bmap(&ip, 13, &ind), 0);
    assert_eq!(bmap(&ip, 268, &[]), 0);
    ip.i_size = 20 * BSIZE as u32;
    let r = readi_start(&ip, 12 * BSIZE as u32, 10);
    assert_eq!(r.indirect(&ip), Some(500));
    assert_eq!(r.next_block(&ip, &ind), Some(901));
}

fn dir_block() -> Vec<u8> {
    let mut b = vec![0u8; BSIZE];
    put32(&mut b, 0, 2);
    put16(&mut b, 4, 12);
    b[6] = 1;
    b[8] = b'.';
    put32(&mut b, 12, 0);
    put16(&mut b, 16, 16);
    b[18] = 3;
    b[20..23].copy_from_slice(b"old");
    put32(&mut b, 28, 11);
    put16(&mut b, 32, 20);
    b[34] = 5;
    b[36..41].copy_from_slice(b"hello");
    b
}

#[test]
fn directory_scan_finds_names() {
    let b = dir_block();
    let e = parse_dir_entry(&b, 28);
    assert_eq!((e.inode, e.rec_len, e.name_len), (11, 20, 5));
    assert_eq!(dir_scan(&b, BSIZE, b"hello"), Some(11));
    assert_eq!(dir_scan(&b, BSIZE, b"."), Some(2));
    // An unused entry does not match.
    assert_eq!(dir_scan(&b, BSIZE, b"old"), None);
    assert_eq!(dir_scan(&b, 28, b"hello"), None);
    assert_eq!(dirlookup(0x41ED, 0, BSIZE, &b, b"hello"), DirStep::Found(11));
    assert_eq!(dirlookup(0x41ED, 0, BSIZE, &b, b"nope"), DirStep::Next(1024));
    assert_eq!(dirlookup(0x41ED, 1024, 0, &b, b"hello"), DirStep::NotFound);
    // A regular file holds no names.
    assert_eq!(dirlookup(0x81A4, 0, BSIZE, &b, b"hello"), DirStep::NotFound);
}

#[test]
fn buffer_cache_fetches_then_caches() {
    let mut c = Bcache::new();
    binit(&mut c);
    assert_eq!(c.bufs.len(), NBUF);
    let b = match bread(&mut c, 1, 5) {
        Bread::Fetch { buf, sector } => {
            assert_eq!(sector, 10);
            buf
        }
        Bread::Cached(_) => panic!("a fresh cache has no valid block"),
    };
    let data = vec![0xABu8; BSIZE];
    bread_fill(&mut c, b, &data);
    brelse(&mut c, b);
    match bread(&mut c, 1, 5) {
        Bread::Cached(b2) => {
            assert_eq!(b2, b);
            assert_eq!(c.bufs[b2].data, data);
            assert_eq!(c.bufs[b2].refcnt, 1);
        }
        Bread::Fetch { .. } => panic!("the block was filled"),
    }
    let (sector, bytes) = bwrite(&mut c, b);
    assert_eq!(sector, 10);
    assert_eq!(bytes, data);
}

#[test]
fn binit_links_buffers_in_a_circle() {
    let mut c = Bcache::new();
    binit(&mut c);
    assert_eq!(c.head, 0);
    assert_eq!(c.bufs[0].next, 1);
    assert_eq!(c.bufs[0].prev, NBUF - 1);
    assert_eq!(c.bufs[NBUF - 1].next, 0);
}

#[test]
fn file_table_references() {
    let mut ft = FileTable::new();
    assert_eq!(filealloc(&mut ft), Some(0));
    assert_eq!(filealloc(&mut ft), Some(1));
    assert_eq!(filedup(&mut ft, 0), 0);
    assert_eq!(ft.files[0].refcnt, 2);
    assert_eq!(fileclose(&mut ft, 0), CloseAction::Kept);
    assert_eq!(fileclose(&mut ft, 0), CloseAction::Released);
    assert_eq!(ft.files[0].refcnt, 0);
    assert_eq!(filealloc(&mut ft), Some(0));
}

#[test]
fn fileclose_says_what_to_release() {
    let mut ft = FileTable::new();
    ft.files[3] = File { f_type: FileType::Pipe, refcnt: 1, pipe: Some(7), writable: true, ..File::new() };
    assert_eq!(fileclose(&mut ft, 3), CloseAction::PipeClose { pipe: 7, writable: true });
    assert_eq!(ft.files[3].f_type, FileType::Absent);
    ft.files[4] = File { f_type: FileType::Inode, refcnt: 1, ip: Some(2), ..File::new() };
    assert_eq!(fileclose(&mut ft, 4), CloseAction::Iput(2));
    assert_eq!(ft.files[4].ip, None);
}

#[test]
fn file_operations_route_by_type() {
    let pipe = File { f_type: FileType::Pipe, pipe: Some(1), readable: true, writable: false, ..File::new() };
    assert_eq!(fileread(&pipe), FileOp::Pipe(1));
    assert_eq!(filewrite(&pipe), FileOp::Fail);
    let con = File { f_type: FileType::Device, major: 1, readable: true, writable: true, ..File::new() };
    assert_eq!(filewrite(&con), FileOp::Console);
    let other = File { major: 2, ..con };
    assert_eq!(fileread(&other), FileOp::Fail);
    let mut ino = File { f_type: FileType::Inode, ip: Some(4), off: 100, readable: true, ..File::new() };
    assert_eq!(fileread(&ino), FileOp::Inode { ip: 4, off: 100 });
    assert_eq!(file_advance(&mut ino, 50), 50);
    assert_eq!(ino.off, 150);
    assert_eq!(file_advance(&mut ino, 0), 0);
    assert_eq!(ino.off, 150);
    assert_eq!(filestat(&ino, 0), -1);
}

#[test]
fn system_call_numbers() {
    assert_eq!(syscall_number(0), Some(Syscall::Read));
    assert_eq!(syscall_number(12), Some(Syscall::Sbrk));
    assert_eq!(syscall_number(22), Some(Syscall::Pipe));
    assert_eq!(syscall_number(59), Some(Syscall::Exec));
    assert_eq!(syscall_number(99), None);
}

#[test]
fn argfd_checks_the_descriptor() {
    let ofile = vec![Some(5), None, Some(9)];
    assert_eq!(argfd(0, &tf_with(2, 0), &ofile), Ok(9));
    assert_eq!(argfd(0, &tf_with(1, 0), &ofile), Err(()));
    assert_eq!(argfd(0, &tf_with(3, 0), &ofile), Err(()));
    assert_eq!(argfd(1, &tf_with(3, 0), &ofile), Ok(5));
    assert_eq!(fdalloc(&ofile), Some(1));
    assert_eq!(fdalloc(&vec![Some(1), Some(2)]), None);
}

#[test]
fn fetch_str_reads_up_to_the_zero_byte() {
    let mut mem = vec![0u8; 64];
    mem[10..15].copy_from_slice(b"/init");
    assert_eq!(fetch_str(&mem, 10), Ok(b"/init".to_vec()));
    assert_eq!(fetch_str(&mem, 0), Err(()));
    // No zero byte before the end of memory.
    let full = vec![b'a'; 8];
    assert_eq!(fetch_str(&full, 2), Err(()));
    // Bytes that are not UTF-8.
    mem[30] = 0xFF;
    mem[31] = 0xFE;
    assert_eq!(fetch_str(&mem, 30), Err(()));
    // A string longer than the limit.
    let mut long = vec![b'x'; 1100];
    long.push(0);
    assert_eq!(fetch_str(&long, 1), Err(()));
}

#[test]
fn fetch_word_and_exec_arguments() {
    let mut mem = vec![0u8; 128];
    mem[8..13].copy_from_slice(b"/cat\0");
    mem[16..20].copy_from_slice(b"cat\0");
    mem[24..28].copy_from_slice(b"/a1\0");
    mem[40..48].copy_from_slice(&16u64.to_le_bytes());
    mem[48..56].copy_from_slice(&24u64.to_le_bytes());
    assert_eq!(fetch_word(&mem, 40), Some(16));
    assert_eq!(fetch_word(&mem, 124), None);
    let (path, argv) = exec_args(&mem, &tf_with(8, 40)).unwrap();
    assert_eq!(path, b"/cat".to_vec());
    assert_eq!(argv, vec![b"cat".to_vec(), b"/a1".to_vec()]);
    let (_, none) = exec_args(&mem, &tf_with(8, 0)).unwrap();
    assert!(none.is_empty());
    assert!(exec_args(&mem, &tf_with(0, 40)).is_err());
}

#[test]
fn open_close_dup() {
    let mut ft = FileTable::new();
    let mut ofile = vec![Some(50), None, None];
    let f = filealloc(&mut ft).unwrap();
    let t = OpenTarget { ip: 3, i_mode: 0x81A4, i_block0: 0 };
    assert_eq!(sys_open(&mut ft, &mut ofile, f, Some(t)), 1);
    assert_eq!(ofile[1], Some(f));
    assert_eq!(ft.files[f].f_type, FileType::Inode);
    assert!(ft.files[f].readable && !ft.files[f].writable);
    let g = filealloc(&mut ft).unwrap();
    let dev = OpenTarget { ip: 4, i_mode: 0x21A4, i_block0: 1 };
    assert_eq!(sys_open(&mut ft, &mut ofile, g, Some(dev)), 2);
    assert_eq!(ft.files[g].f_type, FileType::Device);
    assert_eq!(ft.files[g].major, 1);
    let h = filealloc(&mut ft).unwrap();
    assert_eq!(sys_open(&mut ft, &mut ofile, h, None), -1);
    assert_eq!(ft.files[h].refcnt, 0);
    // Every slot is taken now.
    let k = filealloc(&mut ft).unwrap();
    assert_eq!(sys_open(&mut ft, &mut ofile, k, Some(t)), -1);
    assert_eq!(ft.files[k].refcnt, 0);
    let (r, act) = sys_close(&mut ft, &mut ofile, 1);
    assert_eq!(r, 0);
    assert_eq!(act, CloseAction::Iput(3));
    assert_eq!(ofile[1], None);
    assert_eq!(sys_close(&mut ft, &mut ofile, 1), (-1, CloseAction::Kept));
    assert_eq!(sys_close(&mut ft, &mut ofile, 7), (-1, CloseAction::Kept));
    assert_eq!(sys_dup(&mut ft, &mut ofile, 2), 1);
    assert_eq!(ofile[1], Some(g));
    assert_eq!(ft.files[g].refcnt, 2);
    assert_eq!(sys_dup(&mut ft, &mut ofile, 2), -1);
    assert_eq!(sys_dup(&mut ft, &mut ofile, 9), -1);
}

#[test]
fn pipe_system_call() {
    let mut ft = FileTable::new();
    let mut ofile = vec![Some(70), None, None, None];
    let mut a = Allocator::new();
    a.kfree(0x9000);
    let (r, fds) = sys_pipe(&mut ft, &mut ofile, &mut a);
    assert_eq!(r, 0);
    assert_eq!(fds, Some((1, 2)));
    let f0 = ofile[1].unwrap();
    let f1 = ofile[2].unwrap();
    assert_ne!(f0, f1);
    assert_eq!(ft.files[f0].refcnt, 1);
    assert_eq!(ft.files[f1].refcnt, 1);
    assert!(a.freelist.is_empty());
    // No page left: the call fails and leaves everything as it was.
    let before = ofile.clone();
    let (r2, fds2) = sys_pipe(&mut ft, &mut ofile, &mut a);
    assert_eq!((r2, fds2), (-1, None));
    assert_eq!(ofile, before);
}

#[test]
fn open_refuses_a_null_path_before_taking_a_file() {
    let mut ft = FileTable::new();
    let mut mem = vec![0u8; 32];
    mem[4..10].copy_from_slice(b"/init\0");
    assert_eq!(sys_open_begin(&mut ft, &mem, 0), Err(()));
    assert_eq!(ft.files[0].refcnt, 0);
    match sys_open_begin(&mut ft, &mem, 4) {
        Ok((path, f)) => {
            assert_eq!(path, b"/init".to_vec());
            assert_eq!(f, 0);
        }
        Err(_) => panic!("expected the path and a file"),
    }
    assert_eq!(ft.files[0].refcnt, 1);
    // The next open gets the next file.
    assert_eq!(sys_open_begin(&mut ft, &mem, 4).map(|(_, f)| f), Ok(1));
}

#[test]
fn a_block_is_cached_once() {
    let mut c = Bcache::new();
    binit(&mut c);
    // Two reads of one block share a buffer; another block gets another.
    let b1 = match bread(&mut c, 1, 7) {
        Bread::Fetch { buf, .. } => buf,
        Bread::Cached(_) => panic!("not filled yet"),
    };
    let b2 = match bread(&mut c, 1, 7) {
        Bread::Fetch { buf, .. } => buf,
        Bread::Cached(_) => panic!("not filled yet"),
    };
    assert_eq!(b1, b2);
    bread_fill(&mut c, b1, &vec![1u8; BSIZE]);
    let b3 = match bread(&mut c, 1, 8) {
        Bread::Fetch { buf, .. } => buf,
        Bread::Cached(_) => panic!("not filled yet"),
    };
    assert_ne!(b3, b1);
    let held: Vec<usize> = (0..NBUF).filter(|&i| c.bufs[i].valid && c.bufs[i].dev == 1 && c.bufs[i].blockno == 7).collect();
    assert_eq!(held, vec![b1]);
}
