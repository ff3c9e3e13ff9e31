use lib::mkfs::{mkfs_image, mkfs_superblock, FSMAGIC};
use lib::user::{echo_line, is_exit, ls_names, sh_args, WcCounts};

fn counts(c: &WcCounts) -> (u64, u64, u64) {
    (c.lines, c.words, c.chars)
}

#[test]
fn wc_counts_lines_words_bytes() {
    let mut c = WcCounts::new();
    c.feed(b"hello world\n  two\twords here\n\nend");
    assert_eq!(counts(&c), (3, 6, 33));
}

#[test]
fn wc_counts_do_not_depend_on_how_input_is_cut() {
    let text = b"a bb  ccc\nd\r\ne  f";
    let mut whole = WcCounts::new();
    whole.feed(text);
    for cut in 0..text.len() {
        let mut parts = WcCounts::new();
        parts.feed(&text[..cut]);
        parts.feed(&text[cut..]);
        assert_eq!(counts(&parts), counts(&whole));
        assert_eq!(parts.in_word, whole.in_word);
    }
    assert_eq!(counts(&whole), (2, 6, 17));
}

#[test]
fn wc_of_nothing() {
    let mut c = WcCounts::new();
    c.feed(b"");
    assert_eq!(counts(&c), (0, 0, 0));
    c.feed(b"   \n");
    assert_eq!(counts(&c), (1, 0, 4));
}

#[test]
fn shell_splits_on_spaces() {
    let args = sh_args(b"  ls   -l  /bin ");
    assert_eq!(args, vec![b"ls".to_vec(), b"-l".to_vec(), b"/bin".to_vec()]);
    assert!(sh_args(b"    ").is_empty());
    assert!(sh_args(b"").is_empty());
    // Tabs are not separators.
    assert_eq!(sh_args(b"a\tb c"), vec![b"a\tb".to_vec(), b"c".to_vec()]);
}

#[test]
fn shell_keeps_at_most_ten_arguments() {
    let args = sh_args(b"1 2 3 4 5 6 7 8 9 10 11 12");
    assert_eq!(args.len(), 10);
    assert_eq!(args[9], b"10".to_vec());
}

#[test]
fn shell_builtin_exit() {
    assert!(is_exit(&sh_args(b"exit")));
    assert!(is_exit(&sh_args(b" exit now")));
    assert!(!is_exit(&sh_args(b"exits")));
    assert!(!is_exit(&sh_args(b"")));
}

#[test]
fn echo_joins_its_arguments() {
    let args = vec![b"echo".to_vec(), b"hello".to_vec(), b"world".to_vec()];
    assert_eq!(echo_line(&args), b"hello world\n".to_vec());
    assert_eq!(echo_line(&vec![b"echo".to_vec()]), b"\n".to_vec());
    assert_eq!(echo_line(&vec![b"echo".to_vec(), b"x".to_vec()]), b"x\n".to_vec());
}

fn dirent(buf: &mut [u8], off: usize, inode: u32, rec_len: u16, name: &[u8]) {
    buf[off..off + 4].copy_from_slice(&inode.to_le_bytes());
    buf[off + 4..off + 6].copy_from_slice(&rec_len.to_le_bytes());
    buf[off + 6] = name.len() as u8;
    buf[off + 8..off + 8 + name.len()].copy_from_slice(name);
}

#[test]
fn ls_lists_used_entries() {
    let mut buf = vec![0u8; 1024];
    dirent(&mut buf, 0, 2, 12, b".");
    dirent(&mut buf, 12, 0, 16, b"gone");
    dirent(&mut buf, 28, 11, 16, b"hello");
    dirent(&mut buf, 44, 12, 16, &[0xff, 0xfe]);
    dirent(&mut buf, 60, 13, 0, b"last");
    dirent(&mut buf, 80, 14, 16, b"after");
    let names = ls_names(&buf, 1024);
    assert_eq!(
        names,
        vec![b".".to_vec(), b"hello".to_vec(), b"???".to_vec(), b"last".to_vec()]
    );
    // Only the bytes read count.
    assert_eq!(ls_names(&buf, 30), vec![b".".to_vec()]);
}

#[test]
fn mkfs_layout_and_writes() {
    let sb = mkfs_superblock();
    assert_eq!(sb.magic, FSMAGIC);
    assert_eq!((sb.size, sb.nblocks, sb.ninodes, sb.nlog), (1000, 954, 200, 30));
    assert_eq!((sb.logstart, sb.inodestart, sb.bmapstart), (2, 32, 45));
    let w = mkfs_image();
    assert_eq!(w.len(), 4);
    assert_eq!(w[0].0, 1024);
    assert_eq!(&w[0].1[0..8], &[0x40, 0x30, 0x20, 0x10, 0xe8, 0x03, 0, 0]);
    assert_eq!(w[0].1.len(), 1024);
    assert_eq!(w[1].0, 32 * 1024 + 64);
    assert_eq!(w[1].1.len(), 64);
    assert_eq!(&w[1].1[0..16], &[1, 0, 0, 0, 0, 0, 1, 0, 32, 0, 0, 0, 47, 0, 0, 0]);
    assert_eq!(w[2].0, 47 * 1024);
    assert_eq!(&w[2].1[0..4], &[1, 0, b'.', 0]);
    assert_eq!(&w[2].1[16..20], &[1, 0, b'.', b'.']);
    assert_eq!(w[3].0, 45 * 1024);
    assert_eq!(&w[3].1[0..8], &[255, 255, 255, 255, 255, 255, 0, 0]);
}
