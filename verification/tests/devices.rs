use lib::console::{Console, ConsoleRead, ASCII_BS, CTRL_D, CTRL_U};
use lib::elf::{check_segment, parse_elf_header, parse_program_header, ProgramHeader, Segment, PT_LOAD};
use lib::gdt::{build_gdt, set_kernel_stack, Descriptor, GlobalDescriptorTable, TaskStateSegment};
use lib::log::{current_log_level, LogLevel};
use lib::pci::{check_device, enable_command, is_absent, is_virtio, pci_config_address};
use lib::trap::{gate_desc, idt_entries, page_fault_page, trap_kind, TrapKind, GATE_KERNEL, GATE_USER};
use lib::uart::{rx_ready, tx_ready, uartintr};
use lib::util::{io2v, p2v, v2p, DEVBASE, DEVSPACE, KERNBASE};
use lib::virtio::{blk_request, isr_wakes, queue_base, status_driver, VirtioDriver};

#[test]
fn console_echoes_and_commits_a_line() {
    let mut c = Console::new();
    let r = c.consoleintr(b"hi\r");
    assert_eq!(r.echo, b"hi\n".to_vec());
    assert!(r.wake);
    match c.consoleread(10, false, 0) {
        ConsoleRead::Done(v) => assert_eq!(v, b"hi\n".to_vec()),
        _ => panic!("expected a line"),
    }
}

#[test]
fn console_backspace_erases_one_character() {
    let mut c = Console::new();
    let r = c.consoleintr(&[b'a', b'b', ASCII_BS, b'c', b'\n']);
    assert_eq!(r.echo, vec![b'a', b'b', 8, 32, 8, b'c', b'\n']);
    match c.consoleread(10, false, 0) {
        ConsoleRead::Done(v) => assert_eq!(v, b"ac\n".to_vec()),
        _ => panic!("expected a line"),
    }
}

#[test]
fn console_kill_line_keeps_committed_input() {
    let mut c = Console::new();
    c.consoleintr(b"ok\n");
    let r = c.consoleintr(&[b'x', b'y', CTRL_U]);
    assert_eq!(r.echo, vec![b'x', b'y', 8, 32, 8, 8, 32, 8]);
    assert!(!r.wake);
    // Backspace at the commit point erases nothing.
    let r2 = c.consoleintr(&[ASCII_BS]);
    assert!(r2.echo.is_empty());
    match c.consoleread(10, false, 0) {
        ConsoleRead::Done(v) => assert_eq!(v, b"ok\n".to_vec()),
        _ => panic!("expected a line"),
    }
}

#[test]
fn console_read_blocks_or_is_killed_without_input() {
    let mut c = Console::new();
    assert!(matches!(c.consoleread(4, true, 0), ConsoleRead::Killed));
    match c.consoleread(4, false, 0) {
        ConsoleRead::Blocked(v) => assert!(v.is_empty()),
        _ => panic!("expected to block"),
    }
}

#[test]
fn console_ctrl_d_is_end_of_file() {
    let mut c = Console::new();
    c.consoleintr(&[b'a', CTRL_D]);
    match c.consoleread(10, false, 0) {
        ConsoleRead::Done(v) => assert_eq!(v, b"a".to_vec()),
        _ => panic!("expected data"),
    }
    match c.consoleread(10, false, 0) {
        ConsoleRead::Done(v) => assert!(v.is_empty()),
        _ => panic!("expected end of file"),
    }
}

#[test]
fn console_ctrl_d_after_a_blocked_read_stays_for_the_next_read() {
    let mut c = Console::new();
    // A read that already delivered 3 bytes before sleeping meets Control-D.
    c.consoleintr(&[CTRL_D]);
    match c.consoleread(10, false, 3) {
        ConsoleRead::Done(v) => assert!(v.is_empty()),
        _ => panic!("expected the read to end"),
    }
    // Left in place: the next read returns 0 bytes and takes it.
    match c.consoleread(10, false, 0) {
        ConsoleRead::Done(v) => assert!(v.is_empty()),
        _ => panic!("expected end of file"),
    }
    match c.consoleread(10, false, 0) {
        ConsoleRead::Blocked(v) => assert!(v.is_empty()),
        _ => panic!("expected no input"),
    }
}

#[test]
fn console_read_stops_at_n() {
    let mut c = Console::new();
    c.consoleintr(b"abcdef\n");
    match c.consoleread(3, false, 0) {
        ConsoleRead::Done(v) => assert_eq!(v, b"abc".to_vec()),
        _ => panic!("expected data"),
    }
    match c.consoleread(10, false, 0) {
        ConsoleRead::Done(v) => assert_eq!(v, b"def\n".to_vec()),
        _ => panic!("expected data"),
    }
}

#[test]
fn uart_feeds_the_console() {
    let mut c = Console::new();
    let r = uartintr(&mut c, b"z\n");
    assert_eq!(r.echo, b"z\n".to_vec());
    assert!(r.wake);
    assert!(tx_ready(0x20));
    assert!(!tx_ready(0x01));
    assert!(rx_ready(0x61));
    assert!(!rx_ready(0x60));
}

fn elf_bytes() -> Vec<u8> {
    let mut b = vec![0u8; 64];
    b[0..4].copy_from_slice(&[0x7f, b'E', b'L', b'F']);
    b[16..18].copy_from_slice(&2u16.to_le_bytes());
    b[18..20].copy_from_slice(&62u16.to_le_bytes());
    b[24..32].copy_from_slice(&0x1234u64.to_le_bytes());
    b[32..40].copy_from_slice(&64u64.to_le_bytes());
    b[56..58].copy_from_slice(&1u16.to_le_bytes());
    b
}

#[test]
fn elf_header_fields_are_little_endian() {
    let h = parse_elf_header(&elf_bytes());
    assert_eq!(h.magic, 0x464C457F);
    assert_eq!(h.type_, 2);
    assert_eq!(h.machine, 62);
    assert_eq!(h.entry, 0x1234);
    assert_eq!(h.phoff, 64);
    assert_eq!(h.phnum, 1);
}

fn ph_bytes(type_: u32, off: u64, vaddr: u64, filesz: u64, memsz: u64) -> Vec<u8> {
    let mut b = vec![0u8; 56];
    b[0..4].copy_from_slice(&type_.to_le_bytes());
    b[4..8].copy_from_slice(&5u32.to_le_bytes());
    b[8..16].copy_from_slice(&off.to_le_bytes());
    b[16..24].copy_from_slice(&vaddr.to_le_bytes());
    b[32..40].copy_from_slice(&filesz.to_le_bytes());
    b[40..48].copy_from_slice(&memsz.to_le_bytes());
    b
}

#[test]
fn program_headers_are_classified() {
    let ph = parse_program_header(&ph_bytes(PT_LOAD, 0x100, 0x1000, 0x10, 0x2000));
    assert_eq!(ph.off, 0x100);
    assert_eq!(ph.vaddr, 0x1000);
    assert_eq!(ph.flags, 5);
    assert_eq!(check_segment(&ph), Segment::Load);
    let note = ProgramHeader { type_: 4, ..ph };
    assert_eq!(check_segment(&note), Segment::Skip);
    let bad = ProgramHeader { filesz: 0x3000, ..ph };
    assert_eq!(check_segment(&bad), Segment::Bad);
    let wraps = ProgramHeader { vaddr: u64::MAX - 10, ..ph };
    assert_eq!(check_segment(&wraps), Segment::Bad);
}

#[test]
fn log_levels_by_name() {
    assert_eq!(LogLevel::from_str("error"), LogLevel::Error);
    assert_eq!(LogLevel::from_str("WARN"), LogLevel::Warn);
    assert_eq!(LogLevel::from_str("debug"), LogLevel::Debug);
    assert_eq!(LogLevel::from_str("Trace"), LogLevel::Info);
    assert_eq!(LogLevel::from_str("nonsense"), LogLevel::Info);
    assert_eq!(current_log_level(None), LogLevel::Info);
    assert_eq!(current_log_level(Some("trace")), LogLevel::Trace);
    assert_eq!(LogLevel::Error.rank(), 1);
    assert_eq!(LogLevel::Trace.rank(), 5);
    assert!(LogLevel::Info.enables(LogLevel::Warn));
    assert!(!LogLevel::Info.enables(LogLevel::Debug));
}

#[test]
fn pci_configuration_values() {
    assert_eq!(pci_config_address(0, 3, 0, 0x10), 0x8000_1810);
    assert_eq!(pci_config_address(1, 0, 2, 0x3f), 0x8001_023c);
    assert!(is_virtio(0x1001_1AF4));
    assert!(!is_virtio(0x1001_8086));
    assert!(is_absent(0xFFFF_FFFF));
    let d = check_device(0, 4, 0x1001_1AF4, 0xC041, 0x0000_010B);
    assert_eq!(d.vendor_id, 0x1AF4);
    assert_eq!(d.device_id, 0x1001);
    assert_eq!(d.base_addr, 0xC040);
    assert_eq!(d.irq_line, 0x0B);
    assert_eq!(d.func, 0);
    assert_eq!(enable_command(0x10), 0x15);
}

#[test]
fn traps_are_classified() {
    assert_eq!(trap_kind(32), TrapKind::Timer);
    assert_eq!(trap_kind(36), TrapKind::Uart);
    assert_eq!(trap_kind(43), TrapKind::Virtio);
    assert_eq!(trap_kind(64), TrapKind::Syscall);
    assert_eq!(trap_kind(14), TrapKind::PageFault);
    assert_eq!(trap_kind(13), TrapKind::Unknown);
    assert_eq!(page_fault_page(0x5123, 0x8000), Some(0x5000));
    assert_eq!(page_fault_page(0x8000, 0x8000), None);
}

#[test]
fn gates_split_the_handler_address() {
    let g = gate_desc(0xFFFF_FFFF_8012_3456, 8, GATE_KERNEL);
    assert_eq!(g.offset_low, 0x3456);
    assert_eq!(g.offset_mid, 0x8012);
    assert_eq!(g.offset_high, 0xFFFF_FFFF);
    assert_eq!(g.selector, 8);
    let vectors: Vec<u64> = (0..256u64).map(|i| 0x1000 + i * 16).collect();
    let idt = idt_entries(&vectors, 8);
    assert_eq!(idt.len(), 256);
    assert_eq!(idt[64].type_attr, GATE_USER);
    assert_eq!(idt[14].type_attr, GATE_KERNEL);
    assert_eq!(idt[1].offset_low, 0x1010);
}

#[test]
fn address_translations() {
    assert_eq!(p2v(0x1000), KERNBASE + 0x1000);
    assert_eq!(v2p(p2v(0x1234_5678)), 0x1234_5678);
    assert_eq!(io2v(DEVSPACE + 0x20), DEVBASE + 0x20);
}

#[test]
fn segment_descriptors() {
    assert_eq!(Descriptor::kernel_code_segment().0, 0x0020_9800_0000_0000);
    assert_eq!(Descriptor::user_data_segment().0, 0x0000_f200_0000_0000);
    let (lo, hi) = Descriptor::tss_segment(0xFFFF_FFFF_8123_4567);
    assert_eq!(lo.0 & 0xFFFF, 103);
    assert_eq!((lo.0 >> 16) & 0xFF_FFFF, 0x23_4567);
    assert_eq!(lo.0 >> 56, 0x81);
    assert_eq!(hi.0, 0xFFFF_FFFF);
    let gdt = build_gdt(0x1000);
    assert_eq!(gdt.table[0].0, 0);
    assert_eq!(gdt.table[3].0, 0x0020_f800_0000_0000);
    let mut t = GlobalDescriptorTable::new();
    assert_eq!(t.set_entry(4, Descriptor::user_data_segment()), 32);
    let mut tss = TaskStateSegment::new();
    set_kernel_stack(&mut tss, 0xdead_b000);
    assert_eq!(tss.privilege_stack_table[0], 0xdead_b000);
    assert_eq!(tss.iomap_base, 104);
}

#[test]
fn virtio_request_chain() {
    let mut d = VirtioDriver::new(0xC040);
    let s = d.submit(false, 0x1000, 0x2000, 512, 0x3000);
    assert_eq!((s.head, s.data, s.status), (0, 1, 2));
    assert_eq!(s.descs[0].next, 1);
    assert_eq!(s.descs[1].flags, 3);
    assert_eq!(s.descs[2].len, 1);
    assert_eq!(s.ring_slot, 0);
    assert_eq!(s.avail_idx, 1);
    assert_eq!(d.free_head, 3);
    assert!(!d.is_complete(0, 0, 0));
    assert!(d.is_complete(1, 0, 0));
    d.finish(0);
    assert_eq!(d.free_head, 2);
    assert_eq!(d.used_idx, 1);
    let w = d.submit(true, 0x1000, 0x2000, 512, 0x3000);
    assert_eq!((w.head, w.data, w.status), (2, 1, 0));
    assert_eq!(w.descs[1].flags, 1);
}

#[test]
fn virtio_free_then_alloc_gives_the_same_descriptor() {
    let mut d = VirtioDriver::new(0);
    let head = d.free_head;
    d.free_desc(5);
    assert_eq!(d.alloc_desc(), 5);
    assert_eq!(d.free_head, head);
}

#[test]
fn virtio_helpers() {
    assert!(isr_wakes(1));
    assert!(isr_wakes(2));
    assert!(!isr_wakes(4));
    assert_eq!(queue_base(0x3000, 0x2000, 0x1000), Some(0x1000));
    assert_eq!(queue_base(0x3000, 0x5000, 0x1000), None);
    assert_eq!(status_driver(), 3);
    let r = blk_request(true, 7);
    assert_eq!((r.type_, r.reserved, r.sector), (1, 0, 7));
    assert_eq!(blk_request(false, 7).type_, 0);
}

#[test]
fn a_request_gives_its_descriptors_back() {
    let mut d = VirtioDriver::new(0xC000);
    let next0 = d.next.clone();
    let sub = d.submit(false, 0x1000, 0x2000, 1024, 0x3000);
    assert_eq!((sub.head, sub.data, sub.status), (0, 1, 2));
    assert_eq!(d.free_head, 3);
    d.finish(sub.head);
    assert_eq!(d.free_head, sub.status);
    assert_eq!(d.next[sub.status as usize], sub.data);
    assert_eq!(d.next[sub.data as usize], sub.head);
    assert_eq!(d.next[sub.head as usize], next0[sub.status as usize]);
    for i in 3..d.next.len() {
        assert_eq!(d.next[i], next0[i]);
    }
}
