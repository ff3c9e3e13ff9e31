use vstd::prelude::*;
use crate::file::{close_effect, filealloc, filedup, fileclose, first_unused_file, is_first_unused, lemma_first_unused_file, lemma_no_unused_file, CloseAction, File, FileTable, FileType, NFILE as NFILE_SYSTEM};
use crate::proc::NFILE;
use crate::trap::TrapFrame;
use crate::allocator::Allocator;
use crate::pipe::pipealloc;

verus! {

pub const SYS_READ: u64 = 0;
pub const SYS_WRITE: u64 = 1;
pub const SYS_OPEN: u64 = 2;
pub const SYS_CLOSE: u64 = 3;
pub const SYS_SBRK: u64 = 12;
pub const SYS_PIPE: u64 = 22;
pub const SYS_DUP: u64 = 32;
pub const SYS_FORK: u64 = 57;
pub const SYS_EXEC: u64 = 59;
pub const SYS_EXIT: u64 = 60;
pub const SYS_WAIT: u64 = 61;

/// Longest string a system call accepts from user memory.
pub const MAXSTR: u64 = 1024;
/// Most arguments `exec` accepts.
pub const MAXARG: usize = 16;

/// The system calls the kernel implements.
#[derive(Clone, Copy, PartialEq, Eq, Structural, Debug)]
pub enum Syscall {
    Read,
    Write,
    Open,
    Close,
    Sbrk,
    Exec,
    Fork,
    Exit,
    Wait,
    Pipe,
    Dup,
}

/// Which system call a number names; `None` for an unknown number, which
/// fails with -1.
pub fn syscall_number(num: u64) -> (r: Option<Syscall>)
    ensures
        r == (if num == SYS_READ {
            Some(Syscall::Read)
        } else if num == SYS_WRITE {
            Some(Syscall::Write)
        } else if num == SYS_OPEN {
            Some(Syscall::Open)
        } else if num == SYS_CLOSE {
            Some(Syscall::Close)
        } else if num == SYS_SBRK {
            Some(Syscall::Sbrk)
        } else if num == SYS_EXEC {
            Some(Syscall::Exec)
        } else if num == SYS_FORK {
            Some(Syscall::Fork)
        } else if num == SYS_EXIT {
            Some(Syscall::Exit)
        } else if num == SYS_WAIT {
            Some(Syscall::Wait)
        } else if num == SYS_PIPE {
            Some(Syscall::Pipe)
        } else if num == SYS_DUP {
            Some(Syscall::Dup)
        } else {
            None
        }),
{
    if num == SYS_READ {
        Some(Syscall::Read)
    } else if num == SYS_WRITE {
        Some(Syscall::Write)
    } else if num == SYS_OPEN {
        Some(Syscall::Open)
    } else if num == SYS_CLOSE {
        Some(Syscall::Close)
    } else if num == SYS_SBRK {
        Some(Syscall::Sbrk)
    } else if num == SYS_EXEC {
        Some(Syscall::Exec)
    } else if num == SYS_FORK {
        Some(Syscall::Fork)
    } else if num == SYS_EXIT {
        Some(Syscall::Exit)
    } else if num == SYS_WAIT {
        Some(Syscall::Wait)
    } else if num == SYS_PIPE {
        Some(Syscall::Pipe)
    } else if num == SYS_DUP {
        Some(Syscall::Dup)
    } else {
        None
    }
}

/// The register that carries argument `n` of a system call.
pub open spec fn arg_reg(n: usize, tf: TrapFrame) -> u64 {
    if n == 0 {
        tf.rdi
    } else if n == 1 {
        tf.rsi
    } else if n == 2 {
        tf.rdx
    } else if n == 3 {
        tf.r10
    } else if n == 4 || n == 6 {
        tf.r8
    } else {
        tf.r9
    }
}

/// Argument `n` of a system call: rdi, rsi, rdx, r10, r8, r9 (and r8 again for 6).
pub fn argraw(n: usize, tf: &TrapFrame) -> (r: u64)
    requires
        n <= 6,
    ensures
        r == arg_reg(n, *tf),
{
    match n {
        0 => tf.rdi,
        1 => tf.rsi,
        2 => tf.rdx,
        3 => tf.r10,
        4 => tf.r8,
        5 => tf.r9,
        _ => tf.r8,
    }
}

/// Argument `n` as an integer.
pub fn argint(n: usize, tf: &TrapFrame) -> (r: u64)
    requires
        n <= 6,
    ensures
        r == arg_reg(n, *tf),
{
    argraw(n, tf)
}

/// Argument `n` as a user address.
pub fn argptr(n: usize, tf: &TrapFrame) -> (r: u64)
    requires
        n <= 6,
    ensures
        r == arg_reg(n, *tf),
{
    argraw(n, tf)
}

/// Argument `n` as a file descriptor of the process: the index of its open
/// file; an error when out of range or not open.
pub fn argfd(n: usize, tf: &TrapFrame, ofile: &Vec<Option<usize>>) -> (r: Result<usize, ()>)
    requires
        n <= 6,
    ensures
        ({
            let fd = arg_reg(n, *tf);
            match r {
                Ok(f) => fd < ofile@.len() && ofile@[fd as int] == Some(f),
                Err(_) => fd >= ofile@.len() || ofile@[fd as int].is_none(),
            }
        }),
{
    let fd = argint(n, tf);
    if fd >= ofile.len() as u64 {
        return Err(());
    }
    match ofile[fd as usize] {
        Some(f) => Ok(f),
        None => Err(()),
    }
}

/// Whether `bytes` are well-formed UTF-8 (`std::str::from_utf8` accepts them).
#[verifier::external_body]
pub(crate) fn utf8_ok(bytes: &[u8]) -> (r: bool)
    ensures
        r == vstd::utf8::valid_utf8(bytes@),
{
    std::str::from_utf8(bytes).is_ok()
}

/// The string at `ptr` in `mem` ends `len` bytes on, with a zero byte.
pub open spec fn cstr_at(mem: Seq<u8>, ptr: int, len: int) -> bool {
    &&& 0 <= len
    &&& ptr + len < mem.len()
    &&& mem[ptr + len] == 0
    &&& forall|a: int| ptr <= a < ptr + len ==> #[trigger] mem[a] != 0
}

/// Whether the bytes at `ptr` in `mem` up to the first zero byte (no more than
/// `MAXSTR` of them) make a valid string for a system call.
pub open spec fn fetch_str_ok(mem: Seq<u8>, ptr: int) -> bool {
    &&& ptr != 0
    &&& exists|len: int| len <= MAXSTR && cstr_at(mem, ptr, len) && vstd::utf8::valid_utf8(
        mem.subrange(ptr, ptr + len),
    )
}

/// The bytes at `ptr` in `mem` up to the first zero byte.
pub open spec fn str_at(mem: Seq<u8>, ptr: int) -> Seq<u8> {
    mem.subrange(ptr, ptr + choose|len: int| cstr_at(mem, ptr, len))
}

/// A string has one end: the first zero byte.
proof fn lemma_cstr_unique(mem: Seq<u8>, ptr: int, len: int)
    requires
        cstr_at(mem, ptr, len),
    ensures
        str_at(mem, ptr) == mem.subrange(ptr, ptr + len),
{
    let l = choose|l: int| cstr_at(mem, ptr, l);
    assert(cstr_at(mem, ptr, l));
    if l < len {
        assert(mem[ptr + l] != 0);
    } else if l > len {
        assert(mem[ptr + len] != 0);
    }
}

/// The string a user pointer names: the bytes at `ptr` in the user memory
/// `mem` (indexed by address) up to the first zero byte. Fails for a null
/// pointer, a string longer than `MAXSTR` bytes, a string that runs past the
/// memory, or bytes that are not UTF-8.
pub fn fetch_str(mem: &[u8], ptr: u64) -> (r: Result<Vec<u8>, ()>)
    ensures
        r is Ok <==> fetch_str_ok(mem@, ptr as int),
        r matches Ok(s) ==> cstr_at(mem@, ptr as int, s@.len() as int) && s@ == mem@.subrange(
            ptr as int,
            ptr + s@.len(),
        ),
        r matches Ok(s) ==> s@ == str_at(mem@, ptr as int),
{
    if ptr == 0 {
        return Err(());
    }
    let mut len: u64 = 0;
    loop
        invariant
            ptr != 0,
            len <= MAXSTR,
            len == 0 || ptr + len <= mem@.len(),
            forall|a: int| ptr <= a < ptr + len ==> #[trigger] mem@[a] != 0,
        ensures
            len <= MAXSTR,
            ptr + len < mem@.len(),
            mem@[ptr + len as int] == 0,
            forall|a: int| ptr <= a < ptr + len ==> #[trigger] mem@[a] != 0,
        decreases MAXSTR - len,
    {
        if ptr >= mem.len() as u64 || len >= mem.len() as u64 - ptr {
            proof {
                assert forall|l: int| l <= MAXSTR && cstr_at(mem@, ptr as int, l) implies false by {
                    if l < len {
                        assert(mem@[ptr + l] != 0);
                    }
                }
            }
            return Err(());
        }
        let b = mem[(ptr + len) as usize];
        if b == 0 {
            break;
        }
        len = len + 1;
        if len > MAXSTR {
            proof {
                assert forall|l: int| l <= MAXSTR && cstr_at(mem@, ptr as int, l) implies false by {
                    assert(mem@[ptr + l] != 0);
                }
            }
            return Err(());
        }
    }
    let mut s: Vec<u8> = Vec::new();
    let mut i: u64 = 0;
    let n = mem.len();
    assert(n <= u64::MAX);
    while i < len
        invariant
            i <= len,
            n == mem@.len(),
            n <= u64::MAX,
            ptr + len < mem@.len(),
            s@ == mem@.subrange(ptr as int, ptr + i),
        decreases len - i,
    {
        s.push(mem[(ptr + i) as usize]);
        i = i + 1;
        assert(s@ =~= mem@.subrange(ptr as int, ptr + i));
    }
    proof {
        assert(cstr_at(mem@, ptr as int, len as int));
        assert forall|l: int| l <= MAXSTR && cstr_at(mem@, ptr as int, l) implies l == len by {
            if l < len {
                assert(mem@[ptr + l] != 0);
            } else if l > len {
                assert(mem@[ptr + len] != 0);
            }
        }
    }
    proof {
        lemma_cstr_unique(mem@, ptr as int, len as int);
    }
    if utf8_ok(s.as_slice()) {
        Ok(s)
    } else {
        Err(())
    }
}

/// The little-endian 64-bit word in `mem` at `addr`.
pub open spec fn word_at(mem: Seq<u8>, addr: int) -> u64 {
    (mem[addr] as u64) | ((mem[addr + 1] as u64) << 8u64) | ((mem[addr + 2] as u64) << 16u64) | ((mem[addr
        + 3] as u64) << 24u64) | ((mem[addr + 4] as u64) << 32u64) | ((mem[addr + 5] as u64) << 40u64)
        | ((mem[addr + 6] as u64) << 48u64) | ((mem[addr + 7] as u64) << 56u64)
}

/// Read the little-endian 64-bit word at `addr` of user memory; `None` when
/// it does not lie wholly inside.
pub fn fetch_word(mem: &[u8], addr: u64) -> (r: Option<u64>)
    ensures
        r == (if addr + 8 <= mem@.len() { Some(word_at(mem@, addr as int)) } else { None::<u64> }),
{
    if addr >= mem.len() as u64 || mem.len() as u64 - addr < 8 {
        return None;
    }
    let a = addr as usize;
    Some(
        (mem[a] as u64) | ((mem[a + 1] as u64) << 8u64) | ((mem[a + 2] as u64) << 16u64) | ((mem[a
            + 3] as u64) << 24u64) | ((mem[a + 4] as u64) << 32u64) | ((mem[a + 5] as u64) << 40u64)
            | ((mem[a + 6] as u64) << 48u64) | ((mem[a + 7] as u64) << 56u64),
    )
}

/// The argument strings of an `exec` call from entry `k` of the pointer
/// array at `base` on, up to its null pointer; `None` when the array holds
/// `MAXARG` pointers or more, runs past memory, or names a string that
/// cannot be fetched.
pub open spec fn exec_argv_from(mem: Seq<u8>, base: int, k: int) -> Option<Seq<Seq<u8>>>
    decreases MAXARG - k,
{
    if k < 0 || k >= MAXARG {
        None
    } else if base + 8 * k + 8 > mem.len() {
        None
    } else {
        let w = word_at(mem, base + 8 * k);
        if w == 0 {
            Some(Seq::empty())
        } else if !fetch_str_ok(mem, w as int) {
            None
        } else {
            match exec_argv_from(mem, base, k + 1) {
                Some(rest) => Some(seq![str_at(mem, w as int)] + rest),
                None => None,
            }
        }
    }
}

/// The path and arguments of an `exec` call whose registers are `tf`: the
/// path is the string argument 0 points to; argument 1 points to the array
/// of argument pointers, a null array meaning no arguments, and an array
/// placed so high that its `MAXARG` entries would pass the top of the
/// address space being refused.
pub open spec fn exec_args_of(mem: Seq<u8>, tf: TrapFrame) -> Option<(Seq<u8>, Seq<Seq<u8>>)> {
    if !fetch_str_ok(mem, tf.rdi as int) {
        None
    } else if tf.rsi == 0 {
        Some((str_at(mem, tf.rdi as int), Seq::empty()))
    } else if tf.rsi > u64::MAX - 8 * MAXARG {
        None
    } else {
        match exec_argv_from(mem, tf.rsi as int, 0) {
            Some(argv) => Some((str_at(mem, tf.rdi as int), argv)),
            None => None,
        }
    }
}

/// `pre` in front of what `rest` holds, if it holds anything.
pub open spec fn prepend_args(pre: Seq<Seq<u8>>, rest: Option<Seq<Seq<u8>>>) -> Option<Seq<Seq<u8>>> {
    match rest {
        Some(r) => Some(pre + r),
        None => None,
    }
}

/// The path and argument strings of an `exec` call: the path is argument 0;
/// argument 1 points to an array of string pointers ended by a null pointer
/// (a null array means no arguments). Fails if any string cannot be fetched,
/// the array runs past memory, or it holds `MAXARG` pointers or more.
pub fn exec_args(mem: &[u8], tf: &TrapFrame) -> (r: Result<(Vec<u8>, Vec<Vec<u8>>), ()>)
    ensures
        r matches Ok((path, argv)) ==> {
            &&& exec_args_of(mem@, *tf) == Some((path@, argv@.map_values(|v: Vec<u8>| v@)))
            &&& fetch_str_ok(mem@, tf.rdi as int)
            &&& cstr_at(mem@, tf.rdi as int, path@.len() as int)
            &&& path@ == mem@.subrange(tf.rdi as int, tf.rdi + path@.len())
            &&& argv@.len() < MAXARG
            &&& (tf.rsi == 0 ==> argv@.len() == 0)
        },
        r is Err <==> exec_args_of(mem@, *tf) is None,
{
    let path = match fetch_str(mem, argptr(0, tf)) {
        Ok(s) => s,
        Err(_) => {
            return Err(());
        },
    };
    let argv_ptr = argptr(1, tf);
    let mut argv: Vec<Vec<u8>> = Vec::new();
    if argv_ptr != 0 {
        if argv_ptr > u64::MAX - 8 * MAXARG as u64 {
            return Err(());
        }
        proof {
            assert(argv@.map_values(|v: Vec<u8>| v@) =~= Seq::<Seq<u8>>::empty());
            match exec_argv_from(mem@, argv_ptr as int, 0) {
                Some(r0) => {
                    assert(Seq::<Seq<u8>>::empty() + r0 =~= r0);
                },
                None => {},
            }
        }
        loop
            invariant
                argv@.len() <= MAXARG,
                argv_ptr == tf.rsi,
                argv_ptr != 0,
                argv_ptr <= u64::MAX - 8 * MAXARG,
                fetch_str_ok(mem@, tf.rdi as int),
                exec_argv_from(mem@, argv_ptr as int, 0) == prepend_args(
                    argv@.map_values(|v: Vec<u8>| v@),
                    exec_argv_from(mem@, argv_ptr as int, argv@.len() as int),
                ),
            ensures
                argv@.len() < MAXARG,
                exec_argv_from(mem@, argv_ptr as int, 0) == Some(argv@.map_values(|v: Vec<u8>| v@)),
            decreases MAXARG - argv@.len(),
        {
            if argv.len() >= MAXARG {
                return Err(());
            }
            let argc = argv.len() as u64;
            let uarg = match fetch_word(mem, argv_ptr + argc * 8) {
                Some(w) => w,
                None => {
                    return Err(());
                },
            };
            if uarg == 0 {
                proof {
                    assert(exec_argv_from(mem@, argv_ptr as int, argc as int) == Some(Seq::<Seq<u8>>::empty()));
                    assert(argv@.map_values(|v: Vec<u8>| v@) + Seq::<Seq<u8>>::empty() =~= argv@.map_values(
                        |v: Vec<u8>| v@,
                    ));
                }
                break;
            }
            match fetch_str(mem, uarg) {
                Ok(s) => {
                    let ghost pre = argv@.map_values(|v: Vec<u8>| v@);
                    let ghost sv = s@;
                    argv.push(s);
                    proof {
                        assert(argv@.map_values(|v: Vec<u8>| v@) =~= pre.push(sv));
                        let k = argc as int;
                        match exec_argv_from(mem@, argv_ptr as int, k + 1) {
                            Some(rest) => {
                                assert(pre + (seq![sv] + rest) =~= pre.push(sv) + rest);
                            },
                            None => {},
                        }
                    }
                },
                Err(_) => {
                    return Err(());
                },
            }
        }
    } else {
        proof {
            assert(argv@.map_values(|v: Vec<u8>| v@) =~= Seq::<Seq<u8>>::empty());
        }
    }
    Ok((path, argv))
}

/// The first descriptor slot of the process that is not in use.
pub open spec fn is_first_free_fd(ofile: Seq<Option<usize>>, i: int) -> bool {
    &&& 0 <= i < ofile.len()
    &&& ofile[i].is_none()
    &&& forall|j: int| 0 <= j < i ==> (#[trigger] ofile[j]).is_some()
}

/// The lowest free descriptor slot, if any.
pub open spec fn first_free_fd(ofile: Seq<Option<usize>>) -> Option<int> {
    if exists|i: int| is_first_free_fd(ofile, i) {
        Some(choose|i: int| is_first_free_fd(ofile, i))
    } else {
        None
    }
}

/// The lowest free slot is unique, and there is none when all are taken.
proof fn lemma_first_free_fd(ofile: Seq<Option<usize>>)
    ensures
        forall|i: int| is_first_free_fd(ofile, i) ==> first_free_fd(ofile) == Some(i),
        (forall|j: int| 0 <= j < ofile.len() ==> (#[trigger] ofile[j]).is_some()) ==> first_free_fd(ofile) is None,
        first_free_fd(ofile) is None ==> forall|j: int| 0 <= j < ofile.len() ==> (#[trigger] ofile[j]).is_some(),
{
    assert forall|i: int| is_first_free_fd(ofile, i) implies first_free_fd(ofile) == Some(i) by {
        let j = choose|j: int| is_first_free_fd(ofile, j);
        assert(is_first_free_fd(ofile, j));
        if j < i {
            assert(ofile[j].is_some());
        } else if i < j {
            assert(ofile[i].is_some());
        }
    }
    if exists|j: int| 0 <= j < ofile.len() && (#[trigger] ofile[j]).is_none() {
        let j0 = choose|j: int| 0 <= j < ofile.len() && (#[trigger] ofile[j]).is_none();
        lemma_least_free(ofile, j0);
    }
}

/// Below a free slot there is a lowest free slot.
proof fn lemma_least_free(ofile: Seq<Option<usize>>, j: int)
    requires
        0 <= j < ofile.len(),
        ofile[j].is_none(),
    ensures
        exists|i: int| is_first_free_fd(ofile, i),
    decreases j,
{
    if forall|k: int| 0 <= k < j ==> (#[trigger] ofile[k]).is_some() {
        assert(is_first_free_fd(ofile, j));
    } else {
        let k = choose|k: int| 0 <= k < j && (#[trigger] ofile[k]).is_none();
        lemma_least_free(ofile, k);
    }
}

/// Find the lowest free descriptor slot.
pub fn fdalloc(ofile: &Vec<Option<usize>>) -> (r: Option<usize>)
    ensures
        match r {
            Some(i) => is_first_free_fd(ofile@, i as int),
            None => forall|j: int| 0 <= j < ofile@.len() ==> (#[trigger] ofile@[j]).is_some(),
        },
{
    let mut i: usize = 0;
    while i < ofile.len()
        invariant
            i <= ofile@.len(),
            forall|j: int| 0 <= j < i ==> (#[trigger] ofile@[j]).is_some(),
        decreases ofile@.len() - i,
    {
        if ofile[i].is_none() {
            return Some(i);
        }
        i = i + 1;
    }
    None
}

/// What `open` found on disk for its path: the in-memory inode, its mode and
/// the first entry of its block list (the device number of a device file).
#[derive(Clone, Copy, Debug)]
pub struct OpenTarget {
    pub ip: usize,
    pub i_mode: u16,
    pub i_block0: u32,
}

/// Whether a mode is that of a character device.
pub open spec fn is_device_mode(mode: u16) -> bool {
    mode & 0xF000u16 == 0x2000u16
}

/// Begin `open`: fetch the path string at `ptr` in user memory `mem`, then
/// allocate a file. A path that cannot be fetched (a null pointer among
/// them) fails before any file is taken; with no file free it fails too.
/// Either way the file table is left as it was.
pub fn sys_open_begin(ft: &mut FileTable, mem: &[u8], ptr: u64) -> (r: Result<(Vec<u8>, usize), ()>)
    requires
        old(ft).wf(),
    ensures
        final(ft).wf(),
        r is Err <==> !fetch_str_ok(mem@, ptr as int) || first_unused_file(old(ft).files@) is None,
        r is Err ==> final(ft).files@ == old(ft).files@,
        r matches Ok((path, f)) ==> {
            &&& path@ == str_at(mem@, ptr as int)
            &&& first_unused_file(old(ft).files@) == Some(f as int)
            &&& final(ft).files@ == take_file(old(ft).files@, f as int)
            &&& f < NFILE_SYSTEM
        },
{
    let path = match fetch_str(mem, ptr) {
        Ok(p) => p,
        Err(_) => {
            return Err(());
        },
    };
    match filealloc(ft) {
        Some(f) => {
            proof {
                lemma_first_unused_file(old(ft).files@, f as int);
            }
            Ok((path, f))
        },
        None => {
            proof {
                lemma_no_unused_file(old(ft).files@);
            }
            Err(())
        },
    }
}

/// Finish `open` once a file was allocated (`f`) and the path looked up
/// (`found`): a failed lookup releases the file and fails. Otherwise the file
/// becomes a read-only file at offset 0 on the inode (a device file, with the
/// device number from the inode, when the mode says so) and gets the lowest
/// free descriptor, which is returned; with no descriptor free, the file is
/// released and the call fails.
pub fn sys_open(ft: &mut FileTable, ofile: &mut Vec<Option<usize>>, f: usize, found: Option<OpenTarget>) -> (r: isize)
    requires
        old(ft).wf(),
        f < NFILE_SYSTEM,
        old(ofile)@.len() <= isize::MAX,
    ensures
        final(ft).wf(),
        final(ofile)@.len() == old(ofile)@.len(),
        found.is_none() ==> r == -1 && final(ofile)@ == old(ofile)@ && final(ft).files@ == old(ft).files@.update(
            f as int,
            crate::file::File { refcnt: 0, ..old(ft).files@[f as int] },
        ),
        found.is_some() ==> {
            let t = found.unwrap();
            let opened = crate::file::File {
                f_type: if is_device_mode(t.i_mode) { FileType::Device } else { FileType::Inode },
                major: if is_device_mode(t.i_mode) { t.i_block0 as u16 } else { old(ft).files@[f as int].major },
                ip: Some(t.ip),
                off: 0,
                readable: true,
                writable: false,
                ..old(ft).files@[f as int]
            };
            if r >= 0 {
                &&& is_first_free_fd(old(ofile)@, r as int)
                &&& final(ofile)@ == old(ofile)@.update(r as int, Some(f))
                &&& final(ft).files@ == old(ft).files@.update(f as int, opened)
            } else {
                &&& r == -1
                &&& forall|j: int| 0 <= j < old(ofile)@.len() ==> (#[trigger] old(ofile)@[j]).is_some()
                &&& final(ofile)@ == old(ofile)@
                &&& final(ft).files@ == old(ft).files@.update(f as int, crate::file::File { refcnt: 0, ..opened })
            }
        },
{
    let t = match found {
        Some(t) => t,
        None => {
            ft.files[f].refcnt = 0;
            return -1;
        },
    };
    if (t.i_mode & 0xF000) == 0x2000 {
        ft.files[f].f_type = FileType::Device;
        ft.files[f].major = t.i_block0 as u16;
    } else {
        ft.files[f].f_type = FileType::Inode;
    }
    ft.files[f].ip = Some(t.ip);
    ft.files[f].off = 0;
    ft.files[f].readable = true;
    ft.files[f].writable = false;
    match fdalloc(ofile) {
        Some(i) => {
            ofile.set(i, Some(f));
            i as isize
        },
        None => {
            ft.files[f].refcnt = 0;
            -1
        },
    }
}

/// Close descriptor `fd`: the slot is cleared and the file closed. Fails with
/// -1 for a descriptor out of range or not open.
pub fn sys_close(ft: &mut FileTable, ofile: &mut Vec<Option<usize>>, fd: u64) -> (r: (isize, CloseAction))
    requires
        old(ft).wf(),
        fd < old(ofile)@.len() && old(ofile)@[fd as int].is_some() ==> ({
            let f = old(ofile)@[fd as int].unwrap();
            f < NFILE_SYSTEM && old(ft).files@[f as int].refcnt >= 1
        }),
    ensures
        final(ft).wf(),
        fd >= old(ofile)@.len() || old(ofile)@[fd as int].is_none() ==> r == (-1isize, CloseAction::Kept)
            && final(ofile)@ == old(ofile)@ && final(ft).files@ == old(ft).files@,
        fd < old(ofile)@.len() && old(ofile)@[fd as int] is Some ==> r.0 == 0 && final(ofile)@ == old(
            ofile,
        )@.update(fd as int, None),
        fd < old(ofile)@.len() && old(ofile)@[fd as int] is Some ==> (final(ft).files@, r.1) == close_effect(
            old(ft).files@,
            old(ofile)@[fd as int].unwrap() as int,
        ),
{
    if fd >= ofile.len() as u64 {
        return (-1, CloseAction::Kept);
    }
    match ofile[fd as usize] {
        Some(f) => {
            ofile.set(fd as usize, None);
            let a = fileclose(ft, f);
            (0, a)
        },
        None => (-1, CloseAction::Kept),
    }
}

/// Duplicate descriptor `oldfd` into the lowest free slot, taking another
/// reference to its file; returns the new descriptor, or -1 when `oldfd` is
/// not open or no slot is free.
pub fn sys_dup(ft: &mut FileTable, ofile: &mut Vec<Option<usize>>, oldfd: u64) -> (r: isize)
    requires
        old(ft).wf(),
        old(ofile)@.len() <= isize::MAX,
        oldfd < old(ofile)@.len() && old(ofile)@[oldfd as int].is_some() ==> ({
            let f = old(ofile)@[oldfd as int].unwrap();
            f < NFILE_SYSTEM && 1 <= old(ft).files@[f as int].refcnt < usize::MAX
        }),
    ensures
        final(ft).wf(),
        r == -1 ==> final(ofile)@ == old(ofile)@ && final(ft).files@ == old(ft).files@,
        r != -1 ==> {
            let f = old(ofile)@[oldfd as int].unwrap();
            &&& oldfd < old(ofile)@.len()
            &&& old(ofile)@[oldfd as int].is_some()
            &&& is_first_free_fd(old(ofile)@, r as int)
            &&& final(ofile)@ == old(ofile)@.update(r as int, Some(f))
            &&& final(ft).files@ == old(ft).files@.update(
                f as int,
                crate::file::File { refcnt: (old(ft).files@[f as int].refcnt + 1) as usize, ..old(ft).files@[f as int] },
            )
        },
        (oldfd >= old(ofile)@.len() || old(ofile)@[oldfd as int].is_none()) ==> r == -1,
        r == -1 <==> oldfd >= old(ofile)@.len() || old(ofile)@[oldfd as int].is_none() || first_free_fd(old(ofile)@) is None,
        r != -1 ==> first_free_fd(old(ofile)@) == Some(r as int),
{
    proof {
        lemma_first_free_fd(ofile@);
    }
    if oldfd >= ofile.len() as u64 || ofile[oldfd as usize].is_none() {
        return -1;
    }
    let newfd = match fdalloc(ofile) {
        Some(i) => i,
        None => {
            return -1;
        },
    };
    let f = ofile[oldfd as usize].unwrap();
    ofile.set(newfd, Some(f));
    filedup(ft, f);
    newfd as isize
}


/// The file table with file `f` taken: its reference count set to 1.
pub open spec fn take_file(files: Seq<File>, f: int) -> Seq<File> {
    files.update(f, File { refcnt: 1, ..files[f] })
}

/// The two files a pipe gets: the first unused file, then the first unused
/// one once that is taken.
pub open spec fn pipe_files(files: Seq<File>) -> Option<(int, int)> {
    match first_unused_file(files) {
        None => None,
        Some(f0) => match first_unused_file(take_file(files, f0)) {
            None => None,
            Some(f1) => Some((f0, f1)),
        },
    }
}

/// Files, descriptors and the two descriptors a new pipe gets, when
/// `free_pages` pages are free for it: the two files of `pipe_files`, a page,
/// then the lowest free descriptor for the first file and the lowest free one
/// after that for the second.
pub open spec fn pipe_slots(files: Seq<File>, ofile: Seq<Option<usize>>, free_pages: nat) -> Option<
    (int, int, int, int),
> {
    match pipe_files(files) {
        None => None,
        Some((f0, f1)) => if free_pages == 0 {
            None
        } else {
            match first_free_fd(ofile) {
                None => None,
                Some(d0) => match first_free_fd(ofile.update(d0, Some(f0 as usize))) {
                    None => None,
                    Some(d1) => Some((f0, f1, d0, d1)),
                },
            }
        },
    }
}

/// Create a pipe: two files are allocated, the pipe's page is allocated, and
/// the files get the two lowest free descriptors, returned as the pair that is
/// stored at the user's array. On any failure the files are released again,
/// the descriptors left as they were, and the call fails with -1.
pub fn sys_pipe(ft: &mut FileTable, ofile: &mut Vec<Option<usize>>, allocator: &mut Allocator) -> (r: (
    isize,
    Option<(i32, i32)>,
))
    requires
        old(ft).wf(),
        old(allocator).wf(),
        old(ofile)@.len() <= i32::MAX,
    ensures
        final(ft).wf(),
        final(allocator).wf(),
        r.0 == 0 || r.0 == -1,
        r.0 == -1 ==> r.1.is_none() && final(ofile)@ == old(ofile)@ && final(ft).files@ == old(ft).files@,
        r.0 == 0 ==> ({
            let (fd0, fd1) = r.1.unwrap();
            &&& r.1.is_some()
            &&& is_first_free_fd(old(ofile)@, fd0 as int)
            &&& is_first_free_fd(old(ofile)@.update(fd0 as int, Some(final(ofile)@[fd0 as int].unwrap())), fd1 as int)
            &&& final(ofile)@.len() == old(ofile)@.len()
            &&& forall|j: int| 0 <= j < old(ofile)@.len() && j != fd0 && j != fd1 ==> #[trigger] final(ofile)@[j] == old(ofile)@[j]
            &&& final(ofile)@[fd0 as int].is_some() && final(ofile)@[fd1 as int].is_some()
            &&& final(ofile)@[fd0 as int] != final(ofile)@[fd1 as int]
            &&& is_first_unused(old(ft).files@, final(ofile)@[fd0 as int].unwrap() as int)
            &&& final(allocator)@ == old(allocator)@.drop_last()
            &&& old(allocator)@.len() > 0
        }),
        r.0 == 0 <==> pipe_slots(old(ft).files@, old(ofile)@, old(allocator)@.len()) is Some,
        r.0 == 0 ==> ({
            let (f0, f1, d0, d1) = pipe_slots(old(ft).files@, old(ofile)@, old(allocator)@.len()).unwrap();
            &&& r.1 == Some((d0 as i32, d1 as i32))
            &&& final(ofile)@ == old(ofile)@.update(d0, Some(f0 as usize)).update(d1, Some(f1 as usize))
            &&& final(ft).files@ == take_file(take_file(old(ft).files@, f0), f1)
        }),
        r.0 == -1 ==> final(allocator)@ == (if pipe_files(old(ft).files@) is Some && old(allocator)@.len() > 0 {
            old(allocator)@.drop_last()
        } else {
            old(allocator)@
        }),
{
    let ghost files0 = ft.files@;
    let ghost ofile0 = ofile@;
    let f0 = match filealloc(ft) {
        Some(f) => f,
        None => {
            proof {
                lemma_no_unused_file(files0);
            }
            return (-1, None);
        },
    };
    proof {
        lemma_first_unused_file(files0, f0 as int);
        assert(ft.files@ == take_file(files0, f0 as int));
    }
    let ghost files1 = ft.files@;
    let f1 = match filealloc(ft) {
        Some(f) => f,
        None => {
            proof {
                lemma_no_unused_file(files1);
            }
            ft.files[f0].refcnt = 0;
            proof {
                assert(ft.files@ =~= old(ft).files@);
            }
            return (-1, None);
        },
    };
    proof {
        lemma_first_unused_file(files1, f1 as int);
        assert(ft.files@ == take_file(files1, f1 as int));
        assert(pipe_files(files0) == Some((f0 as int, f1 as int)));
        lemma_first_free_fd(ofile0);
    }
    if pipealloc(allocator).is_err() {
        ft.files[f0].refcnt = 0;
        ft.files[f1].refcnt = 0;
        proof {
            assert(ft.files@ =~= old(ft).files@);
        }
        return (-1, None);
    }
    let fd0 = match fdalloc(ofile) {
        Some(i) => i,
        None => {
            ft.files[f0].refcnt = 0;
            ft.files[f1].refcnt = 0;
            proof {
                assert(ft.files@ =~= old(ft).files@);
            }
            return (-1, None);
        },
    };
    ofile.set(fd0, Some(f0));
    proof {
        lemma_first_free_fd(ofile@);
    }
    let fd1 = match fdalloc(ofile) {
        Some(i) => i,
        None => {
            ofile.set(fd0, None);
            ft.files[f0].refcnt = 0;
            ft.files[f1].refcnt = 0;
            proof {
                assert(ft.files@ =~= old(ft).files@);
                assert(ofile@ =~= old(ofile)@);
            }
            return (-1, None);
        },
    };
    ofile.set(fd1, Some(f1));
    (0, Some((fd0 as i32, fd1 as i32)))
}


/// The `sbrk` system call: grow or shrink the calling process's memory by
/// its first argument, read as a signed number, and return the old size.
pub fn sys_sbrk(
    p: &mut crate::proc::Process,
    pt: &mut crate::vm::PageTables,
    allocator: &mut Allocator,
    tf: &TrapFrame,
) -> (r: isize)
    requires
        old(pt).wf(),
        crate::vm::tree(old(pt)@),
        old(allocator).wf(),
        crate::vm::alloc_ok(old(pt)@, old(allocator)@),
        old(pt)@.contains_key(old(p).pgdir),
        old(pt)@[old(p).pgdir].level == 3,
        crate::uvm::user_small_pages(old(pt)@, old(p).pgdir),
        crate::uvm::user_frames_ok(old(pt)@, old(p).pgdir, old(allocator)@),
        old(p).sz <= crate::uvm::USER_TOP,
        old(p).sz <= isize::MAX,
        (arg_reg(0, *tf) as i64) > 0 ==> old(p).sz + (arg_reg(0, *tf) as i64) <= u64::MAX,
    ensures
        r == old(p).sz,
        final(p).pgdir == old(p).pgdir,
        final(pt).wf(),
        crate::vm::tree(final(pt)@),
        final(allocator).wf(),
        crate::vm::alloc_ok(final(pt)@, final(allocator)@),
        crate::uvm::user_frames_ok(final(pt)@, final(p).pgdir, final(allocator)@),
        ({
            let n = arg_reg(0, *tf) as i64;
            &&& n >= 0 ==> final(p).sz == old(p).sz + n
            &&& n < 0 && old(p).sz + n < 0 ==> final(p).sz == old(p).sz
            &&& n < 0 && old(p).sz + n >= 0 ==> final(p).sz == old(p).sz + n
        }),
{
    let n = argint(0, tf) as i64;
    let sz = p.sz;
    if crate::uvm::growproc(p, pt, allocator, n).is_err() {
        return -1;
    }
    sz as isize
}
}
