use vstd::prelude::*;

verus! {

/// Number of open files in the system.
pub const NFILE: usize = 100;

#[derive(Clone, Copy, PartialEq, Eq, Structural, Debug)]
pub enum FileType {
    Absent,
    Pipe,
    Inode,
    Device,
}

/// An open file. `pipe` and `ip` name the pipe and the in-memory inode the
/// file reads and writes, by index.
#[derive(Clone, Copy, Debug)]
pub struct File {
    pub f_type: FileType,
    pub refcnt: usize,
    pub readable: bool,
    pub writable: bool,
    pub pipe: Option<usize>,
    pub ip: Option<usize>,
    pub off: u32,
    /// Device number, for device files.
    pub major: u16,
}

impl File {
    pub fn new() -> (r: Self)
        ensures
            r == blank_file(),
    {
        File {
            f_type: FileType::Absent,
            refcnt: 0,
            readable: false,
            writable: false,
            pipe: None,
            ip: None,
            off: 0,
            major: 0,
        }
    }
}

/// A file as `File::new` makes it: unused, of no type, attached to nothing.
pub open spec fn blank_file() -> File {
    File {
        f_type: FileType::Absent,
        refcnt: 0,
        readable: false,
        writable: false,
        pipe: None,
        ip: None,
        off: 0,
        major: 0,
    }
}

/// The system's table of open files.
pub struct FileTable {
    pub files: Vec<File>,
}

impl FileTable {
    pub open spec fn wf(&self) -> bool {
        self.files@.len() == NFILE
    }

    pub fn new() -> (r: Self)
        ensures
            r.wf(),
            forall|i: int| 0 <= i < NFILE ==> #[trigger] r.files@[i] == blank_file(),
    {
        let mut files: Vec<File> = Vec::new();
        while files.len() < NFILE
            invariant
                files.len() <= NFILE,
                forall|i: int| 0 <= i < files.len() ==> #[trigger] files@[i] == blank_file(),
            decreases NFILE - files.len(),
        {
            files.push(File::new());
        }
        FileTable { files }
    }
}

/// `i` is the first unused file of the table.
pub open spec fn is_first_unused(files: Seq<File>, i: int) -> bool {
    &&& 0 <= i < files.len()
    &&& files[i].refcnt == 0
    &&& forall|j: int| 0 <= j < i ==> (#[trigger] files[j]).refcnt != 0
}

/// The first unused entry of the file table, if any.
pub open spec fn first_unused_file(files: Seq<File>) -> Option<int> {
    if exists|j: int| is_first_unused(files, j) {
        Some(choose|j: int| is_first_unused(files, j))
    } else {
        None
    }
}

/// The first unused entry is unique.
pub proof fn lemma_first_unused_file(files: Seq<File>, i: int)
    requires
        is_first_unused(files, i),
    ensures
        first_unused_file(files) == Some(i),
{
    let j = choose|j: int| is_first_unused(files, j);
    assert(is_first_unused(files, j));
    if j < i {
        assert(files[j].refcnt != 0);
    } else if i < j {
        assert(files[i].refcnt != 0);
    }
}

/// With every file in use there is no first unused one.
pub proof fn lemma_no_unused_file(files: Seq<File>)
    requires
        forall|j: int| 0 <= j < files.len() ==> (#[trigger] files[j]).refcnt != 0,
    ensures
        first_unused_file(files) is None,
{
    if exists|j: int| is_first_unused(files, j) {
        let j = choose|j: int| is_first_unused(files, j);
        assert(files[j].refcnt != 0);
    }
}

/// Allocate a file: the first unused entry gets a reference count of 1; its
/// other fields are left as they were. `None` when every file is in use.
pub fn filealloc(ft: &mut FileTable) -> (r: Option<usize>)
    requires
        old(ft).wf(),
    ensures
        final(ft).wf(),
        match r {
            Some(i) => is_first_unused(old(ft).files@, i as int) && final(ft).files@ == old(
                ft,
            ).files@.update(i as int, File { refcnt: 1, ..old(ft).files@[i as int] }),
            None => final(ft).files@ == old(ft).files@ && forall|j: int|
                0 <= j < NFILE ==> (#[trigger] old(ft).files@[j]).refcnt != 0,
        },
{
    let mut i: usize = 0;
    while i < NFILE
        invariant
            ft.files@ == old(ft).files@,
            ft.wf(),
            i <= NFILE,
            forall|j: int| 0 <= j < i ==> (#[trigger] ft.files@[j]).refcnt != 0,
        decreases NFILE - i,
    {
        if ft.files[i].refcnt == 0 {
            ft.files[i].refcnt = 1;
            return Some(i);
        }
        i = i + 1;
    }
    None
}

/// Take one more reference to an open file.
pub fn filedup(ft: &mut FileTable, f: usize) -> (r: usize)
    requires
        old(ft).wf(),
        f < NFILE,
        old(ft).files@[f as int].refcnt >= 1,
        old(ft).files@[f as int].refcnt < usize::MAX,
    ensures
        final(ft).wf(),
        r == f,
        final(ft).files@ == old(ft).files@.update(
            f as int,
            File { refcnt: (old(ft).files@[f as int].refcnt + 1) as usize, ..old(ft).files@[f as int] },
        ),
{
    ft.files[f].refcnt = ft.files[f].refcnt + 1;
    f
}

/// What closing a file leaves the caller to do.
#[derive(PartialEq, Eq, Structural, Debug)]
pub enum CloseAction {
    /// Other references remain; nothing more to do.
    Kept,
    /// The file was released and nothing underlies it.
    Released,
    /// The file was released: drop the reference to this inode.
    Iput(usize),
    /// The file was released: close this end of this pipe.
    PipeClose { pipe: usize, writable: bool },
}

/// The file table after dropping a reference to file `f`, and what the
/// caller must release: with more references left only the count falls;
/// with the last one the file becomes unused, of no type and without an
/// inode, and the close action names what it held.
pub open spec fn close_effect(files: Seq<File>, f: int) -> (Seq<File>, CloseAction) {
    let o = files[f];
    let rest = File { refcnt: (o.refcnt - 1) as usize, ..o };
    if o.refcnt > 1 {
        (files.update(f, rest), CloseAction::Kept)
    } else {
        (files.update(f, File { f_type: FileType::Absent, ip: None, ..rest }), close_action(o))
    }
}

/// Drop a reference to an open file. When the last one goes, the file becomes
/// unused, its type `None` and its inode reference cleared, and the caller is
/// told what underlying object to release.
pub fn fileclose(ft: &mut FileTable, f: usize) -> (r: CloseAction)
    requires
        old(ft).wf(),
        f < NFILE,
        old(ft).files@[f as int].refcnt >= 1,
    ensures
        final(ft).wf(),
        ({
            let o = old(ft).files@[f as int];
            let rest = File { refcnt: (o.refcnt - 1) as usize, ..o };
            if o.refcnt > 1 {
                final(ft).files@ == old(ft).files@.update(f as int, rest) && r == CloseAction::Kept
            } else {
                &&& final(ft).files@ == old(ft).files@.update(
                    f as int,
                    File { f_type: FileType::Absent, ip: None, ..rest },
                )
                &&& r == close_action(o)
            }
        }),
        (final(ft).files@, r) == close_effect(old(ft).files@, f as int),
        old(ft).files@[f as int].refcnt == 1 && (old(ft).files@[f as int].f_type == FileType::Inode
            || old(ft).files@[f as int].f_type == FileType::Device) && old(ft).files@[f as int].ip is Some ==> r
            == CloseAction::Iput(old(ft).files@[f as int].ip.unwrap()),
        old(ft).files@[f as int].refcnt > 1 ==> r == CloseAction::Kept,
{
    ft.files[f].refcnt = ft.files[f].refcnt - 1;
    if ft.files[f].refcnt > 0 {
        return CloseAction::Kept;
    }
    let t = ft.files[f].f_type;
    let mut action = CloseAction::Released;
    if t == FileType::Inode || t == FileType::Device {
        if let Some(ip) = ft.files[f].ip {
            action = CloseAction::Iput(ip);
        }
    }
    if t == FileType::Pipe {
        if let Some(pi) = ft.files[f].pipe {
            action = CloseAction::PipeClose { pipe: pi, writable: ft.files[f].writable };
        }
    }
    ft.files[f].f_type = FileType::Absent;
    ft.files[f].ip = None;
    action
}

/// The object to release when the last reference to file `o` goes.
pub open spec fn close_action(o: File) -> CloseAction {
    if (o.f_type == FileType::Inode || o.f_type == FileType::Device) && o.ip.is_some() {
        CloseAction::Iput(o.ip.unwrap())
    } else if o.f_type == FileType::Pipe && o.pipe.is_some() {
        CloseAction::PipeClose { pipe: o.pipe.unwrap(), writable: o.writable }
    } else {
        CloseAction::Released
    }
}

/// Closing the last reference to a file on an inode (a regular file or a
/// device) gives up its inode reference: the caller is told to drop exactly
/// that inode, and the entry becomes unused and holds no inode any more. A
/// file with more references only loses one.
pub proof fn law_close_drops_inode(files: Seq<File>, f: int)
    requires
        0 <= f < files.len(),
        files[f].refcnt >= 1,
    ensures
        files[f].refcnt == 1 && (files[f].f_type == FileType::Inode || files[f].f_type == FileType::Device)
            && files[f].ip is Some ==> {
            &&& close_effect(files, f).1 == CloseAction::Iput(files[f].ip.unwrap())
            &&& close_effect(files, f).0[f].refcnt == 0
            &&& close_effect(files, f).0[f].ip is None
        },
        files[f].refcnt > 1 ==> close_effect(files, f).1 == CloseAction::Kept && close_effect(files, f).0[f].ip
            == files[f].ip && close_effect(files, f).0[f].refcnt == files[f].refcnt - 1,
        forall|g: int| 0 <= g < files.len() && g != f ==> #[trigger] close_effect(files, f).0[g] == files[g],
{
}

/// File status is not supported: always fails.
pub fn filestat(f: &File, addr: u64) -> (r: isize)
    ensures
        r == -1,
{
    -1
}

/// Where a read or write of a file goes.
#[derive(PartialEq, Eq, Structural, Debug)]
pub enum FileOp {
    /// The operation fails with -1.
    Fail,
    /// Read or write this pipe.
    Pipe(usize),
    /// Read or write the console.
    Console,
    /// Read or write this inode at this offset, then advance the offset by
    /// what was transferred (`file_advance`).
    Inode { ip: usize, off: u32 },
}

/// The target of a transfer on file `f`, given that the file allows it.
pub open spec fn op_target(f: File) -> FileOp {
    match f.f_type {
        FileType::Pipe => match f.pipe {
            Some(p) => FileOp::Pipe(p),
            None => FileOp::Fail,
        },
        FileType::Device => if f.major == 1 { FileOp::Console } else { FileOp::Fail },
        FileType::Inode => match f.ip {
            Some(ip) => FileOp::Inode { ip, off: f.off },
            None => FileOp::Fail,
        },
        FileType::Absent => FileOp::Fail,
    }
}

fn target(f: &File) -> (r: FileOp)
    ensures
        r == op_target(*f),
{
    match f.f_type {
        FileType::Pipe => match f.pipe {
            Some(p) => FileOp::Pipe(p),
            None => FileOp::Fail,
        },
        FileType::Device => if f.major == 1 { FileOp::Console } else { FileOp::Fail },
        FileType::Inode => match f.ip {
            Some(ip) => FileOp::Inode { ip, off: f.off },
            None => FileOp::Fail,
        },
        FileType::Absent => FileOp::Fail,
    }
}

/// Where a read of file `f` goes: nowhere unless the file is readable; then by
/// its type to its pipe, the console (device 1) or its inode.
pub fn fileread(f: &File) -> (r: FileOp)
    ensures
        r == (if f.readable { op_target(*f) } else { FileOp::Fail }),
{
    if !f.readable {
        return FileOp::Fail;
    }
    target(f)
}

/// Where a write to file `f` goes: nowhere unless the file is writable; then by
/// its type to its pipe, the console (device 1) or its inode.
pub fn filewrite(f: &File) -> (r: FileOp)
    ensures
        r == (if f.writable { op_target(*f) } else { FileOp::Fail }),
{
    if !f.writable {
        return FileOp::Fail;
    }
    target(f)
}

/// After an inode transfer of `res` bytes: advance the offset if anything was
/// transferred, and return the count as the system call's result.
pub fn file_advance(f: &mut File, res: u32) -> (r: isize)
    requires
        old(f).off + res <= u32::MAX,
        res <= isize::MAX,
    ensures
        r == res,
        *final(f) == (if res > 0 { File { off: (old(f).off + res) as u32, ..*old(f) } } else { *old(f) }),
{
    if res > 0 {
        f.off = f.off + res;
    }
    res as isize
}

}
