use vstd::prelude::*;
use crate::fs::{dir_entry_of, parse_dir_entry, DIRENT_SIZE};
use crate::syscall::utf8_ok;

verus! {

/// Running counts of `wc`: lines, words and bytes seen, and whether the
/// last byte was inside a word.
pub struct WcCounts {
    pub lines: u64,
    pub words: u64,
    pub chars: u64,
    pub in_word: bool,
}

/// The counts as numbers.
pub struct WcModel {
    pub lines: nat,
    pub words: nat,
    pub chars: nat,
    pub in_word: bool,
}

impl View for WcCounts {
    type V = WcModel;

    open spec fn view(&self) -> WcModel {
        WcModel { lines: self.lines as nat, words: self.words as nat, chars: self.chars as nat, in_word: self.in_word }
    }
}

/// Whether `wc` counts a byte as white space: space, tab, newline or
/// carriage return.
pub open spec fn is_space(c: u8) -> bool {
    c == 32 || c == 9 || c == 10 || c == 13
}

/// The counts after one more byte: every byte counts, a newline ends a
/// line, and a byte that is not white space after one that is (or at the
/// start) begins a word.
pub open spec fn wc_step(m: WcModel, c: u8) -> WcModel {
    WcModel {
        lines: if c == 10 { m.lines + 1 } else { m.lines },
        words: if !is_space(c) && !m.in_word { m.words + 1 } else { m.words },
        chars: m.chars + 1,
        in_word: !is_space(c),
    }
}

/// The counts after the bytes `s`.
pub open spec fn wc_from(m: WcModel, s: Seq<u8>) -> WcModel
    decreases s.len(),
{
    if s.len() == 0 {
        m
    } else {
        wc_step(wc_from(m, s.drop_last()), s.last())
    }
}

/// Counting a stream piece by piece gives the counts of the whole stream,
/// however it was cut: this is why `wc` may read in blocks.
pub proof fn law_wc_chunks(m: WcModel, a: Seq<u8>, b: Seq<u8>)
    ensures
        wc_from(m, a + b) == wc_from(wc_from(m, a), b),
    decreases b.len(),
{
    if b.len() == 0 {
        assert(a + b =~= a);
    } else {
        law_wc_chunks(m, a, b.drop_last());
        assert((a + b).drop_last() =~= a + b.drop_last());
        assert((a + b).last() == b.last());
    }
}

/// Lines and words never outnumber bytes.
proof fn lemma_wc_bounds(m: WcModel, s: Seq<u8>)
    requires
        m.lines <= m.chars,
        m.words <= m.chars,
    ensures
        wc_from(m, s).chars == m.chars + s.len(),
        wc_from(m, s).lines <= wc_from(m, s).chars,
        wc_from(m, s).words <= wc_from(m, s).chars,
    decreases s.len(),
{
    if s.len() > 0 {
        lemma_wc_bounds(m, s.drop_last());
    }
}

impl WcCounts {
    pub open spec fn wf(&self) -> bool {
        self.lines <= self.chars && self.words <= self.chars
    }

    /// Nothing counted yet.
    pub fn new() -> (r: Self)
        ensures
            r.wf(),
            r@ == (WcModel { lines: 0, words: 0, chars: 0, in_word: false }),
    {
        WcCounts { lines: 0, words: 0, chars: 0, in_word: false }
    }

    /// Count the bytes `buf`, read next from the stream.
    pub fn feed(&mut self, buf: &[u8])
        requires
            old(self).wf(),
            old(self).chars + buf@.len() <= u64::MAX,
        ensures
            final(self).wf(),
            final(self)@ == wc_from(old(self)@, buf@),
    {
        let mut i: usize = 0;
        while i < buf.len()
            invariant
                self.wf(),
                i <= buf@.len(),
                old(self).chars + buf@.len() <= u64::MAX,
                self.chars == old(self).chars + i,
                self@ == wc_from(old(self)@, buf@.take(i as int)),
            decreases buf@.len() - i,
        {
            let c = buf[i];
            self.chars = self.chars + 1;
            if c == 10 {
                self.lines = self.lines + 1;
            }
            let space = c == 32 || c == 9 || c == 10 || c == 13;
            if space {
                self.in_word = false;
            } else if !self.in_word {
                self.in_word = true;
                self.words = self.words + 1;
            }
            proof {
                assert(buf@.take(i + 1).drop_last() =~= buf@.take(i as int));
            }
            i = i + 1;
        }
        assert(buf@.take(i as int) =~= buf@);
    }
}

/// The shell runs a command with at most this many arguments.
pub const MAXARGS: usize = 10;

/// The first position at or after `i` that does not hold a space.
pub open spec fn skip_blanks(s: Seq<u8>, i: int) -> int
    decreases s.len() - i,
{
    if i < 0 || i >= s.len() || s[i] != 32 {
        i
    } else {
        skip_blanks(s, i + 1)
    }
}

/// The first position at or after `i` that holds a space, or the end.
pub open spec fn token_end(s: Seq<u8>, i: int) -> int
    decreases s.len() - i,
{
    if i < 0 || i >= s.len() || s[i] == 32 {
        i
    } else {
        token_end(s, i + 1)
    }
}

/// At most `k` words of `s` from position `i` on: the runs of bytes
/// other than spaces, in order.
pub open spec fn tokens_from(s: Seq<u8>, i: int, k: nat) -> Seq<Seq<u8>>
    decreases k,
{
    if k == 0 {
        Seq::empty()
    } else {
        let a = skip_blanks(s, i);
        if a >= s.len() {
            Seq::empty()
        } else {
            let b = token_end(s, a);
            seq![s.subrange(a, b)] + tokens_from(s, b, (k - 1) as nat)
        }
    }
}

/// The contents of a list of byte vectors.
pub open spec fn views(v: Seq<Vec<u8>>) -> Seq<Seq<u8>> {
    v.map_values(|x: Vec<u8>| x@)
}

proof fn lemma_skip_bounds(s: Seq<u8>, i: int)
    requires
        0 <= i,
    ensures
        i <= skip_blanks(s, i),
        skip_blanks(s, i) < s.len() ==> s[skip_blanks(s, i)] != 32,
        i <= s.len() ==> skip_blanks(s, i) <= s.len(),
    decreases s.len() - i,
{
    if 0 <= i < s.len() && s[i] == 32 {
        lemma_skip_bounds(s, i + 1);
    }
}

proof fn lemma_end_bounds(s: Seq<u8>, i: int)
    requires
        0 <= i <= s.len(),
    ensures
        i <= token_end(s, i) <= s.len(),
        forall|j: int| i <= j < token_end(s, i) ==> s[j] != 32,
    decreases s.len() - i,
{
    if i < s.len() && s[i] != 32 {
        lemma_end_bounds(s, i + 1);
    }
}

/// The arguments of a shell command line: its first `MAXARGS` words.
pub fn sh_args(line: &[u8]) -> (r: Vec<Vec<u8>>)
    ensures
        views(r@) == tokens_from(line@, 0, MAXARGS as nat),
{
    let s = line;
    let n = line.len();
    let mut out: Vec<Vec<u8>> = Vec::new();
    let mut ptr: usize = 0;
    while ptr < n && out.len() < MAXARGS
        invariant
            n == s@.len(),
            ptr <= n,
            out@.len() <= MAXARGS,
            views(out@) + tokens_from(s@, ptr as int, (MAXARGS - out@.len()) as nat) == tokens_from(
                s@,
                0,
                MAXARGS as nat,
            ),
        ensures
            ptr <= n,
            views(out@) + tokens_from(s@, ptr as int, (MAXARGS - out@.len()) as nat) == tokens_from(
                s@,
                0,
                MAXARGS as nat,
            ),
            ptr == n || out@.len() == MAXARGS,
        decreases n - ptr,
    {
        let ghost k = (MAXARGS - out@.len()) as nat;
        let ghost p0 = ptr as int;
        while ptr < n && s[ptr] == 32
            invariant
                n == s@.len(),
                p0 <= ptr <= n,
                skip_blanks(s@, ptr as int) == skip_blanks(s@, p0),
            decreases n - ptr,
        {
            ptr = ptr + 1;
        }
        assert(skip_blanks(s@, ptr as int) == ptr);
        if ptr == n {
            assert(tokens_from(s@, p0, k) == Seq::<Seq<u8>>::empty());
            break;
        }
        let start = ptr;
        let mut tok: Vec<u8> = Vec::new();
        while ptr < n && s[ptr] != 32
            invariant
                n == s@.len(),
                start <= ptr <= n,
                token_end(s@, ptr as int) == token_end(s@, start as int),
                tok@ == s@.subrange(start as int, ptr as int),
            decreases n - ptr,
        {
            tok.push(s[ptr]);
            assert(tok@ =~= s@.subrange(start as int, ptr + 1));
            ptr = ptr + 1;
        }
        assert(token_end(s@, ptr as int) == ptr);
        let ghost before = views(out@);
        out.push(tok);
        proof {
            assert(tokens_from(s@, p0, k) == seq![s@.subrange(start as int, ptr as int)] + tokens_from(
                s@,
                ptr as int,
                (k - 1) as nat,
            ));
            assert(views(out@) =~= before.push(s@.subrange(start as int, ptr as int)));
            assert(views(out@) + tokens_from(s@, ptr as int, (k - 1) as nat) =~= before + tokens_from(s@, p0, k));
        }
    }
    proof {
        let k = (MAXARGS - out@.len()) as nat;
        if out@.len() < MAXARGS {
            lemma_skip_bounds(s@, ptr as int);
            assert(tokens_from(s@, ptr as int, k) == Seq::<Seq<u8>>::empty());
        }
        assert(views(out@) + tokens_from(s@, ptr as int, k) =~= views(out@));
    }
    out
}

/// Whether a command is the shell's built-in `exit`.
pub fn is_exit(args: &Vec<Vec<u8>>) -> (r: bool)
    ensures
        r == (args@.len() > 0 && args@[0]@ == seq![101u8, 120u8, 105u8, 116u8]),
{
    if args.len() == 0 {
        return false;
    }
    let a = &args[0];
    let r = a.len() == 4 && a[0] == 101 && a[1] == 120 && a[2] == 105 && a[3] == 116;
    proof {
        if a@.len() == 4 {
            assert(r == (a@ =~= seq![101u8, 120u8, 105u8, 116u8]));
        }
    }
    r
}

/// What `echo` prints for its arguments from the `i`-th on: each one,
/// separated by single spaces, and a newline.
pub open spec fn echo_from(args: Seq<Seq<u8>>, i: int) -> Seq<u8>
    decreases args.len() - i,
{
    if i < 0 || i >= args.len() {
        seq![10u8]
    } else if i == args.len() - 1 {
        args[i] + seq![10u8]
    } else {
        args[i] + seq![32u8] + echo_from(args, i + 1)
    }
}

/// The line `echo` prints: its arguments after the program's name.
pub fn echo_line(args: &Vec<Vec<u8>>) -> (r: Vec<u8>)
    ensures
        r@ == echo_from(views(args@), 1),
{
    let ghost a = views(args@);
    let mut out: Vec<u8> = Vec::new();
    let mut i: usize = 1;
    while i < args.len()
        invariant
            a == views(args@),
            1 <= i,
            args@.len() >= 1 ==> i <= args@.len(),
            out@ + echo_from(a, i as int) == echo_from(a, 1),
        decreases args@.len() - i,
    {
        let arg = &args[i];
        assert(arg@ == a[i as int]);
        let ghost out0 = out@;
        let mut j: usize = 0;
        while j < arg.len()
            invariant
                j <= arg@.len(),
                out@ == out0 + arg@.take(j as int),
            decreases arg@.len() - j,
        {
            out.push(arg[j]);
            assert(out@ =~= out0 + arg@.take(j + 1));
            j = j + 1;
        }
        assert(arg@.take(j as int) =~= arg@);
        if i + 1 < args.len() {
            out.push(32);
            assert(out@ + echo_from(a, i + 1) =~= out0 + echo_from(a, i as int));
        } else {
            assert(out@ + echo_from(a, i + 1) =~= out0 + echo_from(a, i as int));
        }
        i = i + 1;
    }
    out.push(10);
    assert(out@ =~= echo_from(a, 1));
    out
}

/// How `ls` shows a name: as it is when it is UTF-8, else as `???`.
pub open spec fn shown_name(name: Seq<u8>) -> Seq<u8> {
    if vstd::utf8::valid_utf8(name) {
        name
    } else {
        seq![63u8, 63u8, 63u8]
    }
}

/// The names `ls` shows for the entries in the first `n` bytes of `buf`,
/// read from a directory, from offset `off` on: entries follow one another,
/// each `rec_len` bytes long; unused ones (inode 0) show nothing; a zero
/// `rec_len`, an entry header past `n`, or a name past the buffer ends the
/// listing.
pub open spec fn ls_from(buf: Seq<u8>, n: int, off: int) -> Seq<Seq<u8>>
    decreases n + 0x10000 - off,
{
    if off < 0 || off >= n || off + 8 > n {
        Seq::empty()
    } else {
        let de = dir_entry_of(buf, off);
        if de.inode != 0 && off + 8 + de.name_len > buf.len() {
            Seq::empty()
        } else {
            let this = if de.inode != 0 {
                seq![shown_name(buf.subrange(off + 8, off + 8 + de.name_len))]
            } else {
                Seq::empty()
            };
            if de.rec_len == 0 {
                this
            } else {
                this + ls_from(buf, n, off + de.rec_len)
            }
        }
    }
}

/// Copy `len` bytes of `buf` from `start`.
fn copy_bytes(buf: &[u8], start: usize, len: usize) -> (r: Vec<u8>)
    requires
        start + len <= buf@.len() <= usize::MAX,
    ensures
        r@ == buf@.subrange(start as int, start + len),
{
    let mut v: Vec<u8> = Vec::new();
    let mut k: usize = 0;
    while k < len
        invariant
            start + len <= buf@.len() <= usize::MAX,
            k <= len,
            v@ == buf@.subrange(start as int, start + k),
        decreases len - k,
    {
        v.push(buf[start + k]);
        assert(v@ =~= buf@.subrange(start as int, start + k + 1));
        k = k + 1;
    }
    v
}

/// The names `ls` prints for `n` bytes read from a directory into `buf`.
pub fn ls_names(buf: &[u8], n: usize) -> (r: Vec<Vec<u8>>)
    requires
        n <= buf@.len(),
        buf@.len() <= 0x1000_0000,
    ensures
        views(r@) == ls_from(buf@, n as int, 0),
{
    let mut out: Vec<Vec<u8>> = Vec::new();
    let mut off: usize = 0;
    while off < n
        invariant_except_break
            views(out@) + ls_from(buf@, n as int, off as int) == ls_from(buf@, n as int, 0),
        invariant
            n <= buf@.len() <= 0x1000_0000,
            off <= n + 0x10000,
        ensures
            views(out@) == ls_from(buf@, n as int, 0),
        decreases n + 0x10000 - off,
    {
        if off + DIRENT_SIZE > n {
            assert(views(out@) + ls_from(buf@, n as int, off as int) =~= views(out@));
            break;
        }
        let de = parse_dir_entry(buf, off);
        let ghost before = views(out@);
        if de.inode != 0 {
            let nl = de.name_len as usize;
            if off + DIRENT_SIZE + nl > buf.len() {
                assert(views(out@) + ls_from(buf@, n as int, off as int) =~= views(out@));
                break;
            }
            let name = copy_bytes(buf, off + DIRENT_SIZE, nl);
            if utf8_ok(name.as_slice()) {
                out.push(name);
            } else {
                out.push(vec![63u8, 63u8, 63u8]);
                assert(out@.last()@ =~= seq![63u8, 63u8, 63u8]);
            }
            assert(views(out@) =~= before.push(shown_name(buf@.subrange(off + 8, off + 8 + de.name_len))));
        } else {
            assert(views(out@) =~= before);
        }
        if de.rec_len == 0 {
            assert(views(out@) =~= before + ls_from(buf@, n as int, off as int));
            break;
        }
        assert(views(out@) + ls_from(buf@, n as int, off + de.rec_len) =~= before + ls_from(
            buf@,
            n as int,
            off as int,
        ));
        off = off + de.rec_len as usize;
    }
    out
}

} // verus!
