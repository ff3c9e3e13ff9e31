use vstd::prelude::*;

verus! {

/// Size of the console's input ring buffer.
pub const INPUT_BUF_SIZE: usize = 128;

/// Control-D: end of file.
pub const CTRL_D: u8 = 4;
/// Control-U: erase the line.
pub const CTRL_U: u8 = 21;
/// Backspace as echoed to the terminal.
pub const ASCII_BS: u8 = 8;
/// Delete.
pub const ASCII_DEL: u8 = 127;

/// The console's input state: a ring buffer with running read (`r`), commit
/// (`w`) and edit (`e`) indices. Bytes from `r` to `w` are committed input
/// that reads return; bytes from `w` to `e` are the line still being edited.
pub struct Console {
    pub buf: Vec<u8>,
    pub r: u64,
    pub w: u64,
    pub e: u64,
}

/// The distance from running index `a` forward to `b`, the indices wrapping
/// around at 2^64.
pub open spec fn dist(a: u64, b: u64) -> int {
    if b >= a {
        b - a
    } else {
        b + 0x1_0000_0000_0000_0000int - a
    }
}

/// The console's input as a sequence of bytes and how many of them are committed.
pub struct ConsoleModel {
    pub line: Seq<u8>,
    pub committed: nat,
}

/// Effect of one input character on the console: the new input, the bytes
/// echoed to the terminal, and whether readers are to be woken.
pub open spec fn console_char(m: ConsoleModel, c: u8) -> (ConsoleModel, Seq<u8>, bool) {
    if c == CTRL_U {
        let k = erase_count(m.line, m.committed);
        (
            ConsoleModel { line: m.line.take(m.line.len() - k), committed: m.committed },
            backspaces(k),
            false,
        )
    } else if c == ASCII_BS || c == ASCII_DEL {
        if m.line.len() > m.committed {
            (ConsoleModel { line: m.line.drop_last(), committed: m.committed }, backspaces(1), false)
        } else {
            (m, Seq::empty(), false)
        }
    } else if c != 0 && m.line.len() < INPUT_BUF_SIZE {
        let v: u8 = if c == 13 { 10u8 } else { c };
        let line = m.line.push(v);
        if v == 10 || v == CTRL_D || line.len() == INPUT_BUF_SIZE {
            (ConsoleModel { line, committed: line.len() }, seq![v], true)
        } else {
            (ConsoleModel { line, committed: m.committed }, seq![v], false)
        }
    } else {
        (m, Seq::empty(), false)
    }
}

/// How many characters Control-U erases: back to the commit point or to just
/// after the last newline of the line being edited, whichever comes first.
pub open spec fn erase_count(line: Seq<u8>, committed: nat) -> nat
    decreases line.len(),
{
    if line.len() <= committed || line.last() == 10 {
        0
    } else {
        1 + erase_count(line.drop_last(), committed)
    }
}

/// What erasing `k` characters echoes: backspace, space, backspace for each.
pub open spec fn backspaces(k: nat) -> Seq<u8>
    decreases k,
{
    if k == 0 {
        Seq::empty()
    } else {
        backspaces((k - 1) as nat) + seq![ASCII_BS, 32u8, ASCII_BS]
    }
}

/// Effect of a run of input characters.
pub open spec fn console_feed(m: ConsoleModel, input: Seq<u8>) -> (ConsoleModel, Seq<u8>, bool)
    decreases input.len(),
{
    if input.len() == 0 {
        (m, Seq::empty(), false)
    } else {
        let (m1, echo1, wake1) = console_feed(m, input.drop_last());
        let (m2, echo2, wake2) = console_char(m1, input.last());
        (m2, echo1 + echo2, wake1 || wake2)
    }
}

/// What interrupt handling of console input did: the bytes to echo, and
/// whether a line was committed so that readers are to be woken.
pub struct ConsoleIntr {
    pub echo: Vec<u8>,
    pub wake: bool,
}

/// What a console read came to.
pub enum ConsoleRead {
    /// The read is complete with these bytes.
    Done(Vec<u8>),
    /// These bytes were read and no committed input is left: sleep until
    /// input is committed, then read the rest.
    Blocked(Vec<u8>),
    /// No committed input and the reader was killed: the read returns 0.
    Killed,
}

impl Console {
    pub fn new() -> (r: Self)
        ensures
            r.wf(),
            r.model() == (ConsoleModel { line: Seq::empty(), committed: 0 }),
    {
        let mut buf: Vec<u8> = Vec::new();
        while buf.len() < INPUT_BUF_SIZE
            invariant
                buf.len() <= INPUT_BUF_SIZE,
            decreases INPUT_BUF_SIZE - buf.len(),
        {
            buf.push(0u8);
        }
        let c = Console { buf, r: 0, w: 0, e: 0 };
        assert(c.model().line =~= Seq::<u8>::empty());
        c
    }

    pub open spec fn wf(&self) -> bool {
        &&& self.buf@.len() == INPUT_BUF_SIZE
        &&& dist(self.r, self.e) <= INPUT_BUF_SIZE
        &&& dist(self.r, self.w) <= dist(self.r, self.e)
    }

    /// The input held, oldest first, and how much of it is committed.
    pub open spec fn model(&self) -> ConsoleModel {
        ConsoleModel {
            line: Seq::new(
                dist(self.r, self.e) as nat,
                |i: int| self.buf@[(self.r as int % 128 + i) % 128],
            ),
            committed: dist(self.r, self.w) as nat,
        }
    }

    /// Handle input characters from the terminal: editing keys change the
    /// line being edited, other characters are added to it while there is
    /// room, and a newline, Control-D or a full buffer commits the line.
    pub fn consoleintr(&mut self, input: &[u8]) -> (r: ConsoleIntr)
        requires
            old(self).wf(),
        ensures
            final(self).wf(),
            console_feed(old(self).model(), input@) == (final(self).model(), r.echo@, r.wake),
            final(self).r == old(self).r,
            dist(old(self).r, old(self).w) <= dist(final(self).r, final(self).w),
            forall|i: int|
                0 <= i < dist(old(self).r, old(self).w) ==> #[trigger] final(self).buf@[(final(self).r as int % 128 + i) % 128]
                    == old(self).buf@[(old(self).r as int % 128 + i) % 128],
    {
        let mut echo: Vec<u8> = Vec::new();
        let mut wake = false;
        let mut i: usize = 0;
        while i < input.len()
            invariant
                self.wf(),
                i <= input@.len(),
                console_feed(old(self).model(), input@.take(i as int)) == (self.model(), echo@, wake),
                self.r == old(self).r,
                old(self).model().committed <= self.model().committed,
                self.model().line.take(old(self).model().committed as int) == old(self).model().line.take(
                    old(self).model().committed as int,
                ),
            decreases input@.len() - i,
        {
            let ghost m0 = self.model();
            let ghost echo0 = echo@;
            let ghost wake0 = wake;
            let c = input[i];
            proof {
                law_editing_keeps_committed(m0, c);
            }
            let w1 = self.intr_char(c, &mut echo);
            wake = wake || w1;
            proof {
                assert(self.model().line.take(old(self).model().committed as int) =~= m0.line.take(
                    old(self).model().committed as int,
                ));
            }
            proof {
                assert(input@.take((i + 1) as int).drop_last() =~= input@.take(i as int));
                assert(input@.take((i + 1) as int).last() == c);
            }
            i = i + 1;
        }
        proof {
            assert(input@.take(input@.len() as int) =~= input@);
            let k = old(self).model().committed as int;
            assert forall|i: int| 0 <= i < dist(old(self).r, old(self).w) implies #[trigger] self.buf@[(self.r as int % 128
                + i) % 128] == old(self).buf@[(old(self).r as int % 128 + i) % 128] by {
                assert(self.model().line.take(k)[i] == old(self).model().line.take(k)[i]);
            }
        }
        ConsoleIntr { echo, wake }
    }

    fn intr_char(&mut self, c: u8, echo: &mut Vec<u8>) -> (wake: bool)
        requires
            old(self).wf(),
        ensures
            final(self).wf(),
            final(self).r == old(self).r,
            ({
                let (m, e, w) = console_char(old(self).model(), c);
                &&& final(self).model() == m
                &&& final(echo)@ == old(echo)@ + e
                &&& wake == w
            }),
    {
        if c == CTRL_U {
            let ghost start = self.model();
            let ghost echo0 = echo@;
            loop
                invariant
                    self.wf(),
                    self.model().committed == start.committed,
                    self.model().line.len() <= start.line.len(),
                    self.model().line == start.line.take(self.model().line.len() as int),
                    erase_count(start.line, start.committed) == (start.line.len() - self.model().line.len())
                        + erase_count(self.model().line, start.committed),
                    echo@ == echo0 + backspaces((start.line.len() - self.model().line.len()) as nat),
                    start == old(self).model(),
                    echo0 == old(echo)@,
                    self.r == old(self).r,
                ensures
                    self.wf(),
                    self.r == old(self).r,
                    self.model().committed == start.committed,
                    self.model().line == start.line.take(start.line.len() - erase_count(start.line, start.committed)),
                    echo@ == echo0 + backspaces(erase_count(start.line, start.committed)),
                decreases self.model().line.len(),
            {
                if self.e == self.w {
                    proof {
                        lemma_dist_same(self.r, self.w, self.e);
                    }
                    break;
                }
                proof {
                    lemma_step_back(self.r, self.w, self.e);
                }
                if self.buf[(self.e.wrapping_sub(1) % 128) as usize] == 10 {
                    break;
                }
                let ghost line0 = self.model().line;
                self.erase_back(echo);
                proof {
                    assert(line0.drop_last() =~= start.line.take(line0.len() - 1));
                    assert(echo@ =~= echo0 + backspaces((start.line.len() - self.model().line.len()) as nat));
                }
            }
            false
        } else if c == ASCII_BS || c == ASCII_DEL {
            if self.e != self.w {
                self.erase_back(echo);
                proof {
                    reveal_with_fuel(backspaces, 2);
                    assert(echo@ =~= old(echo)@ + backspaces(1));
                }
            } else {
                proof {
                    lemma_dist_same(self.r, self.w, self.e);
                    assert(echo@ =~= old(echo)@ + Seq::<u8>::empty());
                }
            }
            false
        } else {
            proof {
                lemma_wrapping_sub_dist(self.r, self.e);
            }
            if c != 0 && self.e.wrapping_sub(self.r) < INPUT_BUF_SIZE as u64 {
                let v: u8 = if c == 13 { 10u8 } else { c };
                self.insert_char(v, echo)
            } else {
                proof {
                    assert(echo@ =~= old(echo)@ + Seq::<u8>::empty());
                }
                false
            }
        }
    }

    /// Erase the last character of the line being edited.
    fn erase_back(&mut self, echo: &mut Vec<u8>)
        requires
            old(self).wf(),
            old(self).e != old(self).w,
        ensures
            final(self).wf(),
            final(self).r == old(self).r,
            final(self).model().committed == old(self).model().committed,
            old(self).model().line.len() > old(self).model().committed,
            final(self).model().line == old(self).model().line.drop_last(),
            final(echo)@ == old(echo)@ + seq![ASCII_BS, 32u8, ASCII_BS],
    {
        proof {
            lemma_step_back(self.r, self.w, self.e);
        }
        let ghost line0 = self.model().line;
        self.e = self.e.wrapping_sub(1);
        proof {
            lemma_line_drop_last(self, line0);
        }
        echo.push(ASCII_BS);
        echo.push(32u8);
        echo.push(ASCII_BS);
        proof {
            assert(echo@ =~= old(echo)@ + seq![ASCII_BS, 32u8, ASCII_BS]);
        }
    }

    /// Add a character to the line being edited, which has room; commit the
    /// line on newline, Control-D or a full buffer.
    fn insert_char(&mut self, v: u8, echo: &mut Vec<u8>) -> (wake: bool)
        requires
            old(self).wf(),
            old(self).model().line.len() < INPUT_BUF_SIZE,
        ensures
            final(self).wf(),
            final(self).r == old(self).r,
            ({
                let line = old(self).model().line.push(v);
                let full = v == 10 || v == CTRL_D || line.len() == INPUT_BUF_SIZE;
                &&& final(self).model().line == line
                &&& final(self).model().committed == (if full { line.len() } else { old(self).model().committed })
                &&& wake == full
            }),
            final(echo)@ == old(echo)@.push(v),
    {
        let idx = (self.e % 128) as usize;
        let ghost line0 = self.model().line;
        let ghost buf0 = self.buf@;
        let ghost e0 = self.e;
        proof {
            lemma_wrapping_sub_dist(self.r, self.e);
        }
        self.buf.set(idx, v);
        self.e = self.e.wrapping_add(1);
        proof {
            lemma_line_push(self, self.r, e0, buf0, line0, v);
        }
        echo.push(v);
        proof {
            lemma_full(self.r, self.e);
        }
        if v == 10 || v == CTRL_D || self.e == self.r.wrapping_add(INPUT_BUF_SIZE as u64) {
            self.w = self.e;
            true
        } else {
            false
        }
    }

    /// Read up to `n` committed bytes, stopping after a newline; `before`
    /// bytes were already delivered by this read system call before it slept.
    /// A Control-D ends the read: it is consumed when nothing was read yet
    /// (end of file), and left for the next read otherwise.
    pub fn consoleread(&mut self, n: usize, killed: bool, before: usize) -> (res: ConsoleRead)
        requires
            old(self).wf(),
        ensures
            final(self).wf(),
            read_effect(old(self).model(), n, killed, before, res, final(self).model()),
            final(self).w == old(self).w,
            final(self).e == old(self).e,
            final(self).buf@ == old(self).buf@,
            dist(old(self).r, final(self).r) == old(self).model().line.len() - final(self).model().line.len(),
    {
        let mut out: Vec<u8> = Vec::new();
        let ghost m0 = self.model();
        while out.len() < n
            invariant
                self.wf(),
                out@.len() <= n,
                out@.len() <= m0.committed,
                self.model().line == m0.line.skip(out@.len() as int),
                self.model().committed == m0.committed - out@.len(),
                out@ == m0.line.take(out@.len() as int),
                forall|k: int| 0 <= k < out@.len() ==> out@[k] != CTRL_D && out@[k] != 10,
                read_count(m0.line, m0.committed, n) == out@.len() + read_count(
                    self.model().line,
                    self.model().committed,
                    (n - out@.len()) as usize,
                ),
                m0 == old(self).model(),
                m0.committed <= m0.line.len(),
                self.w == old(self).w,
                self.e == old(self).e,
                self.buf@ == old(self).buf@,
                dist(old(self).r, self.r) == out@.len(),
                dist(old(self).r, old(self).e) <= 128,
            decreases n - out@.len(),
        {
            if self.r == self.w {
                proof {
                    lemma_dist_same(self.r, self.w, self.w);
                }
                proof {
                    let k = out@.len();
                    assert(read_count(self.model().line, self.model().committed, (n - k) as usize) == 0);
                    assert(k > 0 ==> m0.line[k - 1] == out@[k - 1]);
                }
                if killed {
                    return ConsoleRead::Killed;
                }
                return ConsoleRead::Blocked(out);
            }
            proof {
                lemma_front(self.r, self.w, self.e);
            }
            let c = self.buf[(self.r % 128) as usize];
            let ghost line0 = self.model().line;
            let ghost cm0 = self.model().committed;
            let ghost r0 = self.r;
            proof {
                assert(line0[0] == c);
                assert(m0.line[out@.len() as int] == c);
            }
            if c == CTRL_D {
                proof {
                    assert(read_count(line0, cm0, (n - out@.len()) as usize) == 0);
                }
                if out.len() == 0 && before == 0 {
                    self.r = self.r.wrapping_add(1);
                    proof {
                        lemma_line_drop_first(self, r0, line0);
                        assert(self.model().line =~= m0.line.skip(1));
                        assert(self.model().committed == m0.committed - 1);
                    }
                }
                return ConsoleRead::Done(out);
            }
            self.r = self.r.wrapping_add(1);
            proof {
                lemma_line_drop_first(self, r0, line0);
                assert(self.model().line =~= m0.line.skip(out@.len() as int + 1));
            }
            out.push(c);
            proof {
                assert(out@ =~= m0.line.take(out@.len() as int));
            }
            if c == 10 {
                return ConsoleRead::Done(out);
            }
        }
        ConsoleRead::Done(out)
    }
}

/// How a console read changes the input. `k` committed bytes are taken in
/// order: up to `n`, through the first newline, up to the end of the
/// committed input, or up to a Control-D. The read is complete when it took
/// `n` bytes, ended at a newline, or met a Control-D (which is consumed only
/// when nothing was read, in this call or, `before`, earlier in the same
/// read system call, as end of file); otherwise the committed input ran
/// out, and the reader sleeps for more, or, if killed, gets 0.
pub open spec fn read_effect(m: ConsoleModel, n: usize, killed: bool, before: usize, r: ConsoleRead, after: ConsoleModel) -> bool {
    let k = read_count(m.line, m.committed, n);
    let eof = k < m.committed && k < n && m.line[k as int] == CTRL_D;
    let done = k == n || (k > 0 && m.line[k - 1] == 10) || eof;
    let consumed: int = if eof && k == 0 && before == 0 { 1 } else { k as int };
    &&& after == (ConsoleModel { line: m.line.skip(consumed), committed: (m.committed - consumed) as nat })
    &&& done ==> (r matches ConsoleRead::Done(v) && v@ == m.line.take(k as int))
    &&& (!done && killed) ==> r is Killed
    &&& (!done && !killed) ==> (r matches ConsoleRead::Blocked(v) && v@ == m.line.take(k as int))
}

/// How many committed bytes a read of `n` takes: up to `n`, up to the
/// committed count, up to and including the first newline, and not including
/// a Control-D.
pub open spec fn read_count(line: Seq<u8>, committed: nat, n: usize) -> nat
    decreases n,
{
    if n == 0 || committed == 0 || line.len() == 0 || line[0] == CTRL_D {
        0
    } else if line[0] == 10 {
        1
    } else {
        1 + read_count(line.drop_first(), (committed - 1) as nat, (n - 1) as usize)
    }
}

proof fn lemma_dist_same(r: u64, w: u64, e: u64)
    ensures
        w == e ==> dist(r, w) == dist(r, e),
        r == w ==> dist(r, w) == 0,
{
}

proof fn lemma_step_back(r: u64, w: u64, e: u64)
    requires
        e != w,
        dist(r, w) <= dist(r, e) <= 128,
    ensures
        dist(r, e) > dist(r, w),
        dist(r, e) >= 1,
        dist(r, ((e as int - 1) % 0x1_0000_0000_0000_0000int) as u64) == dist(r, e) - 1,
        ((e as int - 1) % 0x1_0000_0000_0000_0000int) % 128 == (r as int % 128 + (dist(r, e) - 1)) % 128,
{
}

proof fn lemma_wrapping_sub_dist(r: u64, e: u64)
    ensures
        ((e as int - r as int) % 0x1_0000_0000_0000_0000int) == dist(r, e),
        e as int % 128 == (r as int % 128 + dist(r, e)) % 128,
        dist(r, e) < 128 ==> dist(r, ((e as int + 1) % 0x1_0000_0000_0000_0000int) as u64) == dist(r, e) + 1,
{
}

proof fn lemma_full(r: u64, e: u64)
    requires
        dist(r, e) <= 128,
    ensures
        (e == (r as int + 128) % 0x1_0000_0000_0000_0000int) <==> dist(r, e) == 128,
        dist(r, e) == 0 <==> r == e,
{
}

proof fn lemma_front(r: u64, w: u64, e: u64)
    requires
        r != w,
        dist(r, w) <= dist(r, e) <= 128,
    ensures
        dist(r, w) >= 1,
        dist(((r as int + 1) % 0x1_0000_0000_0000_0000int) as u64, w) == dist(r, w) - 1,
        dist(((r as int + 1) % 0x1_0000_0000_0000_0000int) as u64, e) == dist(r, e) - 1,
        (((r as int + 1) % 0x1_0000_0000_0000_0000int) % 128) == (r as int % 128 + 1) % 128,
{
}

proof fn lemma_line_drop_last(c: &Console, line0: Seq<u8>)
    requires
        c.buf@.len() == 128,
        line0.len() >= 1,
        dist(c.r, c.e) == line0.len() - 1,
        forall|i: int| 0 <= i < line0.len() ==> line0[i] == #[trigger] c.buf@[(c.r as int % 128 + i) % 128],
    ensures
        c.model().line == line0.drop_last(),
{
    assert(c.model().line =~= line0.drop_last());
}

proof fn lemma_line_push(c: &Console, r: u64, e0: u64, buf0: Seq<u8>, line0: Seq<u8>, v: u8)
    requires
        c.buf@.len() == 128,
        buf0.len() == 128,
        c.r == r,
        line0.len() < 128,
        dist(r, e0) == line0.len(),
        e0 as int % 128 == (r as int % 128 + dist(r, e0)) % 128,
        c.buf@ == buf0.update(e0 as int % 128, v),
        dist(r, c.e) == line0.len() + 1,
        forall|i: int| 0 <= i < line0.len() ==> line0[i] == #[trigger] buf0[(r as int % 128 + i) % 128],
    ensures
        c.model().line == line0.push(v),
{
    assert forall|i: int| 0 <= i < line0.len() implies c.model().line[i] == line0[i] by {
        assert((r as int % 128 + i) % 128 != e0 as int % 128);
    }
    assert(c.model().line =~= line0.push(v));
}

proof fn lemma_line_drop_first(c: &Console, r0: u64, line0: Seq<u8>)
    requires
        c.buf@.len() == 128,
        line0.len() >= 1,
        c.r == (r0 as int + 1) % 0x1_0000_0000_0000_0000int,
        dist(r0, c.e) == line0.len(),
        dist(c.r, c.e) == line0.len() - 1,
        forall|i: int| 0 <= i < line0.len() ==> line0[i] == #[trigger] c.buf@[(r0 as int % 128 + i) % 128],
    ensures
        c.model().line == line0.drop_first(),
{
    assert forall|i: int| 0 <= i < line0.len() - 1 implies c.model().line[i] == line0[i + 1] by {
        assert((c.r as int % 128 + i) % 128 == (r0 as int % 128 + (i + 1)) % 128);
    }
    assert(c.model().line =~= line0.drop_first());
}


proof fn lemma_erase_count_bound(line: Seq<u8>, committed: nat)
    requires
        committed <= line.len(),
    ensures
        erase_count(line, committed) <= line.len() - committed,
    decreases line.len(),
{
    if line.len() <= committed || line.last() == 10 {
    } else {
        lemma_erase_count_bound(line.drop_last(), committed);
    }
}

/// Delete erases like backspace: both remove the last uncommitted character
/// and echo backspace, space, backspace, or do nothing when there is none;
/// neither ever adds to the input. Feeding input that ends in one or the
/// other comes to the same.
pub proof fn law_delete_erases(m: ConsoleModel, input: Seq<u8>)
    requires
        m.committed <= m.line.len(),
    ensures
        console_char(m, ASCII_DEL) == console_char(m, ASCII_BS),
        console_feed(m, input.push(ASCII_DEL)) == console_feed(m, input.push(ASCII_BS)),
        m.line.len() > m.committed ==> console_char(m, ASCII_DEL).0.line == m.line.take(m.line.len() - 1)
            && console_char(m, ASCII_DEL).1 == seq![8u8, 32u8, 8u8],
        m.line.len() == m.committed ==> console_char(m, ASCII_DEL).0 == m && console_char(m, ASCII_DEL).1.len() == 0,
        console_char(m, ASCII_DEL).0.line.len() <= m.line.len(),
        console_char(m, ASCII_DEL).0.committed == m.committed,
        !console_char(m, ASCII_DEL).2,
{
    reveal_with_fuel(backspaces, 2);
    assert(input.push(ASCII_DEL).drop_last() =~= input);
    assert(input.push(ASCII_BS).drop_last() =~= input);
    assert(m.line.drop_last() =~= m.line.take(m.line.len() - 1));
}

/// Line editing never touches committed input: after any input character
/// the committed bytes are still there, in front, and at least as many bytes
/// are committed as before.
pub proof fn law_editing_keeps_committed(m: ConsoleModel, c: u8)
    requires
        m.committed <= m.line.len(),
    ensures
        ({
            let (m2, _e, _w) = console_char(m, c);
            &&& m2.committed >= m.committed
            &&& m2.committed <= m2.line.len()
            &&& m2.line.take(m.committed as int) == m.line.take(m.committed as int)
        }),
{
    lemma_erase_count_bound(m.line, m.committed);
    let (m2, _e, _w) = console_char(m, c);
    assert(m2.line.take(m.committed as int) =~= m.line.take(m.committed as int));
}

}
