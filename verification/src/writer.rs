use vstd::prelude::*;
use vstd::string::StringSliceAdditionalSpecFns;

verus! {

/// Indentation added by [`Writer::indented`]: four spaces.
pub open spec fn default_indent() -> Seq<u8> {
    seq![32u8, 32u8, 32u8, 32u8]
}

/// Carriage return.
pub const CR: u8 = 13u8;

/// Line feed.
pub const LF: u8 = 10u8;

/// Line state shared by a writer and the writers indented from it.
#[derive(Copy, Clone, Debug, PartialEq, Eq, Structural)]
pub struct WriteState {
    new_line: bool,
    was_cr: bool,
}

impl WriteState {
    pub open spec fn spec_new_line(&self) -> bool {
        self.view().0
    }

    pub open spec fn spec_was_cr(&self) -> bool {
        self.view().1
    }

    pub closed spec fn view(&self) -> (bool, bool) {
        (self.new_line, self.was_cr)
    }

    /// The state at the start of output: not after a line break.
    pub fn new() -> (r: WriteState)
        ensures
            r.view() == (false, false),
    {
        WriteState { new_line: false, was_cr: false }
    }

    /// The last byte written ended a line.
    pub fn new_line(&self) -> (r: bool)
        ensures
            r == self.spec_new_line(),
    {
        self.new_line
    }

    /// The last byte written was a carriage return.
    pub fn was_cr(&self) -> (r: bool)
        ensures
            r == self.spec_was_cr(),
    {
        self.was_cr
    }

    pub fn set_new_line(&mut self, value: bool)
        ensures
            final(self).view() == (value, old(self).view().1),
    {
        self.new_line = value;
    }

    pub fn set_was_cr(&mut self, value: bool)
        ensures
            final(self).view() == (old(self).view().0, value),
    {
        self.was_cr = value;
    }
}

/// Output of one byte in state `st` with indentation `ind`, and the state
/// after it. A line break (CR, LF, or CR LF) is written as a single LF; the
/// first byte of every other line is preceded by the indentation.
pub open spec fn write_step(st: (bool, bool), ind: Seq<u8>, b: u8) -> (Seq<u8>, (bool, bool)) {
    if b == CR {
        (seq![LF], (true, true))
    } else if b == LF {
        (if st.1 { Seq::empty() } else { seq![LF] }, (true, false))
    } else {
        ((if st.0 { ind } else { Seq::empty() }).push(b), (false, false))
    }
}

/// Output of writing `s` in state `st` with indentation `ind`, and the state
/// after it.
pub open spec fn write_render(st: (bool, bool), ind: Seq<u8>, s: Seq<u8>) -> (Seq<u8>, (bool, bool))
    decreases s.len(),
{
    if s.len() == 0 {
        (Seq::empty(), st)
    } else {
        let prev = write_render(st, ind, s.drop_last());
        let last = write_step(prev.1, ind, s.last());
        (prev.0 + last.0, last.1)
    }
}

/// A text writer that indents every line and normalizes line breaks to LF.
///
/// Writers collect their output in memory. An indented writer is made from
/// a writer by [`Writer::indented`] and undone by [`Writer::dedent`]; both
/// levels share the output and the line state.
pub struct Writer {
    output: Vec<u8>,
    indent: Vec<u8>,
    levels: Vec<Vec<u8>>,
    state: WriteState,
}

impl Writer {
    /// Bytes written so far.
    pub closed spec fn spec_output(&self) -> Seq<u8> {
        self.output@
    }

    /// Current indentation.
    pub closed spec fn spec_indent(&self) -> Seq<u8> {
        self.indent@
    }

    /// Indentations of the enclosing levels, outermost first.
    pub closed spec fn spec_levels(&self) -> Seq<Seq<u8>> {
        Seq::new(self.levels@.len(), |i: int| self.levels@[i]@)
    }

    pub closed spec fn spec_state(&self) -> (bool, bool) {
        self.state.view()
    }

    /// A writer with no output and no indentation.
    pub fn new() -> (r: Writer)
        ensures
            r.spec_output() == Seq::<u8>::empty(),
            r.spec_indent() == Seq::<u8>::empty(),
            r.spec_levels() == Seq::<Seq<u8>>::empty(),
            r.spec_state() == (false, false),
    {
        let r = Writer { output: Vec::new(), indent: Vec::new(), levels: Vec::new(), state: WriteState::new() };
        assert(r.spec_levels() =~= Seq::<Seq<u8>>::empty());
        r
    }

    /// A writer whose output is read back as text with [`Writer::text`].
    pub fn str() -> (r: Writer)
        ensures
            r.spec_output() == Seq::<u8>::empty(),
            r.spec_indent() == Seq::<u8>::empty(),
            r.spec_levels() == Seq::<Seq<u8>>::empty(),
            r.spec_state() == (false, false),
    {
        Self::new()
    }

    /// The bytes written so far.
    pub fn text(&self) -> (r: &[u8])
        ensures
            r@ == self.spec_output(),
    {
        self.output.as_slice()
    }

    /// Enter a level indented by the default indentation.
    pub fn indented(&mut self)
        ensures
            final(self).spec_output() == old(self).spec_output(),
            final(self).spec_state() == old(self).spec_state(),
            final(self).spec_indent() == old(self).spec_indent() + default_indent(),
            final(self).spec_levels() == old(self).spec_levels().push(old(self).spec_indent()),
    {
        let prefix: [u8; 4] = [32u8, 32u8, 32u8, 32u8];
        assert(default_indent() =~= prefix@);
        self.indented_with(&prefix);
    }

    /// Enter a level indented by `prefix` more than the current one.
    pub fn indented_with(&mut self, prefix: &[u8])
        ensures
            final(self).spec_output() == old(self).spec_output(),
            final(self).spec_state() == old(self).spec_state(),
            final(self).spec_indent() == old(self).spec_indent() + prefix@,
            final(self).spec_levels() == old(self).spec_levels().push(old(self).spec_indent()),
    {
        let ghost old_levels = self.spec_levels();
        let ghost old_indent = self.indent@;
        let ghost out0 = self.output@;
        let ghost st0 = self.state;
        let saved = self.indent.clone();
        assert(saved@ =~= old_indent);
        self.levels.push(saved);
        let ghost lv1 = self.levels@;
        assert(Seq::new(lv1.len(), |k: int| lv1[k]@) =~= old_levels.push(old_indent));
        let mut i: usize = 0;
        while i < prefix.len()
            invariant
                0 <= i <= prefix@.len(),
                self.indent@ == old_indent + prefix@.take(i as int),
                self.output@ == out0,
                self.state == st0,
                self.levels@ == lv1,
            decreases prefix@.len() - i,
        {
            self.indent.push(prefix[i]);
            i = i + 1;
        }
        assert(prefix@.take(prefix@.len() as int) =~= prefix@);
        assert(self.spec_levels() =~= old_levels.push(old_indent));
    }

    /// Leave the innermost indented level. Without one, nothing changes.
    pub fn dedent(&mut self)
        ensures
            final(self).spec_output() == old(self).spec_output(),
            final(self).spec_state() == old(self).spec_state(),
            old(self).spec_levels().len() == 0 ==> final(self).spec_indent() == old(self).spec_indent()
                && final(self).spec_levels() == old(self).spec_levels(),
            old(self).spec_levels().len() > 0 ==> final(self).spec_indent() == old(self).spec_levels().last()
                && final(self).spec_levels() == old(self).spec_levels().drop_last(),
    {
        let ghost old_levels = self.spec_levels();
        if let Some(prev) = self.levels.pop() {
            self.indent = prev;
            assert(self.spec_levels() =~= old_levels.drop_last());
        }
    }

    /// Write `buf`, indenting each line and writing each line break as LF.
    /// Returns the number of bytes taken from `buf`.
    pub fn write(&mut self, buf: &[u8]) -> (r: usize)
        ensures
            r == buf@.len(),
            final(self).spec_indent() == old(self).spec_indent(),
            final(self).spec_levels() == old(self).spec_levels(),
            final(self).spec_output() == old(self).spec_output() + write_render(
                old(self).spec_state(),
                old(self).spec_indent(),
                buf@,
            ).0,
            final(self).spec_state() == write_render(old(self).spec_state(), old(self).spec_indent(), buf@).1,
    {
        let ghost st0 = self.state.view();
        let ghost out0 = self.output@;
        let ghost ind = self.indent@;
        let ghost lv = self.levels@;
        let len = buf.len();
        let mut i: usize = 0;
        while i < len
            invariant
                0 <= i <= len,
                len == buf@.len(),
                self.indent@ == ind,
                self.levels@ == lv,
                self.output@ == out0 + write_render(st0, ind, buf@.take(i as int)).0,
                self.state.view() == write_render(st0, ind, buf@.take(i as int)).1,
            decreases len - i,
        {
            let chr = buf[i];
            let ghost prev = buf@.take(i as int);
            assert(buf@.take(i + 1).drop_last() =~= prev);
            if chr == CR || chr == LF {
                if chr == CR || !self.state.was_cr() {
                    self.output.push(LF);
                }
                self.state.set_was_cr(chr == CR);
                self.state.set_new_line(true);
            } else {
                if self.state.new_line() {
                    let mut k: usize = 0;
                    let ghost before = self.output@;
                    while k < self.indent.len()
                        invariant
                            0 <= k <= self.indent@.len(),
                            self.indent@ == ind,
                            self.levels@ == lv,
                            self.output@ == before + ind.take(k as int),
                        decreases self.indent@.len() - k,
                    {
                        let b = self.indent[k];
                        self.output.push(b);
                        k = k + 1;
                    }
                    assert(ind.take(ind.len() as int) =~= ind);
                }
                self.output.push(chr);
                self.state.set_new_line(false);
                self.state.set_was_cr(false);
            }
            assert(self.output@ =~= out0 + write_render(st0, ind, buf@.take(i + 1)).0);
            i = i + 1;
        }
        assert(buf@.take(len as int) =~= buf@);
        len
    }

    /// Write the bytes of `s`.
    pub fn write_str(&mut self, s: &str) -> (r: usize)
        ensures
            r == s.spec_bytes().len(),
            final(self).spec_indent() == old(self).spec_indent(),
            final(self).spec_levels() == old(self).spec_levels(),
            final(self).spec_output() == old(self).spec_output() + write_render(
                old(self).spec_state(),
                old(self).spec_indent(),
                s.spec_bytes(),
            ).0,
            final(self).spec_state() == write_render(old(self).spec_state(), old(self).spec_indent(), s.spec_bytes()).1,
    {
        self.write(s.as_bytes())
    }

    /// Nothing is buffered outside the output, so flushing does nothing.
    pub fn flush(&mut self)
        ensures
            *final(self) == *old(self),
    {
    }
}

/// Writing `a` and then `b` gives the same output and state as writing `a + b`
/// at once.
pub proof fn lemma_write_concat(st: (bool, bool), ind: Seq<u8>, a: Seq<u8>, b: Seq<u8>)
    ensures
        write_render(st, ind, a + b) == (
            write_render(st, ind, a).0 + write_render(write_render(st, ind, a).1, ind, b).0,
            write_render(write_render(st, ind, a).1, ind, b).1,
        ),
    decreases b.len(),
{
    if b.len() == 0 {
        assert(a + b =~= a);
        assert(write_render(st, ind, a).0 + Seq::<u8>::empty() =~= write_render(st, ind, a).0);
    } else {
        assert((a + b).drop_last() =~= a + b.drop_last());
        assert((a + b).last() == b.last());
        lemma_write_concat(st, ind, a, b.drop_last());
        let mid = write_render(st, ind, a).1;
        let rb = write_render(mid, ind, b.drop_last());
        let last = write_step(rb.1, ind, b.last());
        assert(write_render(st, ind, a).0 + rb.0 + last.0 =~= write_render(st, ind, a).0 + (rb.0 + last.0));
    }
}

/// With an indentation free of carriage returns, the output holds no carriage
/// return: every line break is written as LF.
pub proof fn lemma_write_no_cr(st: (bool, bool), ind: Seq<u8>, s: Seq<u8>)
    requires
        !ind.contains(CR),
    ensures
        !write_render(st, ind, s).0.contains(CR),
    decreases s.len(),
{
    if s.len() > 0 {
        lemma_write_no_cr(st, ind, s.drop_last());
        let prev = write_render(st, ind, s.drop_last());
        let last = write_step(prev.1, ind, s.last());
        if s.last() != CR && s.last() != LF {
            assert(!(if prev.1.0 { ind } else { Seq::<u8>::empty() }).contains(CR));
            assert(!last.0.contains(CR)) by {
                if last.0.contains(CR) {
                    let k = choose|k: int| 0 <= k < last.0.len() && last.0[k] == CR;
                    let pre = if prev.1.0 { ind } else { Seq::<u8>::empty() };
                    if k < pre.len() {
                        assert(pre[k] == CR);
                    }
                }
            }
        }
        assert(!(prev.0 + last.0).contains(CR)) by {
            if (prev.0 + last.0).contains(CR) {
                let k = choose|k: int| 0 <= k < (prev.0 + last.0).len() && (prev.0 + last.0)[k] == CR;
                if k < prev.0.len() {
                    assert(prev.0[k] == CR);
                } else {
                    assert(last.0[k - prev.0.len()] == CR);
                }
            }
        }
    }
}

/// Indenting a writer and then dedenting it gives back its indentation and
/// its enclosing levels: `a` is the writer before [`Writer::indented_with`],
/// `b` after it, and `c` after [`Writer::dedent`].
pub proof fn lemma_indent_then_dedent(a: Writer, b: Writer, c: Writer, prefix: Seq<u8>)
    requires
        b.spec_indent() == a.spec_indent() + prefix,
        b.spec_levels() == a.spec_levels().push(a.spec_indent()),
        b.spec_levels().len() > 0 ==> c.spec_indent() == b.spec_levels().last() && c.spec_levels()
            == b.spec_levels().drop_last(),
    ensures
        c.spec_indent() == a.spec_indent(),
        c.spec_levels() == a.spec_levels(),
{
    assert(a.spec_levels().push(a.spec_indent()).drop_last() =~= a.spec_levels());
}

} // verus!
