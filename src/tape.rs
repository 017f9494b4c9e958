use vstd::prelude::*;

use vstd::string::StringExecFns;

verus! {

/// Largest number of cells a tape may hold: the platform's addressable size.
pub const MAX_CELLS: usize = usize::MAX;

/// Mathematical picture of a tape: its cells and the index of the current cell.
pub struct TapeModel {
    pub cells: Seq<u8>,
    pub pointer: int,
}

impl TapeModel {
    /// The pointer addresses a cell.
    pub open spec fn wf(self) -> bool {
        0 <= self.pointer < self.cells.len() <= MAX_CELLS
    }

    /// Value of the current cell.
    pub open spec fn current(self) -> u8 {
        self.cells[self.pointer]
    }

    /// Moves one cell to the right, appending a zero cell while the tape is below its
    /// maximum length; at the maximum length the pointer wraps to the first cell.
    pub open spec fn moved_right(self) -> TapeModel {
        if self.cells.len() < MAX_CELLS {
            TapeModel { cells: self.cells.push(0), pointer: self.pointer + 1 }
        } else if self.pointer + 1 == self.cells.len() {
            TapeModel { cells: self.cells, pointer: 0 }
        } else {
            TapeModel { cells: self.cells, pointer: self.pointer + 1 }
        }
    }

    /// Moves one cell to the left; at the first cell a zero cell is prepended while the
    /// tape is below its maximum length, otherwise the pointer wraps to the last cell.
    pub open spec fn moved_left(self) -> TapeModel {
        if self.pointer != 0 {
            TapeModel { cells: self.cells, pointer: self.pointer - 1 }
        } else if self.cells.len() < MAX_CELLS {
            TapeModel { cells: seq![0u8].add(self.cells), pointer: 0 }
        } else {
            TapeModel { cells: self.cells, pointer: self.cells.len() - 1 }
        }
    }

    /// Stores `v` in the current cell.
    pub open spec fn with_current(self, v: u8) -> TapeModel {
        TapeModel { cells: self.cells.update(self.pointer, v), pointer: self.pointer }
    }

    /// Adds one to the current cell, modulo 256.
    pub open spec fn incremented(self) -> TapeModel {
        self.with_current(((self.current() + 1) % 256) as u8)
    }

    /// Subtracts one from the current cell, modulo 256.
    pub open spec fn decremented(self) -> TapeModel {
        self.with_current(((self.current() + 255) % 256) as u8)
    }
}

/// The decimal digit `d` as a character.
pub open spec fn digit_char(d: int) -> char {
    if d == 0 {
        '0'
    } else if d == 1 {
        '1'
    } else if d == 2 {
        '2'
    } else if d == 3 {
        '3'
    } else if d == 4 {
        '4'
    } else if d == 5 {
        '5'
    } else if d == 6 {
        '6'
    } else if d == 7 {
        '7'
    } else if d == 8 {
        '8'
    } else {
        '9'
    }
}

/// A cell value in three decimal digits, zero-padded.
pub open spec fn cell_text(v: u8) -> Seq<char> {
    seq![digit_char((v / 100) as int), digit_char(((v / 10) % 10) as int), digit_char((v % 10) as int)]
}

/// The current cell in brackets, with its left and right neighbours where they exist.
pub open spec fn display_text(t: TapeModel) -> Seq<char> {
    let c = t.cells;
    let p = t.pointer;
    if c.len() == 1 {
        seq!['['] + cell_text(c[0]) + seq![']']
    } else if p == 0 {
        seq!['['] + cell_text(c[0]) + seq![']', ' '] + cell_text(c[1])
    } else if p == c.len() - 1 {
        cell_text(c[p - 1]) + seq![' ', '['] + cell_text(c[p]) + seq![']']
    } else {
        cell_text(c[p - 1]) + seq![' ', '['] + cell_text(c[p]) + seq![']', ' '] + cell_text(
            c[p + 1],
        )
    }
}

fn digit_str(d: u8) -> (r: &'static str)
    requires
        d < 10,
    ensures
        r@ == seq![digit_char(d as int)],
{
    if d == 0 {
        proof {
            reveal_strlit("0");
        }
        "0"
    } else if d == 1 {
        proof {
            reveal_strlit("1");
        }
        "1"
    } else if d == 2 {
        proof {
            reveal_strlit("2");
        }
        "2"
    } else if d == 3 {
        proof {
            reveal_strlit("3");
        }
        "3"
    } else if d == 4 {
        proof {
            reveal_strlit("4");
        }
        "4"
    } else if d == 5 {
        proof {
            reveal_strlit("5");
        }
        "5"
    } else if d == 6 {
        proof {
            reveal_strlit("6");
        }
        "6"
    } else if d == 7 {
        proof {
            reveal_strlit("7");
        }
        "7"
    } else if d == 8 {
        proof {
            reveal_strlit("8");
        }
        "8"
    } else {
        proof {
            reveal_strlit("9");
        }
        "9"
    }
}

fn push_cell(out: &mut String, v: u8)
    ensures
        final(out)@ == old(out)@ + cell_text(v),
{
    out.append(digit_str(v / 100));
    out.append(digit_str((v / 10) % 10));
    out.append(digit_str(v % 10));
    assert(final(out)@ =~= old(out)@ + cell_text(v));
}

/// The tape after `n` increments of the current cell.
pub open spec fn increments(t: TapeModel, n: nat) -> TapeModel
    decreases n,
{
    if n == 0 {
        t
    } else {
        increments(t, (n - 1) as nat).incremented()
    }
}

/// 256 increments leave the tape as it was.
pub proof fn lemma_increments_wrap(t: TapeModel)
    requires
        t.wf(),
    ensures
        increments(t, 256) == t,
{
    lemma_increments_value(t, 256);
    assert(((t.current() + 256) % 256) as u8 == t.current());
    assert(t.with_current(t.current()).cells =~= t.cells);
}

/// Increments add to the current cell modulo 256 and touch nothing else.
pub proof fn lemma_increments_value(t: TapeModel, n: nat)
    requires
        t.wf(),
    ensures
        increments(t, n) == t.with_current(((t.current() + n) % 256) as u8),
    decreases n,
{
    if n > 0 {
        lemma_increments_value(t, (n - 1) as nat);
        let v = ((t.current() + n - 1) % 256) as u8;
        assert(t.with_current(v).current() == v);
        assert(((v + 1) % 256) as u8 == ((t.current() + n) % 256) as u8);
        assert(t.with_current(v).with_current(((v + 1) % 256) as u8).cells =~= t.with_current(
            ((t.current() + n) % 256) as u8,
        ).cells);
    } else {
        assert(((t.current() + 0) % 256) as u8 == t.current());
        assert(t.with_current(t.current()).cells =~= t.cells);
    }
}

/// A decrement takes a zero cell to 255.
pub proof fn lemma_decrement_wraps(t: TapeModel)
    requires
        t.wf(),
        t.current() == 0,
    ensures
        t.decremented().current() == 255,
        t.decremented().cells.len() == t.cells.len(),
{
}

/// From a single-cell tape, moving right appends a zero cell and points at it; moving
/// left from the first cell of a tape below its maximum length prepends a zero cell,
/// stays on the first cell, and keeps every earlier cell one place further on.
pub proof fn lemma_pointer_growth(t: TapeModel, u: TapeModel)
    requires
        t.wf(),
        t.cells.len() == 1,
        u.wf(),
        u.pointer == 0,
        u.cells.len() < MAX_CELLS,
    ensures
        t.moved_right().wf(),
        t.moved_right().cells.len() == 2,
        t.moved_right().pointer == 1,
        t.moved_right().cells[0] == t.cells[0],
        t.moved_right().current() == 0,
        u.moved_left().wf(),
        u.moved_left().pointer == 0,
        u.moved_left().cells.len() == u.cells.len() + 1,
        u.moved_left().current() == 0,
        forall|i: int| 0 <= i < u.cells.len() ==> #[trigger] u.moved_left().cells[i + 1] == u.cells[i],
{
}

/// The interpreter's memory: a growable sequence of byte cells and a pointer into it.
pub struct Tape {
    index: usize,
    inner: Vec<u8>,
}

impl View for Tape {
    type V = TapeModel;

    closed spec fn view(&self) -> TapeModel {
        TapeModel { cells: self.inner@, pointer: self.index as int }
    }
}

impl Default for Tape {
    fn default() -> (r: Self)
        ensures
            r@.cells == seq![0u8],
            r@.pointer == 0,
    {
        Tape { index: 0, inner: vec![0u8] }
    }
}

impl Tape {
    /// The pointer addresses a cell.
    pub open spec fn wf(&self) -> bool {
        self@.wf()
    }

    /// A tape of one zero cell, the pointer on it.
    pub fn new() -> (r: Self)
        ensures
            r.wf(),
            r@.cells == seq![0u8],
            r@.pointer == 0,
    {
        Tape { index: 0, inner: vec![0u8] }
    }

    /// A tape holding `bytes`, the pointer at `index`.
    pub fn from_bytes(bytes: &[u8], index: usize) -> (r: Self)
        requires
            index < bytes@.len(),
        ensures
            r.wf(),
            r@.cells == bytes@,
            r@.pointer == index,
    {
        let mut inner: Vec<u8> = Vec::new();
        let mut i: usize = 0;
        while i < bytes.len()
            invariant
                i <= bytes@.len(),
                inner@ == bytes@.subrange(0, i as int),
            decreases bytes@.len() - i,
        {
            inner.push(bytes[i]);
            i = i + 1;
            assert(inner@ =~= bytes@.subrange(0, i as int));
        }
        assert(inner@ =~= bytes@);
        Tape { index, inner }
    }

    pub fn move_pointer_right(&mut self)
        requires
            old(self).wf(),
        ensures
            final(self).wf(),
            final(self)@ == old(self)@.moved_right(),
    {
        if self.inner.len() != MAX_CELLS {
            self.inner.push(0);
            self.index = self.index + 1;
        } else if self.index + 1 == self.inner.len() {
            self.index = 0;
        } else {
            self.index = self.index + 1;
        }
    }

    pub fn move_pointer_left(&mut self)
        requires
            old(self).wf(),
        ensures
            final(self).wf(),
            final(self)@ == old(self)@.moved_left(),
    {
        if self.index != 0 {
            self.index = self.index - 1;
        } else if self.inner.len() != MAX_CELLS {
            self.inner.insert(0, 0);
            assert(self.inner@ =~= seq![0u8].add(old(self).inner@));
        } else {
            self.index = self.inner.len() - 1;
        }
    }

    pub fn increment_cell(&mut self)
        requires
            old(self).wf(),
        ensures
            final(self).wf(),
            final(self)@ == old(self)@.incremented(),
    {
        let v = self.inner[self.index];
        self.inner.set(self.index, v.wrapping_add(1));
    }

    pub fn decrement_cell(&mut self)
        requires
            old(self).wf(),
        ensures
            final(self).wf(),
            final(self)@ == old(self)@.decremented(),
    {
        let v = self.inner[self.index];
        self.inner.set(self.index, v.wrapping_sub(1));
    }

    /// Stores `v` in the current cell.
    pub fn set_cell(&mut self, v: u8)
        requires
            old(self).wf(),
        ensures
            final(self).wf(),
            final(self)@ == old(self)@.with_current(v),
    {
        self.inner.set(self.index, v);
    }

    /// Value of the current cell.
    pub fn current_cell(&self) -> (r: u8)
        requires
            self.wf(),
        ensures
            r == self@.current(),
    {
        self.inner[self.index]
    }

    pub fn is_cell_zero(&self) -> (r: bool)
        requires
            self.wf(),
        ensures
            r == (self@.current() == 0),
    {
        self.inner[self.index] == 0
    }

    /// The current cell and its neighbours as text, each value in three digits and the
    /// current one in brackets: `[000]`, `[001] 002`, `001 [002]`, `001 [002] 003`.
    pub fn display(&self) -> (r: String)
        requires
            self.wf(),
        ensures
            r@ == display_text(self@),
    {
        proof {
            reveal_strlit("[");
            reveal_strlit("]");
            reveal_strlit("] ");
            reveal_strlit(" [");
        }
        let c = &self.inner;
        let p = self.index;
        let mut out = String::new();
        if c.len() == 1 {
            out.append("[");
            push_cell(&mut out, c[0]);
            out.append("]");
        } else if p == 0 {
            out.append("[");
            push_cell(&mut out, c[0]);
            out.append("] ");
            push_cell(&mut out, c[1]);
        } else if p == c.len() - 1 {
            push_cell(&mut out, c[p - 1]);
            out.append(" [");
            push_cell(&mut out, c[p]);
            out.append("]");
        } else {
            push_cell(&mut out, c[p - 1]);
            out.append(" [");
            push_cell(&mut out, c[p]);
            out.append("] ");
            push_cell(&mut out, c[p + 1]);
        }
        assert(out@ =~= display_text(self@));
        out
    }

    /// Index of the current cell.
    pub fn pointer(&self) -> (r: usize)
        ensures
            r == self@.pointer,
    {
        self.index
    }

    /// All cells, leftmost first.
    pub fn cells(&self) -> (r: &[u8])
        ensures
            r@ == self@.cells,
    {
        self.inner.as_slice()
    }
}

} // verus!
