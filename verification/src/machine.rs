//! The tape and a machine whose head must stay on it.

use vstd::prelude::*;

verus! {

/// The mathematical tape: its cells and the cell under the head.
pub struct Tape {
    pub cells: Seq<u8>,
    pub cursor: int,
}

impl Tape {
    /// The head stands on a cell of the tape.
    pub open spec fn well_formed(self) -> bool {
        0 <= self.cursor < self.cells.len()
    }

    /// A tape of `size` zeroed cells with the head on the first.
    pub open spec fn blank(size: nat) -> Tape {
        Tape { cells: Seq::new(size, |i: int| 0u8), cursor: 0 }
    }

    /// The value of the cell under the head.
    pub open spec fn current(self) -> u8 {
        self.cells[self.cursor]
    }

    /// The same tape with `value` in the cell under the head.
    pub open spec fn with_current(self, value: u8) -> Tape {
        Tape { cells: self.cells.update(self.cursor, value), cursor: self.cursor }
    }

    /// The same tape with the head on cell `cursor`.
    pub open spec fn with_cursor(self, cursor: int) -> Tape {
        Tape { cells: self.cells, cursor }
    }
}

/// `value` plus `delta`, modulo 256.
pub open spec fn wrapped_sum(value: u8, delta: u8) -> u8 {
    ((value + delta) % 256) as u8
}

/// `value` minus `delta`, modulo 256.
pub open spec fn wrapped_difference(value: u8, delta: u8) -> u8 {
    ((value - delta) % 256) as u8
}

/// The cell value that stands for a character: its code modulo 256.
pub open spec fn char_code(input: char) -> u8 {
    ((input as u32) % 256) as u8
}

/// A tape machine whose head must stay on the tape: a move that would leave
/// it is not allowed. Cell values wrap around modulo 256.
pub struct BrainfuckMachine {
    /// Size of the tape vector.
    size: usize,
    /// Current cell index.
    index: usize,
    /// Tape vector.
    tape: Vec<u8>,
}

impl View for BrainfuckMachine {
    type V = Tape;

    closed spec fn view(&self) -> Tape {
        Tape { cells: self.tape@, cursor: self.index as int }
    }
}

impl BrainfuckMachine {
    /// The representation is consistent and the head is on the tape.
    pub closed spec fn wf(&self) -> bool {
        &&& self.size == self.tape.len()
        &&& self.index < self.size
    }

    /// A well-formed machine shows a well-formed tape that fits in memory.
    pub proof fn lemma_wf(&self)
        requires
            self.wf(),
        ensures
            self@.well_formed(),
            self@.cells.len() <= usize::MAX,
    {
    }

    /// Creates a machine with a zeroed tape of `size` cells, the head on the
    /// first cell.
    pub fn new(size: usize) -> (machine: Self)
        requires
            size > 0,
        ensures
            machine.wf(),
            machine@ == Tape::blank(size as nat),
    {
        let mut tape: Vec<u8> = Vec::new();
        tape.resize(size, 0);
        assert(tape@ =~= Tape::blank(size as nat).cells);
        Self { size, index: 0, tape }
    }

    /// The number of cells.
    pub fn size(&self) -> (size: usize)
        requires
            self.wf(),
        ensures
            size == self@.cells.len(),
    {
        self.size
    }

    /// The position of the head.
    pub fn index(&self) -> (index: usize)
        requires
            self.wf(),
        ensures
            index == self@.cursor,
    {
        self.index
    }

    /// Moves the head left by `shift` cells. The head must not leave the
    /// tape.
    pub fn move_left(&mut self, shift: usize)
        requires
            old(self).wf(),
            shift <= old(self)@.cursor,
        ensures
            final(self).wf(),
            final(self)@ == old(self)@.with_cursor(old(self)@.cursor - shift),
    {
        self.index = self.index - shift;
    }

    /// Moves the head right by `shift` cells. The head must not leave the
    /// tape.
    pub fn move_right(&mut self, shift: usize)
        requires
            old(self).wf(),
            old(self)@.cursor + shift < old(self)@.cells.len(),
        ensures
            final(self).wf(),
            final(self)@ == old(self)@.with_cursor(old(self)@.cursor + shift),
    {
        self.index = self.index + shift;
    }

    /// Adds `value` to the current cell, modulo 256.
    pub fn add(&mut self, value: u8)
        requires
            old(self).wf(),
        ensures
            final(self).wf(),
            final(self)@ == old(self)@.with_current(wrapped_sum(old(self)@.current(), value)),
    {
        let current: u8 = self.tape[self.index];
        self.tape.set(self.index, current.wrapping_add(value));
    }

    /// Subtracts `value` from the current cell, modulo 256.
    pub fn substract(&mut self, value: u8)
        requires
            old(self).wf(),
        ensures
            final(self).wf(),
            final(self)@ == old(self)@.with_current(
                wrapped_difference(old(self)@.current(), value),
            ),
    {
        let current: u8 = self.tape[self.index];
        self.tape.set(self.index, current.wrapping_sub(value));
    }

    /// Stores the code of `input`, modulo 256, in the current cell.
    pub fn read_char(&mut self, input: char)
        requires
            old(self).wf(),
        ensures
            final(self).wf(),
            final(self)@ == old(self)@.with_current(char_code(input)),
    {
        let code: u32 = input as u32;
        self.tape.set(self.index, (code % 256) as u8);
    }

    /// The character whose code is the current cell's value.
    pub fn put_char(&self) -> (output: char)
        requires
            self.wf(),
        ensures
            output == self@.current() as char,
    {
        self.tape[self.index] as char
    }

    /// Whether the current cell holds something other than zero.
    pub fn check_loop(&self) -> (nonzero: bool)
        requires
            self.wf(),
        ensures
            nonzero == (self@.current() != 0),
    {
        self.tape[self.index] != 0
    }

    /// A copy of the tape's cells.
    pub fn get_tape(&self) -> (cells: Vec<u8>)
        requires
            self.wf(),
        ensures
            cells@ == self@.cells,
    {
        self.tape.clone()
    }
}

} // verus!
