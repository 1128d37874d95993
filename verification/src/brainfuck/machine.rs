//! A tape machine that wraps or stops at the margins of the tape and of a
//! cell, as chosen at construction.

use vstd::prelude::*;
use vstd::arithmetic::div_mod::{
    lemma_fundamental_div_mod_converse_mod, lemma_add_mod_noop, lemma_sub_mod_noop,
};
use crate::machine::{char_code, wrapped_difference, wrapped_sum};

verus! {

/// The mathematical state of a tape machine with overflow policies: its
/// cells, the cell under the head, and what happens at the margins.
pub struct PolicyTape {
    pub cells: Seq<u8>,
    pub cursor: int,
    /// The head wraps around the ends of the tape; otherwise it stops there.
    pub wrap_tape: bool,
    /// Cell values wrap around modulo 256; otherwise they stop at 0 and 255.
    pub wrap_cells: bool,
}

impl PolicyTape {
    /// The head stands on a cell of the tape.
    pub open spec fn well_formed(self) -> bool {
        0 <= self.cursor < self.cells.len()
    }

    /// A tape of `size` zeroed cells with the head on the first.
    pub open spec fn blank(size: nat, wrap_tape: bool, wrap_cells: bool) -> PolicyTape {
        PolicyTape { cells: Seq::new(size, |i: int| 0u8), cursor: 0, wrap_tape, wrap_cells }
    }

    /// The value of the cell under the head.
    pub open spec fn current(self) -> u8 {
        self.cells[self.cursor]
    }

    /// The same machine with `value` in the cell under the head.
    pub open spec fn with_current(self, value: u8) -> PolicyTape {
        PolicyTape { cells: self.cells.update(self.cursor, value), ..self }
    }

    /// The machine after the head has moved left by `shift`: modulo the
    /// tape's size where the head wraps, stopping at the first cell where it
    /// does not.
    pub open spec fn move_left(self, shift: nat) -> PolicyTape {
        let size = self.cells.len() as int;
        let cursor = if self.wrap_tape {
            (self.cursor - shift) % size
        } else if shift >= self.cursor {
            0
        } else {
            self.cursor - shift
        };
        PolicyTape { cursor, ..self }
    }

    /// The machine after the head has moved right by `shift`: modulo the
    /// tape's size where the head wraps, stopping at the last cell where it
    /// does not.
    pub open spec fn move_right(self, shift: nat) -> PolicyTape {
        let size = self.cells.len() as int;
        let cursor = if self.wrap_tape {
            (self.cursor + shift) % size
        } else if self.cursor + shift >= size {
            size - 1
        } else {
            self.cursor + shift
        };
        PolicyTape { cursor, ..self }
    }

    /// The machine after `value` was added to the current cell: modulo 256
    /// where cells wrap, stopping at 255 where they do not.
    pub open spec fn add(self, value: u8) -> PolicyTape {
        let sum = self.current() + value;
        self.with_current(
            if self.wrap_cells {
                wrapped_sum(self.current(), value)
            } else if sum > 255 {
                255u8
            } else {
                sum as u8
            },
        )
    }

    /// The machine after `value` was subtracted from the current cell:
    /// modulo 256 where cells wrap, stopping at 0 where they do not.
    pub open spec fn subtract(self, value: u8) -> PolicyTape {
        let difference = self.current() - value;
        self.with_current(
            if self.wrap_cells {
                wrapped_difference(self.current(), value)
            } else if difference < 0 {
                0u8
            } else {
                difference as u8
            },
        )
    }
}

/// Moving left by `shift` from the first cell of a tape of `n > 1` cells
/// lands on cell `(n - shift mod n) mod n` where the head wraps, and stays on
/// the first cell where it does not.
pub proof fn lemma_move_left_from_first_cell(state: PolicyTape, shift: nat)
    requires
        state.well_formed(),
        state.cells.len() > 1,
        state.cursor == 0,
    ensures
        state.wrap_tape ==> state.move_left(shift).cursor == (state.cells.len() - shift
            % state.cells.len()) % (state.cells.len() as int),
        !state.wrap_tape ==> state.move_left(shift).cursor == 0,
{
    let n = state.cells.len() as int;
    lemma_sub_mod_noop(0, shift as int, n);
    lemma_sub_mod_noop(n, shift as int, n);
    assert(0int % n == 0) by {
        lemma_fundamental_div_mod_converse_mod(0, n, 0, 0);
    }
    assert(n % n == 0) by {
        lemma_fundamental_div_mod_converse_mod(n, n, 1, 0);
    }
    let r = (shift as int) % n;
    assert((n - r) % n == (0 - r) % n) by {
        lemma_sub_mod_noop(n, r, n);
        lemma_sub_mod_noop(0, r, n);
    }
}

/// Where cell values wrap, adding a value and subtracting it again restores
/// the machine. Where they do not, it restores the machine exactly when the
/// addition stayed within a byte.
pub proof fn lemma_add_then_subtract(state: PolicyTape, value: u8)
    requires
        state.well_formed(),
    ensures
        state.wrap_cells ==> state.add(value).subtract(value) == state,
        !state.wrap_cells ==> (state.add(value).subtract(value) == state <==> state.current()
            + value <= 255),
{
    let after = state.add(value).subtract(value);
    assert(state.add(value).current() == state.add(value).cells[state.cursor]);
    if state.wrap_cells || state.current() + value <= 255 {
        assert(after.cells =~= state.cells);
    } else {
        assert(after.cells[state.cursor] != state.cells[state.cursor]);
    }
}

/// A tape machine whose behaviour at the margins is chosen at construction:
/// the head either wraps around the tape or stops at its ends, and cell
/// values either wrap modulo 256 or stop at 0 and 255.
pub struct BrainfuckMachine {
    /// Size of the tape vector.
    size: usize,
    /// Current cell index.
    index: usize,
    /// Tape vector.
    tape: Vec<u8>,
    /// If true, wraps the tape index on overflows/underflows.
    wrap_tape: bool,
    /// If true, wraps the cell values on overflows/underflows.
    wrap_cells: bool,
}

impl View for BrainfuckMachine {
    type V = PolicyTape;

    closed spec fn view(&self) -> PolicyTape {
        PolicyTape {
            cells: self.tape@,
            cursor: self.index as int,
            wrap_tape: self.wrap_tape,
            wrap_cells: self.wrap_cells,
        }
    }
}

impl BrainfuckMachine {
    /// The representation is consistent and the head is on the tape.
    pub closed spec fn wf(&self) -> bool {
        &&& self.size == self.tape.len()
        &&& self.index < self.size
    }

    /// A well-formed machine shows a well-formed tape that fits in memory.
    pub proof fn lemma_wf(&self)
        requires
            self.wf(),
        ensures
            self@.well_formed(),
            self@.cells.len() <= usize::MAX,
    {
    }

    /// Creates a machine with a zeroed tape of `size` cells, the head on the
    /// first cell, and the given policies for the tape index and the cell
    /// values.
    pub fn new(size: usize, wrap_tape: bool, wrap_cells: bool) -> (machine: Self)
        requires
            size > 0,
        ensures
            machine.wf(),
            machine@ == PolicyTape::blank(size as nat, wrap_tape, wrap_cells),
    {
        let mut tape: Vec<u8> = Vec::new();
        tape.resize(size, 0);
        assert(tape@ =~= PolicyTape::blank(size as nat, wrap_tape, wrap_cells).cells);
        Self { size, index: 0, tape, wrap_tape, wrap_cells }
    }

    /// Returns `(first + other) % modulus`, without ever forming a value
    /// that does not fit the machine word.
    pub fn add_with_wrap(first: usize, other: usize, modulus: usize) -> (sum: usize)
        requires
            modulus > 0,
        ensures
            sum == (first + other) % (modulus as int),
    {
        let first_rest: usize = first % modulus;
        let other_rest: usize = other % modulus;
        let negated: usize = modulus - first_rest;
        proof {
            lemma_add_mod_noop(first as int, other as int, modulus as int);
        }
        if negated > other_rest {
            proof {
                lemma_fundamental_div_mod_converse_mod(
                    first_rest + other_rest,
                    modulus as int,
                    0,
                    first_rest + other_rest,
                );
            }
            first_rest + other_rest
        } else {
            proof {
                lemma_fundamental_div_mod_converse_mod(
                    first_rest + other_rest,
                    modulus as int,
                    1,
                    other_rest - negated,
                );
            }
            other_rest - negated
        }
    }

    /// Returns `(first - other) % modulus`, without ever forming a value
    /// below zero.
    pub fn sub_with_wrap(first: usize, other: usize, modulus: usize) -> (difference: usize)
        requires
            modulus > 0,
        ensures
            difference == (first - other) % (modulus as int),
    {
        let first_rest: usize = first % modulus;
        let other_rest: usize = other % modulus;
        proof {
            lemma_sub_mod_noop(first as int, other as int, modulus as int);
        }
        if first_rest < other_rest {
            let negated: usize = modulus - other_rest;
            proof {
                lemma_fundamental_div_mod_converse_mod(
                    first_rest - other_rest,
                    modulus as int,
                    -1,
                    negated + first_rest,
                );
            }
            negated + first_rest
        } else {
            proof {
                lemma_fundamental_div_mod_converse_mod(
                    first_rest - other_rest,
                    modulus as int,
                    0,
                    first_rest - other_rest,
                );
            }
            first_rest - other_rest
        }
    }

    /// The number of cells.
    pub fn size(&self) -> (size: usize)
        requires
            self.wf(),
        ensures
            size == self@.cells.len(),
    {
        self.size
    }

    /// The position of the head.
    pub fn index(&self) -> (index: usize)
        requires
            self.wf(),
        ensures
            index == self@.cursor,
    {
        self.index
    }

    /// Moves the head left by `shift` cells. Where the head wraps, it goes
    /// round the tape; otherwise it stops at the first cell.
    pub fn move_left(&mut self, shift: usize)
        requires
            old(self).wf(),
        ensures
            final(self).wf(),
            final(self)@ == old(self)@.move_left(shift as nat),
    {
        self.index = if self.wrap_tape {
            Self::sub_with_wrap(self.index, shift, self.size)
        } else {
            self.index.saturating_sub(shift)
        };
    }

    /// Moves the head right by `shift` cells. Where the head wraps, it goes
    /// round the tape; otherwise it stops at the last cell.
    pub fn move_right(&mut self, shift: usize)
        requires
            old(self).wf(),
        ensures
            final(self).wf(),
            final(self)@ == old(self)@.move_right(shift as nat),
    {
        self.index = if self.wrap_tape {
            Self::add_with_wrap(self.index, shift, self.size)
        } else {
            let target: usize = self.index.saturating_add(shift);
            if target < self.size {
                target
            } else {
                self.size - 1
            }
        };
    }

    /// Adds `value` to the current cell. Where cells wrap, the sum is taken
    /// modulo 256; otherwise it stops at 255.
    pub fn add(&mut self, value: u8)
        requires
            old(self).wf(),
        ensures
            final(self).wf(),
            final(self)@ == old(self)@.add(value),
    {
        let current: u8 = self.tape[self.index];
        let sum: u8 = if self.wrap_cells {
            current.wrapping_add(value)
        } else {
            current.saturating_add(value)
        };
        self.tape.set(self.index, sum);
    }

    /// Subtracts `value` from the current cell. Where cells wrap, the
    /// difference is taken modulo 256; otherwise it stops at 0.
    pub fn substract(&mut self, value: u8)
        requires
            old(self).wf(),
        ensures
            final(self).wf(),
            final(self)@ == old(self)@.subtract(value),
    {
        let current: u8 = self.tape[self.index];
        let difference: u8 = if self.wrap_cells {
            current.wrapping_sub(value)
        } else {
            current.saturating_sub(value)
        };
        self.tape.set(self.index, difference);
    }

    /// Stores the code of `input`, modulo 256, in the current cell.
    pub fn read_char(&mut self, input: char)
        requires
            old(self).wf(),
        ensures
            final(self).wf(),
            final(self)@ == old(self)@.with_current(char_code(input)),
    {
        let code: u32 = input as u32;
        self.tape.set(self.index, (code % 256) as u8);
    }

    /// The character whose code is the current cell's value.
    pub fn put_char(&self) -> (output: char)
        requires
            self.wf(),
        ensures
            output == self@.current() as char,
    {
        self.tape[self.index] as char
    }

    /// Whether the current cell holds something other than zero.
    pub fn check_loop(&self) -> (nonzero: bool)
        requires
            self.wf(),
        ensures
            nonzero == (self@.current() != 0),
    {
        self.tape[self.index] != 0
    }

    /// A copy of the tape's cells.
    pub fn get_tape(&self) -> (cells: Vec<u8>)
        requires
            self.wf(),
        ensures
            cells@ == self@.cells,
    {
        self.tape.clone()
    }
}

} // verus!
