//! The executor of flat programs: a program counter over the statements,
//! advanced one statement at a time, with input and output left to the host.

use vstd::prelude::*;
use crate::brainfuck::machine::{BrainfuckMachine, PolicyTape};
use crate::brainfuck::parser::Statement;
use crate::machine::char_code;

verus! {

/// What the host has to do after a step of the executor.
#[derive(Copy, Clone, PartialEq, Eq, Debug, Structural)]
pub enum Action {
    /// Nothing: take the next step.
    Continue,
    /// Write this character, then take the next step.
    PutChar(char),
    /// Read a character and hand it over with `feed`, then take the next
    /// step.
    ReadChar,
    /// Nothing: the program has ended.
    Halt,
}

/// The size of a displacement or of a change, whatever its direction.
pub open spec fn magnitude(delta: int) -> nat {
    if delta < 0 {
        (-delta) as nat
    } else {
        delta as nat
    }
}

/// A run of a flat program: the program, the machine, and the index of the
/// statement to execute next.
pub struct Execution {
    pub program: Seq<Statement>,
    pub tape: PolicyTape,
    pub counter: int,
}

impl Execution {
    /// The tape is well-formed and the counter is not negative.
    pub open spec fn well_formed(self) -> bool {
        &&& self.tape.well_formed()
        &&& 0 <= self.counter
    }

    /// The statement to execute next; `None` behind the end of the program.
    pub open spec fn current(self) -> Option<Statement> {
        if self.counter < self.program.len() {
            Some(self.program[self.counter])
        } else {
            None
        }
    }

    /// The run with `tape`, at the statement with index `counter`.
    pub open spec fn moved(self, tape: PolicyTape, counter: int) -> Execution {
        Execution { program: self.program, tape, counter }
    }

    /// The run after one step, and what the host has to do then.
    ///
    /// Moves, changes and output are carried out and passed, by the
    /// machine's policies. Input changes nothing and is asked for. A jump is
    /// taken where the current cell is not zero, and passed otherwise. Behind
    /// the end of the program nothing changes.
    pub open spec fn step(self) -> (Execution, Action) {
        let tape = self.tape;
        let next = self.counter + 1;
        match self.current() {
            Some(Statement::Move(delta)) => (
                self.moved(
                    if delta < 0 {
                        tape.move_left(magnitude(delta as int))
                    } else {
                        tape.move_right(magnitude(delta as int))
                    },
                    next,
                ),
                Action::Continue,
            ),
            Some(Statement::ChangeValue(delta)) => (
                self.moved(
                    if delta < 0 {
                        tape.subtract(magnitude(delta as int) as u8)
                    } else {
                        tape.add(magnitude(delta as int) as u8)
                    },
                    next,
                ),
                Action::Continue,
            ),
            Some(Statement::JumpIf(target)) => (
                self.moved(
                    tape,
                    if tape.current() != 0 {
                        target as int
                    } else {
                        next
                    },
                ),
                Action::Continue,
            ),
            Some(Statement::PutChar) => (
                self.moved(tape, next),
                Action::PutChar(tape.current() as char),
            ),
            Some(Statement::ReadChar) => (self, Action::ReadChar),
            None => (self, Action::Halt),
        }
    }

    /// Whether the run waits for input: its next statement reads a
    /// character.
    pub open spec fn awaits_input(self) -> bool {
        self.current() == Some(Statement::ReadChar)
    }

    /// The run after `input` was handed over: where the run waits for
    /// input, the character's code is stored in the current cell and the
    /// statement is passed; otherwise nothing changes.
    pub open spec fn feed(self, input: char) -> Execution {
        if self.awaits_input() {
            self.moved(self.tape.with_current(char_code(input)), self.counter + 1)
        } else {
            self
        }
    }
}

/// Executes a flat program step by step on a tape machine. Input and
/// output are the host's to perform, between the steps.
pub struct Executor {
    statements: Vec<Statement>,
    machine: BrainfuckMachine,
    counter: usize,
}

impl View for Executor {
    type V = Execution;

    closed spec fn view(&self) -> Execution {
        Execution {
            program: self.statements@,
            tape: self.machine@,
            counter: self.counter as int,
        }
    }
}

impl Executor {
    /// The machine is well-formed.
    pub closed spec fn wf(&self) -> bool {
        self.machine.wf()
    }

    /// A well-formed executor shows a well-formed run.
    pub proof fn lemma_wf(&self)
        requires
            self.wf(),
        ensures
            self@.well_formed(),
    {
        self.machine.lemma_wf();
    }

    /// An executor at the first statement of `statements`, with `machine`
    /// as it is.
    pub fn new(statements: Vec<Statement>, machine: BrainfuckMachine) -> (executor: Self)
        requires
            machine.wf(),
        ensures
            executor.wf(),
            executor@ == (Execution { program: statements@, tape: machine@, counter: 0 }),
    {
        Self { statements, machine, counter: 0 }
    }

    /// Executes one statement and tells the host what to do: nothing, write
    /// a character, read one and `feed` it, or stop.
    pub fn step(&mut self) -> (action: Action)
        requires
            old(self).wf(),
        ensures
            final(self).wf(),
            final(self)@ == old(self)@.step().0,
            action == old(self)@.step().1,
    {
        if self.counter >= self.statements.len() {
            return Action::Halt;
        }
        let statement: Statement = self.statements[self.counter];
        match statement {
            Statement::Move(delta) => {
                if delta < 0 {
                    let back: usize = (-(delta + 1)) as usize + 1;
                    self.machine.move_left(back);
                } else {
                    self.machine.move_right(delta as usize);
                }
                self.counter = self.counter + 1;
                Action::Continue
            },
            Statement::ChangeValue(delta) => {
                if delta < 0 {
                    let down: i16 = -(delta as i16);
                    self.machine.substract(down as u8);
                } else {
                    self.machine.add(delta as u8);
                }
                self.counter = self.counter + 1;
                Action::Continue
            },
            Statement::JumpIf(target) => {
                if self.machine.check_loop() {
                    self.counter = target;
                } else {
                    self.counter = self.counter + 1;
                }
                Action::Continue
            },
            Statement::PutChar => {
                let output = self.machine.put_char();
                self.counter = self.counter + 1;
                Action::PutChar(output)
            },
            Statement::ReadChar => Action::ReadChar,
        }
    }

    /// Hands a character over to a run that waits for input: its code is
    /// stored in the current cell and the run goes on behind the statement
    /// that read it. Tells whether the run was waiting; if it was not,
    /// nothing changes.
    pub fn feed(&mut self, input: char) -> (taken: bool)
        requires
            old(self).wf(),
        ensures
            final(self).wf(),
            taken == old(self)@.awaits_input(),
            final(self)@ == old(self)@.feed(input),
    {
        if self.counter >= self.statements.len() {
            return false;
        }
        let statement: Statement = self.statements[self.counter];
        match statement {
            Statement::ReadChar => {
                self.machine.read_char(input);
                self.counter = self.counter + 1;
                true
            },
            _ => false,
        }
    }

    /// The position of the head.
    pub fn index(&self) -> (index: usize)
        requires
            self.wf(),
        ensures
            index == self@.tape.cursor,
    {
        self.machine.index()
    }

    /// A copy of the tape's cells.
    pub fn get_tape(&self) -> (cells: Vec<u8>)
        requires
            self.wf(),
        ensures
            cells@ == self@.tape.cells,
    {
        self.machine.get_tape()
    }
}

} // verus!
