//! The interpreter: a run of a nested program, advanced one statement at
//! a time, with input and output left to the host.

use vstd::prelude::*;
use crate::machine::{BrainfuckMachine, Tape, char_code, wrapped_sum};
use crate::optimizer::{Optimizer, optimized};
use crate::parser::{ParseError, Parser, parse_block, parsed};
use crate::statement::{Instruction, Statement, lemma_loop_view};

verus! {

/// What the host has to do after a step of the interpreter.
#[derive(Copy, Clone, PartialEq, Eq, Debug, Structural)]
pub enum Action {
    /// Nothing: take the next step.
    Continue,
    /// Write this character, then take the next step.
    PutChar(char),
    /// Read a character and hand it over with `feed`, then take the next
    /// step.
    ReadChar,
    /// Nothing: the program has ended.
    Halt,
    /// Stop: the program tried to move the head, which stands at `index`,
    /// left by `shift` and off the tape.
    LeftOutOfBounds { index: usize, shift: usize },
    /// Stop: the program tried to move the head, which stands at `index`,
    /// right by `shift` and off the tape of `size` cells.
    RightOutOfBounds { index: usize, shift: usize, size: usize },
}

/// The block of `program` that is reached by entering, from the outside
/// in, the loops at the indices `frames`.
pub open spec fn enclosing(program: Seq<Instruction>, frames: Seq<int>) -> Seq<Instruction>
    decreases frames.len(),
{
    if frames.len() == 0 {
        program
    } else {
        match program[frames[0]] {
            Instruction::Loop(body) => enclosing(body, frames.drop_first()),
            _ => Seq::empty(),
        }
    }
}

/// Each of `frames` is the index of a loop in the block that the frames
/// before it lead into.
pub open spec fn frames_valid(program: Seq<Instruction>, frames: Seq<int>) -> bool
    decreases frames.len(),
{
    frames.len() > 0 ==> {
        &&& 0 <= frames[0] < program.len()
        &&& program[frames[0]] matches Instruction::Loop(body)
        &&& frames_valid(body, frames.drop_first())
    }
}

/// Entering one more loop, at index `inner` of the block that valid frames
/// lead into, leads into that loop's body.
pub proof fn lemma_enter(program: Seq<Instruction>, frames: Seq<int>, inner: int)
    requires
        frames_valid(program, frames),
        0 <= inner < enclosing(program, frames).len(),
        enclosing(program, frames)[inner] is Loop,
    ensures
        frames_valid(program, frames.push(inner)),
        enclosing(program, frames.push(inner)) == enclosing(program, frames)[inner]->Loop_0,
    decreases frames.len(),
{
    let longer = frames.push(inner);
    if frames.len() == 0 {
        let body = program[inner]->Loop_0;
        assert(longer[0] == inner);
        assert(longer.drop_first() =~= Seq::<int>::empty());
        assert(frames_valid(body, longer.drop_first()));
        assert(enclosing(body, longer.drop_first()) == body);
    } else {
        let body = program[frames[0]]->Loop_0;
        assert(longer[0] == frames[0]);
        assert(longer.drop_first() =~= frames.drop_first().push(inner));
        lemma_enter(body, frames.drop_first(), inner);
        assert(frames_valid(body, longer.drop_first()));
        assert(enclosing(program, longer) == enclosing(body, longer.drop_first()));
    }
}

/// The last of valid frames is the index of a loop in the block that the
/// frames before it lead into, and that loop's body is where all of them
/// lead.
pub proof fn lemma_leave(program: Seq<Instruction>, frames: Seq<int>)
    requires
        frames_valid(program, frames),
        frames.len() > 0,
    ensures
        frames_valid(program, frames.drop_last()),
        0 <= frames.last() < enclosing(program, frames.drop_last()).len(),
        enclosing(program, frames.drop_last())[frames.last()] == Instruction::Loop(
            enclosing(program, frames),
        ),
    decreases frames.len(),
{
    let shorter = frames.drop_last();
    let body = program[frames[0]]->Loop_0;
    if frames.len() == 1 {
        assert(shorter =~= Seq::<int>::empty());
        assert(frames.drop_first() =~= Seq::<int>::empty());
        assert(enclosing(body, frames.drop_first()) == body);
        assert(enclosing(program, frames) == body);
    } else {
        assert(shorter[0] == frames[0]);
        assert(shorter.drop_first() =~= frames.drop_first().drop_last());
        lemma_leave(body, frames.drop_first());
        assert(frames.drop_first().last() == frames.last());
        assert(enclosing(program, shorter) == enclosing(body, shorter.drop_first()));
        assert(enclosing(program, frames) == enclosing(body, frames.drop_first()));
    }
}

/// A run of a program: the program, the tape, and the place of the
/// statement to execute next, given as the indices, from the outside in, of
/// the loops that enclose it, followed by its own index in the innermost.
pub struct Run {
    pub program: Seq<Instruction>,
    pub tape: Tape,
    pub path: Seq<int>,
}

impl Run {
    /// The loops that enclose the next statement.
    pub open spec fn frames(self) -> Seq<int> {
        self.path.drop_last()
    }

    /// The block that holds the next statement.
    pub open spec fn block(self) -> Seq<Instruction> {
        enclosing(self.program, self.frames())
    }

    /// The index of the next statement in its block; the block's length
    /// where the block has been executed to its end.
    pub open spec fn at(self) -> int {
        self.path.last()
    }

    /// The tape is well-formed and the path leads to a statement of the
    /// program or to the end of one of its blocks.
    pub open spec fn well_formed(self) -> bool {
        &&& self.tape.well_formed()
        &&& self.path.len() > 0
        &&& frames_valid(self.program, self.frames())
        &&& 0 <= self.at() <= self.block().len()
    }

    /// The statement to execute next; `None` at the end of a block.
    pub open spec fn current(self) -> Option<Instruction> {
        if self.at() < self.block().len() {
            Some(self.block()[self.at()])
        } else {
            None
        }
    }

    /// The run at the first statement of `program`, with the tape as it is.
    pub open spec fn started(self, program: Seq<Instruction>) -> Run {
        Run { program, tape: self.tape, path: seq![0int] }
    }

    /// The run at index `at` of the block entered by `frames`, with `tape`.
    pub open spec fn moved(self, tape: Tape, frames: Seq<int>, at: int) -> Run {
        Run { program: self.program, tape, path: frames.push(at) }
    }

    /// The run with `tape`, one statement further in the same block.
    pub open spec fn advanced(self, tape: Tape) -> Run {
        self.moved(tape, self.frames(), self.at() + 1)
    }

    /// The run after one step, and what the host has to do then.
    ///
    /// Moves, additions and output are carried out and passed. A move that
    /// would take the head off the tape changes nothing and is reported.
    /// Input changes nothing and is asked for. A loop is entered where the
    /// current cell is not zero, and passed otherwise. At the end of a
    /// loop's body the body is started again where the current cell is not
    /// zero; otherwise the loop is left and passed. At the end of the
    /// program nothing changes.
    pub open spec fn step(self) -> (Run, Action) {
        let tape = self.tape;
        match self.current() {
            Some(Instruction::MoveLeft(shift)) => if shift <= tape.cursor {
                (self.advanced(tape.with_cursor(tape.cursor - shift)), Action::Continue)
            } else {
                (self, Action::LeftOutOfBounds { index: tape.cursor as usize, shift })
            },
            Some(Instruction::MoveRight(shift)) => if tape.cursor + shift < tape.cells.len() {
                (self.advanced(tape.with_cursor(tape.cursor + shift)), Action::Continue)
            } else {
                (
                    self,
                    Action::RightOutOfBounds {
                        index: tape.cursor as usize,
                        shift,
                        size: tape.cells.len() as usize,
                    },
                )
            },
            Some(Instruction::Add(value)) => (
                self.advanced(tape.with_current(wrapped_sum(tape.current(), value))),
                Action::Continue,
            ),
            Some(Instruction::PutChar) => (
                self.advanced(tape),
                Action::PutChar(tape.current() as char),
            ),
            Some(Instruction::ReadChar) => (self, Action::ReadChar),
            Some(Instruction::Loop(body)) => if tape.current() != 0 {
                (self.moved(tape, self.path, 0), Action::Continue)
            } else {
                (self.advanced(tape), Action::Continue)
            },
            None => if self.frames().len() == 0 {
                (self, Action::Halt)
            } else if tape.current() != 0 {
                (self.moved(tape, self.frames(), 0), Action::Continue)
            } else {
                (
                    self.moved(tape, self.frames().drop_last(), self.frames().last() + 1),
                    Action::Continue,
                )
            },
        }
    }

    /// Whether the run waits for input: its next statement reads a
    /// character.
    pub open spec fn awaits_input(self) -> bool {
        self.current() == Some(Instruction::ReadChar)
    }

    /// The run after `input` was handed over: where the run waits for
    /// input, the character's code is stored in the current cell and the
    /// statement is passed; otherwise nothing changes.
    pub open spec fn feed(self, input: char) -> Run {
        if self.awaits_input() {
            self.advanced(self.tape.with_current(char_code(input)))
        } else {
            self
        }
    }
}

/// A step keeps a well-formed run well-formed, and so does input.
pub proof fn lemma_step_well_formed(run: Run, input: char)
    requires
        run.well_formed(),
    ensures
        run.step().0.well_formed(),
        run.feed(input).well_formed(),
        run.step().0.program == run.program,
        run.feed(input).program == run.program,
{
    let frames = run.frames();
    let at = run.at();
    assert(frames.push(at + 1).drop_last() =~= frames);
    assert(frames.push(0).drop_last() =~= frames);
    assert(run.path =~= frames.push(at));
    assert(run.path.push(0).drop_last() =~= run.path);
    match run.current() {
        Some(Instruction::Loop(body)) => {
            lemma_enter(run.program, frames, at);
        },
        None => {
            if frames.len() > 0 {
                lemma_leave(run.program, frames);
                assert(frames.drop_last().push(frames.last() + 1).drop_last()
                    =~= frames.drop_last());
            }
        },
        _ => {},
    }
}


/// An interpreter of a program's source: it parses the source, optionally
/// optimizes the statements, and executes them step by step on a tape
/// machine of its own. Input and output are the host's to perform, between
/// the steps.
pub struct Interpreter {
    parser: Parser,
    machine: BrainfuckMachine,
    statements: Vec<Statement>,
    path: Vec<usize>,
}

/// The indices of a path as integers.
pub open spec fn path_view(path: Seq<usize>) -> Seq<int> {
    path.map_values(|index: usize| index as int)
}

impl View for Interpreter {
    type V = Run;

    closed spec fn view(&self) -> Run {
        Run {
            program: self.statements.deep_view(),
            tape: self.machine@,
            path: path_view(self.path@),
        }
    }
}

impl Interpreter {
    /// The parts are well-formed, and so is the run.
    pub closed spec fn wf(&self) -> bool {
        &&& self.parser.wf()
        &&& self.machine.wf()
        &&& self@.well_formed()
        &&& forall|k: int| 0 <= k < self.path.len() - 1 ==> self.path@[k] < usize::MAX
    }

    /// The whole source of the program.
    pub closed spec fn source(&self) -> Seq<u8> {
        self.parser.source()
    }

    /// How many source bytes have been parsed.
    pub closed spec fn position(&self) -> nat {
        self.parser.position()
    }

    /// A well-formed interpreter shows a well-formed run.
    pub proof fn lemma_wf(&self)
        requires
            self.wf(),
        ensures
            self@.well_formed(),
    {
    }

    /// An interpreter for the source in `reader`, with a zeroed tape of
    /// `machine_size` cells. Nothing is parsed yet and there is nothing to
    /// execute.
    pub fn from_reader(reader: &[u8], machine_size: usize) -> (interpreter: Self)
        requires
            machine_size > 0,
        ensures
            interpreter.wf(),
            interpreter.source() == reader@,
            interpreter.position() == 0,
            interpreter@ == (Run {
                program: Seq::empty(),
                tape: Tape::blank(machine_size as nat),
                path: seq![0int],
            }),
    {
        let mut path: Vec<usize> = Vec::new();
        path.push(0);
        let interpreter = Self {
            parser: Parser::from_reader(reader),
            machine: BrainfuckMachine::new(machine_size),
            statements: Vec::new(),
            path,
        };
        proof {
            interpreter.machine.lemma_wf();
            assert(interpreter@.path =~= seq![0int]);
            assert(interpreter@.frames() =~= Seq::<int>::empty());
            assert(interpreter@.program =~= Seq::<Instruction>::empty());
        }
        interpreter
    }

    /// Makes `statements` the program and puts the run at its first
    /// statement.
    fn start(&mut self, statements: Vec<Statement>)
        requires
            old(self).wf(),
        ensures
            final(self).wf(),
            final(self).source() == old(self).source(),
            final(self).position() == old(self).position(),
            final(self)@ == old(self)@.started(statements.deep_view()),
    {
        let mut path: Vec<usize> = Vec::new();
        path.push(0);
        self.statements = statements;
        self.path = path;
        proof {
            assert(self@.path =~= seq![0int]);
            assert(self@.frames() =~= Seq::<int>::empty());
        }
    }

    /// Parses what is left of the source and starts a run of the program:
    /// the next `step` executes its first statement. The tape stays as it
    /// is. Where the source cannot be parsed, the run stays as it is.
    pub fn run(&mut self) -> (result: Result<(), ParseError>)
        requires
            old(self).wf(),
        ensures
            final(self).wf(),
            final(self).source() == old(self).source(),
            final(self).position() == parse_block(
                old(self).source(),
                old(self).position() as int,
            ).resume(old(self).source()),
            match parsed(old(self).source(), old(self).position() as int) {
                Ok(program) => result is Ok && final(self)@ == old(self)@.started(program),
                Err(error) => result == Err::<(), ParseError>(error) && final(self)@ == old(
                    self,
                )@,
            },
    {
        match self.parser.parse() {
            Ok(statements) => {
                self.start(statements);
                Ok(())
            },
            Err(error) => Err(error),
        }
    }

    /// Parses what is left of the source, optimizes the program with the
    /// given iteration budget (zero: until nothing changes), and starts a
    /// run of the optimized program: the next `step` executes its first
    /// statement. The tape stays as it is. Where the source cannot be parsed,
    /// the run stays as it is.
    pub fn run_with_optimization(&mut self, max_iterations: u32) -> (result: Result<
        (),
        ParseError,
    >)
        requires
            old(self).wf(),
        ensures
            final(self).wf(),
            final(self).source() == old(self).source(),
            final(self).position() == parse_block(
                old(self).source(),
                old(self).position() as int,
            ).resume(old(self).source()),
            match parsed(old(self).source(), old(self).position() as int) {
                Ok(program) => result is Ok && final(self)@ == old(self)@.started(
                    optimized(program, max_iterations as nat),
                ),
                Err(error) => result == Err::<(), ParseError>(error) && final(self)@ == old(
                    self,
                )@,
            },
    {
        match self.parser.parse() {
            Ok(statements) => {
                let mut optimizer = Optimizer::new(statements);
                optimizer.optimize(max_iterations);
                self.start(optimizer.yield_back());
                Ok(())
            },
            Err(error) => Err(error),
        }
    }

    /// The statement that `path` leads to in `statements`; `None` where it
    /// leads to the end of a block.
    fn fetch<'a>(statements: &'a Vec<Statement>, path: &Vec<usize>) -> (current: Option<
        &'a Statement,
    >)
        requires
            path.len() > 0,
            frames_valid(statements.deep_view(), path_view(path@).drop_last()),
            path@.last() <= enclosing(statements.deep_view(), path_view(path@).drop_last()).len(),
        ensures
            current is Some ==> path@.last() < usize::MAX,
            match current {
                Some(statement) => path@.last() < enclosing(
                    statements.deep_view(),
                    path_view(path@).drop_last(),
                ).len() && statement.deep_view() == enclosing(
                    statements.deep_view(),
                    path_view(path@).drop_last(),
                )[path@.last() as int],
                None => path@.last() == enclosing(
                    statements.deep_view(),
                    path_view(path@).drop_last(),
                ).len(),
            },
    {
        let ghost frames = path_view(path@).drop_last();
        let mut block: &Vec<Statement> = statements;
        let mut depth: usize = 0;
        assert(frames.skip(0) =~= frames);
        while depth + 1 < path.len()
            invariant
                depth < path.len(),
                frames == path_view(path@).drop_last(),
                frames_valid(block.deep_view(), frames.skip(depth as int)),
                enclosing(block.deep_view(), frames.skip(depth as int)) == enclosing(
                    statements.deep_view(),
                    frames,
                ),
            decreases path.len() - depth,
        {
            let ghost inner = frames.skip(depth as int);
            assert(inner[0] == path@[depth as int]);
            assert(inner.drop_first() =~= frames.skip(depth as int + 1));
            assert(block.deep_view()[inner[0]] == block@[inner[0]].deep_view());
            match &block[path[depth]] {
                Statement::Loop(body) => {
                    proof {
                        lemma_loop_view(**body);
                    }
                    block = body;
                },
                _ => {},
            }
            depth = depth + 1;
        }
        assert(frames.skip(depth as int) =~= Seq::<int>::empty());
        let at: usize = path[depth];
        if at < block.len() {
            assert(block.deep_view()[at as int] == block@[at as int].deep_view());
            Some(&block[at])
        } else {
            None
        }
    }

    /// Executes one statement, or takes one decision about a loop, and
    /// tells the host what to do: nothing, write a character, read one and
    /// `feed` it, or stop.
    pub fn step(&mut self) -> (action: Action)
        requires
            old(self).wf(),
        ensures
            final(self).wf(),
            final(self).source() == old(self).source(),
            final(self).position() == old(self).position(),
            final(self)@ == old(self)@.step().0,
            action == old(self)@.step().1,
    {
        let depth: usize = self.path.len() - 1;
        let at: usize = self.path[depth];
        let ghost run = self@;
        let ghost frames = run.frames();
        proof {
            self.machine.lemma_wf();
            lemma_step_well_formed(run, 'a');
            assert(run.path =~= frames.push(at as int));
        }
        let current = Self::fetch(&self.statements, &self.path);
        match current {
            Some(Statement::MoveLeft(shift)) => {
                let index = self.machine.index();
                if *shift <= index {
                    self.machine.move_left(*shift);
                    self.path.set(depth, at + 1);
                    assert(self@.path =~= frames.push(at + 1));
                    Action::Continue
                } else {
                    Action::LeftOutOfBounds { index, shift: *shift }
                }
            },
            Some(Statement::MoveRight(shift)) => {
                let index = self.machine.index();
                let size = self.machine.size();
                if *shift < size - index {
                    self.machine.move_right(*shift);
                    self.path.set(depth, at + 1);
                    assert(self@.path =~= frames.push(at + 1));
                    Action::Continue
                } else {
                    Action::RightOutOfBounds { index, shift: *shift, size }
                }
            },
            Some(Statement::Add(value)) => {
                self.machine.add(*value);
                self.path.set(depth, at + 1);
                assert(self@.path =~= frames.push(at + 1));
                Action::Continue
            },
            Some(Statement::PutChar) => {
                let output = self.machine.put_char();
                self.path.set(depth, at + 1);
                assert(self@.path =~= frames.push(at + 1));
                Action::PutChar(output)
            },
            Some(Statement::ReadChar) => Action::ReadChar,
            Some(Statement::Loop(_)) => {
                if self.machine.check_loop() {
                    self.path.push(0);
                    assert(self@.path =~= run.path.push(0));
                } else {
                    self.path.set(depth, at + 1);
                    assert(self@.path =~= frames.push(at + 1));
                }
                Action::Continue
            },
            None => {
                if depth == 0 {
                    assert(frames =~= Seq::<int>::empty());
                    Action::Halt
                } else if self.machine.check_loop() {
                    self.path.set(depth, 0);
                    assert(self@.path =~= frames.push(0));
                    Action::Continue
                } else {
                    proof {
                        lemma_leave(run.program, frames);
                    }
                    self.path.pop();
                    let outer: usize = self.path[depth - 1];
                    self.path.set(depth - 1, outer + 1);
                    assert(self@.path =~= frames.drop_last().push(frames.last() + 1));
                    Action::Continue
                }
            },
        }
    }

    /// Hands a character over to a run that waits for input: its code is
    /// stored in the current cell and the run goes on behind the statement
    /// that read it. Tells whether the run was waiting; if it was not,
    /// nothing changes.
    pub fn feed(&mut self, input: char) -> (taken: bool)
        requires
            old(self).wf(),
        ensures
            final(self).wf(),
            final(self).source() == old(self).source(),
            final(self).position() == old(self).position(),
            taken == old(self)@.awaits_input(),
            final(self)@ == old(self)@.feed(input),
    {
        let depth: usize = self.path.len() - 1;
        let at: usize = self.path[depth];
        let ghost run = self@;
        let ghost frames = run.frames();
        proof {
            self.machine.lemma_wf();
            lemma_step_well_formed(run, input);
            assert(run.path =~= frames.push(at as int));
        }
        match Self::fetch(&self.statements, &self.path) {
            Some(Statement::ReadChar) => {
                self.machine.read_char(input);
                self.path.set(depth, at + 1);
                assert(self@.path =~= frames.push(at + 1));
                true
            },
            _ => false,
        }
    }

    /// A copy of the tape's cells.
    pub fn get_tape(&self) -> (cells: Vec<u8>)
        requires
            self.wf(),
        ensures
            cells@ == self@.tape.cells,
    {
        self.machine.get_tape()
    }
}

} // verus!
