//! What a program means, that the optimizer keeps the meaning, and that
//! the interpreter's steps carry it out.

use vstd::prelude::*;
use crate::interpreter::{Action, Run, enclosing, frames_valid, lemma_enter};
use crate::machine::{Tape, char_code, wrapped_sum};
use crate::optimizer::{
    emitted, fixpoint, fuse, fusible, idle, lemma_pass_shrinks, optimized, pass, pass_from,
    passes, pending_program,
};
use crate::statement::{Instruction, kept_loop, size};

verus! {

/// What a program works on: the tape, the characters that it has yet to
/// read, and the characters that it has written.
pub struct World {
    pub tape: Tape,
    pub input: Seq<char>,
    pub output: Seq<char>,
}

/// How the execution of a program ends.
pub enum Outcome {
    /// It ran to its end and left this world.
    Finished(World),
    /// It tried to move the head off the tape.
    OutOfBounds,
    /// It asked for input when none was left.
    Starved,
    /// One of its loops, with the loops inside it, took more rounds than it
    /// was given.
    Exhausted,
}

/// What one instruction does to a world. A loop is given `fuel` rounds.
pub open spec fn perform(instruction: Instruction, world: World, fuel: nat) -> Outcome
    decreases fuel, instruction, 0nat,
{
    let tape = world.tape;
    match instruction {
        Instruction::MoveLeft(shift) => if shift <= tape.cursor {
            Outcome::Finished(World { tape: tape.with_cursor(tape.cursor - shift), ..world })
        } else {
            Outcome::OutOfBounds
        },
        Instruction::MoveRight(shift) => if tape.cursor + shift < tape.cells.len() {
            Outcome::Finished(World { tape: tape.with_cursor(tape.cursor + shift), ..world })
        } else {
            Outcome::OutOfBounds
        },
        Instruction::Add(value) => Outcome::Finished(
            World { tape: tape.with_current(wrapped_sum(tape.current(), value)), ..world },
        ),
        Instruction::PutChar => Outcome::Finished(
            World { output: world.output.push(tape.current() as char), ..world },
        ),
        Instruction::ReadChar => if world.input.len() == 0 {
            Outcome::Starved
        } else {
            Outcome::Finished(
                World {
                    tape: tape.with_current(char_code(world.input[0])),
                    input: world.input.drop_first(),
                    output: world.output,
                },
            )
        },
        Instruction::Loop(body) => repeat(body, world, fuel),
    }
}

/// What a loop over `body` does to a world: as long as the current cell is
/// not zero, the body is executed in full, and the cell is looked at again.
/// Each round takes one unit of `fuel`, from the loop and from the loops in
/// its body alike.
pub open spec fn repeat(body: Seq<Instruction>, world: World, fuel: nat) -> Outcome
    decreases fuel, body, 1nat,
{
    if world.tape.current() == 0 {
        Outcome::Finished(world)
    } else if fuel == 0 {
        Outcome::Exhausted
    } else {
        match execute(body, world, (fuel - 1) as nat) {
            Outcome::Finished(next) => repeat(body, next, (fuel - 1) as nat),
            other => other,
        }
    }
}

/// What a program does to a world: its instructions are performed in
/// order, each on the world that the one before has left, up to the first
/// that does not finish.
pub open spec fn execute(program: Seq<Instruction>, world: World, fuel: nat) -> Outcome
    decreases fuel, program, 0nat,
{
    if program.len() == 0 {
        Outcome::Finished(world)
    } else {
        match perform(program[0], world, fuel) {
            Outcome::Finished(next) => execute(program.drop_first(), next, fuel),
            other => other,
        }
    }
}

/// Executing one program after another is executing the two in a row.
pub proof fn lemma_execute_concat(
    first: Seq<Instruction>,
    second: Seq<Instruction>,
    world: World,
    fuel: nat,
)
    ensures
        execute(first + second, world, fuel) == match execute(first, world, fuel) {
            Outcome::Finished(next) => execute(second, next, fuel),
            other => other,
        },
    decreases first.len(),
{
    if first.len() == 0 {
        assert(first + second =~= second);
    } else {
        assert((first + second)[0] == first[0]);
        assert((first + second).drop_first() =~= first.drop_first() + second);
        match perform(first[0], world, fuel) {
            Outcome::Finished(next) => {
                lemma_execute_concat(first.drop_first(), second, next, fuel);
            },
            _ => {},
        }
    }
}

/// Executing a program of one instruction is performing the instruction.
pub proof fn lemma_execute_single(instruction: Instruction, world: World, fuel: nat)
    ensures
        execute(seq![instruction], world, fuel) == perform(instruction, world, fuel),
{
    let program = seq![instruction];
    assert(program[0] == instruction);
    assert(program.drop_first() =~= Seq::<Instruction>::empty());
    match perform(instruction, world, fuel) {
        Outcome::Finished(next) => {
            assert(execute(program.drop_first(), next, fuel) == Outcome::Finished(next));
        },
        _ => {},
    }
}

/// What finishes leaves the head on the tape.
pub proof fn lemma_finished_well_formed(program: Seq<Instruction>, world: World, fuel: nat)
    requires
        world.tape.well_formed(),
    ensures
        execute(program, world, fuel) matches Outcome::Finished(next)
            ==> next.tape.well_formed(),
    decreases fuel, program, 0nat,
{
    if program.len() > 0 {
        match program[0] {
            Instruction::Loop(body) => {
                lemma_repeat_well_formed(body, world, fuel);
            },
            _ => {},
        }
        match perform(program[0], world, fuel) {
            Outcome::Finished(next) => {
                lemma_finished_well_formed(program.drop_first(), next, fuel);
            },
            _ => {},
        }
    }
}

/// A loop that finishes leaves the head on the tape.
pub proof fn lemma_repeat_well_formed(body: Seq<Instruction>, world: World, fuel: nat)
    requires
        world.tape.well_formed(),
    ensures
        repeat(body, world, fuel) matches Outcome::Finished(next) ==> next.tape.well_formed(),
    decreases fuel, body, 1nat,
{
    if world.tape.current() != 0 && fuel > 0 {
        lemma_finished_well_formed(body, world, (fuel - 1) as nat);
        match execute(body, world, (fuel - 1) as nat) {
            Outcome::Finished(next) => {
                lemma_repeat_well_formed(body, next, (fuel - 1) as nat);
            },
            _ => {},
        }
    }
}


/// An instruction without effect finishes and leaves the world as it is.
pub proof fn lemma_idle(instruction: Instruction, world: World, fuel: nat)
    requires
        world.tape.well_formed(),
        idle(instruction),
    ensures
        perform(instruction, world, fuel) == Outcome::Finished(world),
{
    let tape = world.tape;
    assert(tape.with_current(tape.current()).cells =~= tape.cells);
}

/// Adding one value and then another adds their sum.
pub proof fn lemma_wrapped_sum_twice(value: u8, first: u8, second: u8)
    ensures
        wrapped_sum(wrapped_sum(value, first), second) == wrapped_sum(
            value,
            wrapped_sum(first, second),
        ),
{
}

/// Where two instructions fuse and finish one after the other, the fused
/// instruction finishes with what they leave.
pub proof fn lemma_fused(first: Instruction, second: Instruction, world: World, fuel: nat)
    requires
        world.tape.well_formed(),
        fusible(first),
        fuse(first, second) is Some,
        perform(first, world, fuel) is Finished,
        perform(second, perform(first, world, fuel)->Finished_0, fuel) is Finished,
    ensures
        perform(fuse(first, second)->0, world, fuel) == perform(
            second,
            perform(first, world, fuel)->Finished_0,
            fuel,
        ),
{
    let tape = world.tape;
    match (first, second) {
        (Instruction::Add(a), Instruction::Add(b)) => {
            let once = wrapped_sum(tape.current(), a);
            let twice = wrapped_sum(once, b);
            let sum = wrapped_sum(a, b);
            lemma_wrapped_sum_twice(tape.current(), a, b);
            assert(tape.with_current(once).current() == once);
            assert(tape.with_current(once).with_current(twice).cells =~= tape.with_current(
                twice,
            ).cells);
            assert(fuse(first, second)->0 == Instruction::Add(sum));
            assert(perform(first, world, fuel)->Finished_0.tape == tape.with_current(once));
        },
        _ => {},
    }
}

/// A loop with an empty body finishes only where it is not entered.
pub proof fn lemma_repeat_nothing(world: World, fuel: nat)
    requires
        repeat(Seq::empty(), world, fuel) is Finished,
    ensures
        repeat(Seq::empty(), world, fuel) == Outcome::Finished(world),
    decreases fuel,
{
    if world.tape.current() != 0 && fuel > 0 {
        assert(execute(Seq::<Instruction>::empty(), world, (fuel - 1) as nat)
            == Outcome::Finished(world));
        lemma_repeat_nothing(world, (fuel - 1) as nat);
    }
}

/// Where a program, entered with an accumulated instruction, finishes, a
/// pass over it finishes with the same world.
pub proof fn lemma_pass_from_preserves(
    program: Seq<Instruction>,
    pending: Option<Instruction>,
    world: World,
    fuel: nat,
)
    requires
        world.tape.well_formed(),
        pending is Some ==> fusible(pending->0),
        execute(pending_program(pending) + program, world, fuel) is Finished,
    ensures
        execute(pass_from(program, pending), world, fuel) == execute(
            pending_program(pending) + program,
            world,
            fuel,
        ),
    decreases program, 0nat,
{
    let before = pending_program(pending);
    let flushed = emitted(pending);
    // Emitting the accumulated instruction does what the instruction does.
    assert(execute(flushed, world, fuel) == execute(before, world, fuel)) by {
        if pending is Some {
            lemma_execute_single(pending->0, world, fuel);
            if idle(pending->0) {
                lemma_idle(pending->0, world, fuel);
            }
        }
    }
    lemma_execute_concat(before, program, world, fuel);
    let middle = execute(before, world, fuel)->Finished_0;
    lemma_finished_well_formed(before, world, fuel);
    if program.len() == 0 {
        assert(before + program =~= before);
    } else {
        let head = program[0];
        let rest = program.drop_first();
        assert(program =~= seq![head] + rest);
        lemma_execute_concat(seq![head], rest, middle, fuel);
        lemma_execute_single(head, middle, fuel);
        match head {
            Instruction::Loop(body) => {
                let inner = pass_from(body, None);
                let kept = kept_loop(inner);
                let tail = pass_from(rest, None);
                let after = perform(head, middle, fuel)->Finished_0;
                lemma_repeat_well_formed(body, middle, fuel);
                lemma_repeat_preserves(body, middle, fuel);
                assert(execute(kept, middle, fuel) == Outcome::Finished(after)) by {
                    if inner.len() == 0 {
                        lemma_repeat_nothing(middle, fuel);
                    } else {
                        lemma_execute_single(Instruction::Loop(inner), middle, fuel);
                    }
                }
                assert(pending_program(None) + rest =~= rest);
                lemma_pass_from_preserves(rest, None, after, fuel);
                lemma_execute_concat(flushed, kept, world, fuel);
                lemma_execute_concat(flushed + kept, tail, world, fuel);
            },
            Instruction::PutChar | Instruction::ReadChar => {
                let tail = pass_from(rest, None);
                let after = perform(head, middle, fuel)->Finished_0;
                lemma_finished_well_formed(seq![head], middle, fuel);
                assert(pending_program(None) + rest =~= rest);
                lemma_pass_from_preserves(rest, None, after, fuel);
                lemma_execute_concat(flushed, seq![head], world, fuel);
                lemma_execute_concat(flushed + seq![head], tail, world, fuel);
            },
            _ => {
                if pending is Some && fuse(pending->0, head) is Some {
                    let fused = fuse(pending->0, head)->0;
                    lemma_execute_single(pending->0, world, fuel);
                    lemma_fused(pending->0, head, world, fuel);
                    lemma_execute_single(fused, world, fuel);
                    lemma_execute_concat(seq![fused], rest, world, fuel);
                    lemma_pass_from_preserves(rest, Some(fused), world, fuel);
                } else {
                    let tail = pass_from(rest, Some(head));
                    assert(pending_program(Some(head)) + rest =~= program);
                    lemma_pass_from_preserves(rest, Some(head), middle, fuel);
                    lemma_execute_concat(flushed, tail, world, fuel);
                }
            },
        }
    }
}

/// Where a loop finishes, the loop over its optimized body finishes with
/// the same world.
pub proof fn lemma_repeat_preserves(body: Seq<Instruction>, world: World, fuel: nat)
    requires
        world.tape.well_formed(),
        repeat(body, world, fuel) is Finished,
    ensures
        repeat(pass_from(body, None), world, fuel) == repeat(body, world, fuel),
    decreases body, fuel + 1,
{
    if world.tape.current() != 0 && fuel > 0 {
        let less = (fuel - 1) as nat;
        assert(pending_program(None) + body =~= body);
        lemma_pass_from_preserves(body, None, world, less);
        lemma_finished_well_formed(body, world, less);
        let next = execute(body, world, less)->Finished_0;
        lemma_repeat_preserves(body, next, less);
    }
}

/// An optimization pass keeps the meaning of a program: where the program
/// runs to its end, the program that the pass gives runs to its end as well
/// and leaves the same tape, input and output.
pub proof fn lemma_pass_preserves(program: Seq<Instruction>, world: World, fuel: nat)
    requires
        world.tape.well_formed(),
        execute(program, world, fuel) is Finished,
    ensures
        execute(pass(program), world, fuel) == execute(program, world, fuel),
{
    assert(pending_program(None) + program =~= program);
    lemma_pass_from_preserves(program, None, world, fuel);
}

/// Any number of passes keeps the meaning of a program.
pub proof fn lemma_passes_preserve(
    program: Seq<Instruction>,
    count: nat,
    world: World,
    fuel: nat,
)
    requires
        world.tape.well_formed(),
        execute(program, world, fuel) is Finished,
    ensures
        execute(passes(program, count), world, fuel) == execute(program, world, fuel),
    decreases count,
{
    if count > 0 {
        lemma_pass_preserves(program, world, fuel);
        lemma_passes_preserve(pass(program), (count - 1) as nat, world, fuel);
    }
}

/// Passes until nothing changes keep the meaning of a program.
pub proof fn lemma_fixpoint_preserves(program: Seq<Instruction>, world: World, fuel: nat)
    requires
        world.tape.well_formed(),
        execute(program, world, fuel) is Finished,
    ensures
        execute(fixpoint(program), world, fuel) == execute(program, world, fuel),
    decreases size(program),
{
    if pass(program) != program {
        lemma_pass_shrinks(program);
        lemma_pass_preserves(program, world, fuel);
        lemma_fixpoint_preserves(pass(program), world, fuel);
    }
}

/// The optimizer keeps the meaning of a program, whatever its iteration
/// budget: where the program runs to its end, the optimized program runs to
/// its end as well and leaves the same tape, input and output.
pub proof fn lemma_optimized_preserves(
    program: Seq<Instruction>,
    max_iterations: nat,
    world: World,
    fuel: nat,
)
    requires
        world.tape.well_formed(),
        execute(program, world, fuel) is Finished,
    ensures
        execute(optimized(program, max_iterations), world, fuel) == execute(
            program,
            world,
            fuel,
        ),
{
    lemma_fixpoint_preserves(program, world, fuel);
    lemma_passes_preserve(program, max_iterations, world, fuel);
}


/// A run together with the host's side of it: the characters that the host
/// has yet to hand over, and the characters that it was told to write.
pub struct Session {
    pub run: Run,
    pub input: Seq<char>,
    pub output: Seq<char>,
}

impl Session {
    /// The session of a run of `program` that stands at index `at` of the
    /// block entered by `frames`, in `world`.
    pub open spec fn at(
        program: Seq<Instruction>,
        frames: Seq<int>,
        at: int,
        world: World,
    ) -> Session {
        Session {
            run: Run { program, tape: world.tape, path: frames.push(at) },
            input: world.input,
            output: world.output,
        }
    }

    /// The session at the first statement of `program`, in `world`.
    pub open spec fn start(program: Seq<Instruction>, world: World) -> Session {
        Session::at(program, Seq::empty(), 0, world)
    }

    /// The world of the session.
    pub open spec fn world(self) -> World {
        World { tape: self.run.tape, input: self.input, output: self.output }
    }

    /// The session after one step of the run and after the host has done
    /// what the step asked for: it has written the character, or handed over
    /// the next character of its input. Where the run has ended or cannot go
    /// on, and where no input is left to hand over, nothing changes.
    pub open spec fn next(self) -> Session {
        let (run, action) = self.run.step();
        match action {
            Action::Continue => Session { run, ..self },
            Action::PutChar(written) => Session { run, output: self.output.push(written), ..self },
            Action::ReadChar => if self.input.len() > 0 {
                Session {
                    run: self.run.feed(self.input[0]),
                    input: self.input.drop_first(),
                    output: self.output,
                }
            } else {
                self
            },
            _ => self,
        }
    }

    /// The session after `steps` steps.
    pub open spec fn after(self, steps: nat) -> Session
        decreases steps,
    {
        if steps == 0 {
            self
        } else {
            self.next().after((steps - 1) as nat)
        }
    }
}

/// Taking some steps and then some more is taking all of them.
pub proof fn lemma_after_sum(session: Session, first: nat, second: nat)
    ensures
        session.after(first + second) == session.after(first).after(second),
    decreases first,
{
    if first > 0 {
        lemma_after_sum(session.next(), (first - 1) as nat, second);
    }
}

/// The number of steps that a run takes over `program`, up to the first
/// instruction that does not finish.
pub open spec fn steps_of(program: Seq<Instruction>, world: World, fuel: nat) -> nat
    decreases fuel, program, 0nat,
{
    if program.len() == 0 {
        0
    } else {
        let first: nat = match program[0] {
            Instruction::Loop(body) => if world.tape.current() != 0 {
                1 + rounds_of(body, world, fuel)
            } else {
                1
            },
            _ => 1,
        };
        match perform(program[0], world, fuel) {
            Outcome::Finished(next) => first + steps_of(program.drop_first(), next, fuel),
            _ => first,
        }
    }
}

/// The number of steps that a run takes from the start of the body of a
/// loop that it has entered until it has left the loop.
pub open spec fn rounds_of(body: Seq<Instruction>, world: World, fuel: nat) -> nat
    decreases fuel, body, 1nat,
{
    if fuel == 0 {
        0
    } else {
        let less = (fuel - 1) as nat;
        match execute(body, world, less) {
            Outcome::Finished(next) => if next.tape.current() != 0 {
                steps_of(body, world, less) + 1 + rounds_of(body, next, less)
            } else {
                steps_of(body, world, less) + 1
            },
            _ => steps_of(body, world, less),
        }
    }
}

/// Where the rest of a block finishes, the run takes it step by step to
/// the end of the block, and leaves the same world.
pub proof fn lemma_run_block(
    program: Seq<Instruction>,
    frames: Seq<int>,
    at: int,
    world: World,
    fuel: nat,
)
    requires
        frames_valid(program, frames),
        0 <= at <= enclosing(program, frames).len(),
        world.tape.well_formed(),
        execute(enclosing(program, frames).skip(at), world, fuel) is Finished,
    ensures
        Session::at(program, frames, at, world).after(
            steps_of(enclosing(program, frames).skip(at), world, fuel),
        ) == Session::at(
            program,
            frames,
            enclosing(program, frames).len() as int,
            execute(enclosing(program, frames).skip(at), world, fuel)->Finished_0,
        ),
    decreases fuel, enclosing(program, frames).len() - at, 1nat,
{
    let block = enclosing(program, frames);
    let left = block.skip(at);
    let here = Session::at(program, frames, at, world);
    assert(here.run.frames() =~= frames);
    assert(here.run.path.last() == at);
    if at < block.len() {
        let head = block[at];
        let rest = block.skip(at + 1);
        assert(left[0] == head);
        assert(left.drop_first() =~= rest);
        let next = perform(head, world, fuel)->Finished_0;
        let first: nat = (steps_of(left, world, fuel) - steps_of(rest, next, fuel)) as nat;
        assert(here.run.current() == Some(head));
        // The run gets behind the head in `first` steps.
        assert(here.after(first) == Session::at(program, frames, at + 1, next)) by {
            match head {
                Instruction::Loop(body) => {
                    if world.tape.current() != 0 {
                        let inside = frames.push(at);
                        lemma_enter(program, frames, at);
                        assert(here.next() == Session::at(program, inside, 0, world));
                        lemma_run_rounds(program, inside, world, fuel);
                        assert(inside.drop_last() =~= frames);
                        assert(here.after(first) == here.next().after((first - 1) as nat));
                    } else {
                        assert(here.next() == Session::at(program, frames, at + 1, next));
                        assert(here.next().after(0) == here.next());
                    }
                },
                _ => {
                    assert(here.next() == Session::at(program, frames, at + 1, next));
                    assert(here.next().after(0) == here.next());
                },
            }
        }
        lemma_finished_well_formed(seq![head], world, fuel);
        lemma_execute_single(head, world, fuel);
        lemma_run_block(program, frames, at + 1, next, fuel);
        lemma_after_sum(here, first, steps_of(rest, next, fuel));
    } else {
        assert(left =~= Seq::<Instruction>::empty());
    }
}

/// Where a loop that has been entered finishes, the run takes it round by
/// round until it has left the loop, and leaves the same world.
pub proof fn lemma_run_rounds(
    program: Seq<Instruction>,
    frames: Seq<int>,
    world: World,
    fuel: nat,
)
    requires
        frames_valid(program, frames),
        frames.len() > 0,
        world.tape.well_formed(),
        world.tape.current() != 0,
        repeat(enclosing(program, frames), world, fuel) is Finished,
    ensures
        Session::at(program, frames, 0, world).after(
            rounds_of(enclosing(program, frames), world, fuel),
        ) == Session::at(
            program,
            frames.drop_last(),
            frames.last() + 1,
            repeat(enclosing(program, frames), world, fuel)->Finished_0,
        ),
    decreases fuel, 0nat, 0nat,
{
    let body = enclosing(program, frames);
    let less = (fuel - 1) as nat;
    let start = Session::at(program, frames, 0, world);
    let next = execute(body, world, less)->Finished_0;
    let through = steps_of(body, world, less);
    assert(body.skip(0) =~= body);
    lemma_run_block(program, frames, 0, world, less);
    lemma_finished_well_formed(body, world, less);
    let end = Session::at(program, frames, body.len() as int, next);
    assert(start.after(through) == end);
    assert(end.run.frames() =~= frames);
    assert(end.run.current() is None);
    if next.tape.current() != 0 {
        assert(end.next() == Session::at(program, frames, 0, next));
        lemma_run_rounds(program, frames, next, less);
        let more = rounds_of(body, next, less);
        assert(end.after(1 + more) == end.next().after(more));
        lemma_after_sum(start, through, 1 + more);
    } else {
        assert(end.next() == Session::at(
            program,
            frames.drop_last(),
            frames.last() + 1,
            next,
        ));
        assert(end.after(1) == end.next().after(0));
        lemma_after_sum(start, through, 1);
    }
}

/// The interpreter's steps carry out the meaning of a program: where the
/// program runs to its end, a run of it from its first statement, with the
/// host handing over the input and writing the output, comes to a halt and
/// leaves the same tape, input and output.
pub proof fn lemma_run_finishes(program: Seq<Instruction>, world: World, fuel: nat)
    requires
        world.tape.well_formed(),
        execute(program, world, fuel) is Finished,
    ensures
        ({
            let end = Session::start(program, world).after(steps_of(program, world, fuel));
            &&& end.world() == execute(program, world, fuel)->Finished_0
            &&& end.run.step() == (end.run, Action::Halt)
        }),
{
    assert(program.skip(0) =~= program);
    lemma_run_block(program, Seq::empty(), 0, world, fuel);
    let end = Session::start(program, world).after(steps_of(program, world, fuel));
    assert(end.run.frames() =~= Seq::<int>::empty());
}

/// Optimizing a program does not change what a run of it leaves: where the
/// program runs to its end, so does a run of the optimized program, whatever
/// the iteration budget, and it leaves the same tape, input and output.
pub proof fn lemma_optimized_run_finishes(
    program: Seq<Instruction>,
    max_iterations: nat,
    world: World,
    fuel: nat,
)
    requires
        world.tape.well_formed(),
        execute(program, world, fuel) is Finished,
    ensures
        ({
            let better = optimized(program, max_iterations);
            let end = Session::start(better, world).after(steps_of(better, world, fuel));
            &&& end.world() == execute(program, world, fuel)->Finished_0
            &&& end.run.step() == (end.run, Action::Halt)
        }),
{
    lemma_optimized_preserves(program, max_iterations, world, fuel);
    lemma_run_finishes(optimized(program, max_iterations), world, fuel);
}

} // verus!
