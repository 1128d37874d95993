//! The optimizer: passes that fuse moves and additions and drop what has
//! no effect, repeated up to a budget or until nothing changes.

use vstd::prelude::*;
use crate::machine::wrapped_sum;
use crate::statement::{
    Instruction, Statement, clone_statements, kept_loop, lemma_loop_view, lemma_size_concat,
    lemma_size_single, same_statements, size,
};

verus! {

/// Whether an instruction takes part in fusion: a move or an addition.
pub open spec fn fusible(instruction: Instruction) -> bool {
    instruction is MoveLeft || instruction is MoveRight || instruction is Add
}

/// The one instruction that does what `first` and then `second` do, where the
/// two belong to the same family and their net effect fits an instruction.
/// Additions sum up modulo 256. Moves sum up as signed displacements; two
/// moves in the same direction whose sum does not fit the machine word do not
/// fuse.
pub open spec fn fuse(first: Instruction, second: Instruction) -> Option<Instruction> {
    match (first, second) {
        (Instruction::Add(a), Instruction::Add(b)) => Some(Instruction::Add(wrapped_sum(a, b))),
        (Instruction::MoveLeft(a), Instruction::MoveLeft(b)) => if a + b <= usize::MAX {
            Some(Instruction::MoveLeft((a + b) as usize))
        } else {
            None
        },
        (Instruction::MoveRight(a), Instruction::MoveRight(b)) => if a + b <= usize::MAX {
            Some(Instruction::MoveRight((a + b) as usize))
        } else {
            None
        },
        (Instruction::MoveRight(a), Instruction::MoveLeft(b)) => Some(
            if a < b {
                Instruction::MoveLeft((b - a) as usize)
            } else {
                Instruction::MoveRight((a - b) as usize)
            },
        ),
        (Instruction::MoveLeft(a), Instruction::MoveRight(b)) => Some(
            if a < b {
                Instruction::MoveRight((b - a) as usize)
            } else {
                Instruction::MoveLeft((a - b) as usize)
            },
        ),
        _ => None,
    }
}

/// Whether an instruction has no effect: a move by zero or an addition of
/// zero.
pub open spec fn idle(instruction: Instruction) -> bool {
    match instruction {
        Instruction::MoveLeft(shift) => shift == 0,
        Instruction::MoveRight(shift) => shift == 0,
        Instruction::Add(value) => value == 0,
        _ => false,
    }
}

/// What is emitted for the instruction that has been accumulated so far:
/// the instruction itself, unless there is none or it has no effect.
pub open spec fn emitted(pending: Option<Instruction>) -> Seq<Instruction> {
    match pending {
        Some(instruction) => if idle(instruction) {
            Seq::empty()
        } else {
            seq![instruction]
        },
        None => Seq::empty(),
    }
}

/// One pass over `program`, entered with `pending` accumulated from what
/// came before. A move or an addition is fused into `pending` where `fuse`
/// allows it; otherwise `pending` is emitted and the instruction becomes the
/// new `pending`. Input and output are kept as they are and separate what
/// comes before from what comes after. A loop separates likewise; its body
/// is optimized by a pass of its own, and it is dropped if nothing is left
/// of the body.
pub open spec fn pass_from(program: Seq<Instruction>, pending: Option<Instruction>) -> Seq<
    Instruction,
>
    decreases program,
{
    if program.len() == 0 {
        emitted(pending)
    } else {
        let head = program[0];
        let rest = program.drop_first();
        match head {
            Instruction::Loop(body) => emitted(pending) + kept_loop(pass_from(body, None))
                + pass_from(rest, None),
            Instruction::PutChar | Instruction::ReadChar => emitted(pending) + seq![head]
                + pass_from(rest, None),
            _ => if pending is Some && fuse(pending->0, head) is Some {
                pass_from(rest, fuse(pending->0, head))
            } else {
                emitted(pending) + pass_from(rest, Some(head))
            },
        }
    }
}

/// One optimization pass over a whole program.
pub open spec fn pass(program: Seq<Instruction>) -> Seq<Instruction> {
    pass_from(program, None)
}

/// The program that stands for an accumulated instruction, before any
/// optimization.
pub open spec fn pending_program(pending: Option<Instruction>) -> Seq<Instruction> {
    match pending {
        Some(instruction) => seq![instruction],
        None => Seq::empty(),
    }
}

/// A pass never makes a program larger, and it leaves the size as it was
/// only where it leaves the program as it was.
pub proof fn lemma_pass_from_shrinks(program: Seq<Instruction>, pending: Option<Instruction>)
    requires
        pending is Some ==> fusible(pending->0),
    ensures
        size(pass_from(program, pending)) <= size(pending_program(pending) + program),
        size(pass_from(program, pending)) == size(pending_program(pending) + program)
            ==> pass_from(program, pending) == pending_program(pending) + program,
    decreases program,
{
    let before = pending_program(pending);
    let flushed = emitted(pending);
    lemma_size_concat(before, program);
    assert(size(flushed) <= size(before) && (size(flushed) == size(before) ==> flushed
        == before)) by {
        if pending is Some {
            lemma_size_single(pending->0);
        }
    }
    if program.len() == 0 {
        assert(before + program =~= before);
    } else {
        let head = program[0];
        let rest = program.drop_first();
        assert(program =~= seq![head] + rest);
        lemma_size_single(head);
        lemma_size_concat(seq![head], rest);
        match head {
            Instruction::Loop(body) => {
                let inner = pass_from(body, None);
                let kept = kept_loop(inner);
                let tail = pass_from(rest, None);
                lemma_pass_from_shrinks(body, None);
                lemma_pass_from_shrinks(rest, None);
                assert(pending_program(None) + body =~= body);
                assert(pending_program(None) + rest =~= rest);
                if inner.len() > 0 {
                    lemma_size_single(Instruction::Loop(inner));
                }
                lemma_size_concat(flushed, kept);
                lemma_size_concat(flushed + kept, tail);
                if size(pass_from(program, pending)) == size(before + program) {
                    assert(kept == seq![head]);
                    assert(flushed + kept + tail =~= before + program);
                }
            },
            Instruction::PutChar | Instruction::ReadChar => {
                let tail = pass_from(rest, None);
                lemma_pass_from_shrinks(rest, None);
                assert(pending_program(None) + rest =~= rest);
                lemma_size_concat(flushed, seq![head]);
                lemma_size_concat(flushed + seq![head], tail);
                if size(pass_from(program, pending)) == size(before + program) {
                    assert(flushed + seq![head] + tail =~= before + program);
                }
            },
            _ => {
                if pending is Some && fuse(pending->0, head) is Some {
                    let fused = fuse(pending->0, head);
                    lemma_pass_from_shrinks(rest, fused);
                    lemma_size_single(fused->0);
                    lemma_size_single(pending->0);
                    lemma_size_concat(pending_program(fused), rest);
                } else {
                    let tail = pass_from(rest, Some(head));
                    lemma_pass_from_shrinks(rest, Some(head));
                    assert(pending_program(Some(head)) + rest =~= program);
                    lemma_size_concat(flushed, tail);
                    if size(pass_from(program, pending)) == size(before + program) {
                        assert(flushed + tail =~= before + program);
                    }
                }
            },
        }
    }
}

/// A pass that changes a program makes it smaller.
pub proof fn lemma_pass_shrinks(program: Seq<Instruction>)
    ensures
        size(pass(program)) <= size(program),
        pass(program) != program ==> size(pass(program)) < size(program),
{
    lemma_pass_from_shrinks(program, None);
    assert(pending_program(None) + program =~= program);
}


/// `count` passes, one after the other.
pub open spec fn passes(program: Seq<Instruction>, count: nat) -> Seq<Instruction>
    decreases count,
{
    if count == 0 {
        program
    } else {
        passes(pass(program), (count - 1) as nat)
    }
}

/// Passes repeated until one changes nothing.
pub open spec fn fixpoint(program: Seq<Instruction>) -> Seq<Instruction>
    decreases size(program),
    via fixpoint_decreases
{
    if pass(program) == program {
        program
    } else {
        fixpoint(pass(program))
    }
}

#[via_fn]
proof fn fixpoint_decreases(program: Seq<Instruction>) {
    lemma_pass_shrinks(program);
}

/// What an optimizer run makes of `program`: passes until nothing changes
/// where `max_iterations` is zero, and that many passes otherwise.
pub open spec fn optimized(program: Seq<Instruction>, max_iterations: nat) -> Seq<Instruction> {
    if max_iterations == 0 {
        fixpoint(program)
    } else {
        passes(program, max_iterations)
    }
}

/// No optimizer run makes a program larger, whatever its iteration budget.
pub proof fn lemma_optimized_shrinks(program: Seq<Instruction>, max_iterations: nat)
    ensures
        size(optimized(program, max_iterations)) <= size(program),
{
    lemma_fixpoint_shrinks(program);
    lemma_passes_shrink(program, max_iterations);
}

/// Passes never make a program larger.
pub proof fn lemma_passes_shrink(program: Seq<Instruction>, count: nat)
    ensures
        size(passes(program, count)) <= size(program),
    decreases count,
{
    if count > 0 {
        lemma_pass_shrinks(program);
        lemma_passes_shrink(pass(program), (count - 1) as nat);
    }
}

/// Passes until nothing changes never make a program larger.
pub proof fn lemma_fixpoint_shrinks(program: Seq<Instruction>)
    ensures
        size(fixpoint(program)) <= size(program),
    decreases size(program),
{
    if pass(program) != program {
        lemma_pass_shrinks(program);
        lemma_fixpoint_shrinks(pass(program));
    }
}

/// Passes over a program that a pass leaves as it is leave it as it is.
pub proof fn lemma_passes_keep_fixed(program: Seq<Instruction>, count: nat)
    requires
        pass(program) == program,
    ensures
        passes(program, count) == program,
    decreases count,
{
    if count > 0 {
        lemma_passes_keep_fixed(program, (count - 1) as nat);
    }
}

/// A program that was optimized until nothing changed is left as it is by
/// another pass.
pub proof fn lemma_fixpoint_is_fixed(program: Seq<Instruction>)
    ensures
        pass(fixpoint(program)) == fixpoint(program),
    decreases size(program),
{
    if pass(program) != program {
        lemma_pass_shrinks(program);
        lemma_fixpoint_is_fixed(pass(program));
    }
}

/// Optimizing is idempotent: a program that was optimized until nothing
/// changed is left as it is by any further optimizer run, whatever its
/// iteration budget.
pub proof fn lemma_optimized_is_stable(program: Seq<Instruction>, max_iterations: nat)
    ensures
        optimized(fixpoint(program), max_iterations) == fixpoint(program),
{
    lemma_fixpoint_is_fixed(program);
    lemma_passes_keep_fixed(fixpoint(program), max_iterations);
}

/// As many passes as a program has instructions reach the point where
/// nothing changes, and so do more.
pub proof fn lemma_enough_passes(program: Seq<Instruction>, count: nat)
    requires
        count >= size(program),
    ensures
        passes(program, count) == fixpoint(program),
    decreases count,
{
    if pass(program) == program {
        lemma_passes_keep_fixed(program, count);
    } else {
        lemma_pass_shrinks(program);
        lemma_enough_passes(pass(program), (count - 1) as nat);
    }
}

/// The instruction that a count stands for while instructions of the kind of
/// `kind` are being accumulated: a move by `count`, or an addition of `count`
/// modulo 256. Other kinds accumulate nothing.
pub open spec fn accumulated(kind: Instruction, count: usize) -> Option<Instruction> {
    match kind {
        Instruction::MoveLeft(_) => Some(Instruction::MoveLeft(count)),
        Instruction::MoveRight(_) => Some(Instruction::MoveRight(count)),
        Instruction::Add(_) => Some(Instruction::Add((count % 256) as u8)),
        _ => None,
    }
}

/// The value of an optional statement.
pub open spec fn optional_view(statement: Option<Statement>) -> Option<Instruction> {
    match statement {
        Some(statement) => Some(statement.deep_view()),
        None => None,
    }
}

/// Rewrites a program into a shorter one with the same effect.
pub struct Optimizer {
    statements: Vec<Statement>,
}

impl View for Optimizer {
    type V = Seq<Instruction>;

    closed spec fn view(&self) -> Seq<Instruction> {
        self.statements.deep_view()
    }
}

impl Optimizer {
    /// An optimizer for `statements`.
    pub fn new(statements: Vec<Statement>) -> (optimizer: Self)
        ensures
            optimizer@ == statements.deep_view(),
    {
        Self { statements }
    }

    /// The statement for `value` accumulated instructions of the kind of
    /// `stmt_type`, if `value` is not zero. Resets `value` to zero.
    pub fn generate_optimized_stmt(stmt_type: &Statement, value: &mut usize) -> (generated: Option<
        Statement,
    >)
        ensures
            *final(value) == 0,
            optional_view(generated) == if *old(value) == 0 {
                None
            } else {
                accumulated(stmt_type.deep_view(), *old(value))
            },
    {
        let result = if *value == 0 {
            None
        } else {
            match stmt_type {
                Statement::Add(_) => Some(Statement::Add((*value % 256) as u8)),
                Statement::MoveLeft(_) => Some(Statement::MoveLeft(*value)),
                Statement::MoveRight(_) => Some(Statement::MoveRight(*value)),
                _ => None,
            }
        };
        *value = 0;
        result
    }

    /// Appends `statement` to `result`.
    fn emit(result: &mut Vec<Statement>, statement: Statement)
        ensures
            final(result).deep_view() == old(result).deep_view().push(statement.deep_view()),
    {
        result.push(statement);
        assert(result.deep_view() =~= old(result).deep_view().push(statement.deep_view()));
    }

    /// Appends to `result` what is emitted for `value` accumulated
    /// instructions of the kind of `stmt_type`, and resets `value` to zero.
    fn flush(result: &mut Vec<Statement>, stmt_type: &Statement, value: &mut usize)
        requires
            stmt_type.deep_view() is Add ==> *old(value) < 256,
            !fusible(stmt_type.deep_view()) ==> *old(value) == 0,
        ensures
            *final(value) == 0,
            final(result).deep_view() == old(result).deep_view() + emitted(
                accumulated(stmt_type.deep_view(), *old(value)),
            ),
    {
        match Self::generate_optimized_stmt(stmt_type, value) {
            Some(statement) => {
                Self::emit(result, statement);
                assert(old(result).deep_view().push(statement.deep_view()) =~= old(
                    result,
                ).deep_view() + seq![statement.deep_view()]);
            },
            None => {
                assert(result.deep_view() =~= old(result).deep_view() + Seq::empty());
            },
        }
    }

    /// Fuses `next` into the `count` accumulated instructions of the kind of
    /// `last`, where the two fuse. Gives the new count, and whether the
    /// accumulated instruction takes the kind of `next` (it keeps the kind of
    /// `last` otherwise).
    fn fuse_into(last: &Statement, count: usize, next: &Statement) -> (fused: Option<
        (bool, usize),
    >)
        requires
            last.deep_view() is Add ==> count < 256,
        ensures
            match fused {
                Some((turned, sum)) => {
                    &&& accumulated(last.deep_view(), count) is Some
                    &&& fuse(accumulated(last.deep_view(), count)->0, next.deep_view())
                        == accumulated(
                        if turned {
                            next.deep_view()
                        } else {
                            last.deep_view()
                        },
                        sum,
                    )
                    &&& fusible(next.deep_view())
                    &&& next.deep_view() is Add ==> turned && sum < 256
                },
                None => accumulated(last.deep_view(), count) is Some ==> fuse(
                    accumulated(last.deep_view(), count)->0,
                    next.deep_view(),
                ) is None,
            },
    {
        match (last, next) {
            (Statement::Add(_), Statement::Add(value)) => {
                let sum: u8 = value.wrapping_add(count as u8);
                Some((true, sum as usize))
            },
            (Statement::MoveLeft(_), Statement::MoveLeft(value)) => {
                match count.checked_add(*value) {
                    Some(sum) => Some((true, sum)),
                    None => None,
                }
            },
            (Statement::MoveRight(_), Statement::MoveRight(value)) => {
                match count.checked_add(*value) {
                    Some(sum) => Some((true, sum)),
                    None => None,
                }
            },
            (Statement::MoveRight(_), Statement::MoveLeft(value)) => {
                if count < *value {
                    Some((true, *value - count))
                } else {
                    Some((false, count - *value))
                }
            },
            (Statement::MoveLeft(_), Statement::MoveRight(value)) => {
                if count < *value {
                    Some((true, *value - count))
                } else {
                    Some((false, count - *value))
                }
            },
            _ => None,
        }
    }

    /// The count that a move or an addition starts an accumulation with.
    fn amount(statement: &Statement) -> (count: usize)
        requires
            fusible(statement.deep_view()),
        ensures
            accumulated(statement.deep_view(), count) == Some(statement.deep_view()),
            statement.deep_view() is Add ==> count < 256,
    {
        match statement {
            Statement::Add(value) => *value as usize,
            Statement::MoveLeft(shift) => *shift,
            Statement::MoveRight(shift) => *shift,
            _ => 0,
        }
    }

    /// One optimization pass over `statements`. Always gives the program
    /// that is left of them, which may be empty.
    pub fn optimize_rec(statements: &Vec<Statement>) -> (optimized: Option<Vec<Statement>>)
        ensures
            optimized matches Some(result) && result.deep_view() == pass(statements.deep_view()),
        decreases statements,
    {
        let mut result: Vec<Statement> = Vec::new();
        let mut stmt_count: usize = 0;
        let initial = Statement::ReadChar;
        let mut last_statement: &Statement = &initial;
        let ghost program = statements.deep_view();
        let mut i: usize = 0;
        proof {
            assert(program.skip(0) =~= program);
            assert(result.deep_view() + pass(program) =~= pass(program));
        }
        while i < statements.len()
            invariant
                i <= statements.len(),
                program == statements.deep_view(),
                !fusible(last_statement.deep_view()) ==> stmt_count == 0,
                last_statement.deep_view() is Add ==> stmt_count < 256,
                pass(program) == result.deep_view() + pass_from(
                    program.skip(i as int),
                    accumulated(last_statement.deep_view(), stmt_count),
                ),
            decreases statements.len() - i,
        {
            let statement = &statements[i];
            let ghost head = statement.deep_view();
            let ghost rest = program.skip(i as int + 1);
            let ghost pending = accumulated(last_statement.deep_view(), stmt_count);
            let ghost before = result.deep_view();
            proof {
                assert(program.skip(i as int)[0] == head);
                assert(program.skip(i as int).drop_first() =~= rest);
            }
            match statement {
                Statement::PutChar => {
                    Self::flush(&mut result, last_statement, &mut stmt_count);
                    Self::emit(&mut result, Statement::PutChar);
                    last_statement = statement;
                    assert(before + (emitted(pending) + seq![head] + pass_from(rest, None))
                        =~= (before + emitted(pending)).push(head) + pass_from(rest, None));
                },
                Statement::ReadChar => {
                    Self::flush(&mut result, last_statement, &mut stmt_count);
                    Self::emit(&mut result, Statement::ReadChar);
                    last_statement = statement;
                    assert(before + (emitted(pending) + seq![head] + pass_from(rest, None))
                        =~= (before + emitted(pending)).push(head) + pass_from(rest, None));
                },
                Statement::Loop(code) => {
                    proof {
                        lemma_loop_view(**code);
                    }
                    let ghost kept = kept_loop(pass_from(code.deep_view(), None));
                    Self::flush(&mut result, last_statement, &mut stmt_count);
                    if let Some(optimized) = Self::optimize_rec(code) {
                        if optimized.len() > 0 {
                            Self::emit(&mut result, Statement::new_loop(optimized));
                            assert((before + emitted(pending)).push(kept[0]) =~= before
                                + emitted(pending) + kept);
                        }
                    }
                    assert(result.deep_view() =~= before + emitted(pending) + kept);
                    last_statement = statement;
                    assert(before + (emitted(pending) + kept + pass_from(rest, None)) =~= (before
                        + emitted(pending) + kept) + pass_from(rest, None));
                },
                _ => {
                    match Self::fuse_into(last_statement, stmt_count, statement) {
                        Some((turned, sum)) => {
                            stmt_count = sum;
                            if turned {
                                last_statement = statement;
                            }
                        },
                        None => {
                            Self::flush(&mut result, last_statement, &mut stmt_count);
                            stmt_count = Self::amount(statement);
                            last_statement = statement;
                            assert(before + (emitted(pending) + pass_from(rest, Some(head)))
                                =~= (before + emitted(pending)) + pass_from(rest, Some(head)));
                        },
                    }
                },
            }
            i = i + 1;
        }
        proof {
            assert(program.skip(i as int) =~= Seq::<Instruction>::empty());
        }
        Self::flush(&mut result, last_statement, &mut stmt_count);
        Some(result)
    }

    /// Replaces the program by one pass over it.
    pub fn optimize_once(&mut self)
        ensures
            final(self)@ == pass(old(self)@),
            size(final(self)@) <= size(old(self)@),
    {
        proof {
            lemma_pass_shrinks(self@);
        }
        let opt_result = Self::optimize_rec(&self.statements);
        self.statements = opt_result.unwrap();
    }

    /// Runs passes over the program: until one changes nothing where
    /// `max_iterations` is zero, and at most `max_iterations` of them
    /// otherwise, stopping early once one changes nothing.
    pub fn optimize(&mut self, max_iterations: u32)
        ensures
            final(self)@ == optimized(old(self)@, max_iterations as nat),
            size(final(self)@) <= size(old(self)@),
    {
        let ghost start = self@;
        proof {
            lemma_optimized_shrinks(start, max_iterations as nat);
        }
        if max_iterations == 0 {
            loop
                invariant
                    fixpoint(self@) == fixpoint(start),
                ensures
                    self@ == fixpoint(start),
                decreases size(self@),
            {
                let previous = clone_statements(&self.statements);
                proof {
                    lemma_pass_shrinks(self@);
                }
                self.optimize_once();
                if same_statements(&self.statements, &previous) {
                    break ;
                }
            }
        } else {
            let mut iteration: u32 = 0;
            while iteration < max_iterations
                invariant
                    iteration <= max_iterations,
                    passes(self@, (max_iterations - iteration) as nat) == passes(
                        start,
                        max_iterations as nat,
                    ),
                ensures
                    self@ == passes(start, max_iterations as nat),
                decreases max_iterations - iteration,
            {
                let previous = clone_statements(&self.statements);
                self.optimize_once();
                if same_statements(&self.statements, &previous) {
                    proof {
                        lemma_passes_keep_fixed(self@, (max_iterations - iteration) as nat);
                    }
                    break ;
                }
                iteration = iteration + 1;
            }
        }
    }

    /// Hands the program back.
    pub fn yield_back(self) -> (statements: Vec<Statement>)
        ensures
            statements.deep_view() == self@,
    {
        self.statements
    }
}

} // verus!
