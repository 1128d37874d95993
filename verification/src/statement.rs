//! Nested statements, in which a loop owns its body, and their
//! mathematical value.

use vstd::prelude::*;

verus! {

/// One statement of a parsed program. A loop owns its body.
#[derive(PartialEq, Debug)]
pub enum Statement {
    MoveLeft(usize),
    MoveRight(usize),
    Add(u8),
    Loop(Box<Vec<Statement>>),
    PutChar,
    ReadChar,
}

/// The mathematical value of a `Statement`: the same tree, with sequences in
/// place of vectors.
pub enum Instruction {
    /// Move the head left by so many cells.
    MoveLeft(usize),
    /// Move the head right by so many cells.
    MoveRight(usize),
    /// Add to the current cell, modulo 256.
    Add(u8),
    /// Run the body for as long as the current cell is not zero.
    Loop(Seq<Instruction>),
    /// Emit the current cell as a character.
    PutChar,
    /// Read a character into the current cell.
    ReadChar,
}

impl Instruction {
    /// A move in either direction.
    pub open spec fn is_move(self) -> bool {
        self is MoveLeft || self is MoveRight
    }

    /// Both are of the same kind, whatever they carry.
    pub open spec fn same_kind(self, other: Instruction) -> bool {
        ||| self is MoveLeft && other is MoveLeft
        ||| self is MoveRight && other is MoveRight
        ||| self is Add && other is Add
        ||| self is Loop && other is Loop
        ||| self is PutChar && other is PutChar
        ||| self is ReadChar && other is ReadChar
    }

    /// The number of instructions in this one, itself and the bodies of its
    /// loops included.
    pub open spec fn weight(self) -> nat
        decreases self,
    {
        match self {
            Instruction::Loop(body) => 1 + size(body),
            _ => 1,
        }
    }
}

/// The number of instructions in a program, the bodies of its loops
/// included.
pub open spec fn size(program: Seq<Instruction>) -> nat
    decreases program,
{
    if program.len() == 0 {
        0
    } else {
        program[0].weight() + size(program.drop_first())
    }
}

/// The loop over `body` as a program of its own: one loop, or nothing at
/// all where the body is empty.
pub open spec fn kept_loop(body: Seq<Instruction>) -> Seq<Instruction> {
    if body.len() == 0 {
        Seq::empty()
    } else {
        seq![Instruction::Loop(body)]
    }
}

/// The value of a statement.
pub open spec fn instruction_of(statement: Statement) -> Instruction
    decreases statement,
{
    match statement {
        Statement::MoveLeft(shift) => Instruction::MoveLeft(shift),
        Statement::MoveRight(shift) => Instruction::MoveRight(shift),
        Statement::Add(value) => Instruction::Add(value),
        Statement::Loop(body) => Instruction::Loop(
            Seq::new(
                body@.len(),
                |i: int|
                    if 0 <= i < body@.len() {
                        instruction_of(body@[i])
                    } else {
                        Instruction::PutChar
                    },
            ),
        ),
        Statement::PutChar => Instruction::PutChar,
        Statement::ReadChar => Instruction::ReadChar,
    }
}

impl DeepView for Statement {
    type V = Instruction;

    open spec fn deep_view(&self) -> Instruction {
        instruction_of(*self)
    }
}

/// The value of a loop is the loop of its body's value.
pub proof fn lemma_loop_view(body: Vec<Statement>)
    ensures
        Statement::Loop(Box::new(body)).deep_view() == Instruction::Loop(body.deep_view()),
{
    assert(Statement::Loop(Box::new(body)).deep_view()->Loop_0 =~= body.deep_view());
}

/// The size of a concatenation is the sum of the sizes.
pub proof fn lemma_size_concat(left: Seq<Instruction>, right: Seq<Instruction>)
    ensures
        size(left + right) == size(left) + size(right),
    decreases left.len(),
{
    if left.len() == 0 {
        assert(left + right =~= right);
    } else {
        assert((left + right).drop_first() =~= left.drop_first() + right);
        lemma_size_concat(left.drop_first(), right);
    }
}

/// The size of a program of one instruction is that instruction's weight.
pub proof fn lemma_size_single(instruction: Instruction)
    ensures
        size(seq![instruction]) == instruction.weight(),
{
    assert(seq![instruction].drop_first() =~= Seq::<Instruction>::empty());
    assert(size(seq![instruction].drop_first()) == 0);
}

impl Statement {
    /// Whether both statements are of the same kind, whatever they carry.
    pub fn is_equal_type(&self, other: &Self) -> (same: bool)
        ensures
            same == self.deep_view().same_kind(other.deep_view()),
    {
        match (self, other) {
            (Statement::MoveLeft(_), Statement::MoveLeft(_)) => true,
            (Statement::MoveRight(_), Statement::MoveRight(_)) => true,
            (Statement::Add(_), Statement::Add(_)) => true,
            (Statement::Loop(_), Statement::Loop(_)) => true,
            (Statement::PutChar, Statement::PutChar) => true,
            (Statement::ReadChar, Statement::ReadChar) => true,
            _ => false,
        }
    }

    /// Whether the statement moves the head.
    pub fn is_move(&self) -> (moves: bool)
        ensures
            moves == self.deep_view().is_move(),
    {
        match self {
            Statement::MoveLeft(_) | Statement::MoveRight(_) => true,
            _ => false,
        }
    }

    /// A loop over `statements`.
    pub fn new_loop(statements: Vec<Statement>) -> (looped: Self)
        ensures
            looped.deep_view() == Instruction::Loop(statements.deep_view()),
    {
        proof {
            lemma_loop_view(statements);
        }
        Statement::Loop(Box::new(statements))
    }
}

/// A copy of `statements`, loops and their bodies included.
pub fn clone_statements(statements: &Vec<Statement>) -> (copy: Vec<Statement>)
    ensures
        copy.deep_view() == statements.deep_view(),
    decreases statements,
{
    let mut copy: Vec<Statement> = Vec::new();
    let mut i: usize = 0;
    while i < statements.len()
        invariant
            i <= statements.len(),
            copy.len() == i,
            forall|j: int| 0 <= j < i ==> copy@[j].deep_view() == statements@[j].deep_view(),
        decreases statements.len() - i,
    {
        let statement = match &statements[i] {
            Statement::MoveLeft(shift) => Statement::MoveLeft(*shift),
            Statement::MoveRight(shift) => Statement::MoveRight(*shift),
            Statement::Add(value) => Statement::Add(*value),
            Statement::Loop(body) => {
                proof {
                    lemma_loop_view(**body);
                }
                Statement::new_loop(clone_statements(body))
            },
            Statement::PutChar => Statement::PutChar,
            Statement::ReadChar => Statement::ReadChar,
        };
        copy.push(statement);
        i += 1;
    }
    assert(copy.deep_view() =~= statements.deep_view());
    copy
}

/// Whether two programs are the same, loops and their bodies included.
pub fn same_statements(left: &Vec<Statement>, right: &Vec<Statement>) -> (same: bool)
    ensures
        same == (left.deep_view() == right.deep_view()),
    decreases left,
{
    if left.len() != right.len() {
        assert(left.deep_view().len() != right.deep_view().len());
        return false;
    }
    let mut i: usize = 0;
    while i < left.len()
        invariant
            i <= left.len(),
            left.len() == right.len(),
            forall|j: int| 0 <= j < i ==> left@[j].deep_view() == right@[j].deep_view(),
        decreases left.len() - i,
    {
        let same = match (&left[i], &right[i]) {
            (Statement::MoveLeft(a), Statement::MoveLeft(b)) => *a == *b,
            (Statement::MoveRight(a), Statement::MoveRight(b)) => *a == *b,
            (Statement::Add(a), Statement::Add(b)) => *a == *b,
            (Statement::Loop(a), Statement::Loop(b)) => {
                proof {
                    lemma_loop_view(**a);
                    lemma_loop_view(**b);
                }
                same_statements(a, b)
            },
            (Statement::PutChar, Statement::PutChar) => true,
            (Statement::ReadChar, Statement::ReadChar) => true,
            _ => false,
        };
        if !same {
            assert(left.deep_view()[i as int] != right.deep_view()[i as int]);
            return false;
        }
        i += 1;
    }
    assert(left.deep_view() =~= right.deep_view());
    true
}

impl Clone for Statement {
    fn clone(&self) -> (copy: Self)
        ensures
            copy.deep_view() == self.deep_view(),
    {
        match self {
            Statement::MoveLeft(shift) => Statement::MoveLeft(*shift),
            Statement::MoveRight(shift) => Statement::MoveRight(*shift),
            Statement::Add(value) => Statement::Add(*value),
            Statement::Loop(body) => {
                proof {
                    lemma_loop_view(**body);
                }
                Statement::new_loop(clone_statements(body))
            },
            Statement::PutChar => Statement::PutChar,
            Statement::ReadChar => Statement::ReadChar,
        }
    }
}

} // verus!
