//! The parser of nested statements: what it makes of a source, stated
//! as a function of the source, and the code that computes it.

use vstd::prelude::*;
use crate::lexer::Lexer;
use crate::nesting::{brackets_match, closes_unopened, leaves_open, lemma_nesting_split, nesting};
use crate::statement::{Instruction, Statement, kept_loop};
use crate::token::{Token, token_of_byte};

verus! {

/// Why a program could not be parsed.
#[derive(Copy, Clone, PartialEq, Eq, Debug, Structural)]
pub enum ParseError {
    /// A `]` closes a loop that was never opened.
    UnmatchedLoopEnd,
    /// The program ends inside a loop that was opened with `[`.
    UnmatchedLoopStart,
}

impl ParseError {
    /// The text that tells a user of the error.
    pub open spec fn message(self) -> Seq<char> {
        match self {
            ParseError::UnmatchedLoopEnd => "Error: ']' found with no matching '['."@,
            ParseError::UnmatchedLoopStart => "Error: '[' found with no matching ']'."@,
        }
    }

    /// The text that tells a user of the error.
    pub fn to_string(&self) -> (text: String)
        ensures
            text@ == self.message(),
    {
        match self {
            ParseError::UnmatchedLoopEnd => "Error: ']' found with no matching '['.".to_owned(),
            ParseError::UnmatchedLoopStart => "Error: '[' found with no matching ']'.".to_owned(),
        }
    }
}

/// The instruction that a token other than a bracket stands for.
pub open spec fn unit_instruction(token: Token) -> Instruction {
    match token {
        Token::Increment => Instruction::Add(1),
        Token::Decrement => Instruction::Add(255),
        Token::ShiftLeft => Instruction::MoveLeft(1),
        Token::ShiftRight => Instruction::MoveRight(1),
        Token::ReadChar => Instruction::ReadChar,
        _ => Instruction::PutChar,
    }
}

/// How the statements that start at some place of a source end.
pub enum Block {
    /// They end at a `]`, which stands at `at`.
    Closed { statements: Seq<Instruction>, at: int },
    /// They end where the source ends.
    Exhausted { statements: Seq<Instruction> },
    /// The source ends inside a loop that was opened among them.
    Unterminated,
}

impl Block {
    /// The same block with `front` before its statements.
    pub open spec fn after(self, front: Seq<Instruction>) -> Block {
        match self {
            Block::Closed { statements, at } => Block::Closed { statements: front + statements, at },
            Block::Exhausted { statements } => Block::Exhausted { statements: front + statements },
            Block::Unterminated => Block::Unterminated,
        }
    }

    /// The place in the source behind the block: behind its `]`, or the end
    /// of the source.
    pub open spec fn resume(self, source: Seq<u8>) -> int {
        match self {
            Block::Closed { statements, at } => at + 1,
            _ => source.len() as int,
        }
    }
}

/// The statements of `source` from `start` up to the first `]` that closes
/// no loop opened among them, or up to the end of the source. Bytes that
/// stand for no token are passed over. A loop with an empty body leaves no
/// statement.
///
/// A loop's `]` always stands behind its `[` (`lemma_closed_ahead`); the
/// test for that is there for the definition to be seen to terminate.
pub open spec fn parse_block(source: Seq<u8>, start: int) -> Block
    decreases source.len() - start,
{
    if start < 0 || start >= source.len() {
        Block::Exhausted { statements: Seq::empty() }
    } else {
        match token_of_byte(source[start]) {
            None => parse_block(source, start + 1),
            Some(Token::EndLoop) => Block::Closed { statements: Seq::empty(), at: start },
            Some(Token::StartLoop) => match parse_block(source, start + 1) {
                Block::Closed { statements, at } => if start < at < source.len() {
                    parse_block(source, at + 1).after(kept_loop(statements))
                } else {
                    Block::Unterminated
                },
                _ => Block::Unterminated,
            },
            Some(token) => parse_block(source, start + 1).after(seq![unit_instruction(token)]),
        }
    }
}

/// What parsing makes of the part of `source` that starts at `start`: its
/// statements, or the first bracket that has no partner.
pub open spec fn parsed(source: Seq<u8>, start: int) -> Result<Seq<Instruction>, ParseError> {
    match parse_block(source, start) {
        Block::Exhausted { statements } => Ok(statements),
        Block::Closed { statements, at } => Err(ParseError::UnmatchedLoopEnd),
        Block::Unterminated => Err(ParseError::UnmatchedLoopStart),
    }
}

/// What parsing makes of the statements of a loop, or of a whole program,
/// that start at `start`. A loop ends at its `]` and gives nothing where its
/// body is empty; a whole program ends with the source.
pub open spec fn parsed_rec(source: Seq<u8>, start: int, is_loop: bool) -> Result<
    Option<Seq<Instruction>>,
    ParseError,
> {
    match parse_block(source, start) {
        Block::Closed { statements, at } => if !is_loop {
            Err(ParseError::UnmatchedLoopEnd)
        } else if statements.len() == 0 {
            Ok(None)
        } else {
            Ok(Some(statements))
        },
        Block::Exhausted { statements } => if is_loop {
            Err(ParseError::UnmatchedLoopStart)
        } else {
            Ok(Some(statements))
        },
        Block::Unterminated => Err(ParseError::UnmatchedLoopStart),
    }
}

/// The value of what `parse_rec` returns.
pub open spec fn rec_view(result: Result<Option<Vec<Statement>>, ParseError>) -> Result<
    Option<Seq<Instruction>>,
    ParseError,
> {
    match result {
        Ok(Some(statements)) => Ok(Some(statements.deep_view())),
        Ok(None) => Ok(None),
        Err(error) => Err(error),
    }
}

/// The value of what `parse` returns.
pub open spec fn parse_view(result: Result<Vec<Statement>, ParseError>) -> Result<
    Seq<Instruction>,
    ParseError,
> {
    match result {
        Ok(statements) => Ok(statements.deep_view()),
        Err(error) => Err(error),
    }
}

/// A block that is closed is closed at or behind the place where it starts,
/// and inside the source, by a `]`.
pub proof fn lemma_closed_ahead(source: Seq<u8>, start: int)
    requires
        0 <= start,
    ensures
        parse_block(source, start) matches Block::Closed { statements, at } ==> start <= at
            < source.len() && token_of_byte(source[at]) == Some(Token::EndLoop),
    decreases source.len() - start,
{
    if start < source.len() {
        match token_of_byte(source[start]) {
            None => {
                lemma_closed_ahead(source, start + 1);
            },
            Some(Token::EndLoop) => {},
            Some(Token::StartLoop) => {
                lemma_closed_ahead(source, start + 1);
                match parse_block(source, start + 1) {
                    Block::Closed { statements, at } => {
                        lemma_closed_ahead(source, at + 1);
                    },
                    _ => {},
                }
            },
            Some(token) => {
                lemma_closed_ahead(source, start + 1);
            },
        }
    }
}

/// Builds the statements of a program from its tokens.
pub struct Parser {
    lexer: Lexer,
}

impl Parser {
    /// The whole source of the program.
    pub closed spec fn source(&self) -> Seq<u8> {
        self.lexer.source()
    }

    /// How many source bytes have been consumed.
    pub closed spec fn position(&self) -> nat {
        self.lexer.position()
    }

    /// The parser's lexer is well-formed.
    pub closed spec fn wf(&self) -> bool {
        self.lexer.wf()
    }

    /// A parser that takes its tokens from `lexer`.
    pub fn from_lexer(lexer: Lexer) -> (parser: Self)
        requires
            lexer.wf(),
        ensures
            parser.wf(),
            parser.source() == lexer.source(),
            parser.position() == lexer.position(),
    {
        Self { lexer }
    }

    /// A parser at the start of `reader`.
    pub fn from_reader(reader: &[u8]) -> (parser: Self)
        ensures
            parser.wf(),
            parser.source() == reader@,
            parser.position() == 0,
    {
        Self::from_lexer(Lexer::from_reader(reader))
    }

    /// Parses statements up to the `]` that closes the loop they are in
    /// (`is_loop`), or up to the end of the source (otherwise), and consumes
    /// them. A `]` outside a loop and a loop that the source leaves open are
    /// errors. Gives `None` for the empty body of a loop.
    pub fn parse_rec(lexer: &mut Lexer, is_loop: bool) -> (result: Result<
        Option<Vec<Statement>>,
        ParseError,
    >)
        requires
            old(lexer).wf(),
        ensures
            final(lexer).wf(),
            final(lexer).source() == old(lexer).source(),
            final(lexer).position() == parse_block(
                old(lexer).source(),
                old(lexer).position() as int,
            ).resume(old(lexer).source()),
            rec_view(result) == parsed_rec(
                old(lexer).source(),
                old(lexer).position() as int,
                is_loop,
            ),
        decreases old(lexer).source().len() - old(lexer).position(),
    {
        let ghost source = lexer.source();
        let ghost start = lexer.position() as int;
        let mut result: Vec<Statement> = Vec::new();
        proof {
            lexer.lemma_wf();
            assert(parse_block(source, start).after(result.deep_view()) =~= parse_block(
                source,
                start,
            )) by {
                lemma_after_nothing(parse_block(source, start));
            }
        }
        while !lexer.eof()
            invariant
                lexer.wf(),
                lexer.source() == source,
                source == old(lexer).source(),
                start == old(lexer).position(),
                start <= lexer.position() <= source.len(),
                parse_block(source, start) == parse_block(source, lexer.position() as int).after(
                    result.deep_view(),
                ),
            decreases source.len() - lexer.position(),
        {
            let ghost here = lexer.position() as int;
            let ghost before = result.deep_view();
            let opt_token = lexer.next_token();
            match opt_token {
                Some(token) => match token {
                    Token::StartLoop => {
                        proof {
                            lemma_closed_ahead(source, here + 1);
                        }
                        let opt_loop = match Self::parse_rec(lexer, true) {
                            Ok(opt_loop) => opt_loop,
                            Err(error) => {
                                return Err(error);
                            },
                        };
                        let ghost body = parse_block(source, here + 1)->Closed_statements;
                        if let Some(stmt_loop) = opt_loop {
                            let looped = Statement::new_loop(stmt_loop);
                            result.push(looped);
                            assert(result.deep_view() =~= before + kept_loop(body));
                        }
                        proof {
                            lemma_after_twice(
                                parse_block(source, lexer.position() as int),
                                before,
                                kept_loop(body),
                            );
                        }
                    },
                    Token::EndLoop => {
                        proof {
                            lemma_after_nothing(Block::Closed { statements: before, at: here });
                            assert(before + Seq::<Instruction>::empty() =~= before);
                        }
                        if is_loop {
                            if result.len() == 0 {
                                return Ok(None);
                            } else {
                                return Ok(Some(result));
                            }
                        } else {
                            return Err(ParseError::UnmatchedLoopEnd);
                        }
                    },
                    _ => {
                        let statement = match token {
                            Token::Increment => Statement::Add(1),
                            Token::Decrement => Statement::Add(u8::MAX),
                            Token::ShiftLeft => Statement::MoveLeft(1),
                            Token::ShiftRight => Statement::MoveRight(1),
                            Token::ReadChar => Statement::ReadChar,
                            _ => Statement::PutChar,
                        };
                        result.push(statement);
                        proof {
                            assert(result.deep_view() =~= before + seq![unit_instruction(token)]);
                            lemma_after_twice(
                                parse_block(source, here + 1),
                                before,
                                seq![unit_instruction(token)],
                            );
                        }
                    },
                },
                None => {},
            }
        }
        assert(result.deep_view() + Seq::<Instruction>::empty() =~= result.deep_view());
        if is_loop {
            Err(ParseError::UnmatchedLoopStart)
        } else {
            Ok(Some(result))
        }
    }

    /// Parses the rest of the source into the statements of a program.
    /// Fails at the first `]` that closes no loop, or, if there is none, at
    /// the end of a source that leaves a loop open.
    pub fn parse(&mut self) -> (result: Result<Vec<Statement>, ParseError>)
        requires
            old(self).wf(),
        ensures
            final(self).wf(),
            final(self).source() == old(self).source(),
            final(self).position() == parse_block(
                old(self).source(),
                old(self).position() as int,
            ).resume(old(self).source()),
            parse_view(result) == parsed(old(self).source(), old(self).position() as int),
    {
        match Self::parse_rec(&mut self.lexer, false) {
            Ok(Some(statements)) => Ok(statements),
            Ok(None) => Ok(Vec::new()),
            Err(error) => Err(error),
        }
    }
}

/// Nothing before a block leaves the block as it is.
pub proof fn lemma_after_nothing(block: Block)
    ensures
        block.after(Seq::empty()) == block,
{
    match block {
        Block::Closed { statements, at } => {
            assert(Seq::<Instruction>::empty() + statements =~= statements);
        },
        Block::Exhausted { statements } => {
            assert(Seq::<Instruction>::empty() + statements =~= statements);
        },
        Block::Unterminated => {},
    }
}

/// Putting `second` and then `first` before a block puts `first + second`
/// before it.
pub proof fn lemma_after_twice(block: Block, first: Seq<Instruction>, second: Seq<Instruction>)
    ensures
        block.after(second).after(first) == block.after(first + second),
{
    match block {
        Block::Closed { statements, at } => {
            assert(first + (second + statements) =~= (first + second) + statements);
        },
        Block::Exhausted { statements } => {
            assert(first + (second + statements) =~= (first + second) + statements);
        },
        Block::Unterminated => {},
    }
}


/// How a block ends is a matter of how its brackets nest. A block is closed
/// by the first `]` behind its start that closes more loops than were opened
/// since; where there is none, it is unterminated if a loop is left open at
/// the end of the source, and exhausted otherwise.
pub proof fn lemma_block_nesting(source: Seq<u8>, start: int)
    requires
        0 <= start <= source.len(),
    ensures
        forall|to: int|
            start <= to <= parse_block(source, start).resume(source) - 1 ==> nesting(
                source,
                start,
                to,
            ) >= 0,
        match parse_block(source, start) {
            Block::Closed { statements, at } => start <= at < source.len() && nesting(
                source,
                start,
                at + 1,
            ) == -1,
            Block::Exhausted { statements } => nesting(source, start, source.len() as int) == 0
                && nesting(source, start, source.len() - 1) >= 0,
            Block::Unterminated => nesting(source, start, source.len() as int) > 0 && nesting(
                source,
                start,
                source.len() - 1,
            ) >= 0,
        },
    decreases source.len() - start,
{
    if start < source.len() {
        let inner = parse_block(source, start + 1);
        lemma_block_nesting(source, start + 1);
        lemma_closed_ahead(source, start + 1);
        assert(nesting(source, start, start + 1) == nesting(source, start, start)
            + crate::nesting::bracket_value(source[start]));
        assert forall|to: int| start < to <= source.len() implies #[trigger] nesting(
            source,
            start,
            to,
        ) == nesting(source, start, start + 1) + nesting(source, start + 1, to) by {
            lemma_nesting_split(source, start, start + 1, to);
        }
        match token_of_byte(source[start]) {
            Some(Token::StartLoop) => {
                match inner {
                    Block::Closed { statements, at } => {
                        lemma_block_nesting(source, at + 1);
                        lemma_closed_ahead(source, at + 1);
                        assert forall|to: int| at < to <= source.len() implies #[trigger] nesting(
                            source,
                            start,
                            to,
                        ) == nesting(source, at + 1, to) by {
                            lemma_nesting_split(source, start, at + 1, to);
                        }
                    },
                    _ => {},
                }
            },
            _ => {},
        }
    }
}

/// Parsing fails at a `]` exactly where some `]` closes a loop that was not
/// opened; it fails for an open loop exactly where there is no such `]` and a
/// loop is left open at the end; and it succeeds exactly where the brackets
/// match.
pub proof fn lemma_parsed_by_nesting(source: Seq<u8>, start: int)
    requires
        0 <= start <= source.len(),
    ensures
        parsed(source, start) == Err::<Seq<Instruction>, ParseError>(ParseError::UnmatchedLoopEnd)
            <==> closes_unopened(source, start),
        parsed(source, start) == Err::<Seq<Instruction>, ParseError>(
            ParseError::UnmatchedLoopStart,
        ) <==> leaves_open(source, start),
        parsed(source, start) is Ok <==> brackets_match(source, start),
{
    lemma_block_nesting(source, start);
    match parse_block(source, start) {
        Block::Closed { statements, at } => {
            assert(nesting(source, start, at + 1) < 0);
        },
        _ => {
            assert(nesting(source, start, source.len() as int) >= 0);
        },
    }
}

} // verus!
