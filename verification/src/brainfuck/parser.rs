//! Flat statements and their parser: a scan of the source that resolves
//! each loop into a jump back.

use vstd::prelude::*;
use vstd::arithmetic::div_mod::{
    lemma_fundamental_div_mod_converse_mod, lemma_small_mod, lemma_sub_mod_noop,
    lemma_sub_mod_noop_right,
};
use crate::lexer::Lexer;
use crate::nesting::{brackets_match, closes_unopened, leaves_open, nesting};
use crate::parser::ParseError;
use crate::statement::Instruction;
use crate::token::{Token, token_of_byte};

verus! {

/// One statement of a flat program. A loop is a jump back to its first
/// statement, taken while the current cell is not zero.
#[derive(Copy, Clone, PartialEq, Eq, Debug, Structural)]
pub enum Statement {
    /// Move the head by so many cells, to the right where positive.
    Move(isize),
    /// Change the current cell by so much.
    ChangeValue(i8),
    /// Go on at the statement with this index if the current cell is not
    /// zero.
    JumpIf(usize),
    PutChar,
    ReadChar,
}

/// The signed byte that `value` is modulo 256.
pub open spec fn signed_byte(value: int) -> i8 {
    let low = value % 256;
    if low <= i8::MAX {
        low as i8
    } else {
        (low - 256) as i8
    }
}

/// The signed machine word that `value` is modulo the number of machine
/// words.
pub open spec fn signed_word(value: int) -> isize {
    let words = usize::MAX + 1;
    let low = value % words;
    if low <= isize::MAX {
        low as isize
    } else {
        (low - words) as isize
    }
}

/// The statement that stands for `count` tokens of the countable kind
/// `token` in a row: a change by `count` up or down, as a signed byte, or a
/// move by `count` to the right or to the left, as a signed machine word. A
/// count that the statement cannot hold wraps around.
pub open spec fn counted_statement(token: Token, count: int) -> Statement {
    match token {
        Token::Increment => Statement::ChangeValue(signed_byte(count)),
        Token::Decrement => Statement::ChangeValue(signed_byte(-count)),
        Token::ShiftLeft => Statement::Move(signed_word(-count)),
        _ => Statement::Move(signed_word(count)),
    }
}

/// The statement that a token other than a bracket stands for.
pub open spec fn unit_statement(token: Token) -> Statement {
    match token {
        Token::PutChar => Statement::PutChar,
        Token::ReadChar => Statement::ReadChar,
        _ => counted_statement(token, 1),
    }
}

/// Where a scan of a source stands.
pub enum Scan {
    /// So far every `]` had its `[`: the statements emitted, and for each
    /// loop that is still open the index of its first statement, the
    /// innermost last.
    Going { output: Seq<Statement>, open: Seq<int> },
    /// The byte at `at` is a `]` with no loop open.
    Failed { at: int },
}

/// The scan after one more byte, which stands at `at`. A `[` opens a loop
/// at the next statement to come. A `]` closes the innermost loop with a
/// jump to its first statement, or with nothing where the loop has no
/// statement. Any other token appends its statement. Other bytes are passed
/// over.
pub open spec fn scan_step(scan: Scan, byte: u8, at: int) -> Scan {
    match scan {
        Scan::Failed { at } => scan,
        Scan::Going { output, open } => match token_of_byte(byte) {
            None => scan,
            Some(Token::StartLoop) => Scan::Going { output, open: open.push(output.len() as int) },
            Some(Token::EndLoop) => if open.len() == 0 {
                Scan::Failed { at }
            } else if open.last() == output.len() {
                Scan::Going { output, open: open.drop_last() }
            } else {
                Scan::Going {
                    output: output.push(Statement::JumpIf(open.last() as usize)),
                    open: open.drop_last(),
                }
            },
            Some(token) => Scan::Going { output: output.push(unit_statement(token)), open },
        },
    }
}

/// The scan of the first `count` bytes of `source`.
pub open spec fn scanned(source: Seq<u8>, count: nat) -> Scan
    decreases count,
{
    if count == 0 {
        Scan::Going { output: Seq::empty(), open: Seq::empty() }
    } else {
        scan_step(scanned(source, (count - 1) as nat), source[count - 1], count - 1)
    }
}

/// What parsing makes of `source`: its statements, or the first bracket
/// that has no partner.
pub open spec fn parsed(source: Seq<u8>) -> Result<Seq<Statement>, ParseError> {
    match scanned(source, source.len()) {
        Scan::Failed { at } => Err(ParseError::UnmatchedLoopEnd),
        Scan::Going { output, open } => if open.len() == 0 {
            Ok(output)
        } else {
            Err(ParseError::UnmatchedLoopStart)
        },
    }
}

/// How many bytes of `source` parsing consumes: all of them, unless it meets
/// a `]` with no loop open, which is the last that it consumes.
pub open spec fn consumed(source: Seq<u8>) -> int {
    match scanned(source, source.len()) {
        Scan::Failed { at } => at + 1,
        _ => source.len() as int,
    }
}

/// Every jump of the program goes back to a statement before it.
pub open spec fn jumps_resolved(program: Seq<Statement>) -> bool {
    forall|i: int|
        0 <= i < program.len() ==> (#[trigger] program[i] matches Statement::JumpIf(target)
            ==> target < i)
}

/// A scan in progress is consistent: it has emitted at most one statement
/// per byte, its jumps go back, and its open loops start at statements that
/// are there or next to come, the outer ones no later than the inner ones.
pub open spec fn scan_consistent(scan: Scan, count: nat) -> bool {
    match scan {
        Scan::Failed { at } => 0 <= at < count,
        Scan::Going { output, open } => {
            &&& output.len() <= count
            &&& jumps_resolved(output)
            &&& forall|k: int| 0 <= k < open.len() ==> 0 <= #[trigger] open[k] <= output.len()
        },
    }
}

/// Every scan is consistent.
pub proof fn lemma_scanned_consistent(source: Seq<u8>, count: nat)
    requires
        count <= source.len(),
    ensures
        scan_consistent(scanned(source, count), count),
    decreases count,
{
    if count > 0 {
        lemma_scanned_consistent(source, (count - 1) as nat);
    }
}

/// A scan that has failed stays as it is.
pub proof fn lemma_failed_stays(source: Seq<u8>, count: nat, more: nat)
    requires
        scanned(source, count) is Failed,
        count <= more,
    ensures
        scanned(source, more) == scanned(source, count),
    decreases more,
{
    if count < more {
        lemma_failed_stays(source, count, (more - 1) as nat);
    }
}

/// Builds the statements of a flat program from its tokens.
pub struct Parser {
    lexer: Lexer,
}

impl Parser {
    /// The whole source of the program.
    pub closed spec fn source(&self) -> Seq<u8> {
        self.lexer.source()
    }

    /// How many source bytes have been consumed.
    pub closed spec fn position(&self) -> nat {
        self.lexer.position()
    }

    /// The bytes that are still to be read.
    pub open spec fn remaining(&self) -> Seq<u8> {
        self.source().skip(self.position() as int)
    }

    /// The parser's lexer is well-formed.
    pub closed spec fn wf(&self) -> bool {
        self.lexer.wf()
    }

    /// A parser that takes its tokens from `lexer`.
    pub fn from_lexer(lexer: Lexer) -> (parser: Self)
        requires
            lexer.wf(),
        ensures
            parser.wf(),
            parser.source() == lexer.source(),
            parser.position() == lexer.position(),
    {
        Self { lexer }
    }

    /// A parser at the start of `reader`.
    pub fn from_reader(reader: &[u8]) -> (parser: Self)
        ensures
            parser.wf(),
            parser.source() == reader@,
            parser.position() == 0,
    {
        Self { lexer: Lexer::from_reader(reader) }
    }

    /// The signed byte that `value` is modulo 256.
    fn wrap_byte(value: usize) -> (wrapped: i8)
        ensures
            wrapped == signed_byte(value as int),
    {
        let low: usize = value % 256;
        if low <= 127 {
            low as i8
        } else {
            (low as i16 - 256) as i8
        }
    }

    /// The signed machine word that `value` is modulo the number of machine
    /// words.
    fn wrap_word(value: usize) -> (wrapped: isize)
        ensures
            wrapped == signed_word(value as int),
    {
        proof {
            lemma_small_mod(value as nat, (usize::MAX + 1) as nat);
        }
        if value <= isize::MAX as usize {
            value as isize
        } else {
            (value - isize::MAX as usize - 1) as isize + isize::MIN
        }
    }

    /// The statement that stands for `count` tokens of the countable kind
    /// `token` in a row. A count that the statement cannot hold wraps
    /// around.
    pub fn generate_optimized_stmt(token: Token, count: usize) -> (statement: Statement)
        requires
            token.countable(),
        ensures
            statement == counted_statement(token, count as int),
    {
        match token {
            Token::Increment => Statement::ChangeValue(Self::wrap_byte(count)),
            Token::Decrement => {
                let low: usize = count % 256;
                proof {
                    lemma_sub_mod_noop_right(256, count as int, 256);
                    lemma_sub_mod_noop_right(0, count as int, 256);
                    lemma_sub_mod_noop(256, low as int, 256);
                    lemma_sub_mod_noop(0, low as int, 256);
                }
                Statement::ChangeValue(Self::wrap_byte(256 - low))
            },
            Token::ShiftLeft => {
                proof {
                    let words = usize::MAX + 1;
                    if count > 0 {
                        lemma_fundamental_div_mod_converse_mod(
                            -(count as int),
                            words,
                            -1,
                            words - count,
                        );
                        lemma_small_mod((words - count) as nat, words as nat);
                    }
                }
                if count == 0 {
                    Statement::Move(0)
                } else {
                    Statement::Move(Self::wrap_word(usize::MAX - count + 1))
                }
            },
            _ => Statement::Move(Self::wrap_word(count)),
        }
    }

    /// Parses the rest of the source into the statements of a flat program,
    /// each token but a bracket giving one statement. Fails at the first `]`
    /// that closes no loop, or, if there is none, at the end of a source that
    /// leaves a loop open.
    pub fn parse(&mut self) -> (result: Result<Vec<Statement>, ParseError>)
        requires
            old(self).wf(),
        ensures
            final(self).wf(),
            final(self).source() == old(self).source(),
            final(self).position() == old(self).position() + consumed(old(self).remaining()),
            match result {
                Ok(statements) => parsed(old(self).remaining()) == Ok::<
                    Seq<Statement>,
                    ParseError,
                >(statements@) && jumps_resolved(statements@),
                Err(error) => parsed(old(self).remaining()) == Err::<Seq<Statement>, ParseError>(
                    error,
                ),
            },
    {
        let mut result: Vec<Statement> = Vec::new();
        let mut loop_stack: Vec<usize> = Vec::new();
        let ghost source = self.lexer.source();
        let ghost start = self.lexer.position();
        let ghost rest = self.lexer.remaining();
        proof {
            self.lexer.lemma_wf();
            assert(loop_stack@.map_values(|target: usize| target as int) =~= Seq::<int>::empty());
            assert(result@ =~= Seq::<Statement>::empty());
        }
        while !self.lexer.eof()
            invariant
                self.lexer.wf(),
                self.lexer.source() == source,
                source == old(self).source(),
                start == old(self).position(),
                rest == source.skip(start as int),
                start <= self.lexer.position() <= source.len() <= usize::MAX,
                scanned(rest, (self.lexer.position() - start) as nat) == (Scan::Going {
                    output: result@,
                    open: loop_stack@.map_values(|target: usize| target as int),
                }),
            decreases source.len() - self.lexer.position(),
        {
            let ghost done = (self.lexer.position() - start) as nat;
            let ghost open = loop_stack@.map_values(|target: usize| target as int);
            proof {
                lemma_scanned_consistent(rest, done);
                lemma_scanned_consistent(rest, done + 1);
                assert(rest[done as int] == source[self.lexer.position() as int]);
            }
            match self.lexer.next_token() {
                Some(token) => match token {
                    Token::StartLoop => {
                        loop_stack.push(result.len());
                        assert(loop_stack@.map_values(|target: usize| target as int)
                            =~= open.push(result@.len() as int));
                    },
                    Token::EndLoop => {
                        match loop_stack.pop() {
                            Some(address) => {
                                assert(address as int == open.last());
                                assert(loop_stack@.map_values(|target: usize| target as int)
                                    =~= open.drop_last());
                                if address != result.len() {
                                    result.push(Statement::JumpIf(address));
                                }
                            },
                            None => {
                                proof {
                                    lemma_failed_stays(rest, done + 1, rest.len());
                                }
                                return Err(ParseError::UnmatchedLoopEnd);
                            },
                        }
                    },
                    Token::PutChar => {
                        result.push(Statement::PutChar);
                    },
                    Token::ReadChar => {
                        result.push(Statement::ReadChar);
                    },
                    _ => {
                        result.push(Self::generate_optimized_stmt(token, 1));
                    },
                },
                None => {},
            }
        }
        proof {
            lemma_scanned_consistent(rest, rest.len());
        }
        if loop_stack.len() != 0 {
            Err(ParseError::UnmatchedLoopStart)
        } else {
            Ok(result)
        }
    }
}


/// A scan follows the nesting of the brackets: as long as it goes on, no
/// byte so far has closed a loop that was not opened, and as many loops are
/// open as the bytes so far have opened and not closed; once it has failed,
/// the byte at which it failed has closed a loop that was not opened.
pub proof fn lemma_scanned_nesting(source: Seq<u8>, count: nat)
    requires
        count <= source.len(),
    ensures
        match scanned(source, count) {
            Scan::Going { output, open } => {
                &&& open.len() == nesting(source, 0, count as int)
                &&& forall|to: int| 0 <= to <= count ==> nesting(source, 0, to) >= 0
            },
            Scan::Failed { at } => 0 <= at < count && nesting(source, 0, at + 1) < 0,
        },
    decreases count,
{
    if count > 0 {
        lemma_scanned_nesting(source, (count - 1) as nat);
    }
}

/// Parsing fails at a `]` exactly where some `]` closes a loop that was not
/// opened; it fails for an open loop exactly where there is no such `]` and a
/// loop is left open at the end; and it succeeds exactly where the brackets
/// match.
pub proof fn lemma_parsed_by_nesting(source: Seq<u8>)
    ensures
        parsed(source) == Err::<Seq<Statement>, ParseError>(ParseError::UnmatchedLoopEnd)
            <==> closes_unopened(source, 0),
        parsed(source) == Err::<Seq<Statement>, ParseError>(ParseError::UnmatchedLoopStart)
            <==> leaves_open(source, 0),
        parsed(source) is Ok <==> brackets_match(source, 0),
{
    lemma_scanned_nesting(source, source.len());
    match scanned(source, source.len()) {
        Scan::Failed { at } => {
            assert(nesting(source, 0, at + 1) < 0);
        },
        _ => {},
    }
}

/// The parser of flat statements and the parser of nested statements
/// accept the same sources and refuse the others for the same reason.
pub proof fn lemma_parsers_agree(source: Seq<u8>)
    ensures
        parsed(source) is Ok <==> crate::parser::parsed(source, 0) is Ok,
        parsed(source) == Err::<Seq<Statement>, ParseError>(ParseError::UnmatchedLoopEnd)
            <==> crate::parser::parsed(source, 0) == Err::<Seq<Instruction>, ParseError>(
            ParseError::UnmatchedLoopEnd,
        ),
        parsed(source) == Err::<Seq<Statement>, ParseError>(ParseError::UnmatchedLoopStart)
            <==> crate::parser::parsed(source, 0) == Err::<Seq<Instruction>, ParseError>(
            ParseError::UnmatchedLoopStart,
        ),
{
    lemma_parsed_by_nesting(source);
    crate::parser::lemma_parsed_by_nesting(source, 0);
}

} // verus!
