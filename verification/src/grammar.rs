//! The grammar that the parser of nested statements follows, as laws
//! about what it makes of sources that are put together.

use vstd::prelude::*;
use crate::parser::{Block, ParseError, lemma_after_twice, lemma_closed_ahead, parse_block, parsed, unit_instruction};
use crate::statement::{Instruction, kept_loop};
use crate::token::{Token, token_of_byte};

verus! {

/// The same block in a source that has `by` more bytes in front.
pub open spec fn shifted(block: Block, by: int) -> Block {
    match block {
        Block::Closed { statements, at } => Block::Closed { statements, at: at + by },
        other => other,
    }
}

/// What stands in front of a place in a source does not matter to the block
/// that starts at that place.
pub proof fn lemma_block_behind(front: Seq<u8>, source: Seq<u8>, start: int)
    requires
        0 <= start <= source.len(),
    ensures
        parse_block(front + source, front.len() + start) == shifted(
            parse_block(source, start),
            front.len() as int,
        ),
    decreases source.len() - start,
{
    let whole = front + source;
    let by = front.len() as int;
    if start < source.len() {
        assert(whole[by + start] == source[start]);
        lemma_block_behind(front, source, start + 1);
        match token_of_byte(source[start]) {
            Some(Token::StartLoop) => {
                lemma_closed_ahead(source, start + 1);
                match parse_block(source, start + 1) {
                    Block::Closed { statements, at } => {
                        lemma_block_behind(front, source, at + 1);
                    },
                    _ => {},
                }
            },
            _ => {},
        }
    }
}

/// A block that is closed in a source is the same in any longer source; a
/// block that ends with a source goes on, in a longer source, with the block
/// that starts where the source ended.
pub proof fn lemma_block_before(source: Seq<u8>, more: Seq<u8>, start: int)
    requires
        0 <= start <= source.len(),
    ensures
        match parse_block(source, start) {
            Block::Closed { statements, at } => parse_block(source + more, start)
                == parse_block(source, start),
            Block::Exhausted { statements } => parse_block(source + more, start) == parse_block(
                source + more,
                source.len() as int,
            ).after(statements),
            Block::Unterminated => true,
        },
    decreases source.len() - start,
{
    let whole = source + more;
    if start < source.len() {
        assert(whole[start] == source[start]);
        lemma_block_before(source, more, start + 1);
        let end = parse_block(whole, source.len() as int);
        match token_of_byte(source[start]) {
            None => {},
            Some(Token::EndLoop) => {},
            Some(Token::StartLoop) => {
                lemma_closed_ahead(source, start + 1);
                match parse_block(source, start + 1) {
                    Block::Closed { statements, at } => {
                        lemma_block_before(source, more, at + 1);
                        match parse_block(source, at + 1) {
                            Block::Exhausted { statements: rest } => {
                                lemma_after_twice(end, kept_loop(statements), rest);
                            },
                            _ => {},
                        }
                    },
                    _ => {},
                }
            },
            Some(token) => {
                match parse_block(source, start + 1) {
                    Block::Exhausted { statements: rest } => {
                        lemma_after_twice(end, seq![unit_instruction(token)], rest);
                    },
                    _ => {},
                }
            },
        }
    } else {
        crate::parser::lemma_after_nothing(parse_block(whole, source.len() as int));
    }
}

/// The empty source is the empty program.
pub proof fn lemma_parsed_nothing()
    ensures
        parsed(Seq::empty(), 0) == Ok::<Seq<Instruction>, ParseError>(Seq::empty()),
{
}

/// A byte that stands for no token is the empty program.
pub proof fn lemma_parsed_comment(byte: u8)
    requires
        token_of_byte(byte) is None,
    ensures
        parsed(seq![byte], 0) == Ok::<Seq<Instruction>, ParseError>(Seq::empty()),
{
    let source = seq![byte];
    assert(parse_block(source, 1) == Block::Exhausted { statements: Seq::empty() });
}

/// A token other than a bracket is the program of its one instruction.
pub proof fn lemma_parsed_unit(byte: u8)
    requires
        token_of_byte(byte) matches Some(token) && !token.bracket(),
    ensures
        parsed(seq![byte], 0) == Ok::<Seq<Instruction>, ParseError>(
            seq![unit_instruction(token_of_byte(byte)->0)],
        ),
{
    let source = seq![byte];
    let unit = seq![unit_instruction(token_of_byte(byte)->0)];
    assert(parse_block(source, 1) == Block::Exhausted { statements: Seq::empty() });
    assert(unit + Seq::<Instruction>::empty() =~= unit);
}

/// Two sources in a row are their two programs in a row.
pub proof fn lemma_parsed_concat(first: Seq<u8>, second: Seq<u8>)
    requires
        parsed(first, 0) is Ok,
        parsed(second, 0) is Ok,
    ensures
        parsed(first + second, 0) == Ok::<Seq<Instruction>, ParseError>(
            parsed(first, 0)->Ok_0 + parsed(second, 0)->Ok_0,
        ),
{
    lemma_block_before(first, second, 0);
    lemma_block_behind(first, second, 0);
}

/// A source between brackets is the loop over its program, or nothing
/// where its program is empty.
pub proof fn lemma_parsed_loop(open: u8, body: Seq<u8>, close: u8)
    requires
        token_of_byte(open) == Some(Token::StartLoop),
        token_of_byte(close) == Some(Token::EndLoop),
        parsed(body, 0) is Ok,
    ensures
        parsed(seq![open] + body + seq![close], 0) == Ok::<Seq<Instruction>, ParseError>(
            kept_loop(parsed(body, 0)->Ok_0),
        ),
{
    let inside = parsed(body, 0)->Ok_0;
    let tail = body + seq![close];
    let source = seq![open] + tail;
    let last = body.len() as int;
    assert(source =~= seq![open] + body + seq![close]);
    // The body, followed by the closing bracket, is closed by that bracket.
    lemma_block_before(body, seq![close], 0);
    assert(tail[last] == close);
    assert(parse_block(tail, last) == Block::Closed { statements: Seq::empty(), at: last });
    assert(inside + Seq::<Instruction>::empty() =~= inside);
    assert(parse_block(tail, 0) == Block::Closed { statements: inside, at: last });
    // So it is behind the opening bracket.
    lemma_block_behind(seq![open], tail, 0);
    assert(source[0] == open);
    assert(parse_block(source, 1) == Block::Closed { statements: inside, at: last + 1 });
    assert(parse_block(source, last + 2) == Block::Exhausted { statements: Seq::empty() });
    assert(kept_loop(inside) + Seq::<Instruction>::empty() =~= kept_loop(inside));
}


/// Whether an instruction is what a token other than a bracket stands for.
pub open spec fn is_unit(instruction: Instruction) -> bool {
    ||| instruction == Instruction::Add(1)
    ||| instruction == Instruction::Add(255)
    ||| instruction == Instruction::MoveLeft(1)
    ||| instruction == Instruction::MoveRight(1)
    ||| instruction == Instruction::PutChar
    ||| instruction == Instruction::ReadChar
}

/// Whether a program is as the parser gives it: each instruction is a unit
/// or a loop, and each loop has a body that is not empty and is as the parser
/// gives it.
pub open spec fn plain(program: Seq<Instruction>) -> bool
    decreases program,
{
    program.len() > 0 ==> {
        &&& match program[0] {
            Instruction::Loop(body) => body.len() > 0 && plain(body),
            unit => is_unit(unit),
        }
        &&& plain(program.drop_first())
    }
}

/// Two plain programs in a row are plain.
pub proof fn lemma_plain_concat(first: Seq<Instruction>, second: Seq<Instruction>)
    requires
        plain(first),
        plain(second),
    ensures
        plain(first + second),
    decreases first.len(),
{
    if first.len() == 0 {
        assert(first + second =~= second);
    } else {
        assert((first + second)[0] == first[0]);
        assert((first + second).drop_first() =~= first.drop_first() + second);
        lemma_plain_concat(first.drop_first(), second);
    }
}

/// The statements of a block.
pub open spec fn statements_of(block: Block) -> Seq<Instruction> {
    match block {
        Block::Closed { statements, at } => statements,
        Block::Exhausted { statements } => statements,
        Block::Unterminated => Seq::empty(),
    }
}

/// The statements of a block are plain.
pub proof fn lemma_block_plain(source: Seq<u8>, start: int)
    requires
        0 <= start,
    ensures
        plain(statements_of(parse_block(source, start))),
    decreases source.len() - start,
{
    if start < source.len() {
        lemma_block_plain(source, start + 1);
        let inner = parse_block(source, start + 1);
        match token_of_byte(source[start]) {
            None => {},
            Some(Token::EndLoop) => {},
            Some(Token::StartLoop) => {
                lemma_closed_ahead(source, start + 1);
                match inner {
                    Block::Closed { statements, at } => {
                        lemma_block_plain(source, at + 1);
                        let kept = kept_loop(statements);
                        assert(plain(kept)) by {
                            if statements.len() > 0 {
                                assert(kept.drop_first() =~= Seq::<Instruction>::empty());
                                assert(plain(kept.drop_first()));
                            }
                        }
                        lemma_plain_concat(kept, statements_of(parse_block(source, at + 1)));
                    },
                    _ => {},
                }
            },
            Some(token) => {
                let unit = seq![unit_instruction(token)];
                assert(unit.drop_first() =~= Seq::<Instruction>::empty());
                assert(plain(unit.drop_first()));
                assert(plain(unit));
                lemma_plain_concat(unit, statements_of(inner));
            },
        }
    }
}

/// The parser gives unit statements and loops that are not empty, and
/// nothing else.
pub proof fn lemma_parsed_plain(source: Seq<u8>, start: int)
    requires
        0 <= start,
    ensures
        parsed(source, start) matches Ok(program) ==> plain(program),
{
    lemma_block_plain(source, start);
}

/// Where a place of a source comes to stand once the byte at `gap` is taken
/// out.
pub open spec fn closed_up(place: int, gap: int) -> int {
    if place <= gap {
        place
    } else {
        place - 1
    }
}

/// The same block in a source from which the byte at `gap` is taken out.
pub open spec fn without_gap(block: Block, gap: int) -> Block {
    match block {
        Block::Closed { statements, at } => Block::Closed { statements, at: closed_up(at, gap) },
        other => other,
    }
}

/// A byte that stands for no token can be taken out of a source without
/// changing a block.
pub proof fn lemma_block_without_comment(source: Seq<u8>, gap: int, start: int)
    requires
        0 <= gap < source.len(),
        token_of_byte(source[gap]) is None,
        0 <= start <= source.len(),
    ensures
        parse_block(source.remove(gap), closed_up(start, gap)) == without_gap(
            parse_block(source, start),
            gap,
        ),
    decreases source.len() - start,
{
    let less = source.remove(gap);
    let here = closed_up(start, gap);
    if start < source.len() {
        lemma_block_without_comment(source, gap, start + 1);
        lemma_closed_ahead(source, start + 1);
        if start == gap {
            assert(closed_up(start + 1, gap) == here);
        } else {
            assert(less[here] == source[start]);
            assert(closed_up(start + 1, gap) == here + 1);
            match token_of_byte(source[start]) {
                Some(Token::StartLoop) => {
                    match parse_block(source, start + 1) {
                        Block::Closed { statements, at } => {
                            lemma_block_without_comment(source, gap, at + 1);
                            assert(closed_up(at + 1, gap) == closed_up(at, gap) + 1);
                        },
                        _ => {},
                    }
                },
                _ => {},
            }
        }
    }
}

/// Bytes that stand for no token do not matter to the parser: a source
/// without one of them is parsed into the same program, or refused for the
/// same reason.
pub proof fn lemma_parsed_without_comment(source: Seq<u8>, gap: int)
    requires
        0 <= gap < source.len(),
        token_of_byte(source[gap]) is None,
    ensures
        parsed(source.remove(gap), 0) == parsed(source, 0),
{
    lemma_block_without_comment(source, gap, 0);
}

} // verus!
