//! The flat statements of a nested program, and that the two parsers
//! give the same program in these two shapes.

use vstd::prelude::*;
use crate::brainfuck::parser::{
    Scan, Statement, parsed, scan_step, scanned, signed_byte, signed_word, unit_statement,
};
use crate::parser::{Block, ParseError, lemma_closed_ahead, parse_block, unit_instruction};
use crate::statement::{Instruction, kept_loop};
use crate::token::{Token, token_of_byte};

verus! {

/// The flat statements of a nested program that is to stand at index `base`
/// of a flat program. A move or an addition becomes the signed displacement
/// or change with the same effect. A loop becomes its body followed by a jump
/// back to the body's first statement.
pub open spec fn flattened(program: Seq<Instruction>, base: int) -> Seq<Statement>
    decreases program,
{
    if program.len() == 0 {
        Seq::empty()
    } else {
        let front = flattened(program.drop_last(), base);
        match program.last() {
            Instruction::MoveLeft(shift) => front.push(Statement::Move(signed_word(-shift))),
            Instruction::MoveRight(shift) => front.push(Statement::Move(signed_word(shift as int))),
            Instruction::Add(value) => front.push(Statement::ChangeValue(signed_byte(value as int))),
            Instruction::PutChar => front.push(Statement::PutChar),
            Instruction::ReadChar => front.push(Statement::ReadChar),
            Instruction::Loop(body) => (front + flattened(body, base + front.len())).push(
                Statement::JumpIf((base + front.len()) as usize),
            ),
        }
    }
}

/// The scan that goes on from `scan` over the bytes of `source` from `from`
/// up to `to`.
pub open spec fn scanned_on(scan: Scan, source: Seq<u8>, from: int, to: int) -> Scan
    decreases to - from,
{
    if to <= from {
        scan
    } else {
        scan_step(scanned_on(scan, source, from, to - 1), source[to - 1], to - 1)
    }
}

/// Going on over a range is going on over its first part and then over its
/// second.
pub proof fn lemma_scanned_on_split(scan: Scan, source: Seq<u8>, from: int, middle: int, to: int)
    requires
        from <= middle <= to,
    ensures
        scanned_on(scan, source, from, to) == scanned_on(
            scanned_on(scan, source, from, middle),
            source,
            middle,
            to,
        ),
    decreases to - middle,
{
    if middle < to {
        lemma_scanned_on_split(scan, source, from, middle, to - 1);
    }
}

/// The scan of a source goes on from nothing over all of its bytes.
pub proof fn lemma_scanned_from_nothing(source: Seq<u8>, count: nat)
    ensures
        scanned(source, count) == scanned_on(
            Scan::Going { output: Seq::empty(), open: Seq::empty() },
            source,
            0,
            count as int,
        ),
    decreases count,
{
    if count > 0 {
        lemma_scanned_from_nothing(source, (count - 1) as nat);
    }
}

/// The flat statements of two programs in a row are those of the first
/// followed by those of the second, which stands behind them.
pub proof fn lemma_flattened_concat(first: Seq<Instruction>, second: Seq<Instruction>, base: int)
    ensures
        flattened(first + second, base) == flattened(first, base) + flattened(
            second,
            base + flattened(first, base).len(),
        ),
    decreases second.len(),
{
    if second.len() == 0 {
        assert(first + second =~= first);
        assert(flattened(first, base) + Seq::<Statement>::empty() =~= flattened(first, base));
    } else {
        assert((first + second).drop_last() =~= first + second.drop_last());
        assert((first + second).last() == second.last());
        lemma_flattened_concat(first, second.drop_last(), base);
        let ahead = flattened(first, base);
        let front = flattened(second.drop_last(), base + ahead.len());
        match second.last() {
            Instruction::Loop(body) => {
                assert(((ahead + front) + flattened(body, base + (ahead + front).len())).push(
                    Statement::JumpIf((base + (ahead + front).len()) as usize),
                ) =~= ahead + (front + flattened(body, base + ahead.len() + front.len())).push(
                    Statement::JumpIf((base + ahead.len() + front.len()) as usize),
                ));
            },
            Instruction::MoveLeft(shift) => {
                assert((ahead + front).push(Statement::Move(signed_word(-shift))) =~= ahead
                    + front.push(Statement::Move(signed_word(-shift))));
            },
            Instruction::MoveRight(shift) => {
                assert((ahead + front).push(Statement::Move(signed_word(shift as int))) =~= ahead
                    + front.push(Statement::Move(signed_word(shift as int))));
            },
            Instruction::Add(value) => {
                assert((ahead + front).push(Statement::ChangeValue(signed_byte(value as int))) =~= ahead
                    + front.push(Statement::ChangeValue(signed_byte(value as int))));
            },
            Instruction::PutChar => {
                assert((ahead + front).push(Statement::PutChar) =~= ahead + front.push(
                    Statement::PutChar,
                ));
            },
            Instruction::ReadChar => {
                assert((ahead + front).push(Statement::ReadChar) =~= ahead + front.push(
                    Statement::ReadChar,
                ));
            },
        }
    }
}

/// The flat statements of a program of one instruction.
pub proof fn lemma_flattened_single(instruction: Instruction, base: int)
    ensures
        flattened(seq![instruction], base) == match instruction {
            Instruction::MoveLeft(shift) => seq![Statement::Move(signed_word(-shift))],
            Instruction::MoveRight(shift) => seq![Statement::Move(signed_word(shift as int))],
            Instruction::Add(value) => seq![Statement::ChangeValue(signed_byte(value as int))],
            Instruction::PutChar => seq![Statement::PutChar],
            Instruction::ReadChar => seq![Statement::ReadChar],
            Instruction::Loop(body) => flattened(body, base).push(Statement::JumpIf(base as usize)),
        },
{
    let program = seq![instruction];
    assert(program.drop_last() =~= Seq::<Instruction>::empty());
    assert(program.last() == instruction);
    let front = flattened(program.drop_last(), base);
    assert(front =~= Seq::<Statement>::empty());
    match instruction {
        Instruction::Loop(body) => {
            assert(front + flattened(body, base) =~= flattened(body, base));
        },
        Instruction::MoveLeft(shift) => {
            assert(front.push(Statement::Move(signed_word(-shift))) =~= seq![
                Statement::Move(signed_word(-shift)),
            ]);
        },
        Instruction::MoveRight(shift) => {
            assert(front.push(Statement::Move(signed_word(shift as int))) =~= seq![
                Statement::Move(signed_word(shift as int)),
            ]);
        },
        Instruction::Add(value) => {
            assert(front.push(Statement::ChangeValue(signed_byte(value as int))) =~= seq![
                Statement::ChangeValue(signed_byte(value as int)),
            ]);
        },
        Instruction::PutChar => {
            assert(front.push(Statement::PutChar) =~= seq![Statement::PutChar]);
        },
        Instruction::ReadChar => {
            assert(front.push(Statement::ReadChar) =~= seq![Statement::ReadChar]);
        },
    }
}

/// A nested program has at least as many flat statements as statements.
pub proof fn lemma_flattened_length(program: Seq<Instruction>, base: int)
    ensures
        flattened(program, base).len() >= program.len(),
    decreases program,
{
    if program.len() > 0 {
        lemma_flattened_length(program.drop_last(), base);
    }
}

/// The unit instruction of a token becomes the unit statement of the token.
pub proof fn lemma_flattened_unit(token: Token, base: int)
    requires
        !token.bracket(),
    ensures
        flattened(seq![unit_instruction(token)], base) == seq![unit_statement(token)],
{
    lemma_flattened_single(unit_instruction(token), base);
    let words = usize::MAX + 1;
    vstd::arithmetic::div_mod::lemma_small_mod(1, words as nat);
    vstd::arithmetic::div_mod::lemma_fundamental_div_mod_converse_mod(-1, words, -1, words - 1);
}

/// The end of the range of bytes that make up a block: the place of its `]`,
/// or the end of the source.
pub open spec fn block_end(block: Block, source: Seq<u8>) -> int {
    match block {
        Block::Closed { statements, at } => at,
        _ => source.len() as int,
    }
}

/// A scan that goes on over the bytes of a block emits the flat statements
/// of the block's statements and leaves the open loops as they were.
pub proof fn lemma_scanned_block(source: Seq<u8>, start: int, output: Seq<Statement>, open: Seq<int>)
    requires
        0 <= start <= source.len(),
        parse_block(source, start) !is Unterminated,
    ensures
        ({
            let block = parse_block(source, start);
            let statements = match block {
                Block::Closed { statements, at } => statements,
                Block::Exhausted { statements } => statements,
                Block::Unterminated => Seq::empty(),
            };
            scanned_on(Scan::Going { output, open }, source, start, block_end(block, source))
                == (Scan::Going {
                output: output + flattened(statements, output.len() as int),
                open,
            })
        }),
    decreases source.len() - start,
{
    let scan = Scan::Going { output, open };
    let block = parse_block(source, start);
    let end = block_end(block, source);
    let base = output.len() as int;
    lemma_closed_ahead(source, start);
    lemma_closed_ahead(source, start + 1);
    if start >= source.len() {
        assert(output + flattened(Seq::<Instruction>::empty(), base) =~= output);
    } else {
        let after = scan_step(scan, source[start], start);
        assert(scanned_on(scan, source, start, start + 1) == after) by {
            assert(scanned_on(scan, source, start, start) == scan);
        }
        match token_of_byte(source[start]) {
            None => {
                lemma_scanned_block(source, start + 1, output, open);
                lemma_scanned_on_split(scan, source, start, start + 1, end);
            },
            Some(Token::EndLoop) => {
                assert(output + flattened(Seq::<Instruction>::empty(), base) =~= output);
            },
            Some(Token::StartLoop) => {
                let inner = parse_block(source, start + 1);
                let body = inner->Closed_statements;
                let close = inner->Closed_at;
                let inside = open.push(base);
                lemma_closed_ahead(source, start + 1);
                lemma_scanned_block(source, start + 1, output, inside);
                lemma_scanned_on_split(scan, source, start, start + 1, close);
                let flat_body = flattened(body, base);
                let before_close = Scan::Going { output: output + flat_body, open: inside };
                assert(scanned_on(scan, source, start, close) == before_close);
                assert(inside.last() == base);
                assert(inside.drop_last() =~= open);
                lemma_flattened_length(body, base);
                let looped = flattened(kept_loop(body), base);
                if body.len() > 0 {
                    lemma_flattened_single(Instruction::Loop(body), base);
                    assert((output + flat_body).push(Statement::JumpIf(base as usize)) =~= output
                        + looped);
                } else {
                    assert(output + flat_body =~= output + looped);
                }
                let closed = Scan::Going { output: output + looped, open };
                assert(scanned_on(scan, source, start, close + 1) == closed) by {
                    assert(scan_step(before_close, source[close], close) == closed);
                }
                lemma_closed_ahead(source, close + 1);
                lemma_scanned_block(source, close + 1, output + looped, open);
                lemma_scanned_on_split(scan, source, start, close + 1, end);
                let rest = match parse_block(source, close + 1) {
                    Block::Closed { statements, at } => statements,
                    Block::Exhausted { statements } => statements,
                    Block::Unterminated => Seq::empty(),
                };
                lemma_flattened_concat(kept_loop(body), rest, base);
                assert((output + looped) + flattened(rest, base + looped.len()) =~= output + (
                looped + flattened(rest, base + looped.len())));
            },
            Some(token) => {
                let unit = seq![unit_statement(token)];
                lemma_flattened_unit(token, base);
                assert(output.push(unit_statement(token)) =~= output + unit);
                lemma_closed_ahead(source, start + 1);
                lemma_scanned_block(source, start + 1, output + unit, open);
                lemma_scanned_on_split(scan, source, start, start + 1, end);
                let rest = match parse_block(source, start + 1) {
                    Block::Closed { statements, at } => statements,
                    Block::Exhausted { statements } => statements,
                    Block::Unterminated => Seq::empty(),
                };
                lemma_flattened_concat(seq![unit_instruction(token)], rest, base);
                assert((output + unit) + flattened(rest, base + 1) =~= output + (unit
                    + flattened(rest, base + 1)));
            },
        }
    }
}

/// The two parsers give the same program in two shapes: where the nested
/// statements of a source are `program`, its flat statements are the flat
/// statements of `program`.
pub proof fn lemma_parsed_flattened(source: Seq<u8>)
    requires
        crate::parser::parsed(source, 0) is Ok,
    ensures
        parsed(source) == Ok::<Seq<Statement>, ParseError>(
            flattened(crate::parser::parsed(source, 0)->Ok_0, 0),
        ),
{
    let nothing = Seq::<Statement>::empty();
    lemma_scanned_block(source, 0, nothing, Seq::empty());
    lemma_scanned_from_nothing(source, source.len());
    let program = crate::parser::parsed(source, 0)->Ok_0;
    assert(nothing + flattened(program, 0) =~= flattened(program, 0));
}


/// Bytes that stand for no token do not matter to the parser of flat
/// statements: a source without one of them is parsed into the same program,
/// or refused for the same reason.
pub proof fn lemma_parsed_without_comment(source: Seq<u8>, gap: int)
    requires
        0 <= gap < source.len(),
        token_of_byte(source[gap]) is None,
    ensures
        parsed(source.remove(gap)) == parsed(source),
{
    let less = source.remove(gap);
    crate::grammar::lemma_parsed_without_comment(source, gap);
    crate::brainfuck::parser::lemma_parsers_agree(source);
    crate::brainfuck::parser::lemma_parsers_agree(less);
    if crate::parser::parsed(source, 0) is Ok {
        lemma_parsed_flattened(source);
        lemma_parsed_flattened(less);
    }
}

} // verus!
