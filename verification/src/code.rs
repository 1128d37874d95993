//! Programs as text.

use vstd::prelude::*;
use vstd::string::StringExecFns;
use crate::statement::{Instruction, Statement, lemma_loop_view};

verus! {

/// The character of a decimal digit.
pub open spec fn digit(value: nat) -> char {
    if value == 0 {
        '0'
    } else if value == 1 {
        '1'
    } else if value == 2 {
        '2'
    } else if value == 3 {
        '3'
    } else if value == 4 {
        '4'
    } else if value == 5 {
        '5'
    } else if value == 6 {
        '6'
    } else if value == 7 {
        '7'
    } else if value == 8 {
        '8'
    } else {
        '9'
    }
}

/// A number in decimal digits, without leading zeros.
pub open spec fn decimal(value: nat) -> Seq<char>
    decreases value,
{
    if value < 10 {
        seq![digit(value)]
    } else {
        decimal(value / 10).push(digit(value % 10))
    }
}

/// The text of one instruction: a count and a symbol for a move or an
/// addition, the symbol for input and output, and for a loop the text of
/// its body between brackets, a space behind the opening one.
pub open spec fn instruction_text(instruction: Instruction) -> Seq<char>
    decreases instruction,
{
    match instruction {
        Instruction::Add(value) => decimal(value as nat).push('+'),
        Instruction::MoveLeft(shift) => decimal(shift as nat).push('<'),
        Instruction::MoveRight(shift) => decimal(shift as nat).push('>'),
        Instruction::ReadChar => seq![','],
        Instruction::PutChar => seq!['.'],
        Instruction::Loop(body) => (seq!['[', ' '] + program_text(body)).push(']'),
    }
}

/// The text of a program: the texts of its instructions, one space between
/// each two.
pub open spec fn program_text(program: Seq<Instruction>) -> Seq<char>
    decreases program,
{
    if program.len() == 0 {
        Seq::empty()
    } else if program.len() == 1 {
        instruction_text(program[0])
    } else {
        program_text(program.drop_last()).push(' ') + instruction_text(program.last())
    }
}

/// A program to be shown as text.
pub struct Code<'a> {
    pub code: &'a Vec<Statement>,
}

impl<'a> Code<'a> {
    /// Appends the decimal digits of `value` to `text`.
    fn push_decimal(text: &mut String, value: usize)
        ensures
            final(text)@ == old(text)@ + decimal(value as nat),
        decreases value,
    {
        if value >= 10 {
            Self::push_decimal(text, value / 10);
        }
        let last: usize = value % 10;
        let ghost before = text@;
        proof {
            reveal_strlit("0");
            reveal_strlit("1");
            reveal_strlit("2");
            reveal_strlit("3");
            reveal_strlit("4");
            reveal_strlit("5");
            reveal_strlit("6");
            reveal_strlit("7");
            reveal_strlit("8");
            reveal_strlit("9");
        }
        let symbol: &str = if last == 0 {
            "0"
        } else if last == 1 {
            "1"
        } else if last == 2 {
            "2"
        } else if last == 3 {
            "3"
        } else if last == 4 {
            "4"
        } else if last == 5 {
            "5"
        } else if last == 6 {
            "6"
        } else if last == 7 {
            "7"
        } else if last == 8 {
            "8"
        } else {
            "9"
        };
        assert(symbol@ =~= seq![digit(last as nat)]);
        text.append(symbol);
        assert(text@ =~= old(text)@ + decimal(value as nat));
    }

    /// Appends the text of `statements` to `text`.
    fn push_statements(text: &mut String, statements: &Vec<Statement>)
        ensures
            final(text)@ == old(text)@ + program_text(statements.deep_view()),
        decreases statements,
    {
        let ghost program = statements.deep_view();
        let mut i: usize = 0;
        assert(program.take(0) =~= Seq::<Instruction>::empty());
        assert(text@ =~= old(text)@ + program_text(program.take(0)));
        while i < statements.len()
            invariant
                i <= statements.len(),
                program == statements.deep_view(),
                text@ == old(text)@ + program_text(program.take(i as int)),
            decreases statements.len() - i,
        {
            let ghost done = program.take(i as int);
            let ghost next = program.take(i as int + 1);
            let ghost before = text@;
            proof {
                reveal_strlit(" ");
                reveal_strlit("+");
                reveal_strlit("<");
                reveal_strlit(">");
                reveal_strlit(",");
                reveal_strlit(".");
                reveal_strlit("[ ");
                reveal_strlit("]");
                assert(next.drop_last() =~= done);
                assert(next.last() == statements@[i as int].deep_view());
            }
            if i > 0 {
                text.append(" ");
            }
            let ghost spaced = text@;
            match &statements[i] {
                Statement::Add(value) => {
                    Self::push_decimal(text, *value as usize);
                    text.append("+");
                },
                Statement::MoveLeft(shift) => {
                    Self::push_decimal(text, *shift);
                    text.append("<");
                },
                Statement::MoveRight(shift) => {
                    Self::push_decimal(text, *shift);
                    text.append(">");
                },
                Statement::ReadChar => {
                    text.append(",");
                },
                Statement::PutChar => {
                    text.append(".");
                },
                Statement::Loop(body) => {
                    proof {
                        lemma_loop_view(**body);
                    }
                    text.append("[ ");
                    Self::push_statements(text, body);
                    text.append("]");
                },
            }
            assert(text@ =~= spaced + instruction_text(next.last()));
            assert(text@ =~= old(text)@ + program_text(next));
            i = i + 1;
        }
        assert(program.take(i as int) =~= program);
    }

    /// The text of `statements`.
    pub fn generate_string(statements: &Vec<Statement>) -> (text: String)
        ensures
            text@ == program_text(statements.deep_view()),
    {
        let mut info: String = String::new();
        Self::push_statements(&mut info, statements);
        assert(info@ =~= program_text(statements.deep_view()));
        info
    }
}

} // verus!
