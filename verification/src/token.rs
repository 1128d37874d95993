//! The tokens of the language and the bytes that stand for them.

use vstd::prelude::*;

verus! {

/// One of the eight meaningful symbols of the language.
#[derive(Copy, Clone, PartialEq, Eq, Debug, Structural)]
pub enum Token {
    Increment,
    Decrement,
    ShiftLeft,
    ShiftRight,
    StartLoop,
    EndLoop,
    PutChar,
    ReadChar,
}

impl Token {
    /// Whether a run of this token can be summed up into one count.
    pub open spec fn countable(self) -> bool {
        self is Increment || self is Decrement || self is ShiftLeft || self is ShiftRight
    }

    /// Whether this token is one of the two loop brackets.
    pub open spec fn bracket(self) -> bool {
        self is StartLoop || self is EndLoop
    }

    /// Tells whether a run of this token can be summed up into one count.
    pub fn is_countable(&self) -> (countable: bool)
        ensures
            countable == self.countable(),
    {
        match self {
            Token::Increment | Token::Decrement | Token::ShiftLeft | Token::ShiftRight => true,
            _ => false,
        }
    }

    /// Tells whether this token opens or closes a loop.
    pub fn is_loop(&self) -> (bracket: bool)
        ensures
            bracket == self.bracket(),
    {
        match self {
            Token::StartLoop | Token::EndLoop => true,
            _ => false,
        }
    }
}

/// The token that a character stands for, if it stands for any.
pub open spec fn token_of(c: char) -> Option<Token> {
    if c == '+' {
        Some(Token::Increment)
    } else if c == '-' {
        Some(Token::Decrement)
    } else if c == '<' {
        Some(Token::ShiftLeft)
    } else if c == '>' {
        Some(Token::ShiftRight)
    } else if c == ',' {
        Some(Token::ReadChar)
    } else if c == '.' {
        Some(Token::PutChar)
    } else if c == '[' {
        Some(Token::StartLoop)
    } else if c == ']' {
        Some(Token::EndLoop)
    } else {
        None
    }
}

/// The token that a source byte stands for: the byte is read as the character
/// with the same code.
pub open spec fn token_of_byte(b: u8) -> Option<Token> {
    token_of(b as char)
}

} // verus!
