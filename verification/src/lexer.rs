//! The lexer: a single pass over the bytes of a source, one token or
//! `None` per byte.

use vstd::prelude::*;
use crate::token::{Token, token_of, token_of_byte};

verus! {

/// For each byte in turn, its token or `None`.
pub open spec fn tokens_of(bytes: Seq<u8>) -> Seq<Option<Token>> {
    bytes.map_values(|byte: u8| token_of_byte(byte))
}

/// A single-pass reader of tokens over a program's source bytes.
pub struct Lexer {
    reader: Vec<u8>,
    position: usize,
}

impl Lexer {
    /// The whole source, consumed or not.
    pub closed spec fn source(&self) -> Seq<u8> {
        self.reader@
    }

    /// How many source bytes have been consumed.
    pub closed spec fn position(&self) -> nat {
        self.position as nat
    }

    /// The lexer never runs past the end of its source.
    pub closed spec fn wf(&self) -> bool {
        self.position <= self.reader.len()
    }

    /// The bytes that are still to be read.
    pub open spec fn remaining(&self) -> Seq<u8> {
        self.source().skip(self.position() as int)
    }

    /// A well-formed lexer stands inside its source, which fits in memory.
    pub proof fn lemma_wf(&self)
        requires
            self.wf(),
        ensures
            self.position() <= self.source().len(),
            self.source().len() <= usize::MAX,
    {
    }

    /// A lexer at the start of `reader`.
    pub fn from_reader(reader: &[u8]) -> (lexer: Self)
        ensures
            lexer.wf(),
            lexer.source() == reader@,
            lexer.position() == 0,
    {
        Lexer { reader: vstd::slice::slice_to_vec(reader), position: 0 }
    }

    /// Whether every byte has been consumed. Consumes nothing.
    pub fn eof(&self) -> (ended: bool)
        requires
            self.wf(),
        ensures
            ended == (self.position() == self.source().len()),
    {
        self.position >= self.reader.len()
    }

    /// Consumes one byte and gives its token. Gives `None` for a byte that
    /// stands for no token, and at the end of the source, where nothing is
    /// consumed.
    pub fn next_token(&mut self) -> (token: Option<Token>)
        requires
            old(self).wf(),
        ensures
            final(self).wf(),
            final(self).source() == old(self).source(),
            old(self).position() < old(self).source().len() ==> {
                &&& final(self).position() == old(self).position() + 1
                &&& token == token_of_byte(old(self).source()[old(self).position() as int])
            },
            old(self).position() == old(self).source().len() ==> {
                &&& final(self).position() == old(self).position()
                &&& token is None
            },
    {
        if self.position >= self.reader.len() {
            None
        } else {
            let ascii: u8 = self.reader[self.position];
            self.position = self.position + 1;
            let to_token: char = ascii as char;
            Self::tokenize(&to_token)
        }
    }

    /// Consumes what is left of the source and gives, for each byte in
    /// turn, its token or `None`.
    pub fn ref_iter(&mut self) -> (tokens: Vec<Option<Token>>)
        requires
            old(self).wf(),
        ensures
            final(self).wf(),
            final(self).source() == old(self).source(),
            final(self).position() == old(self).source().len(),
            tokens@ == tokens_of(old(self).remaining()),
    {
        let mut tokens: Vec<Option<Token>> = Vec::new();
        let ghost start = self.position();
        while !self.eof()
            invariant
                self.wf(),
                self.source() == old(self).source(),
                start == old(self).position(),
                start <= self.position() <= self.source().len(),
                tokens@ == tokens_of(self.source().subrange(start as int, self.position() as int)),
            decreases self.source().len() - self.position(),
        {
            let ghost here = self.position() as int;
            let token = self.next_token();
            tokens.push(token);
            assert(tokens@ =~= tokens_of(self.source().subrange(start as int, here + 1)));
        }
        assert(self.source().subrange(start as int, self.position() as int) =~= old(
            self,
        ).remaining());
        tokens
    }

    /// Consumes the lexer and gives, for each byte that was left in turn,
    /// its token or `None`.
    pub fn iter(self) -> (tokens: Vec<Option<Token>>)
        requires
            self.wf(),
        ensures
            tokens@ == tokens_of(self.remaining()),
    {
        let mut lexer = self;
        lexer.ref_iter()
    }

    /// Consumes the lexer and gives, for each byte that was left in turn,
    /// its token or `None`.
    pub fn into_iter(self) -> (tokens: Vec<Option<Token>>)
        requires
            self.wf(),
        ensures
            tokens@ == tokens_of(self.remaining()),
    {
        self.iter()
    }

    /// The token that `input` stands for, if any.
    pub fn tokenize(input: &char) -> (token: Option<Token>)
        ensures
            token == token_of(*input),
    {
        match *input {
            '+' => Some(Token::Increment),
            '-' => Some(Token::Decrement),
            '<' => Some(Token::ShiftLeft),
            '>' => Some(Token::ShiftRight),
            ',' => Some(Token::ReadChar),
            '.' => Some(Token::PutChar),
            '[' => Some(Token::StartLoop),
            ']' => Some(Token::EndLoop),
            _ => None,
        }
    }
}

} // verus!
