use std::iter::zip;

use brainfuck::brainfuck::Lexer as FlatLexer;
use brainfuck::brainfuck::Token::{
    self as FlatToken, Decrement, EndLoop, Increment, PutChar, ReadChar, ShiftLeft, ShiftRight,
    StartLoop,
};
use brainfuck::{Lexer, Token};

fn test_lexer(code: &String, expected: &Vec<Option<Token>>) {
    let lexer = Lexer::from_reader(code.as_bytes());
    let mut actual: Vec<Option<Token>> = Vec::new();
    for token in lexer.into_iter() {
        actual.push(token);
    }
    assert_eq!(*expected, actual);
}

#[test]
fn tests_test_lexer_eof_true() {
    let code = String::from("");
    let lexer = FlatLexer::from_reader(code.as_bytes());
    assert!(lexer.eof());
}

#[test]
fn tests_test_lexer_eof_false() {
    let code = String::from(".");
    let mut bytes = code.as_bytes();
    let lexer = FlatLexer::from_reader(&mut bytes);
    assert!(!lexer.eof());
}

#[test]
fn tests_test_lexer_next_token_valid_tokens() {
    let code = String::from("><,.+-[]");
    let mut lexer = FlatLexer::from_reader(code.as_bytes());
    let expected: Vec<FlatToken> = vec![
        ShiftRight, ShiftLeft, ReadChar, PutChar, Increment, Decrement, StartLoop, EndLoop,
    ];
    for exp in expected {
        assert!(!lexer.eof());
        let token = lexer.next_token();
        assert!(token.is_some());
        assert_eq!(token.unwrap(), exp);
    }
    assert!(lexer.eof());
    let token = lexer.next_token();
    assert!(token.is_none());
    assert!(lexer.eof());
}

#[test]
fn tests_test_lexer_next_token_other_symbols() {
    let code = String::from("abcdef");
    let mut lexer = FlatLexer::from_reader(code.as_bytes());
    while !lexer.eof() {
        let token = lexer.next_token();
        assert!(token.is_none());
    }
}

#[test]
fn tests_test_lexer_iter_valid_tokens() {
    let code = String::from("><,.+-[]");
    let lexer = FlatLexer::from_reader(code.as_bytes());
    let expected: Vec<Option<FlatToken>> = vec![
        Some(ShiftRight),
        Some(ShiftLeft),
        Some(ReadChar),
        Some(PutChar),
        Some(Increment),
        Some(Decrement),
        Some(StartLoop),
        Some(EndLoop),
    ];
    let mut actual: Vec<Option<FlatToken>> = Vec::new();
    for token in lexer.iter() {
        actual.push(token);
    }
    assert_eq!(expected.len(), actual.len());
    for (exp, act) in zip(expected, actual) {
        assert_eq!(exp, act);
    }
}

#[test]
fn tests_test_lexer_iter_other_symbols() {
    let code = String::from("abcdef");
    let lexer = FlatLexer::from_reader(code.as_bytes());
    let expected: Vec<Option<FlatToken>> = vec![None, None, None, None, None, None];
    let mut actual: Vec<Option<FlatToken>> = Vec::new();
    for token in lexer.iter() {
        actual.push(token);
    }
    assert_eq!(expected.len(), actual.len());
    for (exp, act) in zip(expected, actual) {
        assert_eq!(exp, act);
    }
}

#[test]
fn tests_test_lexer_for_loop() {
    let code = String::from("><,.+-[]");
    let lexer = FlatLexer::from_reader(code.as_bytes());
    let expected: Vec<Option<FlatToken>> = vec![
        Some(ShiftRight),
        Some(ShiftLeft),
        Some(ReadChar),
        Some(PutChar),
        Some(Increment),
        Some(Decrement),
        Some(StartLoop),
        Some(EndLoop),
    ];
    let mut actual: Vec<Option<FlatToken>> = Vec::new();
    for token in lexer.into_iter() {
        actual.push(token);
    }
    assert_eq!(expected.len(), actual.len());
    for (exp, act) in zip(expected, actual) {
        assert_eq!(exp, act);
    }
}

#[test]
fn test_eof_true() {
    let code = String::from("");
    let lexer = Lexer::from_reader(code.as_bytes());
    assert!(lexer.eof());
}

#[test]
fn test_eof_false() {
    let code = String::from(".");
    let lexer = Lexer::from_reader(code.as_bytes());
    assert!(!lexer.eof());
}

#[test]
fn test_next_token_valid_tokens() {
    let code = String::from("><,.+-[]");
    let mut lexer = Lexer::from_reader(code.as_bytes());
    let expected: Vec<Token> = vec![
        Token::ShiftRight,
        Token::ShiftLeft,
        Token::ReadChar,
        Token::PutChar,
        Token::Increment,
        Token::Decrement,
        Token::StartLoop,
        Token::EndLoop,
    ];
    for exp in expected {
        assert!(!lexer.eof());
        let token = lexer.next_token();
        assert!(token.is_some());
        assert_eq!(token.unwrap(), exp);
    }
    assert!(lexer.eof());
    let token = lexer.next_token();
    assert!(token.is_none());
    assert!(lexer.eof());
}

#[test]
fn test_next_token_other_symbols() {
    let code = String::from("abcdef");
    let mut lexer = Lexer::from_reader(code.as_bytes());
    while !lexer.eof() {
        let token = lexer.next_token();
        assert!(token.is_none());
    }
}

#[test]
fn test_iter_valid_tokens() {
    let code = String::from("><,.+-[]");
    let lexer = Lexer::from_reader(code.as_bytes());
    let expected: Vec<Option<Token>> = vec![
        Some(Token::ShiftRight),
        Some(Token::ShiftLeft),
        Some(Token::ReadChar),
        Some(Token::PutChar),
        Some(Token::Increment),
        Some(Token::Decrement),
        Some(Token::StartLoop),
        Some(Token::EndLoop),
    ];
    let mut actual: Vec<Option<Token>> = Vec::new();
    for token in lexer.iter() {
        actual.push(token);
    }
    assert_eq!(expected.len(), actual.len());
    for (exp, act) in zip(expected, actual) {
        assert_eq!(exp, act);
    }
}

#[test]
fn test_iter_other_symbols() {
    let code = String::from("abcdef");
    let expected: Vec<Option<Token>> = vec![None, None, None, None, None, None];
    test_lexer(&code, &expected);
}

#[test]
fn test_for_loop() {
    let code = String::from("><,.+-[]");
    let expected: Vec<Option<Token>> = vec![
        Some(Token::ShiftRight),
        Some(Token::ShiftLeft),
        Some(Token::ReadChar),
        Some(Token::PutChar),
        Some(Token::Increment),
        Some(Token::Decrement),
        Some(Token::StartLoop),
        Some(Token::EndLoop),
    ];
    test_lexer(&code, &expected);
}

#[test]
fn test_tokenize_every_symbol() {
    assert_eq!(Lexer::tokenize(&'+'), Some(Token::Increment));
    assert_eq!(Lexer::tokenize(&'-'), Some(Token::Decrement));
    assert_eq!(Lexer::tokenize(&'<'), Some(Token::ShiftLeft));
    assert_eq!(Lexer::tokenize(&'>'), Some(Token::ShiftRight));
    assert_eq!(Lexer::tokenize(&','), Some(Token::ReadChar));
    assert_eq!(Lexer::tokenize(&'.'), Some(Token::PutChar));
    assert_eq!(Lexer::tokenize(&'['), Some(Token::StartLoop));
    assert_eq!(Lexer::tokenize(&']'), Some(Token::EndLoop));
    assert_eq!(Lexer::tokenize(&' '), None);
    assert_eq!(Lexer::tokenize(&'\n'), None);
    assert_eq!(Lexer::tokenize(&'\u{12b}'), None);
}

#[test]
fn test_bytes_outside_ascii_are_no_tokens() {
    let code: Vec<u8> = vec![0xc3, 0xa9, b'+', 0xff, 0x00];
    let lexer = Lexer::from_reader(&code);
    assert_eq!(
        lexer.iter(),
        vec![None, None, Some(Token::Increment), None, None]
    );
}

#[test]
fn test_eof_consumes_nothing() {
    let code = String::from("+");
    let mut lexer = Lexer::from_reader(code.as_bytes());
    assert!(!lexer.eof());
    assert!(!lexer.eof());
    assert_eq!(lexer.next_token(), Some(Token::Increment));
    assert!(lexer.eof());
}

#[test]
fn test_ref_iter_takes_what_is_left() {
    let code = String::from("+x-");
    let mut lexer = Lexer::from_reader(code.as_bytes());
    assert_eq!(lexer.next_token(), Some(Token::Increment));
    assert_eq!(lexer.ref_iter(), vec![None, Some(Token::Decrement)]);
    assert!(lexer.eof());
    assert_eq!(lexer.ref_iter(), vec![]);
}

#[test]
fn test_token_kinds() {
    let countable = [
        Token::Increment,
        Token::Decrement,
        Token::ShiftLeft,
        Token::ShiftRight,
    ];
    for token in countable {
        assert!(token.is_countable());
        assert!(!token.is_loop());
    }
    for token in [Token::StartLoop, Token::EndLoop] {
        assert!(!token.is_countable());
        assert!(token.is_loop());
    }
    for token in [Token::PutChar, Token::ReadChar] {
        assert!(!token.is_countable());
        assert!(!token.is_loop());
    }
}
