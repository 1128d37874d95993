use brainfuck::{Code, Parser, Statement};

fn text(code: &str) -> String {
    let statements = Parser::from_reader(code.as_bytes()).parse().unwrap();
    Code::generate_string(&statements)
}

#[test]
fn test_generate_string_empty() {
    assert_eq!(Code::generate_string(&vec![]), "");
}

#[test]
fn test_generate_string_units() {
    assert_eq!(text("+-><,."), "1+ 255+ 1> 1< , .");
}

#[test]
fn test_generate_string_loops() {
    assert_eq!(text("+[>[-]<]."), "1+ [ 1> [ 255+] 1<] .");
}

#[test]
fn test_generate_string_numbers() {
    let statements = vec![
        Statement::Add(0),
        Statement::Add(9),
        Statement::Add(10),
        Statement::Add(255),
        Statement::MoveLeft(1234567890),
        Statement::MoveRight(usize::MAX),
        Statement::new_loop(vec![]),
    ];
    assert_eq!(
        Code::generate_string(&statements),
        format!("0+ 9+ 10+ 255+ 1234567890< {}> [ ]", usize::MAX)
    );
}
