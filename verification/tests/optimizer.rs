use brainfuck::{Optimizer, Parser, Statement};

fn test_optimize_once(input: &Vec<Statement>, output: &Vec<Statement>) {
    let mut optimizer = Optimizer::new(input.clone());
    optimizer.optimize_once();
    let optimized = optimizer.yield_back();
    assert_eq!(*optimized, *output);
}

fn optimize(input: &Vec<Statement>, max_iterations: u32) -> Vec<Statement> {
    let mut optimizer = Optimizer::new(input.clone());
    optimizer.optimize(max_iterations);
    optimizer.yield_back()
}

fn parse(code: &str) -> Vec<Statement> {
    Parser::from_reader(code.as_bytes()).parse().unwrap()
}

#[test]
fn test_optimize_once_no_optimization() {
    let statements: Vec<Statement> = vec![Statement::new_loop(vec![
        Statement::ReadChar,
        Statement::PutChar,
        Statement::MoveRight(1),
        Statement::Add(1),
        Statement::MoveLeft(1),
    ])];
    test_optimize_once(&statements, &statements);
}

#[test]
fn test_optimize_once_adds() {
    let input: Vec<Statement> = vec![
        Statement::Add(1),
        Statement::Add(2),
        Statement::Add(3),
        Statement::Add(4),
    ];
    let output = vec![Statement::Add(10)];
    test_optimize_once(&input, &output);
}

#[test]
fn test_optimize_once_adds_overflow() {
    let input: Vec<Statement> = vec![
        Statement::Add(3),
        Statement::Add(254),
        Statement::Add(4),
        Statement::Add(250),
    ];
    let output = vec![Statement::Add(255)];
    test_optimize_once(&input, &output);
}

#[test]
fn test_optimize_once_adds_no_add() {
    let input: Vec<Statement> = vec![
        Statement::Add(3),
        Statement::Add(255),
        Statement::Add(4),
        Statement::Add(250),
    ];
    let output: Vec<Statement> = Vec::new();
    test_optimize_once(&input, &output);
}

#[test]
fn test_optimize_once_moves_right() {
    let input: Vec<Statement> = vec![
        Statement::MoveRight(3),
        Statement::MoveRight(4),
        Statement::MoveRight(5),
        Statement::MoveRight(6),
    ];
    let output = vec![Statement::MoveRight(18)];
    test_optimize_once(&input, &output);
}

#[test]
fn test_optimize_once_moves_left_and_right() {
    let input: Vec<Statement> = vec![
        Statement::MoveLeft(3),
        Statement::MoveLeft(4),
        Statement::MoveRight(5),
        Statement::MoveRight(6),
    ];
    let output = vec![Statement::MoveRight(4)];
    test_optimize_once(&input, &output);
}

#[test]
fn test_optimize_once_moves_left_and_right_no_shift() {
    let input: Vec<Statement> = vec![
        Statement::MoveRight(3),
        Statement::MoveLeft(4),
        Statement::MoveLeft(5),
        Statement::MoveRight(6),
    ];
    let output: Vec<Statement> = Vec::new();
    test_optimize_once(&input, &output);
}

#[test]
fn test_optimize_once_adds_and_moves() {
    let input: Vec<Statement> = vec![
        Statement::MoveRight(3),
        Statement::MoveLeft(4),
        Statement::Add(3),
        Statement::Add(4),
        Statement::MoveLeft(5),
        Statement::MoveRight(6),
    ];
    let output = vec![
        Statement::MoveLeft(1),
        Statement::Add(7),
        Statement::MoveRight(1),
    ];
    test_optimize_once(&input, &output);
}

#[test]
fn test_optimize_once_adds_with_loop() {
    let input: Vec<Statement> = vec![Statement::new_loop(vec![
        Statement::Add(3),
        Statement::Add(4),
        Statement::new_loop(vec![Statement::Add(3), Statement::Add(4)]),
    ])];
    let output = vec![Statement::new_loop(vec![
        Statement::Add(7),
        Statement::new_loop(vec![Statement::Add(7)]),
    ])];
    test_optimize_once(&input, &output);
}

#[test]
fn test_optimizer_optimize_once_no_optimization() {
    let statements: Vec<Statement> = vec![Statement::new_loop(vec![
        Statement::ReadChar,
        Statement::PutChar,
        Statement::MoveRight(1),
        Statement::Add(1),
        Statement::MoveLeft(1),
    ])];
    test_optimize_once(&statements, &statements);
}

#[test]
fn test_optimizer_optimize_once_adds() {
    let input: Vec<Statement> = vec![
        Statement::Add(1),
        Statement::Add(2),
        Statement::Add(3),
        Statement::Add(4),
    ];
    let output = vec![Statement::Add(10)];
    test_optimize_once(&input, &output);
}

#[test]
fn test_optimizer_optimize_once_adds_overflow() {
    let input: Vec<Statement> = vec![
        Statement::Add(3),
        Statement::Add(254),
        Statement::Add(4),
        Statement::Add(250),
    ];
    let output = vec![Statement::Add(255)];
    test_optimize_once(&input, &output);
}

#[test]
fn test_optimizer_optimize_once_adds_no_add() {
    let input: Vec<Statement> = vec![
        Statement::Add(3),
        Statement::Add(255),
        Statement::Add(4),
        Statement::Add(250),
    ];
    let output: Vec<Statement> = Vec::new();
    test_optimize_once(&input, &output);
}

#[test]
fn test_optimizer_optimize_once_moves_right() {
    let input: Vec<Statement> = vec![
        Statement::MoveRight(3),
        Statement::MoveRight(4),
        Statement::MoveRight(5),
        Statement::MoveRight(6),
    ];
    let output = vec![Statement::MoveRight(18)];
    test_optimize_once(&input, &output);
}

#[test]
fn test_optimizer_optimize_once_moves_left_and_right() {
    let input: Vec<Statement> = vec![
        Statement::MoveLeft(3),
        Statement::MoveLeft(4),
        Statement::MoveRight(5),
        Statement::MoveRight(6),
    ];
    let output = vec![Statement::MoveRight(4)];
    test_optimize_once(&input, &output);
}

#[test]
fn test_optimizer_optimize_once_moves_left_and_right_no_shift() {
    let input: Vec<Statement> = vec![
        Statement::MoveRight(3),
        Statement::MoveLeft(4),
        Statement::MoveLeft(5),
        Statement::MoveRight(6),
    ];
    let output: Vec<Statement> = Vec::new();
    test_optimize_once(&input, &output);
}

#[test]
fn test_optimizer_optimize_once_adds_and_moves() {
    let input: Vec<Statement> = vec![
        Statement::MoveRight(3),
        Statement::MoveLeft(4),
        Statement::Add(3),
        Statement::Add(4),
        Statement::MoveLeft(5),
        Statement::MoveRight(6),
    ];
    let output = vec![
        Statement::MoveLeft(1),
        Statement::Add(7),
        Statement::MoveRight(1),
    ];
    test_optimize_once(&input, &output);
}

#[test]
fn test_optimizer_optimize_once_adds_with_loop() {
    let input: Vec<Statement> = vec![
        Statement::Add(3),
        Statement::Add(4),
        Statement::new_loop(vec![Statement::Add(3), Statement::Add(4)]),
    ];
    let output = vec![
        Statement::Add(7),
        Statement::new_loop(vec![Statement::Add(7)]),
    ];
    test_optimize_once(&input, &output);
}

#[test]
fn test_optimize_once_keeps_separated_statements() {
    let statements: Vec<Statement> = vec![
        Statement::ReadChar,
        Statement::PutChar,
        Statement::MoveRight(1),
        Statement::Add(1),
        Statement::MoveLeft(1),
        Statement::new_loop(vec![Statement::PutChar]),
    ];
    test_optimize_once(&statements, &statements);
}

#[test]
fn test_optimize_parsed_run_to_nothing() {
    let parsed = parse("++++----<<<<>>>>");
    test_optimize_once(&parsed, &Vec::new());
    assert_eq!(optimize(&parsed, 0), vec![]);
    assert_eq!(optimize(&parsed, 1), vec![]);
}

#[test]
fn test_optimize_fused_deltas_wrap_to_255() {
    let input = vec![
        Statement::Add(3),
        Statement::Add(254),
        Statement::Add(4),
        Statement::Add(250),
    ];
    assert_eq!(optimize(&input, 1), vec![Statement::Add(255)]);
}

#[test]
fn test_optimize_io_separates_runs() {
    let input = parse("++.++,--");
    let output = vec![
        Statement::Add(2),
        Statement::PutChar,
        Statement::Add(2),
        Statement::ReadChar,
        Statement::Add(254),
    ];
    test_optimize_once(&input, &output);
}

#[test]
fn test_optimize_drops_loop_that_becomes_empty() {
    let input = parse("+[><]-");
    test_optimize_once(&input, &vec![Statement::Add(1), Statement::Add(255)]);
    assert_eq!(optimize(&input, 0), vec![]);
    assert_eq!(optimize(&input, 2), vec![]);
}

#[test]
fn test_optimize_needs_second_pass() {
    let input = parse(">+-><<");
    let once = vec![Statement::MoveRight(1), Statement::MoveLeft(1)];
    test_optimize_once(&input, &once);
    assert_eq!(optimize(&input, 1), once);
    assert_eq!(optimize(&input, 2), vec![]);
    assert_eq!(optimize(&input, 0), vec![]);
}

#[test]
fn test_optimize_budget_is_an_upper_bound() {
    let input = parse(">>[+-[<>]]<+-<.");
    let fixed = optimize(&input, 0);
    assert_eq!(fixed, vec![Statement::PutChar]);
    assert_eq!(optimize(&input, 1), vec![
        Statement::MoveRight(2),
        Statement::MoveLeft(1),
        Statement::MoveLeft(1),
        Statement::PutChar,
    ]);
    assert_eq!(optimize(&input, 2), fixed);
    assert_eq!(optimize(&input, u32::MAX), fixed);
}

#[test]
fn test_optimize_is_idempotent_once_nothing_changes() {
    let programs = [
        "",
        "+-",
        "++[>+<-]>.",
        ">+-><<",
        "+[-[>>++<<-]>>[<<+>>-]<<]",
        ",[.,]",
        "[[[+]-]>]<",
        ">>[+-[<>]]<+-<.",
    ];
    for code in programs {
        let fixed = optimize(&parse(code), 0);
        test_optimize_once(&fixed, &fixed);
        assert_eq!(optimize(&fixed, 0), fixed);
        assert_eq!(optimize(&fixed, 3), fixed);
    }
}

#[test]
fn test_optimize_moves_too_large_to_sum_stay_apart() {
    let input = vec![
        Statement::MoveRight(usize::MAX),
        Statement::MoveRight(5),
        Statement::MoveLeft(2),
    ];
    let output = vec![Statement::MoveRight(usize::MAX), Statement::MoveRight(3)];
    test_optimize_once(&input, &output);
    let input = vec![
        Statement::MoveLeft(usize::MAX - 1),
        Statement::MoveLeft(1),
        Statement::MoveLeft(1),
    ];
    let output = vec![Statement::MoveLeft(usize::MAX), Statement::MoveLeft(1)];
    test_optimize_once(&input, &output);
    assert_eq!(optimize(&input, 0), output);
}

#[test]
fn test_optimize_drops_idle_statements() {
    let input = vec![
        Statement::Add(0),
        Statement::PutChar,
        Statement::MoveLeft(0),
        Statement::MoveRight(0),
        Statement::ReadChar,
        Statement::new_loop(vec![]),
        Statement::new_loop(vec![Statement::Add(0)]),
    ];
    let output = vec![Statement::PutChar, Statement::ReadChar];
    test_optimize_once(&input, &output);
}

#[test]
fn test_generate_optimized_stmt_resets_the_count() {
    let mut count: usize = 7;
    assert_eq!(
        Optimizer::generate_optimized_stmt(&Statement::Add(1), &mut count),
        Some(Statement::Add(7))
    );
    assert_eq!(count, 0);
    assert_eq!(
        Optimizer::generate_optimized_stmt(&Statement::Add(1), &mut count),
        None
    );
    let mut count: usize = 9;
    assert_eq!(
        Optimizer::generate_optimized_stmt(&Statement::MoveLeft(1), &mut count),
        Some(Statement::MoveLeft(9))
    );
    let mut count: usize = 9;
    assert_eq!(
        Optimizer::generate_optimized_stmt(&Statement::MoveRight(1), &mut count),
        Some(Statement::MoveRight(9))
    );
    let mut count: usize = 9;
    assert_eq!(
        Optimizer::generate_optimized_stmt(&Statement::PutChar, &mut count),
        None
    );
    assert_eq!(count, 0);
    let mut count: usize = 258;
    assert_eq!(
        Optimizer::generate_optimized_stmt(&Statement::Add(1), &mut count),
        Some(Statement::Add(2))
    );
}

#[test]
fn test_optimize_rec_gives_what_is_left() {
    assert_eq!(Optimizer::optimize_rec(&vec![]), Some(vec![]));
    assert_eq!(
        Optimizer::optimize_rec(&vec![Statement::Add(1), Statement::Add(255)]),
        Some(vec![])
    );
    assert_eq!(
        Optimizer::optimize_rec(&vec![Statement::MoveLeft(4), Statement::MoveRight(4)]),
        Some(vec![])
    );
    assert_eq!(
        Optimizer::optimize_rec(&vec![Statement::Add(1), Statement::Add(1)]),
        Some(vec![Statement::Add(2)])
    );
    assert_eq!(
        Optimizer::optimize_rec(&vec![Statement::MoveLeft(4), Statement::MoveRight(9)]),
        Some(vec![Statement::MoveRight(5)])
    );
    assert_eq!(
        Optimizer::optimize_rec(&vec![Statement::MoveLeft(9), Statement::MoveRight(4)]),
        Some(vec![Statement::MoveLeft(5)])
    );
    assert_eq!(
        Optimizer::optimize_rec(&vec![Statement::new_loop(vec![
            Statement::MoveLeft(1),
            Statement::MoveRight(1)
        ])]),
        Some(vec![])
    );
}

#[test]
fn test_optimize_rec_keeps_an_optimized_program() {
    for code in ["", "+-", "++[>+<-]>.", ">+-><<", ",[.,]", ">>[+-[<>]]<+-<."] {
        let mut optimizer = Optimizer::new(Parser::from_reader(code.as_bytes()).parse().unwrap());
        optimizer.optimize(0);
        let fixed = optimizer.yield_back();
        assert_eq!(Optimizer::optimize_rec(&fixed), Some(fixed.clone()));
    }
}

#[test]
fn test_statement_kinds_and_copies() {
    let looped = Statement::new_loop(vec![Statement::Add(1)]);
    assert!(looped.is_equal_type(&Statement::new_loop(vec![])));
    assert!(!looped.is_equal_type(&Statement::Add(1)));
    assert!(Statement::MoveLeft(1).is_equal_type(&Statement::MoveLeft(9)));
    assert!(!Statement::MoveLeft(1).is_equal_type(&Statement::MoveRight(1)));
    assert!(Statement::MoveLeft(1).is_move());
    assert!(Statement::MoveRight(1).is_move());
    assert!(!Statement::Add(1).is_move());
    assert!(!looped.is_move());
    assert_eq!(looped.clone(), looped);
    let program = vec![looped, Statement::PutChar];
    assert_eq!(brainfuck::statement::clone_statements(&program), program);
    assert!(brainfuck::statement::same_statements(&program, &program.clone()));
    assert!(!brainfuck::statement::same_statements(
        &program,
        &vec![Statement::new_loop(vec![Statement::Add(2)]), Statement::PutChar]
    ));
    assert!(!brainfuck::statement::same_statements(&program, &vec![]));
}

fn io_of(program: &Vec<Statement>, found: &mut Vec<Statement>) {
    for statement in program {
        match statement {
            Statement::PutChar | Statement::ReadChar => found.push(statement.clone()),
            Statement::Loop(body) => io_of(body, found),
            _ => {}
        }
    }
}

fn is_settled(program: &Vec<Statement>) -> bool {
    let neighbours_apart = program.windows(2).all(|pair| match (&pair[0], &pair[1]) {
        (Statement::Add(_), Statement::Add(_)) => false,
        (Statement::MoveLeft(a), Statement::MoveLeft(b))
        | (Statement::MoveRight(a), Statement::MoveRight(b)) => a.checked_add(*b).is_none(),
        (first, second) => !(first.is_move() && second.is_move()),
    });
    neighbours_apart
        && program.iter().all(|statement| match statement {
            Statement::Loop(body) => !body.is_empty() && is_settled(body),
            Statement::Add(value) => *value != 0,
            Statement::MoveLeft(shift) | Statement::MoveRight(shift) => *shift != 0,
            _ => true,
        })
}

#[test]
fn test_optimize_keeps_input_and_output_in_order() {
    for code in [",.+-.,", ".[,[.-]+]>,<.", "+[>,<-]..", "[.][,]"] {
        let input = parse(code);
        let mut before = Vec::new();
        io_of(&input, &mut before);
        for budget in [0u32, 1, 2] {
            let mut after = Vec::new();
            io_of(&optimize(&input, budget), &mut after);
            assert_eq!(after, before);
        }
    }
}

#[test]
fn test_optimize_leaves_nothing_to_fuse() {
    let mut programs: Vec<Vec<Statement>> = [">+-><<", "++[>+<-]>.", ">>[+-[<>]]<+-<.", "+-[+-]"]
        .iter()
        .map(|code| parse(code))
        .collect();
    programs.push(vec![
        Statement::MoveRight(usize::MAX),
        Statement::MoveRight(7),
        Statement::Add(0),
        Statement::MoveRight(1),
    ]);
    for program in programs {
        assert!(is_settled(&optimize(&program, 0)));
    }
}
