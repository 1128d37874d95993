use brainfuck::{Action, Interpreter, ParseError};

/// Drives a started interpreter to its end, feeding it `input` and
/// collecting what it writes. Gives up after `budget` steps.
fn drive(interpreter: &mut Interpreter, input: &str, budget: usize) -> (String, Action) {
    let mut input = input.chars();
    let mut output = String::new();
    for _ in 0..budget {
        match interpreter.step() {
            Action::Continue => {}
            Action::PutChar(written) => output.push(written),
            Action::ReadChar => match input.next() {
                Some(read) => assert!(interpreter.feed(read)),
                None => return (output, Action::ReadChar),
            },
            last => return (output, last),
        }
    }
    (output, Action::Continue)
}

fn run(code: &str, input: &str, size: usize) -> (String, Action, Vec<u8>) {
    let mut interpreter = Interpreter::from_reader(code.as_bytes(), size);
    interpreter.run().unwrap();
    let (output, last) = drive(&mut interpreter, input, 1_000_000);
    (output, last, interpreter.get_tape())
}

fn run_optimized(code: &str, input: &str, size: usize, budget: u32) -> (String, Action, Vec<u8>) {
    let mut interpreter = Interpreter::from_reader(code.as_bytes(), size);
    interpreter.run_with_optimization(budget).unwrap();
    let (output, last) = drive(&mut interpreter, input, 1_000_000);
    (output, last, interpreter.get_tape())
}

#[test]
fn test_run_emits_letter_a() {
    let code = "+".repeat(65) + ".";
    let (output, last, tape) = run(&code, "", 30000);
    assert_eq!(output, "A");
    assert_eq!(last, Action::Halt);
    assert_eq!(tape[0], 65);
    assert_eq!(tape.len(), 30000);
    let (output, last, tape) = run_optimized(&code, "", 30000, 0);
    assert_eq!(output, "A");
    assert_eq!(last, Action::Halt);
    assert_eq!(tape[0], 65);
}

#[test]
fn test_run_counts_steps_of_straight_code() {
    let code = "+".repeat(65) + ".";
    let mut interpreter = Interpreter::from_reader(code.as_bytes(), 10);
    interpreter.run().unwrap();
    for _ in 0..65 {
        assert_eq!(interpreter.step(), Action::Continue);
    }
    assert_eq!(interpreter.step(), Action::PutChar('A'));
    assert_eq!(interpreter.step(), Action::Halt);
    assert_eq!(interpreter.step(), Action::Halt);
    let mut interpreter = Interpreter::from_reader(code.as_bytes(), 10);
    interpreter.run_with_optimization(1).unwrap();
    assert_eq!(interpreter.step(), Action::Continue);
    assert_eq!(interpreter.step(), Action::PutChar('A'));
    assert_eq!(interpreter.step(), Action::Halt);
}

#[test]
fn test_run_hello_world() {
    let code = "++++++++[>++++[>++>+++>+++>+<<<<-]>+>+>->>+[<]<-]>>.>---.+++++++..+++.>>.<-.<.+++.------.--------.>>+.>++.";
    let (output, last, _) = run(code, "", 100);
    assert_eq!(output, "Hello World!\n");
    assert_eq!(last, Action::Halt);
    let (output, last, _) = run_optimized(code, "", 100, 0);
    assert_eq!(output, "Hello World!\n");
    assert_eq!(last, Action::Halt);
}

#[test]
fn test_run_echoes_input() {
    let (output, last, _) = run(",[.,]", "abc\0", 10);
    assert_eq!(output, "abc");
    assert_eq!(last, Action::Halt);
}

#[test]
fn test_run_waits_for_input() {
    let mut interpreter = Interpreter::from_reader(",.".as_bytes(), 10);
    interpreter.run().unwrap();
    assert_eq!(interpreter.step(), Action::ReadChar);
    assert_eq!(interpreter.step(), Action::ReadChar);
    assert!(interpreter.feed('x'));
    assert!(!interpreter.feed('y'));
    assert_eq!(interpreter.step(), Action::PutChar('x'));
    assert!(!interpreter.feed('z'));
    assert_eq!(interpreter.step(), Action::Halt);
    assert_eq!(interpreter.get_tape()[0], b'x');
}

#[test]
fn test_run_loop_is_checked_before_its_body() {
    let (output, last, tape) = run("[.+]+.", "", 4);
    assert_eq!(output, "\u{1}");
    assert_eq!(last, Action::Halt);
    assert_eq!(tape, vec![1, 0, 0, 0]);
}

#[test]
fn test_run_loop_repeats_while_cell_is_not_zero() {
    let (output, last, tape) = run("+++[>++<-]>.", "", 4);
    assert_eq!(output, "\u{6}");
    assert_eq!(last, Action::Halt);
    assert_eq!(tape, vec![0, 6, 0, 0]);
}

#[test]
fn test_run_nested_loops() {
    let (_, last, tape) = run("++[>+++[>++<-]<-]", "", 3);
    assert_eq!(last, Action::Halt);
    assert_eq!(tape, vec![0, 0, 12]);
}

#[test]
fn test_run_cells_wrap() {
    let (_, last, tape) = run("->--", "", 2);
    assert_eq!(last, Action::Halt);
    assert_eq!(tape, vec![255, 254]);
}

#[test]
fn test_run_reports_move_off_the_tape() {
    let (_, last, _) = run("+<", "", 4);
    assert_eq!(last, Action::LeftOutOfBounds { index: 0, shift: 1 });
    let (_, last, tape) = run(">>>+>", "", 4);
    assert_eq!(
        last,
        Action::RightOutOfBounds {
            index: 3,
            shift: 1,
            size: 4
        }
    );
    assert_eq!(tape, vec![0, 0, 0, 1]);
    let (_, last, _) = run_optimized(">>>>>", "", 4, 0);
    assert_eq!(
        last,
        Action::RightOutOfBounds {
            index: 0,
            shift: 5,
            size: 4
        }
    );
}

#[test]
fn test_run_fault_changes_nothing() {
    let mut interpreter = Interpreter::from_reader("<+".as_bytes(), 4);
    interpreter.run().unwrap();
    let fault = Action::LeftOutOfBounds { index: 0, shift: 1 };
    assert_eq!(interpreter.step(), fault);
    assert_eq!(interpreter.step(), fault);
    assert_eq!(interpreter.get_tape(), vec![0, 0, 0, 0]);
}

#[test]
fn test_run_parse_errors() {
    let mut interpreter = Interpreter::from_reader("[[++++----<<<<>>>>]".as_bytes(), 10);
    assert_eq!(interpreter.run(), Err(ParseError::UnmatchedLoopStart));
    assert_eq!(interpreter.step(), Action::Halt);
    let mut interpreter = Interpreter::from_reader("[++++----]<<<<>>>>]".as_bytes(), 10);
    assert_eq!(
        interpreter.run_with_optimization(0),
        Err(ParseError::UnmatchedLoopEnd)
    );
    assert_eq!(interpreter.step(), Action::Halt);
}

#[test]
fn test_run_before_parsing_halts() {
    let mut interpreter = Interpreter::from_reader("+.".as_bytes(), 3);
    assert_eq!(interpreter.step(), Action::Halt);
    assert!(!interpreter.feed('a'));
    assert_eq!(interpreter.get_tape(), vec![0, 0, 0]);
}

#[test]
fn test_run_empty_program() {
    let (output, last, tape) = run("", "", 2);
    assert_eq!(output, "");
    assert_eq!(last, Action::Halt);
    assert_eq!(tape, vec![0, 0]);
}

#[test]
fn test_run_optimized_agrees_on_tape_and_output() {
    let programs = [
        "++>+++[<+>-]<.",
        ",>,<[->+<]>.",
        "+++++[>+++++[>++<-]<-]>>.",
        "+>+>+<<[-]>[-]>[-]",
    ];
    for code in programs {
        let plain = run(code, "\u{3}\u{4}", 16);
        for budget in [0u32, 1, 2] {
            assert_eq!(run_optimized(code, "\u{3}\u{4}", 16, budget), plain);
        }
    }
}
