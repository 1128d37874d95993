use brainfuck::BrainfuckMachine;

fn current(machine: &BrainfuckMachine) -> u8 {
    machine.get_tape()[machine.index()]
}

#[test]
fn test_index_change_base() {
    let mut machine = BrainfuckMachine::new(10);
    assert_eq!(machine.index(), 0);
    machine.move_right(5);
    assert_eq!(machine.index(), 5);
    machine.move_left(3);
    assert_eq!(machine.index(), 2);
}

#[test]
fn test_value_change_base() {
    let mut machine = BrainfuckMachine::new(10);
    assert_eq!(
        current(&machine),
        0,
        "Current cell value: {}.",
        current(&machine)
    );
    machine.add(69);
    assert_eq!(current(&machine), 69);
    machine.substract(42);
    assert_eq!(current(&machine), 27);
}

#[test]
fn test_value_change_wrap() {
    let mut machine = BrainfuckMachine::new(10);
    assert_eq!(
        current(&machine),
        0,
        "Current cell value: {}.",
        current(&machine)
    );
    machine.substract(11);
    assert_eq!(
        current(&machine),
        245,
        "Current cell value: {}.",
        current(&machine)
    );
    machine.add(23);
    assert_eq!(
        current(&machine),
        12,
        "Current cell value: {}.",
        current(&machine)
    );
}

#[test]
fn test_put_char() {
    let mut machine = BrainfuckMachine::new(10);
    machine.add(65);
    let result: char = machine.put_char();
    assert_eq!(
        result, 'A',
        "Different char read. Char read: {}.",
        result as u8
    );
}

#[test]
fn test_read_char() {
    let mut machine = BrainfuckMachine::new(10);
    machine.read_char('A');
    let result = current(&machine);
    assert_eq!(result, 65, "Different char read. Char read: {}.", result);
}

#[test]
fn test_check_loop() {
    let mut machine = BrainfuckMachine::new(10);
    assert!(!machine.check_loop());
    machine.add(4);
    assert!(machine.check_loop());
    machine.substract(4);
    assert!(!machine.check_loop());
}

#[test]
fn test_new_tape_is_zeroed() {
    let machine = BrainfuckMachine::new(4);
    assert_eq!(machine.size(), 4);
    assert_eq!(machine.index(), 0);
    assert_eq!(machine.get_tape(), vec![0u8, 0, 0, 0]);
}

#[test]
fn test_move_to_both_ends() {
    let mut machine = BrainfuckMachine::new(10);
    machine.move_right(9);
    assert_eq!(machine.index(), 9);
    machine.move_left(9);
    assert_eq!(machine.index(), 0);
    machine.move_right(0);
    machine.move_left(0);
    assert_eq!(machine.index(), 0);
}

#[test]
fn test_cells_are_independent() {
    let mut machine = BrainfuckMachine::new(3);
    machine.add(7);
    machine.move_right(2);
    machine.substract(1);
    assert_eq!(machine.get_tape(), vec![7u8, 0, 255]);
}

#[test]
fn test_read_char_truncates_wide_characters() {
    let mut machine = BrainfuckMachine::new(2);
    machine.read_char('\u{141}');
    assert_eq!(current(&machine), 0x41);
    assert_eq!(machine.put_char(), 'A');
}

#[test]
fn test_put_char_above_ascii() {
    let mut machine = BrainfuckMachine::new(2);
    machine.add(233);
    assert_eq!(machine.put_char(), '\u{e9}');
}
