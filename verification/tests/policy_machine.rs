use brainfuck::brainfuck::BrainfuckMachine;

fn current(machine: &BrainfuckMachine) -> u8 {
    machine.get_tape()[machine.index()]
}

#[test]
fn tests_test_machine_index_change_base() {
    let mut machine = BrainfuckMachine::new(10, false, false);
    assert_eq!(machine.index(), 0);
    machine.move_right(5);
    assert_eq!(machine.index(), 5);
    machine.move_left(3);
    assert_eq!(machine.index(), 2);
}

#[test]
fn test_machine_index_change_no_wrap() {
    let mut machine = BrainfuckMachine::new(10, false, false);
    machine.move_left(3);
    assert_eq!(
        machine.index(),
        0,
        "Left wrap doesn't pass, index: {}.",
        machine.index()
    );
    machine.move_right(10);
    assert_eq!(
        machine.index(),
        9,
        "Right wrap doesn't pass, index: {}.",
        machine.index()
    );
}

#[test]
fn test_machine_index_change_wrap() {
    let mut machine = BrainfuckMachine::new(10, true, false);
    machine.move_left(3);
    assert_eq!(
        machine.index(),
        7,
        "Left wrap doesn't pass, index: {}.",
        machine.index()
    );
    machine.move_right(6);
    assert_eq!(
        machine.index(),
        3,
        "Right wrap doesn't pass, index: {}.",
        machine.index()
    );
}

#[test]
fn tests_test_machine_value_change_base() {
    let mut machine = BrainfuckMachine::new(10, false, true);
    assert_eq!(
        current(&machine),
        0,
        "Current cell value: {}.",
        current(&machine)
    );
    machine.add(69);
    assert_eq!(current(&machine), 69);
    machine.substract(42);
    assert_eq!(current(&machine), 27);
}

#[test]
fn tests_test_machine_value_change_wrap() {
    let mut machine = BrainfuckMachine::new(10, false, true);
    assert_eq!(
        current(&machine),
        0,
        "Current cell value: {}.",
        current(&machine)
    );
    machine.substract(11);
    assert_eq!(
        current(&machine),
        245,
        "Current cell value: {}.",
        current(&machine)
    );
    machine.add(23);
    assert_eq!(
        current(&machine),
        12,
        "Current cell value: {}.",
        current(&machine)
    );
}

#[test]
fn test_machine_value_change_no_wrap() {
    let mut machine = BrainfuckMachine::new(10, false, false);
    assert_eq!(
        current(&machine),
        0,
        "Current cell value: {}.",
        current(&machine)
    );
    machine.substract(11);
    assert_eq!(
        current(&machine),
        0,
        "Current cell value: {}.",
        current(&machine)
    );
    machine.add(255);
    machine.add(255);
    assert_eq!(
        current(&machine),
        255,
        "Current cell value: {}.",
        current(&machine)
    );
}

#[test]
fn tests_test_machine_put_char() {
    let mut machine = BrainfuckMachine::new(10, false, false);
    machine.add(65);
    let result: char = machine.put_char();
    assert_eq!(
        result, 'A',
        "Different char read. Char read: {}.",
        result as u8
    );
}

#[test]
fn tests_test_machine_read_char() {
    let mut machine = BrainfuckMachine::new(10, false, false);
    machine.read_char('A');
    let result = current(&machine);
    assert_eq!(result, 65, "Different char read. Char read: {}.", result);
}

#[test]
fn tests_test_machine_check_loop() {
    let mut machine = BrainfuckMachine::new(10, false, false);
    assert!(!machine.check_loop());
    machine.add(4);
    assert!(machine.check_loop());
    machine.substract(4);
    assert!(!machine.check_loop());
}

#[test]
fn test_add_with_wrap_values() {
    assert_eq!(BrainfuckMachine::add_with_wrap(3, 6, 10), 9);
    assert_eq!(BrainfuckMachine::add_with_wrap(3, 7, 10), 0);
    assert_eq!(BrainfuckMachine::add_with_wrap(9, 10, 10), 9);
    assert_eq!(BrainfuckMachine::add_with_wrap(9, 25, 10), 4);
    assert_eq!(BrainfuckMachine::add_with_wrap(usize::MAX, usize::MAX, usize::MAX), 0);
    assert_eq!(BrainfuckMachine::add_with_wrap(usize::MAX - 1, usize::MAX - 1, usize::MAX), usize::MAX - 2);
    assert_eq!(BrainfuckMachine::add_with_wrap(0, 0, 1), 0);
}

#[test]
fn test_sub_with_wrap_values() {
    assert_eq!(BrainfuckMachine::sub_with_wrap(3, 2, 10), 1);
    assert_eq!(BrainfuckMachine::sub_with_wrap(0, 3, 10), 7);
    assert_eq!(BrainfuckMachine::sub_with_wrap(0, 10, 10), 0);
    assert_eq!(BrainfuckMachine::sub_with_wrap(0, 23, 10), 7);
    assert_eq!(BrainfuckMachine::sub_with_wrap(5, 5, 10), 0);
    assert_eq!(BrainfuckMachine::sub_with_wrap(0, usize::MAX - 1, usize::MAX), 1);
}

#[test]
fn test_move_left_from_first_cell_wraps_modulo_size() {
    for size in 2usize..12 {
        for shift in 0usize..40 {
            let mut machine = BrainfuckMachine::new(size, true, true);
            machine.move_left(shift);
            assert_eq!(machine.index(), (size - shift % size) % size);
        }
    }
}

#[test]
fn test_move_left_from_first_cell_clamps() {
    for size in 2usize..12 {
        for shift in 0usize..40 {
            let mut machine = BrainfuckMachine::new(size, false, true);
            machine.move_left(shift);
            assert_eq!(machine.index(), 0);
        }
    }
}

#[test]
fn test_move_by_more_than_the_tape_wraps() {
    let mut machine = BrainfuckMachine::new(10, true, false);
    machine.move_right(25);
    assert_eq!(machine.index(), 5);
    machine.move_left(17);
    assert_eq!(machine.index(), 8);
    machine.move_right(usize::MAX);
    assert_eq!(machine.index(), (8 + usize::MAX % 10) % 10);
}

#[test]
fn test_move_right_clamps_on_huge_shift() {
    let mut machine = BrainfuckMachine::new(10, false, false);
    machine.move_right(4);
    machine.move_right(usize::MAX);
    assert_eq!(machine.index(), 9);
    machine.move_left(usize::MAX);
    assert_eq!(machine.index(), 0);
}

#[test]
fn test_tape_of_one_cell() {
    let mut wrapping = BrainfuckMachine::new(1, true, true);
    wrapping.move_left(3);
    assert_eq!(wrapping.index(), 0);
    wrapping.move_right(5);
    assert_eq!(wrapping.index(), 0);
    let mut clamping = BrainfuckMachine::new(1, false, true);
    clamping.move_right(5);
    assert_eq!(clamping.index(), 0);
}

#[test]
fn test_add_then_substract_restores_when_wrapping() {
    for start in [0u8, 1, 100, 200, 255] {
        for value in [0u8, 1, 55, 56, 128, 255] {
            let mut machine = BrainfuckMachine::new(3, true, true);
            machine.add(start);
            machine.add(value);
            machine.substract(value);
            assert_eq!(current(&machine), start);
        }
    }
}

#[test]
fn test_add_then_substract_restores_only_without_clamping() {
    for start in [0u8, 1, 100, 200, 255] {
        for value in [0u8, 1, 55, 56, 128, 255] {
            let mut machine = BrainfuckMachine::new(3, true, false);
            machine.add(start);
            machine.add(value);
            machine.substract(value);
            let fits = start as u16 + value as u16 <= 255;
            assert_eq!(current(&machine) == start, fits);
            if !fits {
                assert_eq!(current(&machine), 255 - value);
            }
        }
    }
}

#[test]
fn test_policy_machine_new_tape_is_zeroed() {
    let machine = BrainfuckMachine::new(3, true, false);
    assert_eq!(machine.size(), 3);
    assert_eq!(machine.index(), 0);
    assert_eq!(machine.get_tape(), vec![0u8, 0, 0]);
}
