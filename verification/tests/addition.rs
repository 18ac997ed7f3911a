use turing_add::addition::addition_rules;
use turing_add::machine::TuringMachine;
use turing_add::rules::State;

/// The digits left on the tape after a run, in order, with the marked
/// variants folded back to plain `0`/`1`; blanks and separators are skipped.
fn result_digits(tape: &[char]) -> String {
    let mut digits = String::new();
    for &symbol in tape {
        match symbol {
            '0' | 'O' => digits.push('0'),
            '1' | 'I' => digits.push('1'),
            _ => {}
        }
    }
    digits
}

/// Runs the machine on `_ <left> + <right> _` until it halts and returns the
/// digits of the final tape.
fn add_on_tape(left: &str, right: &str) -> String {
    let mut tape: Vec<char> = vec!['_'];
    tape.extend(left.chars());
    tape.push('+');
    tape.extend(right.chars());
    tape.push('_');
    let mut machine = TuringMachine::new(tape, addition_rules());
    let halted = machine.run(1_000_000);
    assert!(halted);
    assert_eq!(machine.state(), State::Halt);
    result_digits(machine.tape())
}

fn binary(n: u64) -> String {
    format!("{:b}", n)
}

#[test]
fn add_zero_and_zero() {
    let mut machine = TuringMachine::new(vec!['_', '0', '+', '0', '_'], addition_rules());
    let halted = machine.run(1000);
    assert!(halted);
    assert_eq!(machine.tape(), &vec!['_', '+', '+', 'O', '_']);
    assert_eq!(machine.head(), 0);
    assert_eq!(result_digits(machine.tape()), "0");
}

#[test]
fn add_one_and_one() {
    let mut machine = TuringMachine::new(vec!['_', '1', '+', '1', '_'], addition_rules());
    let halted = machine.run(1000);
    assert!(halted);
    assert_eq!(machine.tape(), &vec!['_', '+', '1', 'O', '_']);
    assert_eq!(result_digits(machine.tape()), "10");
}

#[test]
fn add_example_operands() {
    let left = "1010011011";
    let right = "1011";
    let sum = u64::from_str_radix(left, 2).unwrap() + u64::from_str_radix(right, 2).unwrap();
    assert_eq!(add_on_tape(left, right), binary(sum));
}

#[test]
fn add_with_extra_blank_padding() {
    let tape = vec!['_', '_', '1', '0', '+', '1', '_', '_', '_'];
    let mut machine = TuringMachine::new(tape, addition_rules());
    let halted = machine.run(1000);
    assert!(halted);
    assert_eq!(result_digits(machine.tape()), "11");
}

#[test]
fn add_various_operands() {
    let pairs: Vec<(u64, u64)> = vec![
        (0, 1),
        (1, 0),
        (2, 2),
        (5, 3),
        (7, 1),
        (13, 29),
        (100, 27),
        (255, 255),
    ];
    for (a, b) in pairs {
        assert_eq!(add_on_tape(&binary(a), &binary(b)), binary(a + b));
    }
}
