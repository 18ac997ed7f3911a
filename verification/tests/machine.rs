use turing_add::addition::addition_rules;
use turing_add::machine::TuringMachine;
use turing_add::rules::{Direction, Rule, RuleTable, State};

fn empty_table() -> RuleTable {
    RuleTable::new()
}

#[test]
fn new_starts_at_find_plus_with_head_at_zero() {
    let m = TuringMachine::new(vec!['_', '1', '+', '1', '_'], empty_table());
    assert_eq!(m.state(), State::FindPlus);
    assert_eq!(m.head(), 0);
    assert_eq!(m.tape(), &vec!['_', '1', '+', '1', '_']);
}

#[test]
fn read_returns_symbol_under_head() {
    let m = TuringMachine::new(vec!['a', 'b'], empty_table());
    assert_eq!(m.read(), 'a');
}

#[test]
fn read_twice_returns_same_symbol() {
    let m = TuringMachine::new(vec!['a', 'b'], empty_table());
    let first = m.read();
    let second = m.read();
    assert_eq!(first, second);
}

#[test]
fn write_then_read_returns_written_symbol() {
    let mut m = TuringMachine::new(vec!['a', 'b'], empty_table());
    m.write('z');
    assert_eq!(m.read(), 'z');
    assert_eq!(m.tape(), &vec!['z', 'b']);
    assert_eq!(m.head(), 0);
}

#[test]
fn move_right_within_bounds_does_not_grow() {
    let mut m = TuringMachine::new(vec!['a', 'b'], empty_table());
    m.move_head(Direction::Right);
    assert_eq!(m.head(), 1);
    assert_eq!(m.tape(), &vec!['a', 'b']);
}

#[test]
fn move_right_at_end_grows_by_one_blank() {
    let mut m = TuringMachine::new(vec!['a', 'b'], empty_table());
    m.move_head(Direction::Right);
    m.move_head(Direction::Right);
    assert_eq!(m.head(), 2);
    assert_eq!(m.tape(), &vec!['a', 'b', '_']);
}

#[test]
fn move_left_within_bounds_does_not_grow() {
    let mut m = TuringMachine::new(vec!['a', 'b'], empty_table());
    m.move_head(Direction::Right);
    m.move_head(Direction::Left);
    assert_eq!(m.head(), 0);
    assert_eq!(m.tape(), &vec!['a', 'b']);
}

#[test]
fn move_left_at_start_grows_by_one_blank_on_the_left() {
    let mut m = TuringMachine::new(vec!['a', 'b'], empty_table());
    m.move_head(Direction::Left);
    assert_eq!(m.head(), 0);
    assert_eq!(m.tape(), &vec!['_', 'a', 'b']);
}

#[test]
fn step_applies_matching_rule() {
    let mut t = RuleTable::new();
    t.insert(Rule {
        state: State::FindPlus,
        symbol: 'a',
        write: 'b',
        direction: Direction::Right,
        next: State::Halt,
    });
    let mut m = TuringMachine::new(vec!['a'], t);
    m.step();
    assert_eq!(m.tape(), &vec!['b', '_']);
    assert_eq!(m.head(), 1);
    assert_eq!(m.state(), State::Halt);
}

#[test]
fn step_with_no_rule_halts_without_touching_tape_or_head() {
    let tape = vec!['_', 'x', '+', '1', '_'];
    let mut m = TuringMachine::new(tape.clone(), addition_rules());
    m.step();
    assert_eq!(m.head(), 1);
    m.step();
    assert_eq!(m.state(), State::Halt);
    assert_eq!(m.head(), 1);
    assert_eq!(m.tape(), &tape);
}

#[test]
fn run_with_zero_steps_changes_nothing() {
    let mut m = TuringMachine::new(vec!['_', '1', '+', '1', '_'], addition_rules());
    let halted = m.run(0);
    assert!(!halted);
    assert_eq!(m.state(), State::FindPlus);
    assert_eq!(m.head(), 0);
    assert_eq!(m.tape(), &vec!['_', '1', '+', '1', '_']);
}

#[test]
fn run_stops_at_the_step_ceiling_and_can_resume() {
    let mut m = TuringMachine::new(vec!['_', '1', '+', '1', '_'], addition_rules());
    let halted = m.run(2);
    assert!(!halted);
    assert_eq!(m.state(), State::FindPlus);
    assert_eq!(m.head(), 2);
    let halted = m.run(1000);
    assert!(halted);
    assert_eq!(m.state(), State::Halt);
}

#[test]
fn run_on_a_halted_machine_changes_nothing() {
    let mut m = TuringMachine::new(vec!['x'], empty_table());
    let halted = m.run(10);
    assert!(halted);
    let tape = m.tape().clone();
    let head = m.head();
    let halted = m.run(10);
    assert!(halted);
    assert_eq!(m.tape(), &tape);
    assert_eq!(m.head(), head);
    assert_eq!(m.state(), State::Halt);
}
