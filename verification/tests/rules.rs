use turing_add::addition::addition_rules;
use turing_add::rules::{Direction, Rule, RuleTable, State};

#[test]
fn empty_table_has_no_rule() {
    let t = RuleTable::new();
    assert!(t.lookup(State::FindPlus, '0').is_none());
    assert!(t.lookup(State::Halt, '_').is_none());
}

#[test]
fn lookup_finds_inserted_rule() {
    let mut t = RuleTable::new();
    t.insert(Rule {
        state: State::FindPlus,
        symbol: 'a',
        write: 'b',
        direction: Direction::Right,
        next: State::Halt,
    });
    let rule = t.lookup(State::FindPlus, 'a').unwrap();
    assert_eq!(rule.state, State::FindPlus);
    assert_eq!(rule.symbol, 'a');
    assert_eq!(rule.write, 'b');
    assert_eq!(rule.direction, Direction::Right);
    assert_eq!(rule.next, State::Halt);
    assert!(t.lookup(State::FindPlus, 'b').is_none());
    assert!(t.lookup(State::GetLast, 'a').is_none());
}

#[test]
fn insert_overrides_earlier_rule_for_same_key() {
    let mut t = RuleTable::new();
    t.insert(Rule {
        state: State::Carry,
        symbol: '1',
        write: 'x',
        direction: Direction::Right,
        next: State::Halt,
    });
    t.insert(Rule {
        state: State::Carry,
        symbol: '1',
        write: '0',
        direction: Direction::Left,
        next: State::Carry,
    });
    let rule = t.lookup(State::Carry, '1').unwrap();
    assert_eq!(rule.write, '0');
    assert_eq!(rule.direction, Direction::Left);
    assert_eq!(rule.next, State::Carry);
}

#[test]
fn addition_table_holds_the_expected_rules() {
    let t = addition_rules();
    let rule = t.lookup(State::FindPlus, '+').unwrap();
    assert_eq!(rule.write, '+');
    assert_eq!(rule.direction, Direction::Left);
    assert_eq!(rule.next, State::GetLast);
    let rule = t.lookup(State::GetLast, '1').unwrap();
    assert_eq!(rule.write, '+');
    assert_eq!(rule.direction, Direction::Right);
    assert_eq!(rule.next, State::AddOne);
    let rule = t.lookup(State::AddDigitOne, '1').unwrap();
    assert_eq!(rule.write, 'O');
    assert_eq!(rule.direction, Direction::Left);
    assert_eq!(rule.next, State::Carry);
    let rule = t.lookup(State::Carry, '1').unwrap();
    assert_eq!(rule.write, '0');
    assert_eq!(rule.direction, Direction::Left);
    assert_eq!(rule.next, State::Carry);
    // No rule ever leaves Halt, and GetLast has no rule for a blank: that
    // pair is how a finished addition stops.
    assert!(t.lookup(State::Halt, '_').is_none());
    assert!(t.lookup(State::GetLast, '_').is_none());
}
