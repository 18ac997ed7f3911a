//! Control states, head directions, and the transition table.
//!
//! A [`RuleTable`] is a pure mapping from a (control state, tape symbol) pair
//! to the action taken when the head reads that symbol in that state: the
//! symbol to write, the direction to move, and the next control state.  The
//! table is built once, by repeated [`RuleTable::insert`] calls, and is never
//! mutated while a machine runs.  [`addition_rules`] builds the specific
//! table that performs binary addition.

use vstd::prelude::*;

verus! {

/// The control state of the machine: one phase of the binary-addition
/// algorithm, which peels the last digit off the first operand and deposits
/// it, with carries, at the end of the second operand.
#[derive(PartialEq, Eq, Structural, Clone, Copy, Debug)]
pub enum State {
    /// Scanning rightward over the first operand to find the `+` separator.
    FindPlus,
    /// Just left of the separator, inspecting the rightmost unconsumed digit
    /// of the first operand.
    GetLast,
    /// A `1` must be added to the second operand; scanning rightward for the
    /// place to add it.
    AddOne,
    /// A `0` must be added to the second operand; scanning rightward for the
    /// place to add it.
    AddZero,
    /// Positioned just past the second operand's last unmarked digit, about
    /// to mark it with an added `0`.
    AddDigitZero,
    /// Positioned just past the second operand's last unmarked digit, about
    /// to mark it with an added `1`, possibly generating a carry.
    AddDigitOne,
    /// Propagating a carry leftward until a digit absorbs it.
    Carry,
    /// Returning the head to the left end of the tape for the next pass.
    BackToStart,
    /// Terminal: no transition ever leaves this state.
    Halt,
}

/// The direction of one head movement.  There is no "stay" value.
#[derive(PartialEq, Eq, Structural, Clone, Copy, Debug)]
pub enum Direction {
    /// Move one cell to the left.
    Left,
    /// Move one cell to the right.
    Right,
}

/// One transition rule: in `state`, reading `symbol`, write `write`, move
/// the head in `direction`, and enter `next`.
#[derive(PartialEq, Eq, Structural, Clone, Copy, Debug)]
pub struct Rule {
    pub state: State,
    pub symbol: char,
    pub write: char,
    pub direction: Direction,
    pub next: State,
}

/// The mapping that a sequence of rules denotes.  A later entry for the same
/// (state, symbol) key overrides an earlier one, exactly as repeated
/// insertions into a map would.
pub open spec fn rules_map(s: Seq<Rule>) -> Map<(State, char), (char, Direction, State)>
    decreases s.len(),
{
    if s.len() == 0 {
        Map::empty()
    } else {
        rules_map(s.drop_last()).insert(
            (s.last().state, s.last().symbol),
            (s.last().write, s.last().direction, s.last().next),
        )
    }
}

/// A transition table.  Viewed as the mapping from (state, symbol) keys to
/// (write, direction, next) actions that its entries denote.
pub struct RuleTable {
    entries: Vec<Rule>,
}

impl View for RuleTable {
    type V = Map<(State, char), (char, Direction, State)>;

    closed spec fn view(&self) -> Map<(State, char), (char, Direction, State)> {
        rules_map(self.entries@)
    }
}

impl RuleTable {
    /// An empty table: no (state, symbol) pair has a rule.
    pub fn new() -> (t: RuleTable)
        ensures
            t@ == Map::<(State, char), (char, Direction, State)>::empty(),
    {
        RuleTable { entries: Vec::new() }
    }

    /// Adds `rule` to the table, replacing any earlier rule for the same
    /// (state, symbol) key.
    pub fn insert(&mut self, rule: Rule)
        ensures
            final(self)@ == old(self)@.insert(
                (rule.state, rule.symbol),
                (rule.write, rule.direction, rule.next),
            ),
    {
        self.entries.push(rule);
        proof {
            assert(self.entries@.drop_last() =~= old(self).entries@);
        }
    }

    /// Looks up the rule for (`state`, `symbol`): `Some` holding exactly the
    /// table's action for that key, or `None` when the table has no rule for
    /// it.
    pub fn lookup(&self, state: State, symbol: char) -> (r: Option<Rule>)
        ensures
            match r {
                Some(rule) => {
                    &&& self@.contains_key((state, symbol))
                    &&& rule.state == state
                    &&& rule.symbol == symbol
                    &&& self@[(state, symbol)] == (rule.write, rule.direction, rule.next)
                },
                None => !self@.contains_key((state, symbol)),
            },
    {
        let mut found: Option<Rule> = None;
        let mut i: usize = 0;
        while i < self.entries.len()
            invariant
                i <= self.entries@.len(),
                match found {
                    Some(rule) => {
                        &&& rules_map(self.entries@.take(i as int)).contains_key((state, symbol))
                        &&& rule.state == state
                        &&& rule.symbol == symbol
                        &&& rules_map(self.entries@.take(i as int))[(state, symbol)]
                            == (rule.write, rule.direction, rule.next)
                    },
                    None => !rules_map(self.entries@.take(i as int)).contains_key((state, symbol)),
                },
            decreases self.entries@.len() - i,
        {
            let e = self.entries[i];
            proof {
                assert(self.entries@.take(i + 1).drop_last() =~= self.entries@.take(i as int));
                assert(self.entries@.take(i + 1).last() == self.entries@[i as int]);
            }
            if e.state == state && e.symbol == symbol {
                found = Some(e);
            }
            i = i + 1;
        }
        proof {
            assert(self.entries@.take(self.entries@.len() as int) =~= self.entries@);
        }
        found
    }
}

} // verus!
