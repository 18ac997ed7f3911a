//! The machine engine: tape, head, control state, and stepping.
//!
//! The tape is a finite backing vector that stands for a tape unbounded in
//! both directions: whenever a head movement would leave the current bounds,
//! the tape grows by exactly one blank cell on that side, so the head is
//! always on a valid cell.

use vstd::prelude::*;

use crate::rules::{Direction, RuleTable, State};

verus! {

/// The blank tape symbol.
pub const BLANK: char = '_';

/// A mathematical snapshot of a machine: tape contents, head position,
/// control state, and the transition mapping.
pub ghost struct Config {
    pub tape: Seq<char>,
    pub head: int,
    pub state: State,
    pub rules: Map<(State, char), (char, Direction, State)>,
}

impl Config {
    /// Well-formedness: the head is strictly inside the tape.
    pub open spec fn wf(self) -> bool {
        0 <= self.head < self.tape.len()
    }
}

/// Overwriting the cell under the head.
pub open spec fn write_config(c: Config, symbol: char) -> Config {
    Config { tape: c.tape.update(c.head, symbol), head: c.head, state: c.state, rules: c.rules }
}

/// Moving the head one cell.  A move off the left end inserts one blank cell
/// at index 0 and leaves the head on it; a move off the right end appends one
/// blank cell, and the head lands on it.
pub open spec fn move_config(c: Config, direction: Direction) -> Config {
    match direction {
        Direction::Left => {
            if c.head > 0 {
                Config { tape: c.tape, head: c.head - 1, state: c.state, rules: c.rules }
            } else {
                Config { tape: c.tape.insert(0, BLANK), head: 0, state: c.state, rules: c.rules }
            }
        },
        Direction::Right => {
            if c.head + 1 < c.tape.len() {
                Config { tape: c.tape, head: c.head + 1, state: c.state, rules: c.rules }
            } else {
                Config { tape: c.tape.push(BLANK), head: c.head + 1, state: c.state, rules: c.rules }
            }
        },
    }
}

/// One step.  When the table has a rule for (state, symbol under the head),
/// its symbol is written, the head moves in its direction, and its next
/// state is adopted; with no matching rule the machine halts in place,
/// changing neither the tape nor the head.
pub open spec fn step_config(c: Config) -> Config {
    let key = (c.state, c.tape[c.head]);
    if c.rules.contains_key(key) {
        let (symbol, direction, next) = c.rules[key];
        let moved = move_config(write_config(c, symbol), direction);
        Config { tape: moved.tape, head: moved.head, state: next, rules: c.rules }
    } else {
        Config { tape: c.tape, head: c.head, state: State::Halt, rules: c.rules }
    }
}

/// Up to `n` steps, stopping as soon as the machine is in `Halt`.
pub open spec fn run_config(c: Config, n: nat) -> Config
    decreases n,
{
    if n == 0 || c.state == State::Halt {
        c
    } else {
        run_config(step_config(c), (n - 1) as nat)
    }
}

/// The head never leaves the tape: stepping a well-formed configuration
/// yields a well-formed one, so the head index stays within
/// `[0, tape.len())` after every step, growth-triggering moves included.
pub proof fn lemma_step_preserves_wf(c: Config)
    requires
        c.wf(),
    ensures
        step_config(c).wf(),
{
}

/// Tape growth is lazy and single-celled: one step changes the tape length
/// by at most one cell, and by exactly one precisely when a matched rule
/// moves the head over an edge of the current tape — leftward while the
/// head is at index 0, or rightward while it is on the last cell.
pub proof fn lemma_growth_is_lazy(c: Config)
    requires
        c.wf(),
    ensures
        step_config(c).tape.len() == c.tape.len() || step_config(c).tape.len() == c.tape.len()
            + 1,
        step_config(c).tape.len() == c.tape.len() + 1 <==> c.rules.contains_key(
            (c.state, c.tape[c.head]),
        ) && (
            (c.rules[(c.state, c.tape[c.head])].1 == Direction::Left && c.head == 0)
            || (c.rules[(c.state, c.tape[c.head])].1 == Direction::Right && c.head + 1
                == c.tape.len())
        ),
{
}

/// A missing rule halts the machine in place: when the table has no rule
/// for the current (state, symbol) pair, the step changes neither the tape
/// nor the head, and the control state becomes `Halt`.
pub proof fn lemma_no_rule_halts(c: Config)
    requires
        !c.rules.contains_key((c.state, c.tape[c.head])),
    ensures
        step_config(c).tape == c.tape,
        step_config(c).head == c.head,
        step_config(c).state == State::Halt,
{
}

/// Fueled runs compose: running for `a + b` steps is running for `a` steps
/// and then for `b` more.  In particular a run that was cut off by its step
/// ceiling can simply be resumed.
pub proof fn lemma_run_config_splits(c: Config, a: nat, b: nat)
    ensures
        run_config(c, a + b) == run_config(run_config(c, a), b),
    decreases a,
{
    if c.state == State::Halt {
        assert(run_config(c, a + b) == c);
        assert(run_config(c, a) == c);
        assert(run_config(c, b) == c);
    } else if a == 0 {
        assert(run_config(c, 0) == c);
    } else {
        lemma_run_config_splits(step_config(c), (a - 1) as nat, b);
        assert(run_config(c, a + b) == run_config(step_config(c), (a + b - 1) as nat));
        assert(run_config(c, a) == run_config(step_config(c), (a - 1) as nat));
    }
}

/// The machine: a tape of symbols, the head's index into it, the current
/// control state, and the transition table, consulted and never changed.
pub struct TuringMachine {
    tape: Vec<char>,
    head: usize,
    state: State,
    rules: RuleTable,
}

impl View for TuringMachine {
    type V = Config;

    closed spec fn view(&self) -> Config {
        Config { tape: self.tape@, head: self.head as int, state: self.state, rules: self.rules@ }
    }
}

impl TuringMachine {
    /// Well-formedness: the head is strictly inside the tape.  Established
    /// by [`TuringMachine::new`] and preserved by every operation.
    pub open spec fn wf(&self) -> bool {
        self@.wf()
    }

    /// Creates a machine on `tape` with the head on the leftmost cell, in
    /// the initial state `FindPlus`.
    pub fn new(tape: Vec<char>, rules: RuleTable) -> (m: TuringMachine)
        requires
            tape@.len() >= 1,
        ensures
            m@ == (Config { tape: tape@, head: 0, state: State::FindPlus, rules: rules@ }),
            m.wf(),
    {
        TuringMachine { tape, head: 0, state: State::FindPlus, rules }
    }

    /// The symbol under the head.  A pure observation: the result is fixed
    /// by the machine's current configuration, so two reads with nothing in
    /// between return the same symbol.
    pub fn read(&self) -> (symbol: char)
        requires
            self.wf(),
        ensures
            symbol == self@.tape[self@.head],
    {
        self.tape[self.head]
    }

    /// Overwrites the cell under the head.
    pub fn write(&mut self, symbol: char)
        requires
            old(self).wf(),
        ensures
            final(self)@ == write_config(old(self)@, symbol),
            final(self).wf(),
    {
        self.tape[self.head] = symbol;
    }

    /// Moves the head one cell in `direction`, growing the tape by one blank
    /// cell when the move would otherwise leave the current bounds.
    pub fn move_head(&mut self, direction: Direction)
        requires
            old(self).wf(),
        ensures
            final(self)@ == move_config(old(self)@, direction),
            final(self).wf(),
    {
        match direction {
            Direction::Left => {
                if self.head > 0 {
                    self.head = self.head - 1;
                } else {
                    self.tape.insert(0, BLANK);
                }
            },
            Direction::Right => {
                let n = self.tape.len();
                self.head = self.head + 1;
                if self.head >= n {
                    self.tape.push(BLANK);
                }
            },
        }
    }

    /// Executes one step, as [`step_config`] describes: look the (state,
    /// symbol) pair up; on a match write, move, and change state; with no
    /// matching rule, halt in place.
    pub fn step(&mut self)
        requires
            old(self).wf(),
        ensures
            final(self)@ == step_config(old(self)@),
            final(self).wf(),
    {
        let symbol = self.read();
        match self.rules.lookup(self.state, symbol) {
            Some(rule) => {
                self.write(rule.write);
                self.move_head(rule.direction);
                self.state = rule.next;
            },
            None => {
                self.state = State::Halt;
            },
        }
    }

    /// Runs the machine for at most `max_steps` steps, stopping early when
    /// it halts.  Returns whether the machine is in `Halt` afterwards.
    pub fn run(&mut self, max_steps: u64) -> (halted: bool)
        requires
            old(self).wf(),
        ensures
            final(self)@ == run_config(old(self)@, max_steps as nat),
            final(self).wf(),
            halted <==> final(self)@.state == State::Halt,
    {
        let mut steps: u64 = 0;
        while steps < max_steps && self.state != State::Halt
            invariant
                self.wf(),
                steps <= max_steps,
                run_config(old(self)@, max_steps as nat)
                    == run_config(self@, (max_steps - steps) as nat),
            decreases max_steps - steps,
        {
            self.step();
            steps = steps + 1;
        }
        self.state == State::Halt
    }

    /// The current control state.
    pub fn state(&self) -> (state: State)
        ensures
            state == self@.state,
    {
        self.state
    }

    /// The current head index.
    pub fn head(&self) -> (head: usize)
        ensures
            head == self@.head,
    {
        self.head
    }

    /// The current tape contents.
    pub fn tape(&self) -> (tape: &Vec<char>)
        ensures
            tape@ == self@.tape,
    {
        &self.tape
    }
}

} // verus!
