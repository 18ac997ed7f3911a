//! The transition table for binary addition.
//!
//! The tape initially holds the two operands in binary, separated by
//! [`PLUS`], with blanks around them.  The algorithm repeatedly peels the
//! last digit off the first operand and deposits it, ripple-carry style, at
//! the end of the second operand: a digit already copied into the result is
//! marked — `0` becomes [`ZERO_MARKED`], `1` becomes [`ONE_MARKED`] — so
//! later passes skip it when looking for the rightmost unmarked digit.  The
//! machine halts through the no-rule path once the first operand has no
//! digit left.
//!
//! [`lemma_addition_halts`] proves that this always happens: on every
//! well-formed input tape the machine reaches `Halt`, and the digits then
//! left on the tape read in binary as the sum of the two operands.

use vstd::arithmetic::power2::{lemma_pow2_adds, lemma_pow2_unfold, pow2};
use vstd::prelude::*;

use crate::machine::{run_config, step_config, Config, BLANK};
use crate::rules::{Direction, Rule, RuleTable, State};

verus! {

/// The digit zero.
pub const ZERO: char = '0';

/// The digit one.
pub const ONE: char = '1';

/// The separator between the two operands.
pub const PLUS: char = '+';

/// A zero of the second operand that has already been copied into the sum.
pub const ZERO_MARKED: char = 'O';

/// A one of the second operand that has already been copied into the sum.
pub const ONE_MARKED: char = 'I';

/// The mapping that [`addition_rules`] builds.
pub open spec fn addition_rules_map() -> Map<(State, char), (char, Direction, State)> {
    Map::empty()
        .insert((State::FindPlus, BLANK), (BLANK, Direction::Right, State::FindPlus))
        .insert((State::FindPlus, ONE), (ONE, Direction::Right, State::FindPlus))
        .insert((State::FindPlus, ZERO), (ZERO, Direction::Right, State::FindPlus))
        .insert((State::FindPlus, PLUS), (PLUS, Direction::Left, State::GetLast))
        .insert((State::GetLast, ZERO), (PLUS, Direction::Right, State::AddZero))
        .insert((State::AddZero, ONE), (ONE, Direction::Right, State::AddZero))
        .insert((State::AddZero, ZERO), (ZERO, Direction::Right, State::AddZero))
        .insert((State::AddZero, PLUS), (PLUS, Direction::Right, State::AddZero))
        .insert((State::AddZero, ONE_MARKED), (ONE_MARKED, Direction::Left, State::AddDigitZero))
        .insert((State::AddZero, ZERO_MARKED), (ZERO_MARKED, Direction::Left, State::AddDigitZero))
        .insert((State::AddZero, BLANK), (BLANK, Direction::Left, State::AddDigitZero))
        .insert((State::AddDigitZero, ONE), (ONE_MARKED, Direction::Left, State::BackToStart))
        .insert((State::AddDigitZero, ZERO), (ZERO_MARKED, Direction::Left, State::BackToStart))
        .insert((State::AddDigitZero, PLUS), (ZERO_MARKED, Direction::Left, State::BackToStart))
        .insert((State::GetLast, ONE), (PLUS, Direction::Right, State::AddOne))
        .insert((State::AddOne, ONE), (ONE, Direction::Right, State::AddOne))
        .insert((State::AddOne, ZERO), (ZERO, Direction::Right, State::AddOne))
        .insert((State::AddOne, PLUS), (PLUS, Direction::Right, State::AddOne))
        .insert((State::AddOne, BLANK), (BLANK, Direction::Left, State::AddDigitOne))
        .insert((State::AddOne, ONE_MARKED), (ONE_MARKED, Direction::Left, State::AddDigitOne))
        .insert((State::AddOne, ZERO_MARKED), (ZERO_MARKED, Direction::Left, State::AddDigitOne))
        .insert((State::AddDigitOne, ONE), (ZERO_MARKED, Direction::Left, State::Carry))
        .insert((State::AddDigitOne, ZERO), (ONE_MARKED, Direction::Left, State::BackToStart))
        .insert((State::AddDigitOne, PLUS), (ONE_MARKED, Direction::Left, State::BackToStart))
        .insert((State::Carry, ZERO), (ONE, Direction::Left, State::BackToStart))
        .insert((State::Carry, ONE), (ZERO, Direction::Left, State::Carry))
        .insert((State::Carry, PLUS), (ONE, Direction::Left, State::BackToStart))
        .insert((State::BackToStart, ZERO), (ZERO, Direction::Left, State::BackToStart))
        .insert((State::BackToStart, ONE), (ONE, Direction::Left, State::BackToStart))
        .insert((State::BackToStart, PLUS), (PLUS, Direction::Left, State::BackToStart))
        .insert((State::BackToStart, BLANK), (BLANK, Direction::Right, State::FindPlus))
}

/// Adds one rule to `t`.
fn add_rule(t: &mut RuleTable, state: State, symbol: char, write: char, direction: Direction, next: State)
    ensures
        final(t)@ == old(t)@.insert((state, symbol), (write, direction, next)),
{
    t.insert(Rule { state, symbol, write, direction, next });
}

/// Builds the transition table that performs binary addition: exactly the
/// mapping [`addition_rules_map`] describes.
pub fn addition_rules() -> (t: RuleTable)
    ensures
        t@ == addition_rules_map(),
{
    let mut t = RuleTable::new();
    // Skip the leading blank, scan right over the first operand, and turn
    // around at the separator to fetch its last digit.
    add_rule(&mut t, State::FindPlus, BLANK, BLANK, Direction::Right, State::FindPlus);
    add_rule(&mut t, State::FindPlus, ONE, ONE, Direction::Right, State::FindPlus);
    add_rule(&mut t, State::FindPlus, ZERO, ZERO, Direction::Right, State::FindPlus);
    add_rule(&mut t, State::FindPlus, PLUS, PLUS, Direction::Left, State::GetLast);
    // Consume a last digit 0: erase it and carry "add zero" rightward past
    // everything unmarked, stopping at a blank or a marked digit.
    add_rule(&mut t, State::GetLast, ZERO, PLUS, Direction::Right, State::AddZero);
    add_rule(&mut t, State::AddZero, ONE, ONE, Direction::Right, State::AddZero);
    add_rule(&mut t, State::AddZero, ZERO, ZERO, Direction::Right, State::AddZero);
    add_rule(&mut t, State::AddZero, PLUS, PLUS, Direction::Right, State::AddZero);
    add_rule(&mut t, State::AddZero, ONE_MARKED, ONE_MARKED, Direction::Left, State::AddDigitZero);
    add_rule(&mut t, State::AddZero, ZERO_MARKED, ZERO_MARKED, Direction::Left, State::AddDigitZero);
    add_rule(&mut t, State::AddZero, BLANK, BLANK, Direction::Left, State::AddDigitZero);
    // Mark the rightmost unmarked digit with an added 0 and head back.
    add_rule(&mut t, State::AddDigitZero, ONE, ONE_MARKED, Direction::Left, State::BackToStart);
    add_rule(&mut t, State::AddDigitZero, ZERO, ZERO_MARKED, Direction::Left, State::BackToStart);
    add_rule(&mut t, State::AddDigitZero, PLUS, ZERO_MARKED, Direction::Left, State::BackToStart);
    // Consume a last digit 1 the same way.
    add_rule(&mut t, State::GetLast, ONE, PLUS, Direction::Right, State::AddOne);
    add_rule(&mut t, State::AddOne, ONE, ONE, Direction::Right, State::AddOne);
    add_rule(&mut t, State::AddOne, ZERO, ZERO, Direction::Right, State::AddOne);
    add_rule(&mut t, State::AddOne, PLUS, PLUS, Direction::Right, State::AddOne);
    add_rule(&mut t, State::AddOne, BLANK, BLANK, Direction::Left, State::AddDigitOne);
    add_rule(&mut t, State::AddOne, ONE_MARKED, ONE_MARKED, Direction::Left, State::AddDigitOne);
    add_rule(&mut t, State::AddOne, ZERO_MARKED, ZERO_MARKED, Direction::Left, State::AddDigitOne);
    // Mark the rightmost unmarked digit with an added 1; adding 1 to a 1
    // writes a marked 0 and sends a carry leftward.
    add_rule(&mut t, State::AddDigitOne, ONE, ZERO_MARKED, Direction::Left, State::Carry);
    add_rule(&mut t, State::AddDigitOne, ZERO, ONE_MARKED, Direction::Left, State::BackToStart);
    add_rule(&mut t, State::AddDigitOne, PLUS, ONE_MARKED, Direction::Left, State::BackToStart);
    // Ripple the carry leftward: a 1 flips to 0 and keeps carrying; a 0 or
    // the separator absorbs it as a 1.
    add_rule(&mut t, State::Carry, ZERO, ONE, Direction::Left, State::BackToStart);
    add_rule(&mut t, State::Carry, ONE, ZERO, Direction::Left, State::Carry);
    add_rule(&mut t, State::Carry, PLUS, ONE, Direction::Left, State::BackToStart);
    // Rewind to the left end of the tape and start the next pass.
    add_rule(&mut t, State::BackToStart, ZERO, ZERO, Direction::Left, State::BackToStart);
    add_rule(&mut t, State::BackToStart, ONE, ONE, Direction::Left, State::BackToStart);
    add_rule(&mut t, State::BackToStart, PLUS, PLUS, Direction::Left, State::BackToStart);
    add_rule(&mut t, State::BackToStart, BLANK, BLANK, Direction::Right, State::FindPlus);
    t
}

/// The rightward scan of `FindPlus` terminates.  With only blanks and plain
/// digits from the head up to a separator on cell `k`, the machine turns
/// after `k - head + 1` steps into `GetLast` on cell `k - 1`, with the tape
/// unchanged.
pub proof fn lemma_find_plus_scans(c: Config, k: int)
    requires
        c.wf(),
        c.rules == addition_rules_map(),
        c.state == State::FindPlus,
        c.head <= k < c.tape.len(),
        1 <= k,
        c.tape[k] == PLUS,
        forall|i: int|
            c.head <= i < k ==> c.tape[i] == BLANK || c.tape[i] == ZERO || c.tape[i] == ONE,
    ensures
        run_config(c, (k - c.head + 1) as nat) == (Config {
            tape: c.tape,
            head: k - 1,
            state: State::GetLast,
            rules: c.rules,
        }),
    decreases k - c.head,
{
    let symbol = c.tape[c.head];
    let c1 = step_config(c);
    if c.head == k {
        assert(c.rules[(State::FindPlus, PLUS)] == (PLUS, Direction::Left, State::GetLast));
        assert(c.tape.update(k, PLUS) =~= c.tape);
        assert(c1 == (Config { tape: c.tape, head: k - 1, state: State::GetLast, rules: c.rules }));
        assert(run_config(c1, 0) == c1);
        assert(run_config(c, 1) == run_config(c1, 0));
    } else {
        assert(c.rules[(State::FindPlus, symbol)] == (symbol, Direction::Right, State::FindPlus));
        assert(c.tape.update(c.head, symbol) =~= c.tape);
        assert(c1 == (Config {
            tape: c.tape,
            head: c.head + 1,
            state: State::FindPlus,
            rules: c.rules,
        }));
        lemma_find_plus_scans(c1, k);
        assert(run_config(c, (k - c.head + 1) as nat) == run_config(c1, (k - c.head) as nat));
    }
}

/// The rightward scans of `AddZero` and `AddOne` terminate.  With only
/// plain digits and separators from the head up to cell `k`, which holds a
/// blank or a marked digit, the machine turns after `k - head + 1` steps
/// into the matching marking state on cell `k - 1`, with the tape
/// unchanged.
pub proof fn lemma_add_scan_stops(c: Config, k: int)
    requires
        c.wf(),
        c.rules == addition_rules_map(),
        c.state == State::AddZero || c.state == State::AddOne,
        c.head <= k < c.tape.len(),
        1 <= k,
        c.tape[k] == BLANK || c.tape[k] == ZERO_MARKED || c.tape[k] == ONE_MARKED,
        forall|i: int|
            c.head <= i < k ==> c.tape[i] == ZERO || c.tape[i] == ONE || c.tape[i] == PLUS,
    ensures
        run_config(c, (k - c.head + 1) as nat) == (Config {
            tape: c.tape,
            head: k - 1,
            state: if c.state == State::AddZero {
                State::AddDigitZero
            } else {
                State::AddDigitOne
            },
            rules: c.rules,
        }),
    decreases k - c.head,
{
    let symbol = c.tape[c.head];
    let c1 = step_config(c);
    if c.head == k {
        if c.state == State::AddZero {
            assert(c.rules[(State::AddZero, symbol)] == (
                symbol,
                Direction::Left,
                State::AddDigitZero,
            ));
        } else {
            assert(c.rules[(State::AddOne, symbol)] == (
                symbol,
                Direction::Left,
                State::AddDigitOne,
            ));
        }
        assert(c.tape.update(k, symbol) =~= c.tape);
        assert(run_config(c1, 0) == c1);
        assert(run_config(c, 1) == run_config(c1, 0));
    } else {
        if c.state == State::AddZero {
            assert(c.rules[(State::AddZero, symbol)] == (symbol, Direction::Right, State::AddZero));
        } else {
            assert(c.rules[(State::AddOne, symbol)] == (symbol, Direction::Right, State::AddOne));
        }
        assert(c.tape.update(c.head, symbol) =~= c.tape);
        assert(c1 == (Config {
            tape: c.tape,
            head: c.head + 1,
            state: c.state,
            rules: c.rules,
        }));
        lemma_add_scan_stops(c1, k);
        assert(run_config(c, (k - c.head + 1) as nat) == run_config(c1, (k - c.head) as nat));
    }
}

/// One whole rewind phase terminates.  From `BackToStart` under the addition
/// table, with a blank on cell `lo`, only plain digits and separators
/// between that blank and the head, and at least one cell to the right of
/// the head, the machine is back in `FindPlus` on cell `lo + 1` after
/// exactly `head - lo + 1` steps, with the tape unchanged.
pub proof fn lemma_back_to_start_rewinds(c: Config, lo: int)
    requires
        c.wf(),
        c.rules == addition_rules_map(),
        c.state == State::BackToStart,
        0 <= lo <= c.head,
        c.tape[lo] == BLANK,
        c.head + 1 < c.tape.len(),
        forall|i: int|
            lo < i <= c.head ==> c.tape[i] == ZERO || c.tape[i] == ONE || c.tape[i] == PLUS,
    ensures
        run_config(c, (c.head - lo + 1) as nat) == (Config {
            tape: c.tape,
            head: lo + 1,
            state: State::FindPlus,
            rules: c.rules,
        }),
    decreases c.head - lo,
{
    let symbol = c.tape[c.head];
    let c1 = step_config(c);
    if c.head == lo {
        assert(c.rules[(State::BackToStart, BLANK)] == (BLANK, Direction::Right, State::FindPlus));
        assert(c.tape.update(lo, BLANK) =~= c.tape);
        assert(c1 == (Config {
            tape: c.tape,
            head: lo + 1,
            state: State::FindPlus,
            rules: c.rules,
        }));
        assert(run_config(c1, 0) == c1);
        assert(run_config(c, 1) == run_config(c1, 0));
    } else {
        assert(c.rules[(State::BackToStart, symbol)] == (
            symbol,
            Direction::Left,
            State::BackToStart,
        ));
        assert(c.tape.update(c.head, symbol) =~= c.tape);
        assert(c1 == (Config {
            tape: c.tape,
            head: c.head - 1,
            state: State::BackToStart,
            rules: c.rules,
        }));
        lemma_back_to_start_rewinds(c1, lo);
        assert(run_config(c, (c.head - lo + 1) as nat) == run_config(c1, (c.head - lo) as nat));
    }
}

/// Carry propagation terminates.  With a run of plain ones from cell
/// `k + 1` up to the head, and a plain zero or a separator on cell `k`, at
/// least one cell from the tape's left end, the carry flips the ones to
/// zeros, writes a one on cell `k`, and turns after `head - k + 1` steps
/// into `BackToStart` on cell `k - 1`; no other cell changes.
pub proof fn lemma_carry_resolves(c: Config, k: int)
    requires
        c.wf(),
        c.rules == addition_rules_map(),
        c.state == State::Carry,
        1 <= k <= c.head,
        c.tape[k] == ZERO || c.tape[k] == PLUS,
        forall|i: int| k < i <= c.head ==> c.tape[i] == ONE,
    ensures
        run_config(c, (c.head - k + 1) as nat) == (Config {
            tape: Seq::new(
                c.tape.len(),
                |i: int|
                    if i == k {
                        ONE
                    } else if k < i <= c.head {
                        ZERO
                    } else {
                        c.tape[i]
                    },
            ),
            head: k - 1,
            state: State::BackToStart,
            rules: c.rules,
        }),
    decreases c.head - k,
{
    let symbol = c.tape[c.head];
    let c1 = step_config(c);
    if c.head == k {
        assert(c.rules[(State::Carry, symbol)] == (ONE, Direction::Left, State::BackToStart));
        assert(c1.tape == c.tape.update(k, ONE));
        assert(c.tape.update(k, ONE) =~= Seq::new(
            c.tape.len(),
            |i: int|
                if i == k {
                    ONE
                } else if k < i <= c.head {
                    ZERO
                } else {
                    c.tape[i]
                },
        ));
        assert(run_config(c1, 0) == c1);
        assert(run_config(c, 1) == run_config(c1, 0));
    } else {
        assert(c.rules[(State::Carry, ONE)] == (ZERO, Direction::Left, State::Carry));
        assert(c1 == (Config {
            tape: c.tape.update(c.head, ZERO),
            head: c.head - 1,
            state: State::Carry,
            rules: c.rules,
        }));
        lemma_carry_resolves(c1, k);
        assert(Seq::new(
            c1.tape.len(),
            |i: int|
                if i == k {
                    ONE
                } else if k < i <= c1.head {
                    ZERO
                } else {
                    c1.tape[i]
                },
        ) =~= Seq::new(
            c.tape.len(),
            |i: int|
                if i == k {
                    ONE
                } else if k < i <= c.head {
                    ZERO
                } else {
                    c.tape[i]
                },
        ));
        assert(run_config(c, (c.head - k + 1) as nat) == run_config(c1, (c.head - k) as nat));
    }
}

/// The machine halts once the first operand is exhausted.  In `FindPlus` on
/// cell 1 with the separator directly under the head and the left blank on
/// cell 0, two steps reach `Halt`, with the head on cell 0 and the tape
/// unchanged: the second step finds no rule for `GetLast` over a blank.
pub proof fn lemma_exhausted_operand_halts(c: Config)
    requires
        c.wf(),
        c.rules == addition_rules_map(),
        c.state == State::FindPlus,
        c.head == 1,
        c.tape[0] == BLANK,
        c.tape[1] == PLUS,
    ensures
        run_config(c, 2) == (Config { tape: c.tape, head: 0, state: State::Halt, rules: c.rules }),
{
    let c1 = step_config(c);
    assert(c.rules[(State::FindPlus, PLUS)] == (PLUS, Direction::Left, State::GetLast));
    assert(c.tape.update(1, PLUS) =~= c.tape);
    assert(c1 == (Config { tape: c.tape, head: 0, state: State::GetLast, rules: c.rules }));
    let c2 = step_config(c1);
    assert(!c.rules.contains_key((State::GetLast, BLANK)));
    assert(c2 == (Config { tape: c.tape, head: 0, state: State::Halt, rules: c.rules }));
    assert(run_config(c2, 0) == c2);
    assert(run_config(c1, 1) == run_config(c2, 0));
    assert(run_config(c, 2) == run_config(c1, 1));
}

/// The binary digit that a tape symbol stands for, marked or plain.  Any
/// other symbol contributes zero.
pub open spec fn bit_of(s: char) -> nat {
    if s == ONE || s == ONE_MARKED {
        1
    } else {
        0
    }
}

/// The number that cells `lo..=hi` of `t` write in binary, most significant
/// first, each cell contributing its digit ([`bit_of`]).  An empty range is
/// worth zero.
pub open spec fn range_value(t: Seq<char>, lo: int, hi: int) -> nat
    decreases hi - lo + 1,
{
    if hi < lo {
        0
    } else {
        2 * range_value(t, lo, hi - 1) + bit_of(t[hi])
    }
}

/// The value of `lo..=hi` splits at `mid` into a high and a low part.
proof fn lemma_range_value_split(t: Seq<char>, lo: int, mid: int, hi: int)
    requires
        lo - 1 <= mid <= hi,
    ensures
        range_value(t, lo, hi) == range_value(t, lo, mid) * pow2((hi - mid) as nat)
            + range_value(t, mid + 1, hi),
    decreases hi - mid,
{
    if mid == hi {
        assert(pow2(0) == 1) by {
            vstd::arithmetic::power2::lemma2_to64();
        }
        assert(range_value(t, mid + 1, hi) == 0);
        assert(range_value(t, lo, mid) * 1 == range_value(t, lo, mid));
    } else {
        lemma_range_value_split(t, lo, mid, hi - 1);
        lemma_pow2_unfold((hi - mid) as nat);
        let p_small = pow2((hi - 1 - mid) as nat);
        let p_big = pow2((hi - mid) as nat);
        let head_part = range_value(t, lo, mid);
        assert(p_big == 2 * p_small);
        assert(range_value(t, lo, hi) == 2 * range_value(t, lo, hi - 1) + bit_of(t[hi]));
        assert(range_value(t, mid + 1, hi) == 2 * range_value(t, mid + 1, hi - 1) + bit_of(
            t[hi],
        ));
        assert(range_value(t, lo, hi - 1) == head_part * p_small + range_value(t, mid + 1, hi - 1));
        assert(2 * (head_part * p_small) == head_part * p_big) by (nonlinear_arith)
            requires
                p_big == 2 * p_small,
        ;
        assert(range_value(t, lo, hi) == head_part * p_big + range_value(t, mid + 1, hi));
    }
}

/// Ranges whose cells agree have the same value.
proof fn lemma_range_value_congruent(t1: Seq<char>, t2: Seq<char>, lo: int, hi: int)
    requires
        forall|i: int| lo <= i <= hi ==> t1[i] == t2[i],
    ensures
        range_value(t1, lo, hi) == range_value(t2, lo, hi),
    decreases hi - lo + 1,
{
    if hi >= lo {
        lemma_range_value_congruent(t1, t2, lo, hi - 1);
    }
}

/// A range of plain ones is worth one less than the power of two of its
/// width.
proof fn lemma_range_value_all_ones(t: Seq<char>, lo: int, hi: int)
    requires
        forall|i: int| lo <= i <= hi ==> t[i] == ONE,
    ensures
        range_value(t, lo, hi) == pow2((if hi < lo {
            0
        } else {
            hi - lo + 1
        }) as nat) - 1,
    decreases hi - lo + 1,
{
    if hi < lo {
        assert(pow2(0) == 1) by {
            vstd::arithmetic::power2::lemma2_to64();
        }
    } else {
        lemma_range_value_all_ones(t, lo, hi - 1);
        lemma_pow2_unfold((hi - lo + 1) as nat);
    }
}

/// A range contributing no digit at all is worth zero.
proof fn lemma_range_value_all_zeros(t: Seq<char>, lo: int, hi: int)
    requires
        forall|i: int| lo <= i <= hi ==> bit_of(t[i]) == 0,
    ensures
        range_value(t, lo, hi) == 0,
    decreases hi - lo + 1,
{
    if hi >= lo {
        lemma_range_value_all_zeros(t, lo, hi - 1);
    }
}

/// Changing cell `beta` alone, raising its digit by `d`, raises the value
/// of `a..=kappa` by `d` times the weight of that cell.
proof fn lemma_mark_value(t: Seq<char>, t2: Seq<char>, a: int, beta: int, kappa: int, d: nat)
    requires
        a <= beta <= kappa,
        forall|i: int| a <= i <= kappa && i != beta ==> t2[i] == t[i],
        bit_of(t2[beta]) == bit_of(t[beta]) + d,
    ensures
        range_value(t2, a, kappa) == range_value(t, a, kappa) + d * pow2((kappa - beta) as nat),
{
    lemma_range_value_split(t, a, beta, kappa);
    lemma_range_value_split(t2, a, beta, kappa);
    lemma_range_value_congruent(t, t2, a, beta - 1);
    lemma_range_value_congruent(t, t2, beta + 1, kappa);
    assert(range_value(t2, a, beta) == range_value(t, a, beta) + d);
    assert((range_value(t, a, beta) + d) * pow2((kappa - beta) as nat) == range_value(t, a, beta)
        * pow2((kappa - beta) as nat) + d * pow2((kappa - beta) as nat)) by (nonlinear_arith);
}

/// A resolved carry raises the value of `a..=kappa` by the weight of cell
/// `beta`: within the range, cell `beta` drops from one to zero, the run of
/// ones strictly between `k` and `beta` drops to zeros, cell `k` rises from
/// zero to one, and every other cell is unchanged.
proof fn lemma_carry_value(t: Seq<char>, t3: Seq<char>, a: int, k: int, beta: int, kappa: int)
    requires
        a <= k < beta <= kappa,
        forall|i: int| a <= i <= kappa && !(k <= i <= beta) ==> t3[i] == t[i],
        bit_of(t[k]) == 0,
        bit_of(t3[k]) == 1,
        forall|i: int| k < i < beta ==> t[i] == ONE,
        forall|i: int| k < i < beta ==> bit_of(t3[i]) == 0,
        bit_of(t[beta]) == 1,
        bit_of(t3[beta]) == 0,
    ensures
        range_value(t3, a, kappa) == range_value(t, a, kappa) + pow2((kappa - beta) as nat),
{
    let low = pow2((kappa - beta) as nat);
    let mid = pow2((beta - k) as nat);
    let high = pow2((kappa - k) as nat);
    lemma_pow2_adds((beta - k) as nat, (kappa - beta) as nat);
    assert(high == mid * low);
    // Split both tapes as  [a, k] | [k+1, beta] | [beta+1, kappa].
    lemma_range_value_split(t, a, k, kappa);
    lemma_range_value_split(t3, a, k, kappa);
    lemma_range_value_split(t, k + 1, beta, kappa);
    lemma_range_value_split(t3, k + 1, beta, kappa);
    lemma_range_value_congruent(t, t3, a, k - 1);
    lemma_range_value_congruent(t, t3, beta + 1, kappa);
    let w = range_value(t, a, k - 1);
    let rest = range_value(t, beta + 1, kappa);
    assert(range_value(t, a, k) == 2 * w);
    assert(range_value(t3, a, k) == 2 * w + 1);
    // The run of ones between k and beta is worth one less than its
    // weight's ratio; after the carry it is worth nothing.
    lemma_range_value_all_ones(t, k + 1, beta - 1);
    lemma_range_value_all_zeros(t3, k + 1, beta - 1);
    assert(range_value(t, k + 1, beta - 1) == pow2((beta - 1 - k) as nat) - 1);
    lemma_pow2_unfold((beta - k) as nat);
    assert(range_value(t, k + 1, beta) == mid - 1);
    assert(range_value(t3, k + 1, beta) == 0);
    assert(range_value(t, beta + 1, kappa) == range_value(t3, beta + 1, kappa));
    assert(range_value(t, k + 1, kappa) == (mid - 1) * low + rest);
    assert(range_value(t3, k + 1, kappa) == range_value(t3, k + 1, beta) * low + range_value(
        t3,
        beta + 1,
        kappa,
    ));
    assert(range_value(t3, k + 1, beta) * low == 0 * low);
    assert(0 * low == 0) by (nonlinear_arith);
    assert(range_value(t3, k + 1, kappa) == rest);
    assert((mid - 1) * low == mid * low - low) by (nonlinear_arith);
    assert(range_value(t, a, kappa) == (2 * w) * high + (high - low) + rest);
    assert(range_value(t3, a, kappa) == (2 * w + 1) * high + rest);
    assert((2 * w + 1) * high == (2 * w) * high + high) by (nonlinear_arith);
}

/// The tape shape between passes: a blank on cell `lo`; the unconsumed
/// first operand on cells `lo+1..=l`; a run of separators on cells
/// `l+1..=rho`; the not-yet-marked part of the accumulating sum on cells
/// `rho+1..=beta`; its marked tail on cells `beta+1..=kappa`; and a blank
/// on cell `kappa+1`.  Cells left of `lo` and right of the closing blank
/// are never visited and may hold anything.
pub open spec fn pass_shape(c: Config, lo: int, l: int, rho: int, beta: int, kappa: int) -> bool {
    &&& c.rules == addition_rules_map()
    &&& 0 <= lo <= l
    &&& l + 1 <= rho
    &&& rho <= beta
    &&& beta <= kappa
    &&& kappa + 1 < c.tape.len()
    &&& c.tape[lo] == BLANK
    &&& (forall|i: int| lo < i <= l ==> c.tape[i] == ZERO || c.tape[i] == ONE)
    &&& (forall|i: int| l < i <= rho ==> c.tape[i] == PLUS)
    &&& (forall|i: int| rho < i <= beta ==> c.tape[i] == ZERO || c.tape[i] == ONE)
    &&& (forall|i: int|
        beta < i <= kappa ==> c.tape[i] == ZERO_MARKED || c.tape[i] == ONE_MARKED)
    &&& c.tape[kappa + 1] == BLANK
}

/// In `t`, some cell of `lo..=hi` other than a plain one has only plain
/// ones to its right within that range, provided cell `lo` itself is not a
/// plain one.
proof fn lemma_rightmost_non_one(t: Seq<char>, lo: int, hi: int)
    requires
        0 <= lo <= hi < t.len(),
        t[lo] != ONE,
    ensures
        exists|k: int|
            lo <= k <= hi && (#[trigger] t[k]) != ONE && (forall|i: int|
                k < i <= hi ==> t[i] == ONE),
    decreases hi - lo,
{
    if t[hi] != ONE {
        assert(lo <= hi <= hi && t[hi] != ONE && (forall|i: int| hi < i <= hi ==> t[i] == ONE));
    } else {
        lemma_rightmost_non_one(t, lo, hi - 1);
        let k = choose|k: int|
            lo <= k <= hi - 1 && (#[trigger] t[k]) != ONE && (forall|i: int|
                k < i <= hi - 1 ==> t[i] == ONE);
        assert(lo <= k <= hi && t[k] != ONE && (forall|i: int| k < i <= hi ==> t[i] == ONE));
    }
}

/// From `GetLast` on cell `l` under the pass shape, the machine reaches
/// `Halt`: each pass consumes the last remaining digit of the first operand
/// and returns to `GetLast` one cell further left, and a pass that finds
/// the separator's left neighbour blank stops the machine.
#[verifier::rlimit(100)]
pub proof fn lemma_passes_reach_halt(c: Config, lo: int, l: int, rho: int, beta: int, kappa: int)
    requires
        c.wf(),
        c.state == State::GetLast,
        c.head == l,
        pass_shape(c, lo, l, rho, beta, kappa),
    ensures
        exists|n: nat|
            {
                &&& (#[trigger] run_config(c, n)).state == State::Halt
                &&& run_config(c, n).head == lo
                &&& run_config(c, n).tape.len() == c.tape.len()
                &&& range_value(run_config(c, n).tape, lo + 1, kappa) == range_value(
                    c.tape,
                    lo + 1,
                    l,
                ) * pow2((kappa - beta) as nat) + range_value(c.tape, l + 1, kappa)
            },
    decreases l - lo,
{
    if l == lo {
        assert(!c.rules.contains_key((State::GetLast, BLANK)));
        let cf = step_config(c);
        assert(cf == (Config { tape: c.tape, head: lo, state: State::Halt, rules: c.rules }));
        assert(run_config(cf, 0) == cf);
        assert(run_config(c, 1) == run_config(cf, 0));
        assert(range_value(c.tape, lo + 1, l) == 0);
        assert(range_value(c.tape, lo + 1, l) * pow2((kappa - beta) as nat) == 0)
            by (nonlinear_arith)
            requires
                range_value(c.tape, lo + 1, l) == 0,
        ;
        assert({
            &&& run_config(c, 1).state == State::Halt
            &&& run_config(c, 1).head == lo
            &&& run_config(c, 1).tape.len() == c.tape.len()
            &&& range_value(run_config(c, 1).tape, lo + 1, kappa) == range_value(
                c.tape,
                lo + 1,
                l,
            ) * pow2((kappa - beta) as nat) + range_value(c.tape, l + 1, kappa)
        });
    } else {
        let d = c.tape[l];
        // Consume the digit: erase it with a separator and scan right.
        let c1 = step_config(c);
        let t1 = c.tape.update(l, PLUS);
        if d == ZERO {
            assert(c.rules[(State::GetLast, ZERO)] == (PLUS, Direction::Right, State::AddZero));
        } else {
            assert(c.rules[(State::GetLast, ONE)] == (PLUS, Direction::Right, State::AddOne));
        }
        assert(c1 == (Config {
            tape: t1,
            head: l + 1,
            state: if d == ZERO {
                State::AddZero
            } else {
                State::AddOne
            },
            rules: c.rules,
        }));
        // Scan to the first marked cell or the right blank, on cell beta + 1.
        let k2 = beta + 1;
        assert(t1[k2] == BLANK || t1[k2] == ZERO_MARKED || t1[k2] == ONE_MARKED);
        assert(forall|i: int|
            l + 1 <= i < k2 ==> t1[i] == ZERO || t1[i] == ONE || t1[i] == PLUS);
        lemma_add_scan_stops(c1, k2);
        let n_scan: nat = (k2 - (l + 1) + 1) as nat;
        let c2 = run_config(c1, n_scan);
        assert(c2 == (Config {
            tape: t1,
            head: beta,
            state: if d == ZERO {
                State::AddDigitZero
            } else {
                State::AddDigitOne
            },
            rules: c.rules,
        }));
        // Mark the rightmost unmarked cell of the sum with the added digit.
        let x = t1[beta];
        assert(beta == rho ==> x == PLUS);
        assert(beta > rho ==> x == ZERO || x == ONE);
        let c3 = step_config(c2);
        if d == ZERO || x != ONE {
            // No carry: mark and rewind.
            let w3 = if d == ZERO {
                if x == ONE {
                    ONE_MARKED
                } else {
                    ZERO_MARKED
                }
            } else {
                ONE_MARKED
            };
            if d == ZERO {
                if x == ONE {
                    assert(c.rules[(State::AddDigitZero, ONE)] == (
                        ONE_MARKED,
                        Direction::Left,
                        State::BackToStart,
                    ));
                } else if x == ZERO {
                    assert(c.rules[(State::AddDigitZero, ZERO)] == (
                        ZERO_MARKED,
                        Direction::Left,
                        State::BackToStart,
                    ));
                } else {
                    assert(c.rules[(State::AddDigitZero, PLUS)] == (
                        ZERO_MARKED,
                        Direction::Left,
                        State::BackToStart,
                    ));
                }
            } else {
                if x == ZERO {
                    assert(c.rules[(State::AddDigitOne, ZERO)] == (
                        ONE_MARKED,
                        Direction::Left,
                        State::BackToStart,
                    ));
                } else {
                    assert(c.rules[(State::AddDigitOne, PLUS)] == (
                        ONE_MARKED,
                        Direction::Left,
                        State::BackToStart,
                    ));
                }
            }
            let t2 = t1.update(beta, w3);
            assert(c3 == (Config {
                tape: t2,
                head: beta - 1,
                state: State::BackToStart,
                rules: c.rules,
            }));
            // Rewind to the left blank, then scan back to the separator.
            assert(forall|i: int|
                lo < i <= beta - 1 ==> t2[i] == ZERO || t2[i] == ONE || t2[i] == PLUS);
            lemma_back_to_start_rewinds(c3, lo);
            let n_rw: nat = (beta - lo) as nat;
            let c4 = run_config(c3, n_rw);
            assert(c4 == (Config {
                tape: t2,
                head: lo + 1,
                state: State::FindPlus,
                rules: c.rules,
            }));
            assert(t2[l] == PLUS);
            lemma_find_plus_scans(c4, l);
            let n_fp: nat = (l - lo) as nat;
            let c5 = run_config(c4, n_fp);
            assert(c5 == (Config { tape: t2, head: l - 1, state: State::GetLast, rules: c.rules }));
            // The pass shape holds again with one digit fewer.
            let rho2 = if beta == rho {
                rho - 1
            } else {
                rho
            };
            assert(pass_shape(c5, lo, l - 1, rho2, beta - 1, kappa));
            lemma_passes_reach_halt(c5, lo, l - 1, rho2, beta - 1, kappa);
            let n_tail = choose|n: nat|
                {
                    &&& (#[trigger] run_config(c5, n)).state == State::Halt
                    &&& run_config(c5, n).head == lo
                    &&& run_config(c5, n).tape.len() == c5.tape.len()
                    &&& range_value(run_config(c5, n).tape, lo + 1, kappa) == range_value(
                        c5.tape,
                        lo + 1,
                        l - 1,
                    ) * pow2((kappa - (beta - 1)) as nat) + range_value(
                        c5.tape,
                        (l - 1) + 1,
                        kappa,
                    )
                };
            // Chain the pieces into one run that ends where the recursion ends.
            let n_pass: nat = 1 + n_scan + 1 + n_rw + n_fp;
            assert(run_config(c1, 0) == c1);
            assert(run_config(c, 1) == run_config(c1, 0));
            crate::machine::lemma_run_config_splits(c, 1, n_scan);
            assert(run_config(c, 1 + n_scan) == c2);
            crate::machine::lemma_run_config_splits(c, 1 + n_scan, 1);
            assert(run_config(c3, 0) == c3);
            assert(run_config(c2, 1) == run_config(c3, 0));
            assert(run_config(c, 1 + n_scan + 1) == c3);
            crate::machine::lemma_run_config_splits(c, 1 + n_scan + 1, n_rw);
            assert(run_config(c, 1 + n_scan + 1 + n_rw) == c4);
            crate::machine::lemma_run_config_splits(c, 1 + n_scan + 1 + n_rw, n_fp);
            assert(run_config(c, n_pass) == c5);
            crate::machine::lemma_run_config_splits(c, n_pass, n_tail);
            let cf = run_config(c5, n_tail);
            assert(run_config(c, n_pass + n_tail) == cf);
            // Value bookkeeping: the pass wrote the consumed digit at the
            // open bit position.
            let pj = pow2((kappa - beta) as nat);
            let pj1 = pow2((kappa - (beta - 1)) as nat);
            let wprime = range_value(c.tape, lo + 1, l - 1);
            lemma_range_value_congruent(t2, c.tape, lo + 1, l - 1);
            lemma_range_value_split(t2, l, l, kappa);
            assert(range_value(t2, l, l - 1) == 0);
            assert(range_value(t2, l, l) == 0);
            assert(range_value(t2, l, l) * pow2((kappa - l) as nat) == 0) by (nonlinear_arith)
                requires
                    range_value(t2, l, l) == 0,
            ;
            assert(range_value(t2, l, kappa) == range_value(t2, l + 1, kappa));
            let bitd: nat = if d == ONE {
                1
            } else {
                0
            };
            assert(t1[beta] == c.tape[beta]);
            assert(bit_of(t2[beta]) == bit_of(c.tape[beta]) + bitd);
            lemma_mark_value(c.tape, t2, l + 1, beta, kappa, bitd);
            assert(range_value(c.tape, lo + 1, l) == 2 * wprime + bitd);
            lemma_pow2_unfold((kappa - (beta - 1)) as nat);
            assert(pj1 == 2 * pj);
            assert((2 * wprime + bitd) * pj == wprime * pj1 + bitd * pj) by (nonlinear_arith)
                requires
                    pj1 == 2 * pj,
            ;
            assert(range_value(cf.tape, lo + 1, kappa) == range_value(c.tape, lo + 1, l) * pj
                + range_value(c.tape, l + 1, kappa));
            assert({
                &&& run_config(c, n_pass + n_tail).state == State::Halt
                &&& run_config(c, n_pass + n_tail).head == lo
                &&& run_config(c, n_pass + n_tail).tape.len() == c.tape.len()
                &&& range_value(run_config(c, n_pass + n_tail).tape, lo + 1, kappa) == range_value(
                    c.tape,
                    lo + 1,
                    l,
                ) * pow2((kappa - beta) as nat) + range_value(c.tape, l + 1, kappa)
            });
        } else {
            // Adding one to a plain one: mark a zero and carry leftward.
            assert(c.rules[(State::AddDigitOne, ONE)] == (
                ZERO_MARKED,
                Direction::Left,
                State::Carry,
            ));
            assert(beta > rho);
            let t2 = t1.update(beta, ZERO_MARKED);
            assert(c3 == (Config {
                tape: t2,
                head: beta - 1,
                state: State::Carry,
                rules: c.rules,
            }));
            // The carry stops at the rightmost cell below the mark that is
            // not a plain one; the separator run guarantees there is one.
            assert(t2[rho] == PLUS);
            lemma_rightmost_non_one(t2, rho, beta - 1);
            let k = choose|k: int|
                rho <= k <= beta - 1 && (#[trigger] t2[k]) != ONE && (forall|i: int|
                    k < i <= beta - 1 ==> t2[i] == ONE);
            assert(t2[k] == ZERO || t2[k] == PLUS);
            lemma_carry_resolves(c3, k);
            let n_cy: nat = (beta - 1 - k + 1) as nat;
            let t3 = Seq::new(
                t2.len(),
                |i: int|
                    if i == k {
                        ONE
                    } else if k < i <= beta - 1 {
                        ZERO
                    } else {
                        t2[i]
                    },
            );
            let c4 = run_config(c3, n_cy);
            assert(c4 == (Config {
                tape: t3,
                head: k - 1,
                state: State::BackToStart,
                rules: c.rules,
            }));
            // Rewind, then scan back to the separator.
            assert(forall|i: int|
                lo < i <= k - 1 ==> t3[i] == ZERO || t3[i] == ONE || t3[i] == PLUS);
            lemma_back_to_start_rewinds(c4, lo);
            let n_rw: nat = (k - lo) as nat;
            let c5 = run_config(c4, n_rw);
            assert(c5 == (Config {
                tape: t3,
                head: lo + 1,
                state: State::FindPlus,
                rules: c.rules,
            }));
            assert(t3[l] == PLUS);
            lemma_find_plus_scans(c5, l);
            let n_fp: nat = (l - lo) as nat;
            let c6 = run_config(c5, n_fp);
            assert(c6 == (Config { tape: t3, head: l - 1, state: State::GetLast, rules: c.rules }));
            // The pass shape holds again with one digit fewer.
            let rho2 = if k == rho {
                rho - 1
            } else {
                rho
            };
            assert(pass_shape(c6, lo, l - 1, rho2, beta - 1, kappa));
            lemma_passes_reach_halt(c6, lo, l - 1, rho2, beta - 1, kappa);
            let n_tail = choose|n: nat|
                {
                    &&& (#[trigger] run_config(c6, n)).state == State::Halt
                    &&& run_config(c6, n).head == lo
                    &&& run_config(c6, n).tape.len() == c6.tape.len()
                    &&& range_value(run_config(c6, n).tape, lo + 1, kappa) == range_value(
                        c6.tape,
                        lo + 1,
                        l - 1,
                    ) * pow2((kappa - (beta - 1)) as nat) + range_value(
                        c6.tape,
                        (l - 1) + 1,
                        kappa,
                    )
                };
            // Chain the pieces into one run that ends where the recursion ends.
            let n_pass: nat = 1 + n_scan + 1 + n_cy + n_rw + n_fp;
            assert(run_config(c1, 0) == c1);
            assert(run_config(c, 1) == run_config(c1, 0));
            crate::machine::lemma_run_config_splits(c, 1, n_scan);
            assert(run_config(c, 1 + n_scan) == c2);
            crate::machine::lemma_run_config_splits(c, 1 + n_scan, 1);
            assert(run_config(c3, 0) == c3);
            assert(run_config(c2, 1) == run_config(c3, 0));
            assert(run_config(c, 1 + n_scan + 1) == c3);
            crate::machine::lemma_run_config_splits(c, 1 + n_scan + 1, n_cy);
            assert(run_config(c, 1 + n_scan + 1 + n_cy) == c4);
            crate::machine::lemma_run_config_splits(c, 1 + n_scan + 1 + n_cy, n_rw);
            assert(run_config(c, 1 + n_scan + 1 + n_cy + n_rw) == c5);
            crate::machine::lemma_run_config_splits(c, 1 + n_scan + 1 + n_cy + n_rw, n_fp);
            assert(run_config(c, n_pass) == c6);
            crate::machine::lemma_run_config_splits(c, n_pass, n_tail);
            let cf = run_config(c6, n_tail);
            assert(run_config(c, n_pass + n_tail) == cf);
            // Value bookkeeping: the resolved carry added one at the open
            // bit position.
            let pj = pow2((kappa - beta) as nat);
            let pj1 = pow2((kappa - (beta - 1)) as nat);
            let wprime = range_value(c.tape, lo + 1, l - 1);
            lemma_range_value_congruent(t3, c.tape, lo + 1, l - 1);
            lemma_range_value_split(t3, l, l, kappa);
            assert(range_value(t3, l, l - 1) == 0);
            assert(range_value(t3, l, l) == 0);
            assert(range_value(t3, l, l) * pow2((kappa - l) as nat) == 0) by (nonlinear_arith)
                requires
                    range_value(t3, l, l) == 0,
            ;
            assert(range_value(t3, l, kappa) == range_value(t3, l + 1, kappa));
            assert(t2[k] == c.tape[k]);
            assert(bit_of(c.tape[k]) == 0);
            assert(bit_of(t3[k]) == 1);
            assert forall|i: int| k < i < beta implies c.tape[i] == ONE by {
                assert(t2[i] == ONE);
            }
            assert forall|i: int| k < i < beta implies bit_of(t3[i]) == 0 by {
                assert(t3[i] == ZERO);
            }
            assert(c.tape[beta] == ONE);
            assert(bit_of(t3[beta]) == 0);
            lemma_carry_value(c.tape, t3, l + 1, k, beta, kappa);
            assert(range_value(c.tape, lo + 1, l) == 2 * wprime + 1);
            lemma_pow2_unfold((kappa - (beta - 1)) as nat);
            assert(pj1 == 2 * pj);
            assert((2 * wprime + 1) * pj == wprime * pj1 + pj) by (nonlinear_arith)
                requires
                    pj1 == 2 * pj,
            ;
            assert(range_value(cf.tape, lo + 1, kappa) == range_value(c.tape, lo + 1, l) * pj
                + range_value(c.tape, l + 1, kappa));
            assert({
                &&& run_config(c, n_pass + n_tail).state == State::Halt
                &&& run_config(c, n_pass + n_tail).head == lo
                &&& run_config(c, n_pass + n_tail).tape.len() == c.tape.len()
                &&& range_value(run_config(c, n_pass + n_tail).tape, lo + 1, kappa) == range_value(
                    c.tape,
                    lo + 1,
                    l,
                ) * pow2((kappa - beta) as nat) + range_value(c.tape, l + 1, kappa)
            });
        }
    }
}

/// The machine adds: from the initial configuration — `FindPlus` on cell
/// 0 — over a tape holding leading blanks up to cell `lo`, the first
/// operand on cells `lo+1..=l`, the separator, the second operand on cells
/// `l+2..=kappa`, and a blank, with both operands non-empty strings of
/// plain digits, some number of steps reaches `Halt`, and the digits then
/// on the tape, marked ones folded back to plain ones, read in binary as
/// the sum of the two operands.  Cells right of the closing blank are
/// never visited, so trailing padding may hold anything.
pub proof fn lemma_addition_halts(c: Config, lo: int, l: int, kappa: int)
    requires
        c.wf(),
        c.rules == addition_rules_map(),
        c.state == State::FindPlus,
        c.head == 0,
        0 <= lo < l,
        l + 2 <= kappa,
        kappa + 1 < c.tape.len(),
        c.tape[l + 1] == PLUS,
        c.tape[kappa + 1] == BLANK,
        forall|i: int| 0 <= i <= lo ==> c.tape[i] == BLANK,
        forall|i: int| lo < i <= l ==> c.tape[i] == ZERO || c.tape[i] == ONE,
        forall|i: int| l + 1 < i <= kappa ==> c.tape[i] == ZERO || c.tape[i] == ONE,
    ensures
        exists|n: nat|
            {
                &&& (#[trigger] run_config(c, n)).state == State::Halt
                &&& range_value(run_config(c, n).tape, lo + 1, kappa) == range_value(
                    c.tape,
                    lo + 1,
                    l,
                ) + range_value(c.tape, l + 2, kappa)
            },
{
    // Find the separator and turn back onto the first operand's last digit.
    lemma_find_plus_scans(c, l + 1);
    let n_fp: nat = (l + 2) as nat;
    let c1 = run_config(c, n_fp);
    assert(c1 == (Config { tape: c.tape, head: l, state: State::GetLast, rules: c.rules }));
    assert(pass_shape(c1, lo, l, l + 1, kappa, kappa));
    lemma_passes_reach_halt(c1, lo, l, l + 1, kappa, kappa);
    let n_tail = choose|n: nat|
        {
            &&& (#[trigger] run_config(c1, n)).state == State::Halt
            &&& run_config(c1, n).head == lo
            &&& run_config(c1, n).tape.len() == c1.tape.len()
            &&& range_value(run_config(c1, n).tape, lo + 1, kappa) == range_value(
                c1.tape,
                lo + 1,
                l,
            ) * pow2((kappa - kappa) as nat) + range_value(c1.tape, l + 1, kappa)
        };
    crate::machine::lemma_run_config_splits(c, n_fp, n_tail);
    let cf = run_config(c1, n_tail);
    assert(run_config(c, n_fp + n_tail) == cf);
    // With nothing marked yet the open position's weight is one, and the
    // separator cell contributes no digit.
    assert(pow2(0) == 1) by {
        vstd::arithmetic::power2::lemma2_to64();
    }
    assert(range_value(c.tape, lo + 1, l) * pow2((kappa - kappa) as nat) == range_value(
        c.tape,
        lo + 1,
        l,
    )) by (nonlinear_arith)
        requires
            pow2((kappa - kappa) as nat) == 1,
    ;
    lemma_range_value_split(c.tape, l + 1, l + 1, kappa);
    assert(range_value(c.tape, l + 1, l) == 0);
    assert(range_value(c.tape, l + 1, l + 1) == 0);
    assert(range_value(c.tape, l + 1, l + 1) * pow2((kappa - (l + 1)) as nat) == 0)
        by (nonlinear_arith)
        requires
            range_value(c.tape, l + 1, l + 1) == 0,
    ;
    assert(range_value(c.tape, l + 1, kappa) == range_value(c.tape, l + 2, kappa));
    assert({
        &&& run_config(c, n_fp + n_tail).state == State::Halt
        &&& range_value(run_config(c, n_fp + n_tail).tape, lo + 1, kappa) == range_value(
            c.tape,
            lo + 1,
            l,
        ) + range_value(c.tape, l + 2, kappa)
    });
}

} // verus!
