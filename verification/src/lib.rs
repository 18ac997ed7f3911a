//! A single-tape, single-head deterministic Turing machine engine, together
//! with the transition table that makes it add two binary numbers written on
//! the tape around a `+` separator.
//!
//! The engine lives in [`machine`]: a growable tape of symbols, a head index,
//! a control state, and a transition table consulted on every step.  The
//! states, directions and tables themselves are defined in [`rules`], and
//! the table for binary addition — with the proof that it always halts — in
//! [`addition`].

pub mod addition;
pub mod machine;
pub mod rules;
