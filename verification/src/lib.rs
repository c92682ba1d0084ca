//! A single-tape Turing machine: the tape with its head, the rule table of
//! each state, one step of the machine, and a reader for rule tables
//! written as text.
pub mod turing;
