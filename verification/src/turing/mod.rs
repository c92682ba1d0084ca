pub mod model;
pub mod notation;

use crate::turing::model::{lemma_symbol_key_injective, moved, symbol_key, Rule, State, Tape};
use crate::turing::notation::{describes, lemma_described_targets_in_range, read_states};
use std::collections::HashMap;
use vstd::prelude::*;

verus! {

broadcast use vstd::std_specs::hash::group_hash_axioms;

/// A Turing machine: its tape, the rule table of each state, and the index of
/// the state it is in, or `None` once it has halted.
#[derive(Clone)]
pub struct Machine {
    pub tape: Tape,
    pub states: Vec<State>,
    pub current_state: Option<usize>,
}

/// What one step of a machine did.
#[derive(Clone, Copy, Debug, PartialEq, Eq, Structural)]
pub enum StepOutcome {
    /// A rule was applied; the machine is in the state that it leads to.
    Moved,
    /// The current state has no rule for the symbol under the head; the
    /// machine halted.
    NoRuleForSymbol(char),
    /// The machine was not in any state; nothing changed.
    NoState,
}

/// The rule that state `s` of `states` applies on symbol `c`, if any.
pub open spec fn rule_for(states: Seq<State>, s: int, c: char) -> Option<Rule> {
    let rules = states[s].rules@;
    if rules.contains_key(symbol_key(c)) {
        Some(rules[symbol_key(c)])
    } else {
        None
    }
}

/// The rule that a state applies on a symbol is the entry of its table under
/// the symbol's code point, and there is none where the table has no such
/// entry, whatever the symbol.
pub proof fn lemma_rule_for_is_lookup(states: Seq<State>, s: int, c: char)
    ensures
        rule_for(states, s, c) == if states[s].rules@.contains_key(c as u32) {
            Some(states[s].rules@[c as u32])
        } else {
            None::<Rule>
        },
{
}

/// Every rule of every state leads to a state of `states`.
pub open spec fn targets_in_range(states: Seq<State>) -> bool {
    forall|i: int, k: u32|
        0 <= i < states.len() && #[trigger] states[i].rules@.contains_key(k) ==> (
        #[trigger] states[i].rules@[k]).next_state() < states.len()
}

/// A closed machine can always take a step, and a step keeps it closed (see
/// `Machine::step`): running it never fails, however many steps it takes.
pub proof fn lemma_closed_can_step(m: Machine)
    requires
        m.closed(),
    ensures
        m.can_step(),
{
}

impl Machine {
    /// A step cannot fail on this machine: if it is in a state, that state
    /// exists and the head stands on the tape.
    pub open spec fn can_step(&self) -> bool {
        self.current_state matches Some(s) ==> s < self.states@.len() && self.tape.wf()
    }

    /// The machine can step, and every rule leads to an existing state, so
    /// that it can step again whatever the steps do.
    pub open spec fn closed(&self) -> bool {
        &&& self.tape.wf()
        &&& targets_in_range(self.states@)
        &&& self.current_state matches Some(s) ==> s < self.states@.len()
    }

    /// A machine on `tape` with the given states, in state 0.
    pub fn build_new(tape: Tape, states: Vec<State>) -> (m: Machine)
        ensures
            m.tape == tape,
            m.states@ == states@,
            m.current_state == Some(0usize),
            m.closed() <==> tape.wf() && states@.len() > 0 && targets_in_range(states@),
    {
        Machine { tape, states, current_state: Some(0) }
    }

    /// Reads the states of a machine from a rule table written as words
    /// `q<state>:<read>-><write><move><next>` separated by blanks, as in
    /// `q0:c->cr1`: state 0, reading `c`, writes `c`, moves right and goes on
    /// in state 1. Words that are not rules are passed over; a later rule for
    /// the same state and symbol replaces an earlier one. There are as many
    /// states as the rules need, and every rule leads to one of them.
    pub fn parse_states(state_str: &str) -> (states: Vec<State>)
        ensures
            describes(states@, state_str@),
            targets_in_range(states@),
    {
        let states = read_states(state_str);
        proof {
            lemma_described_targets_in_range(states@, state_str@);
        }
        states
    }

    /// Adds states without rules until the machine has at least `count`
    /// states.
    pub fn grow_states(&mut self, count: usize)
        ensures
            final(self).tape == old(self).tape,
            final(self).current_state == old(self).current_state,
            final(self).states@.len() == if old(self).states@.len() < count {
                count as int
            } else {
                old(self).states@.len() as int
            },
            forall|i: int|
                0 <= i < old(self).states@.len() ==> #[trigger] final(self).states@[i] == old(self).states@[i],
            forall|i: int|
                old(self).states@.len() <= i < final(self).states@.len() ==> (#[trigger] final(self).states@[i]).rules@ == Map::<u32, Rule>::empty(),
            old(self).closed() ==> final(self).closed(),
    {
        while self.states.len() < count
            invariant
                self.tape == old(self).tape,
                self.current_state == old(self).current_state,
                old(self).states@.len() <= self.states@.len() <= if old(self).states@.len()
                    < count {
                    count as int
                } else {
                    old(self).states@.len() as int
                },
                forall|i: int|
                    0 <= i < old(self).states@.len() ==> #[trigger] self.states@[i] == old(self).states@[i],
                forall|i: int|
                    old(self).states@.len() <= i < self.states@.len() ==> (
                    #[trigger] self.states@[i]).rules@ == Map::<u32, Rule>::empty(),
            decreases count - self.states@.len(),
        {
            self.states.push(State { rules: HashMap::new() });
        }
        assert(old(self).closed() ==> self.closed()) by {
            if old(self).closed() {
                assert forall|i: int, k: u32|
                    0 <= i < self.states@.len() && #[trigger] self.states@[i].rules@.contains_key(
                        k,
                    ) implies (#[trigger] self.states@[i].rules@[k]).next_state()
                    < self.states@.len() by {
                    assert(i < old(self).states@.len());
                    assert(old(self).states@[i].rules@.contains_key(k));
                }
            }
        }
    }

    /// Gives state `state` the rule `rule` for symbol `symbol`, in place of
    /// the one it had.
    pub fn set_rule(&mut self, state: usize, symbol: char, rule: Rule)
        requires
            state < old(self).states@.len(),
        ensures
            final(self).tape == old(self).tape,
            final(self).current_state == old(self).current_state,
            final(self).states@.len() == old(self).states@.len(),
            final(self).states@[state as int].rules@ == old(self).states@[state as int].rules@.insert(
                symbol as u32,
                rule,
            ),
            final(self).states@[state as int].rules@ == old(self).states@[state as int].rules@.insert(
                symbol_key(symbol),
                rule,
            ),
            forall|i: int|
                0 <= i < old(self).states@.len() && i != state ==> #[trigger] final(self).states@[i]
                    == old(self).states@[i],
            rule_for(final(self).states@, state as int, symbol) == Some(rule),
            forall|s: int, c: char|
                0 <= s < old(self).states@.len() && !(s == state && c == symbol) ==> #[trigger] rule_for(
                    final(self).states@,
                    s,
                    c,
                ) == rule_for(old(self).states@, s, c),
    {
        let key: u32 = symbol as u32;
        self.states[state].rules.insert(key, rule);
        assert forall|s: int, c: char|
            0 <= s < old(self).states@.len() && !(s == state && c == symbol) implies #[trigger] rule_for(
            self.states@,
            s,
            c,
        ) == rule_for(old(self).states@, s, c) by {
            if s == state {
                lemma_symbol_key_injective(c, symbol);
            } else {
                assert(self.states@[s] == old(self).states@[s]);
            }
        }
        assert(old(self).closed() && rule.next_state() < old(self).states@.len() ==> self.closed())
            by {
            if old(self).closed() && rule.next_state() < old(self).states@.len() {
                assert forall|i: int, k: u32|
                    0 <= i < self.states@.len() && #[trigger] self.states@[i].rules@.contains_key(
                        k,
                    ) implies (#[trigger] self.states@[i].rules@[k]).next_state()
                    < self.states@.len() by {
                    if !(i == state && k == key) {
                        assert(old(self).states@[i].rules@.contains_key(k));
                    }
                }
            }
        }
    }

    /// One step: in state `s` with symbol `c` under the head, applies the
    /// rule of `s` for `c` and goes on in the state that it names; without
    /// such a rule the machine halts; a halted machine stays as it is.
    pub fn step(&mut self) -> (out: StepOutcome)
        requires
            old(self).can_step(),
        ensures
            final(self).states@ == old(self).states@,
            old(self).closed() ==> final(self).closed(),
            match old(self).current_state {
                None => true,
                Some(s) => {
                    let c = old(self).tape.tape@[old(self).tape.head as int];
                    let table = old(self).states@[s as int].rules@;
                    &&& table.contains_key(c as u32) ==> out == StepOutcome::Moved
                        && final(self).current_state == Some(table[c as u32].next_state())
                    &&& !table.contains_key(c as u32) ==> out == StepOutcome::NoRuleForSymbol(c)
                        && final(self).current_state == None::<usize> && final(self).tape == old(self).tape
                },
            },
            match old(self).current_state {
                None => {
                    &&& out == StepOutcome::NoState
                    &&& final(self).tape == old(self).tape
                    &&& final(self).current_state == old(self).current_state
                },
                Some(s) => {
                    let c = old(self).tape.tape@[old(self).tape.head as int];
                    match rule_for(old(self).states@, s as int, c) {
                        Some(r) => {
                            &&& out == StepOutcome::Moved
                            &&& (final(self).tape.tape@, final(self).tape.head as int) == moved(
                                old(self).tape.tape@,
                                old(self).tape.head as int,
                                r,
                            )
                            &&& final(self).tape.wf()
                            &&& final(self).current_state == Some(r.next_state())
                        },
                        None => {
                            &&& out == StepOutcome::NoRuleForSymbol(c)
                            &&& final(self).tape == old(self).tape
                            &&& final(self).current_state == None::<usize>
                        },
                    }
                },
            },
    {
        match self.current_state {
            Some(s) => {
                let c = self.tape.get_char();
                let key: u32 = c as u32;
                match self.states[s].rules.get(&key) {
                    Some(x) => {
                        let r: Rule = *x;
                        let next = self.tape.move_head(&r);
                        self.current_state = Some(next);
                        StepOutcome::Moved
                    },
                    None => {
                        self.current_state = None;
                        StepOutcome::NoRuleForSymbol(c)
                    },
                }
            },
            None => StepOutcome::NoState,
        }
    }
}

} // verus!
