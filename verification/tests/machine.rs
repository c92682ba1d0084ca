use std::collections::HashMap;
use turing_machine::turing::model::{Rule, State, Tape, BLANK};
use turing_machine::turing::notation::read_rule;
use turing_machine::turing::{Machine, StepOutcome};

fn tape(s: &str, head: usize) -> Tape {
    Tape { tape: s.chars().collect(), head }
}

fn text(t: &Tape) -> String {
    t.tape.iter().collect()
}

fn state(rules: &[(char, Rule)]) -> State {
    let mut m = HashMap::new();
    for (c, r) in rules {
        m.insert(*c as u32, *r);
    }
    State { rules: m }
}

#[test]
fn get_char_reads_under_head() {
    assert_eq!(tape("abc", 0).get_char(), 'a');
    assert_eq!(tape("abc", 2).get_char(), 'c');
}

#[test]
fn move_left_inside_tape() {
    let mut t = tape("abc", 2);
    let next = t.move_head(&Rule::Left('x', 4));
    assert_eq!(next, 4);
    assert_eq!(text(&t), "abx");
    assert_eq!(t.head, 1);
}

#[test]
fn move_left_at_start_adds_blank() {
    let mut t = tape("abc", 0);
    let next = t.move_head(&Rule::Left('x', 0));
    assert_eq!(next, 0);
    assert_eq!(text(&t), "#xbc");
    assert_eq!(t.head, 0);
    assert_eq!(t.get_char(), BLANK);
}

#[test]
fn move_right_inside_tape() {
    let mut t = tape("abc", 0);
    let next = t.move_head(&Rule::Right('y', 7));
    assert_eq!(next, 7);
    assert_eq!(text(&t), "ybc");
    assert_eq!(t.head, 1);
}

#[test]
fn move_right_at_end_adds_blank() {
    let mut t = tape("abc", 2);
    let next = t.move_head(&Rule::Right('z', 1));
    assert_eq!(next, 1);
    assert_eq!(text(&t), "abz#");
    assert_eq!(t.head, 3);
    assert_eq!(t.get_char(), BLANK);
}

#[test]
fn move_right_on_single_cell() {
    let mut t = tape("a", 0);
    t.move_head(&Rule::Right('b', 0));
    assert_eq!(text(&t), "b#");
    assert_eq!(t.head, 1);
}

// Seen from the head, a move shifts the tape by one cell: a left move and a
// right move that write back what they read return to the same view.
#[test]
fn left_then_right_restores_view() {
    let mut t = tape("abc", 0);
    t.move_head(&Rule::Left('a', 0));
    t.move_head(&Rule::Right(BLANK, 0));
    assert_eq!(t.get_char(), 'a');
    assert_eq!(t.tape[t.head + 1], 'b');
    assert_eq!(t.tape[t.head + 2], 'c');
}

#[test]
fn build_new_starts_in_state_zero() {
    let m = Machine::build_new(tape("ab", 1), vec![state(&[])]);
    assert_eq!(m.current_state, Some(0));
    assert_eq!(text(&m.tape), "ab");
    assert_eq!(m.tape.head, 1);
    assert_eq!(m.states.len(), 1);
}

#[test]
fn step_applies_rule() {
    let states = vec![state(&[('a', Rule::Right('b', 1))]), state(&[])];
    let mut m = Machine::build_new(tape("aa", 0), states);
    assert_eq!(m.step(), StepOutcome::Moved);
    assert_eq!(m.current_state, Some(1));
    assert_eq!(text(&m.tape), "ba");
    assert_eq!(m.tape.head, 1);
}

#[test]
fn step_without_rule_halts() {
    let states = vec![state(&[('a', Rule::Right('b', 0))])];
    let mut m = Machine::build_new(tape("xa", 0), states);
    assert_eq!(m.step(), StepOutcome::NoRuleForSymbol('x'));
    assert_eq!(m.current_state, None);
    assert_eq!(text(&m.tape), "xa");
    assert_eq!(m.tape.head, 0);
}

#[test]
fn halted_machine_stays_halted() {
    let states = vec![state(&[('a', Rule::Right('b', 0))])];
    let mut m = Machine::build_new(tape("a", 0), states);
    m.current_state = None;
    assert_eq!(m.step(), StepOutcome::NoState);
    assert_eq!(m.step(), StepOutcome::NoState);
    assert_eq!(m.current_state, None);
    assert_eq!(text(&m.tape), "a");
}

// Replaces every `a` by `b` moving right, and halts on the first blank.
#[test]
fn machine_runs_until_halt() {
    let states = vec![state(&[('a', Rule::Right('b', 0))])];
    let mut m = Machine::build_new(tape("aaa", 0), states);
    let mut steps = 0;
    while m.step() == StepOutcome::Moved {
        steps += 1;
    }
    assert_eq!(steps, 3);
    assert_eq!(text(&m.tape), "bbb#");
    assert_eq!(m.tape.head, 3);
    assert_eq!(m.current_state, None);
}

#[test]
fn parse_single_rule() {
    let states = Machine::parse_states("q0:c->cr1");
    assert_eq!(states.len(), 2);
    assert_eq!(states[0].rules.len(), 1);
    assert_eq!(states[0].rules.get(&('c' as u32)), Some(&Rule::Right('c', 1)));
    assert!(states[1].rules.is_empty());
}

#[test]
fn parse_several_rules_and_separators() {
    let states = Machine::parse_states("  q1:a->bl0\n\tq0:#->xr2 \r\nq1:b->ar1 ");
    assert_eq!(states.len(), 3);
    assert_eq!(states[0].rules.get(&('#' as u32)), Some(&Rule::Right('x', 2)));
    assert_eq!(states[1].rules.len(), 2);
    assert_eq!(states[1].rules.get(&('a' as u32)), Some(&Rule::Left('b', 0)));
    assert_eq!(states[1].rules.get(&('b' as u32)), Some(&Rule::Right('a', 1)));
    assert!(states[2].rules.is_empty());
}

#[test]
fn parse_later_rule_replaces_earlier() {
    let states = Machine::parse_states("q0:a->bl0 q0:a->cr0");
    assert_eq!(states.len(), 1);
    assert_eq!(states[0].rules.len(), 1);
    assert_eq!(states[0].rules.get(&('a' as u32)), Some(&Rule::Right('c', 0)));
}

#[test]
fn parse_multi_digit_indices() {
    let states = Machine::parse_states("q12:a->bl003");
    assert_eq!(states.len(), 13);
    assert_eq!(states[12].rules.get(&('a' as u32)), Some(&Rule::Left('b', 3)));
    assert!(states[3].rules.is_empty());
}

#[test]
fn parse_skips_malformed_words() {
    for bad in [
        "q0:a->bx1", "x0:a->br1", "q:a->br1", "q0:a->br", "q0a->br1", "q0:a-<br1", "q0:a->br1x",
        "q0:ab->br1", "qa:a->br1", "q0:a>br1", "q", "",
        "q0:a->br18446744073709551615", "q99999999999999999999999:a->br1",
    ] {
        assert!(Machine::parse_states(bad).is_empty(), "accepted {:?}", bad);
    }
    let states = Machine::parse_states("junk q0:a->br0 more junk");
    assert_eq!(states.len(), 1);
    assert_eq!(states[0].rules.get(&('a' as u32)), Some(&Rule::Right('b', 0)));
}

#[test]
fn parse_symbols_may_be_syntax_characters() {
    let states = Machine::parse_states("q0:-->qr0 q0:q->:l0");
    assert_eq!(states.len(), 1);
    assert_eq!(states[0].rules.get(&('-' as u32)), Some(&Rule::Right('q', 0)));
    assert_eq!(states[0].rules.get(&('q' as u32)), Some(&Rule::Left(':', 0)));
}

#[test]
fn parse_largest_index() {
    let w = format!("q0:a->br{}", usize::MAX - 1);
    let rule = read_rule(&w.chars().collect());
    assert_eq!(rule, Some((0, 'a', Rule::Right('b', usize::MAX - 1))));
}

#[test]
fn read_rule_reads_word() {
    let w: Vec<char> = "q3:1->0l2".chars().collect();
    assert_eq!(read_rule(&w), Some((3, '1', Rule::Left('0', 2))));
    let bad: Vec<char> = "q3:1->0l".chars().collect();
    assert_eq!(read_rule(&bad), None);
}

// A parsed rule table lets a machine run: every rule leads to a state.
#[test]
fn parsed_machine_runs() {
    let states = Machine::parse_states("q0:a->br0 q0:#->#l1 q1:b->al1");
    let mut m = Machine::build_new(tape("aa", 0), states);
    let mut steps = 0;
    while m.step() == StepOutcome::Moved {
        steps += 1;
    }
    assert_eq!(steps, 5);
    assert_eq!(text(&m.tape), "#aa#");
    assert_eq!(m.current_state, None);
}

#[test]
fn grow_states_adds_empty_states() {
    let mut m = Machine::build_new(tape("a", 0), vec![state(&[('a', Rule::Left('a', 0))])]);
    m.grow_states(3);
    assert_eq!(m.states.len(), 3);
    assert_eq!(m.states[0].rules.get(&('a' as u32)), Some(&Rule::Left('a', 0)));
    assert!(m.states[1].rules.is_empty());
    assert!(m.states[2].rules.is_empty());
    m.grow_states(2);
    assert_eq!(m.states.len(), 3);
}

// A rule that is set is the one that a step then applies.
#[test]
fn set_rule_then_step_applies_it() {
    let mut m = Machine::build_new(tape("a", 0), vec![]);
    m.grow_states(2);
    m.set_rule(0, 'a', Rule::Left('b', 1));
    m.set_rule(0, 'c', Rule::Right('c', 0));
    m.set_rule(0, 'a', Rule::Right('z', 1));
    assert_eq!(m.states[0].rules.len(), 2);
    assert_eq!(m.states[0].rules.get(&('c' as u32)), Some(&Rule::Right('c', 0)));
    assert_eq!(m.step(), StepOutcome::Moved);
    assert_eq!(text(&m.tape), "z#");
    assert_eq!(m.current_state, Some(1));
    assert_eq!(m.step(), StepOutcome::NoRuleForSymbol(BLANK));
}

// Setting a rule changes one entry of one table and nothing else.
#[test]
fn set_rule_changes_only_its_entry() {
    let mut m = Machine::build_new(tape("a", 0), vec![]);
    m.grow_states(2);
    m.set_rule(1, 'x', Rule::Left('y', 0));
    m.set_rule(0, 'a', Rule::Right('b', 1));
    assert_eq!(m.states[0].rules.len(), 1);
    assert_eq!(m.states[1].rules.len(), 1);
    assert_eq!(m.states[1].rules.get(&('x' as u32)), Some(&Rule::Left('y', 0)));
    assert_eq!(m.states[0].rules.get(&('a' as u32)), Some(&Rule::Right('b', 1)));
}
