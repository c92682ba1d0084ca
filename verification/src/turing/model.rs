use std::collections::HashMap;
use vstd::prelude::*;

verus! {

/// The symbol that fills every cell of the tape that was never written.
pub const BLANK: char = '#';

/// The tape: the cells written so far and the position of the head.
#[derive(Clone)]
pub struct Tape {
    pub tape: Vec<char>,
    pub head: usize,
}

/// What a state does on a symbol: write the symbol, move the head one cell
/// to the left or to the right, and go on in the state of the given index.
#[derive(Clone, Copy, Debug, PartialEq, Eq, Structural)]
pub enum Rule {
    Left(char, usize),
    Right(char, usize),
}

impl Rule {
    /// The symbol that the rule writes under the head.
    pub open spec fn written(self) -> char {
        match self {
            Rule::Left(c, _) => c,
            Rule::Right(c, _) => c,
        }
    }

    /// The index of the state that the rule leads to.
    pub open spec fn next_state(self) -> usize {
        match self {
            Rule::Left(_, i) => i,
            Rule::Right(_, i) => i,
        }
    }
}

impl Tape {
    /// The head stands on a cell of the tape.
    pub open spec fn wf(&self) -> bool {
        self.head < self.tape@.len()
    }

    pub fn get_char(&self) -> (c: char)
        requires
            self.wf(),
        ensures
            c == self.tape@[self.head as int],
    {
        self.tape[self.head]
    }
}

/// The rule table of one state: for each symbol, keyed by its code point,
/// the rule that the state applies when the head reads that symbol.
#[derive(Clone)]
pub struct State {
    pub rules: HashMap<u32, Rule>,
}

/// The key under which a state's rule table files the rule for `c`.
pub open spec fn symbol_key(c: char) -> u32 {
    c as u32
}

/// A rule table files the rule for a symbol under that symbol's code point.
pub proof fn lemma_symbol_key_is_code_point(c: char)
    ensures
        symbol_key(c) == c as u32,
        symbol_key(c) as int == c as int,
{
}

/// Different symbols have different keys.
pub proof fn lemma_symbol_key_injective(c: char, d: char)
    ensures
        c != d ==> symbol_key(c) != symbol_key(d),
{
}

/// The cell at offset `k` from the head (negative to the left), where the
/// cells outside the written part of the tape hold `BLANK`.
pub open spec fn cell_at(cells: Seq<char>, head: int, k: int) -> char {
    let i = head + k;
    if 0 <= i < cells.len() {
        cells[i]
    } else {
        BLANK
    }
}

/// The cells and the head position after `rule` is applied: its symbol is
/// written under the head, then the head moves one cell. Where the head would
/// leave the written part, a blank cell is added there: to the left the new
/// cell becomes position 0 and the head stays at 0; to the right it is
/// appended once the head reaches the last cell.
pub open spec fn moved(cells: Seq<char>, head: int, rule: Rule) -> (Seq<char>, int) {
    let written = cells.update(head, rule.written());
    match rule {
        Rule::Left(_, _) => if head == 0 {
            (seq![BLANK] + written, 0)
        } else {
            (written, head - 1)
        },
        Rule::Right(_, _) => if head + 1 == cells.len() {
            (written.push(BLANK), head + 1)
        } else {
            (written, head + 1)
        },
    }
}

/// The offset by which the head moves under `rule`.
pub open spec fn shift(rule: Rule) -> int {
    match rule {
        Rule::Left(_, _) => -1,
        Rule::Right(_, _) => 1,
    }
}

/// Seen from the head, the tape is unbounded and blank outside its written
/// part: applying a rule writes its symbol under the head and shifts that
/// view by one cell, whatever cells the tape had to add to keep the head on
/// it. The head stays on a cell of the tape.
pub proof fn lemma_move_shifts_view(cells: Seq<char>, head: int, rule: Rule)
    requires
        0 <= head < cells.len(),
    ensures
        ({
            let (c2, h2) = moved(cells, head, rule);
            &&& 0 <= h2 < c2.len()
            &&& forall|k: int|
                #[trigger] cell_at(c2, h2, k) == cell_at(
                    cells.update(head, rule.written()),
                    head,
                    k + shift(rule),
                )
            &&& match rule {
                Rule::Left(c, _) => {
                    &&& forall|k: int|
                        #[trigger] cell_at(c2, h2, k) == if k == 1 {
                            c
                        } else {
                            cell_at(cells, head, k - 1)
                        }
                    &&& c2.len() == cells.len() + if head == 0 {
                        1int
                    } else {
                        0int
                    }
                },
                Rule::Right(c, _) => {
                    &&& forall|k: int|
                        #[trigger] cell_at(c2, h2, k) == if k == -1 {
                            c
                        } else {
                            cell_at(cells, head, k + 1)
                        }
                    &&& c2.len() == cells.len() + if head + 1 == cells.len() {
                        1int
                    } else {
                        0int
                    }
                },
            }
        }),
{
    let (c2, h2) = moved(cells, head, rule);
    let written = cells.update(head, rule.written());
    assert forall|k: int|
        #[trigger] cell_at(c2, h2, k) == cell_at(written, head, k + shift(rule)) by {
        match rule {
            Rule::Left(_, _) => {
                if head == 0 {
                    if 0 < k <= written.len() {
                        assert(c2[k] == written[k - 1]);
                    }
                }
            },
            Rule::Right(_, _) => {},
        }
    }
}

impl Tape {
    /// Applies `rule`: writes its symbol under the head and moves the head,
    /// adding a blank cell where the head would leave the tape. Returns the
    /// index of the state that the rule leads to.
    pub fn move_head(&mut self, rule: &Rule) -> (next: usize)
        requires
            old(self).wf(),
        ensures
            (final(self).tape@, final(self).head as int) == moved(
                old(self).tape@,
                old(self).head as int,
                *rule,
            ),
            next == rule.next_state(),
            final(self).wf(),
    {
        match *rule {
            Rule::Left(rep, i) => {
                self.tape[self.head] = rep;
                if self.head < 1 {
                    self.tape.insert(0, BLANK);
                    self.head = 0;
                } else {
                    self.head = self.head - 1;
                }
                i
            },
            Rule::Right(rep, i) => {
                self.tape[self.head] = rep;
                assert(self.head < self.tape.len());
                self.head = self.head + 1;
                if self.head == self.tape.len() {
                    self.tape.push(BLANK);
                }
                i
            },
        }
    }
}

} // verus!
