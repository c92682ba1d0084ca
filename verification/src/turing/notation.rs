use crate::turing::model::{symbol_key, Rule, State};
use crate::turing::targets_in_range;
use std::collections::HashMap;
use vstd::prelude::*;

verus! {

broadcast use {vstd::string::group_string_axioms, vstd::std_specs::hash::group_hash_axioms};

// A rule table is written as words separated by blanks, one rule per word,
// in the form `q<state>:<read>-><write><move><next>`: `q`, the index of the
// state in decimal, `:`, the symbol read, `->`, the symbol written, `l` or
// `r` for the move of the head, and the index of the next state in decimal.
// `q0:c->cr1` says that state 0, reading `c`, writes `c`, moves right and
// goes on in state 1.

/// The characters that separate words.
pub open spec fn is_separator(c: char) -> bool {
    c == ' ' || c == '\t' || c == '\n' || c == '\r'
}

/// The words that `s` holds, `pending` being the start of a word read before
/// `s`: the maximal runs of characters that are not separators, in order.
pub open spec fn words_from(s: Seq<char>, pending: Seq<char>) -> Seq<Seq<char>>
    decreases s.len(),
{
    let done = if pending.len() > 0 {
        seq![pending]
    } else {
        Seq::<Seq<char>>::empty()
    };
    if s.len() == 0 {
        done
    } else if is_separator(s[0]) {
        done + words_from(s.drop_first(), Seq::<char>::empty())
    } else {
        words_from(s.drop_first(), pending.push(s[0]))
    }
}

/// The words of `s`.
pub open spec fn words(s: Seq<char>) -> Seq<Seq<char>> {
    words_from(s, Seq::<char>::empty())
}

pub open spec fn is_digit(c: char) -> bool {
    '0' <= c <= '9'
}

pub open spec fn all_digits(d: Seq<char>) -> bool {
    forall|i: int| 0 <= i < d.len() ==> is_digit(#[trigger] d[i])
}

/// The value of the decimal digit `c`.
pub open spec fn digit_value(c: char) -> nat {
    (c as int - '0' as int) as nat
}

/// The number that the decimal digits `d` write.
pub open spec fn number_value(d: Seq<char>) -> nat
    decreases d.len(),
{
    if d.len() == 0 {
        0
    } else {
        number_value(d.drop_last()) * 10 + digit_value(d.last())
    }
}

/// The state index that `d` writes: one or more decimal digits whose value is
/// below `usize::MAX`, so that the count of states up to it fits a `usize`.
pub open spec fn index_value(d: Seq<char>) -> Option<usize> {
    if d.len() > 0 && all_digits(d) && number_value(d) < usize::MAX {
        Some(number_value(d) as usize)
    } else {
        None
    }
}

/// The end of the run of digits in `w` that starts at `i`.
pub open spec fn digits_end(w: Seq<char>, i: int) -> int
    decreases w.len() - i,
{
    if 0 <= i < w.len() && is_digit(w[i]) {
        digits_end(w, i + 1)
    } else {
        i
    }
}

/// The rule that the word `w` writes, with the state that it belongs to and
/// the symbol that it reads, or `None` where `w` is not in the form
/// `q<state>:<read>-><write><move><next>`.
pub open spec fn word_rule(w: Seq<char>) -> Option<(usize, char, Rule)> {
    let j = digits_end(w, 1);
    if w.len() > 0 && w[0] == 'q' && j + 6 < w.len() && w[j] == ':' && w[j + 2] == '-' && w[j
        + 3] == '>' && (w[j + 5] == 'l' || w[j + 5] == 'r') {
        match (index_value(w.subrange(1, j)), index_value(w.subrange(j + 6, w.len() as int))) {
            (Some(src), Some(dst)) => {
                let rule = if w[j + 5] == 'l' {
                    Rule::Left(w[j + 4], dst)
                } else {
                    Rule::Right(w[j + 4], dst)
                };
                Some((src, w[j + 1], rule))
            },
            _ => None,
        }
    } else {
        None
    }
}

/// The rules that the words `ws` write, in order; words that are not rules
/// are passed over.
pub open spec fn word_rules(ws: Seq<Seq<char>>) -> Seq<(usize, char, Rule)>
    decreases ws.len(),
{
    if ws.len() == 0 {
        Seq::empty()
    } else {
        let rest = word_rules(ws.drop_last());
        match word_rule(ws.last()) {
            Some(e) => rest.push(e),
            None => rest,
        }
    }
}

/// The number of states that the rules `es` need: one more than the largest
/// state index that a rule belongs to or leads to, and none without rules.
pub open spec fn states_needed(es: Seq<(usize, char, Rule)>) -> nat
    decreases es.len(),
{
    if es.len() == 0 {
        0
    } else {
        let e = es.last();
        let n = states_needed(es.drop_last());
        let m = if e.0 < e.2.next_state() {
            e.2.next_state() + 1
        } else {
            e.0 + 1
        };
        if n < m {
            m as nat
        } else {
            n
        }
    }
}

/// The rule table of state `i` under the rules `es`: for each symbol, the
/// last rule of `es` that belongs to `i` and reads that symbol.
pub open spec fn table_of(es: Seq<(usize, char, Rule)>, i: int) -> Map<u32, Rule>
    decreases es.len(),
{
    if es.len() == 0 {
        Map::empty()
    } else {
        let e = es.last();
        let m = table_of(es.drop_last(), i);
        if e.0 == i {
            m.insert(symbol_key(e.1), e.2)
        } else {
            m
        }
    }
}

/// `states` are the states that the rules `es` need, each with its table.
pub open spec fn holds_rules(states: Seq<State>, es: Seq<(usize, char, Rule)>) -> bool {
    &&& states.len() == states_needed(es)
    &&& forall|i: int| 0 <= i < states.len() ==> (#[trigger] states[i]).rules@ == table_of(es, i)
}

/// `states` are the states that the text `s` describes.
pub open spec fn describes(states: Seq<State>, s: Seq<char>) -> bool {
    holds_rules(states, word_rules(words(s)))
}

proof fn lemma_number_value_prefix(d: Seq<char>, n: int)
    requires
        0 <= n <= d.len(),
        all_digits(d),
    ensures
        number_value(d.take(n)) <= number_value(d),
    decreases d.len(),
{
    if n < d.len() {
        let p = d.drop_last();
        assert(all_digits(p)) by {
            assert forall|i: int| 0 <= i < p.len() implies is_digit(#[trigger] p[i]) by {
                assert(p[i] == d[i]);
            }
        }
        lemma_number_value_prefix(p, n);
        assert(p.take(n) =~= d.take(n));
    } else {
        assert(d.take(n) =~= d);
    }
}

/// A state beyond those that the rules `es` need has no rules.
proof fn lemma_table_beyond_needed(es: Seq<(usize, char, Rule)>, i: int)
    requires
        i >= states_needed(es),
    ensures
        table_of(es, i) == Map::<u32, Rule>::empty(),
    decreases es.len(),
{
    if es.len() > 0 {
        lemma_table_beyond_needed(es.drop_last(), i);
    }
}

/// The value of `c` if it is a decimal digit.
fn read_digit(c: char) -> (r: Option<usize>)
    ensures
        match r {
            Some(v) => is_digit(c) && v == digit_value(c),
            None => !is_digit(c),
        },
{
    match c {
        '0' => Some(0),
        '1' => Some(1),
        '2' => Some(2),
        '3' => Some(3),
        '4' => Some(4),
        '5' => Some(5),
        '6' => Some(6),
        '7' => Some(7),
        '8' => Some(8),
        '9' => Some(9),
        _ => None,
    }
}

/// Every rule that the tables of `es` hold leads to a state that `es` need.
proof fn lemma_table_targets_needed(es: Seq<(usize, char, Rule)>, i: int, k: u32)
    requires
        table_of(es, i).contains_key(k),
    ensures
        table_of(es, i)[k].next_state() < states_needed(es),
    decreases es.len(),
{
    if es.len() > 0 {
        let e = es.last();
        if !(e.0 == i && symbol_key(e.1) == k) {
            lemma_table_targets_needed(es.drop_last(), i, k);
        }
    }
}

/// The states that a rule table describes lead nowhere but to one another:
/// every rule of every state names a state among them.
pub proof fn lemma_described_targets_in_range(states: Seq<State>, s: Seq<char>)
    requires
        describes(states, s),
    ensures
        targets_in_range(states),
{
    let es = word_rules(words(s));
    assert forall|i: int, k: u32|
        0 <= i < states.len() && #[trigger] states[i].rules@.contains_key(k) implies (
        #[trigger] states[i].rules@[k]).next_state() < states.len() by {
        lemma_table_targets_needed(es, i, k);
    }
}

/// A decimal numeral is read digit by digit, most significant first: no
/// digits are zero, and a further digit `c` multiplies the value by ten and
/// adds what `c` stands for.
pub proof fn lemma_number_value_digits(d: Seq<char>, c: char)
    requires
        '0' <= c <= '9',
    ensures
        number_value(Seq::<char>::empty()) == 0,
        number_value(d.push(c)) == 10 * number_value(d) + (c as int - '0' as int),
{
    assert(d.push(c).drop_last() =~= d);
}

/// Blanks, tabs, line feeds and carriage returns all end a word: the words of
/// a text with one of them between `a` and `b` are the words of `a`, then
/// those of `b`.
pub proof fn lemma_whitespace_splits_words(a: Seq<char>, b: Seq<char>, c: char)
    requires
        c == ' ' || c == '\t' || c == '\n' || c == '\r',
    ensures
        words(a + seq![c] + b) == words(a) + words(b),
        words(Seq::<char>::empty()) == Seq::<Seq<char>>::empty(),
{
    lemma_words_from_split(a, b, c, Seq::empty());
}

proof fn lemma_words_from_split(a: Seq<char>, b: Seq<char>, c: char, p: Seq<char>)
    requires
        c == ' ' || c == '\t' || c == '\n' || c == '\r',
    ensures
        words_from(a + seq![c] + b, p) == words_from(a, p) + words(b),
    decreases a.len(),
{
    let x = a + seq![c] + b;
    let done = if p.len() > 0 {
        seq![p]
    } else {
        Seq::<Seq<char>>::empty()
    };
    if a.len() == 0 {
        assert(x[0] == c);
        assert(x.drop_first() =~= b);
        assert(words_from(a, p) == done);
    } else {
        assert(x[0] == a[0]);
        assert(x.drop_first() =~= a.drop_first() + seq![c] + b);
        if is_separator(a[0]) {
            lemma_words_from_split(a.drop_first(), b, c, Seq::empty());
            assert(done + (words_from(a.drop_first(), Seq::empty()) + words(b)) =~= (done
                + words_from(a.drop_first(), Seq::empty())) + words(b));
        } else {
            lemma_words_from_split(a.drop_first(), b, c, p.push(a[0]));
        }
    }
}

/// A rule table saved with Windows line ends (`\r\n`) has the same words,
/// and so describes the same states, as one saved with `\n`.
pub proof fn lemma_crlf_same_as_lf(a: Seq<char>, b: Seq<char>, states: Seq<State>)
    ensures
        words(a + seq!['\r', '\n'] + b) == words(a + seq!['\n'] + b),
        describes(states, a + seq!['\r', '\n'] + b) == describes(states, a + seq!['\n'] + b),
{
    assert(a + seq!['\r', '\n'] + b =~= a + seq!['\r'] + (Seq::<char>::empty() + seq!['\n'] + b));
    lemma_whitespace_splits_words(a, Seq::<char>::empty() + seq!['\n'] + b, '\r');
    lemma_whitespace_splits_words(Seq::<char>::empty(), b, '\n');
    lemma_whitespace_splits_words(a, b, '\n');
    assert(words(Seq::<char>::empty()) =~= Seq::<Seq<char>>::empty());
    assert(Seq::<Seq<char>>::empty() + words(b) =~= words(b));
}

/// Text without blanks, tabs or line ends is a single word.
pub proof fn lemma_unbroken_text_is_one_word(w: Seq<char>)
    requires
        w.len() > 0,
        forall|i: int|
            0 <= i < w.len() ==> w[i] != ' ' && w[i] != '\t' && w[i] != '\n' && w[i] != '\r',
    ensures
        words(w) == seq![w],
{
    lemma_words_from_unbroken(w, Seq::empty());
    assert(Seq::<char>::empty() + w =~= w);
}

proof fn lemma_words_from_unbroken(w: Seq<char>, p: Seq<char>)
    requires
        p.len() + w.len() > 0,
        forall|i: int|
            0 <= i < w.len() ==> w[i] != ' ' && w[i] != '\t' && w[i] != '\n' && w[i] != '\r',
    ensures
        words_from(w, p) == seq![p + w],
    decreases w.len(),
{
    if w.len() == 0 {
        assert(p + w =~= p);
    } else {
        assert(!is_separator(w[0]));
        lemma_words_from_unbroken(w.drop_first(), p.push(w[0]));
        assert(p.push(w[0]) + w.drop_first() =~= p + w);
    }
}

proof fn lemma_digits_end_of_numeral(w: Seq<char>, n: int, i: int)
    requires
        1 <= i <= 1 + n < w.len(),
        forall|k: int| 1 <= k < 1 + n ==> '0' <= #[trigger] w[k] <= '9',
        w[1 + n] == ':',
    ensures
        digits_end(w, i) == 1 + n,
    decreases 1 + n - i,
{
    if i < 1 + n {
        lemma_digits_end_of_numeral(w, n, i + 1);
    }
}

/// The word `q<n>:<a>-><b><m><k>`, with `n` and `k` decimal numerals below
/// `usize::MAX` and `m` one of `l` and `r`, is the rule of state `n` that,
/// reading `a`, writes `b`, moves left for `l` and right for `r`, and goes on
/// in state `k`.
pub proof fn lemma_rule_word(n: Seq<char>, a: char, b: char, m: char, k: Seq<char>)
    requires
        n.len() > 0,
        k.len() > 0,
        forall|i: int| 0 <= i < n.len() ==> '0' <= #[trigger] n[i] <= '9',
        forall|i: int| 0 <= i < k.len() ==> '0' <= #[trigger] k[i] <= '9',
        number_value(n) < usize::MAX,
        number_value(k) < usize::MAX,
        m == 'l' || m == 'r',
    ensures
        word_rule(seq!['q'] + n + seq![':', a, '-', '>', b, m] + k) == Some(
            (
                number_value(n) as usize,
                a,
                if m == 'l' {
                    Rule::Left(b, number_value(k) as usize)
                } else {
                    Rule::Right(b, number_value(k) as usize)
                },
            ),
        ),
{
    let w = seq!['q'] + n + seq![':', a, '-', '>', b, m] + k;
    let j: int = 1 + n.len() as int;
    assert forall|i: int| 1 <= i < j implies '0' <= #[trigger] w[i] <= '9' by {
        assert(w[i] == n[i - 1]);
    }
    lemma_digits_end_of_numeral(w, n.len() as int, 1);
    assert(w.subrange(1, j) =~= n);
    assert(w.subrange(j + 6, w.len() as int) =~= k);
    assert(all_digits(n));
    assert(all_digits(k));
    assert(w[j] == ':' && w[j + 1] == a && w[j + 2] == '-' && w[j + 3] == '>' && w[j + 4] == b
        && w[j + 5] == m);
}

/// Every word is read in turn: a word that is a rule adds that rule after
/// those of the words before it, and any other word adds none.
pub proof fn lemma_word_rules_push(ws: Seq<Seq<char>>, w: Seq<char>)
    ensures
        word_rules(ws.push(w)) == match word_rule(w) {
            Some(e) => word_rules(ws).push(e),
            None => word_rules(ws),
        },
{
    assert(ws.push(w).drop_last() =~= ws);
}

/// The last word of a rule table, where it is a rule, is in the states read
/// from it: its state exists and files the rule under the code point of the
/// symbol that it reads, whatever that symbol is, and the state it leads to
/// exists.
pub proof fn lemma_last_rule_is_read(
    states: Seq<State>,
    a: Seq<char>,
    c: char,
    w: Seq<char>,
    src: usize,
    sym: char,
    rule: Rule,
)
    requires
        c == ' ' || c == '\t' || c == '\n' || c == '\r',
        w.len() > 0,
        forall|i: int|
            0 <= i < w.len() ==> w[i] != ' ' && w[i] != '\t' && w[i] != '\n' && w[i] != '\r',
        word_rule(w) == Some((src, sym, rule)),
        describes(states, a + seq![c] + w),
    ensures
        src < states.len(),
        rule.next_state() < states.len(),
        states[src as int].rules@.contains_key(sym as u32),
        states[src as int].rules@[sym as u32] == rule,
{
    lemma_whitespace_splits_words(a, w, c);
    lemma_unbroken_text_is_one_word(w);
    assert(words(a) + seq![w] =~= words(a).push(w));
    lemma_word_rules_push(words(a), w);
    let es = word_rules(words(a)).push((src, sym, rule));
    assert(es.drop_last() =~= word_rules(words(a)));
    assert(es.last() == (src, sym, rule));
    assert(states[src as int].rules@ == table_of(es, src as int));
}

proof fn lemma_digits_end_bounds(w: Seq<char>, i: int)
    requires
        0 <= i,
    ensures
        i <= digits_end(w, i),
        i <= w.len() ==> digits_end(w, i) <= w.len(),
    decreases w.len() - i,
{
    if 0 <= i < w.len() && is_digit(w[i]) {
        lemma_digits_end_bounds(w, i + 1);
    }
}

/// Only words of the form `q<n>:<a>-><b><m><k>`, with `n` and `k` decimal
/// numerals and `m` one of `l` and `r`, are rules, and the rule read from
/// such a word is the one that it writes.
pub proof fn lemma_rules_come_from_rule_words(w: Seq<char>, src: usize, sym: char, rule: Rule)
    requires
        word_rule(w) == Some((src, sym, rule)),
    ensures
        exists|j: int|
            #![trigger w[j]]
            {
                &&& 1 < j && j + 6 < w.len()
                &&& w[0] == 'q' && w[j] == ':' && w[j + 1] == sym && w[j + 2] == '-' && w[j
                    + 3] == '>'
                &&& forall|i: int| 1 <= i < j ==> '0' <= #[trigger] w[i] <= '9'
                &&& number_value(w.subrange(1, j)) == src
                &&& forall|i: int| j + 6 <= i < w.len() ==> '0' <= #[trigger] w[i] <= '9'
                &&& number_value(w.subrange(j + 6, w.len() as int)) == rule.next_state()
                &&& match rule {
                    Rule::Left(b, _) => w[j + 4] == b && w[j + 5] == 'l',
                    Rule::Right(b, _) => w[j + 4] == b && w[j + 5] == 'r',
                }
            },
{
    let j = digits_end(w, 1);
    lemma_digits_end_bounds(w, 1);
    assert(w.len() > 0 && w[0] == 'q' && j + 6 < w.len());
    let n = w.subrange(1, j);
    let k = w.subrange(j + 6, w.len() as int);
    assert(all_digits(n) && all_digits(k));
    assert forall|i: int| 1 <= i < j implies '0' <= #[trigger] w[i] <= '9' by {
        assert(w[i] == n[i - 1]);
    }
    assert forall|i: int| j + 6 <= i < w.len() implies '0' <= #[trigger] w[i] <= '9' by {
        assert(w[i] == k[i - (j + 6)]);
    }
    assert(w[j] == ':');
}

proof fn lemma_table_contains(es: Seq<(usize, char, Rule)>, i: int, k: u32)
    ensures
        table_of(es, i).contains_key(k) <==> exists|j: int|
            0 <= j < es.len() && (#[trigger] es[j]).0 == i && es[j].1 as u32 == k,
    decreases es.len(),
{
    if es.len() > 0 {
        let p = es.drop_last();
        let e = es.last();
        lemma_table_contains(p, i, k);
        if table_of(es, i).contains_key(k) {
            if e.0 == i && e.1 as u32 == k {
                assert(es[es.len() - 1] == e);
            } else {
                let j = choose|j: int| 0 <= j < p.len() && (#[trigger] p[j]).0 == i && p[j].1 as u32 == k;
                assert(es[j] == p[j]);
            }
        }
        if exists|j: int| 0 <= j < es.len() && (#[trigger] es[j]).0 == i && es[j].1 as u32 == k {
            let j = choose|j: int| 0 <= j < es.len() && (#[trigger] es[j]).0 == i && es[j].1 as u32 == k;
            if j < es.len() - 1 {
                assert(p[j] == es[j]);
            }
        }
    }
}

proof fn lemma_table_last(es: Seq<(usize, char, Rule)>, i: int, k: u32, j: int)
    requires
        0 <= j < es.len(),
        es[j].0 == i,
        es[j].1 as u32 == k,
        forall|j2: int| j < j2 < es.len() ==> !((#[trigger] es[j2]).0 == i && es[j2].1 as u32 == k),
    ensures
        table_of(es, i).contains_key(k),
        table_of(es, i)[k] == es[j].2,
    decreases es.len(),
{
    let p = es.drop_last();
    let e = es.last();
    if j < es.len() - 1 {
        assert(es[es.len() - 1] == e);
        assert forall|j2: int| j < j2 < p.len() implies !((#[trigger] p[j2]).0 == i && p[j2].1 as u32 == k) by {
            assert(p[j2] == es[j2]);
        }
        assert(p[j] == es[j]);
        lemma_table_last(p, i, k, j);
    }
}

/// The table that the rules `es` give state `i` has an entry for a code
/// point exactly when some rule of `i` reads a symbol with that code point,
/// and that entry is the last such rule.
pub proof fn lemma_table_holds_last_rules(es: Seq<(usize, char, Rule)>, i: int, k: u32)
    ensures
        table_of(es, i).contains_key(k) <==> exists|j: int|
            0 <= j < es.len() && (#[trigger] es[j]).0 == i && es[j].1 as u32 == k,
        forall|j: int|
            0 <= j < es.len() && (#[trigger] es[j]).0 == i && es[j].1 as u32 == k && (forall|
                j2: int,
            |
                j < j2 < es.len() ==> !((#[trigger] es[j2]).0 == i && es[j2].1 as u32 == k))
                ==> table_of(es, i)[k] == es[j].2,
{
    lemma_table_contains(es, i, k);
    assert forall|j: int|
        0 <= j < es.len() && (#[trigger] es[j]).0 == i && es[j].1 as u32 == k && (forall|j2: int|
            j < j2 < es.len() ==> !((#[trigger] es[j2]).0 == i && es[j2].1 as u32 == k))
            implies table_of(es, i)[k] == es[j].2 by {
        lemma_table_last(es, i, k, j);
    }
}

/// The rules `es` need exactly the states up to the largest index that one
/// of them belongs to or leads to: none without rules, and otherwise one
/// more than that index.
pub proof fn lemma_states_needed_exact(es: Seq<(usize, char, Rule)>)
    ensures
        forall|j: int|
            0 <= j < es.len() ==> (#[trigger] es[j]).0 < states_needed(es) && es[j].2.next_state()
                < states_needed(es),
        states_needed(es) == 0 <==> es.len() == 0,
        states_needed(es) > 0 ==> exists|j: int|
            0 <= j < es.len() && ((#[trigger] es[j]).0 + 1 == states_needed(es) || es[j].2.next_state() + 1
                == states_needed(es)),
    decreases es.len(),
{
    if es.len() > 0 {
        let p = es.drop_last();
        lemma_states_needed_exact(p);
        let e = es.last();
        assert(es[es.len() - 1] == e);
        assert forall|j: int| 0 <= j < es.len() implies (#[trigger] es[j]).0 < states_needed(es)
            && es[j].2.next_state() < states_needed(es) by {
            if j < es.len() - 1 {
                assert(p[j] == es[j]);
            }
        }
        if states_needed(p) > 0 && states_needed(es) == states_needed(p) {
            let j = choose|j: int|
                0 <= j < p.len() && ((#[trigger] p[j]).0 + 1 == states_needed(p) || p[j].2.next_state() + 1
                    == states_needed(p));
            assert(es[j] == p[j]);
        }
    }
}

/// The states read from a rule table: one for each index up to the largest
/// that a rule of the table belongs to or leads to, and none without rules;
/// each state's table has an entry for a symbol's code point exactly when a
/// rule of that state reads that symbol, and the entry is the last such rule
/// of the table.
pub proof fn lemma_read_tables(states: Seq<State>, s: Seq<char>, i: int, k: u32)
    requires
        describes(states, s),
        0 <= i < states.len(),
    ensures
        ({
            let es = word_rules(words(s));
            &&& forall|j: int|
                0 <= j < es.len() ==> (#[trigger] es[j]).0 < states.len() && es[j].2.next_state()
                    < states.len()
            &&& states.len() == 0 <==> es.len() == 0
            &&& states.len() > 0 ==> exists|j: int|
                0 <= j < es.len() && ((#[trigger] es[j]).0 + 1 == states.len()
                    || es[j].2.next_state() + 1 == states.len())
            &&& states[i].rules@.contains_key(k) <==> exists|j: int|
                0 <= j < es.len() && (#[trigger] es[j]).0 == i && es[j].1 as u32 == k
            &&& forall|j: int|
                0 <= j < es.len() && (#[trigger] es[j]).0 == i && es[j].1 as u32 == k && (forall|
                    j2: int,
                |
                    j < j2 < es.len() ==> !((#[trigger] es[j2]).0 == i && es[j2].1 as u32 == k))
                    ==> states[i].rules@[k] == es[j].2
        }),
{
    let es = word_rules(words(s));
    lemma_states_needed_exact(es);
    lemma_table_holds_last_rules(es, i, k);
}

/// Reads the state index that `w[from..to]` writes.
fn read_index(w: &Vec<char>, from: usize, to: usize) -> (r: Option<usize>)
    requires
        from <= to <= w@.len(),
    ensures
        r == index_value(w@.subrange(from as int, to as int)),
{
    let ghost d = w@.subrange(from as int, to as int);
    if from == to {
        return None;
    }
    let mut v: usize = 0;
    let mut i: usize = from;
    while i < to
        invariant
            from <= i <= to <= w@.len(),
            d == w@.subrange(from as int, to as int),
            d.len() > 0,
            all_digits(w@.subrange(from as int, i as int)),
            v as nat == number_value(w@.subrange(from as int, i as int)),
            v < usize::MAX,
        decreases to - i,
    {
        let c = w[i];
        let digit: usize = match read_digit(c) {
            Some(x) => x,
            None => {
                assert(d[i - from] == c);
                return None;
            },
        };
        let ghost p = w@.subrange(from as int, i + 1);
        proof {
            assert(p.drop_last() =~= w@.subrange(from as int, i as int));
            assert(p.last() == c);
            assert(number_value(p) == v * 10 + digit);
            assert(p =~= d.take(i + 1 - from));
            assert forall|k: int| 0 <= k < p.len() implies is_digit(#[trigger] p[k]) by {
                if k < p.len() - 1 {
                    assert(p[k] == w@.subrange(from as int, i as int)[k]);
                }
            }
            if all_digits(d) {
                lemma_number_value_prefix(d, i + 1 - from);
            }
        }
        match v.checked_mul(10) {
            None => {
                return None;
            },
            Some(t) => match t.checked_add(digit) {
                None => {
                    return None;
                },
                Some(n) => {
                    if n == usize::MAX {
                        return None;
                    }
                    v = n;
                },
            },
        }
        i = i + 1;
    }
    assert(w@.subrange(from as int, i as int) =~= d);
    Some(v)
}

/// The end of the run of digits in `w` that starts at `i`.
fn digits_end_at(w: &Vec<char>, i: usize) -> (j: usize)
    requires
        i <= w@.len(),
    ensures
        j == digits_end(w@, i as int),
        i <= j <= w@.len(),
{
    let mut j = i;
    while j < w.len() && read_digit(w[j]).is_some()
        invariant
            i <= j <= w@.len(),
            digits_end(w@, j as int) == digits_end(w@, i as int),
        decreases w@.len() - j,
    {
        j = j + 1;
    }
    j
}

/// Reads the rule that the word `w` writes, with the state that it belongs to
/// and the symbol that it reads; `None` where `w` is not in the form
/// `q<state>:<read>-><write><move><next>`.
pub fn read_rule(w: &Vec<char>) -> (r: Option<(usize, char, Rule)>)
    ensures
        r == word_rule(w@),
{
    if w.len() == 0 || w[0] != 'q' {
        return None;
    }
    let j = digits_end_at(w, 1);
    if w.len() - j <= 6 {
        return None;
    }
    if w[j] != ':' || w[j + 2] != '-' || w[j + 3] != '>' {
        return None;
    }
    let mv = w[j + 5];
    if mv != 'l' && mv != 'r' {
        return None;
    }
    let src = read_index(w, 1, j);
    let dst = read_index(w, j + 6, w.len());
    match (src, dst) {
        (Some(a), Some(b)) => {
            let rule = if mv == 'l' {
                Rule::Left(w[j + 4], b)
            } else {
                Rule::Right(w[j + 4], b)
            };
            Some((a, w[j + 1], rule))
        },
        _ => None,
    }
}

/// Files the rule `rule` of state `src` for symbol `sym`, adding empty
/// states until both `src` and the state that the rule leads to exist.
fn add_rule(states: &mut Vec<State>, src: usize, sym: char, rule: Rule)
    requires
        src < usize::MAX,
        rule.next_state() < usize::MAX,
    ensures
        ({
            let need = if src < rule.next_state() {
                rule.next_state() + 1
            } else {
                src + 1
            };
            final(states)@.len() == if old(states)@.len() < need {
                need
            } else {
                old(states)@.len() as int
            }
        }),
        forall|i: int|
            0 <= i < final(states)@.len() ==> (#[trigger] final(states)@[i]).rules@ == {
                let before = if i < old(states)@.len() {
                    old(states)@[i].rules@
                } else {
                    Map::<u32, Rule>::empty()
                };
                if i == src {
                    before.insert(symbol_key(sym), rule)
                } else {
                    before
                }
            },
{
    let dst = match rule {
        Rule::Left(_, d) => d,
        Rule::Right(_, d) => d,
    };
    let need = if src < dst {
        dst + 1
    } else {
        src + 1
    };
    let ghost before = states@;
    while states.len() < need
        invariant
            before.len() <= states@.len() <= if before.len() < need {
                need as int
            } else {
                before.len() as int
            },
            forall|i: int| 0 <= i < before.len() ==> #[trigger] states@[i] == before[i],
            forall|i: int|
                before.len() <= i < states@.len() ==> (#[trigger] states@[i]).rules@ == Map::<
                    u32,
                    Rule,
                >::empty(),
        decreases need - states@.len(),
    {
        states.push(State { rules: HashMap::new() });
    }
    let key: u32 = sym as u32;
    states[src].rules.insert(key, rule);
}

/// Reads one word of a rule table into `states`: where the word is a rule,
/// it is filed under its state.
fn take_word(states: &mut Vec<State>, word: &Vec<char>, Ghost(ws): Ghost<Seq<Seq<char>>>)
    requires
        holds_rules(old(states)@, word_rules(ws)),
    ensures
        holds_rules(final(states)@, word_rules(ws.push(word@))),
{
    let ghost es = word_rules(ws);
    assert(ws.push(word@).drop_last() =~= ws);
    match read_rule(word) {
        Some((src, sym, rule)) => {
            let ghost old_states = states@;
            add_rule(states, src, sym, rule);
            let ghost es2 = es.push((src, sym, rule));
            assert(es2.drop_last() =~= es);
            assert forall|i: int| 0 <= i < states@.len() implies (#[trigger] states@[i]).rules@
                == table_of(es2, i) by {
                if i >= old_states.len() {
                    lemma_table_beyond_needed(es, i);
                }
            }
        },
        None => {},
    }
}

/// The characters of `s`, in order.
fn chars_of(s: &str) -> (v: Vec<char>)
    ensures
        v@ == s@,
{
    let mut v: Vec<char> = Vec::new();
    for c in it: s.chars()
        invariant
            v@ == it.seq().take(it.index() as int),
    {
        v.push(c);
    }
    v
}

/// Reads a rule table: the words of `s` that are rules, filed under their
/// states in order, a later rule for the same state and symbol replacing an
/// earlier one. There are as many states as the rules need, every rule
/// leading to one of them; words that are not rules are passed over.
pub(crate) fn read_states(s: &str) -> (states: Vec<State>)
    ensures
        describes(states@, s@),
{
    let text = chars_of(s);
    let mut states: Vec<State> = Vec::new();
    let mut word: Vec<char> = Vec::new();
    let ghost mut done: Seq<Seq<char>> = Seq::empty();
    let mut i: usize = 0;
    assert(text@.skip(0) =~= text@);
    while i < text.len()
        invariant
            i <= text@.len(),
            text@ == s@,
            words(text@) == done + words_from(text@.skip(i as int), word@),
            holds_rules(states@, word_rules(done)),
        decreases text@.len() - i,
    {
        let c = text[i];
        let ghost rest = text@.skip(i as int);
        assert(rest.drop_first() =~= text@.skip(i + 1));
        assert(rest[0] == c);
        if c == ' ' || c == '\t' || c == '\n' || c == '\r' {
            if word.len() > 0 {
                take_word(&mut states, &word, Ghost(done));
                assert(done + (seq![word@] + words_from(text@.skip(i + 1), Seq::empty())) =~= done.push(
                    word@,
                ) + words_from(text@.skip(i + 1), Seq::empty()));
                proof {
                    done = done.push(word@);
                }
            } else {
                assert(done + (Seq::<Seq<char>>::empty() + words_from(text@.skip(i + 1), Seq::empty()))
                    =~= done + words_from(text@.skip(i + 1), Seq::empty()));
            }
            word = Vec::new();
        } else {
            word.push(c);
        }
        i = i + 1;
    }
    assert(text@.skip(i as int) =~= Seq::<char>::empty());
    if word.len() > 0 {
        take_word(&mut states, &word, Ghost(done));
        assert(done + seq![word@] =~= done.push(word@));
        proof {
            done = done.push(word@);
        }
    } else {
        assert(done + Seq::<Seq<char>>::empty() =~= done);
    }
    states
}

} // verus!
