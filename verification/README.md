# turing_machine

A single-tape Turing machine whose logic is verified with Verus.

- `src/turing/model.rs`: the tape (`Tape`), rules (`Rule`) and rule tables
  (`State`); applying a rule to the tape, with the proof that, seen from the
  head, the tape is an unbounded blank-filled strip that a rule shifts by one
  cell.
- `src/turing/mod.rs`: the machine (`Machine`): building it, one step, growing
  its states and setting rules, with the proofs that a step of a machine whose
  rules all lead to existing states cannot fail and keeps it so.
- `src/turing/notation.rs`: rule tables written as text, words of the form
  `q<state>:<read>-><write><move><next>` (as in `q0:c->cr1`) separated by
  blanks, and the verified reader for them.
- `app/`: the GTK window around the machine, and saving and loading machines
  as YAML.
