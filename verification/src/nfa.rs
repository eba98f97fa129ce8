//! Nondeterministic automata.

use vstd::prelude::*;
use crate::model::{Symbol, EPSILON, NfaModel, Moves, Row, deterministic};
use crate::label::Label;
use crate::state_set::{State, StateSet};
use crate::table::{Item, KeySet, Table};

verus! {

/// A set of input symbols.
pub type Alphabet = KeySet<Symbol>;

/// A set of states.
pub type States = StateSet;

/// The moves out of one state: for each symbol the states it leads to.
pub type NfaTransitions = Table<Symbol, States>;

/// The moves of an automaton: for each state its moves.
pub type NfaStateTransitions = Table<State, NfaTransitions>;

/// A nondeterministic automaton, which may move spontaneously and may have
/// several targets for one state and symbol.
pub struct Nfa {
    states: States,
    alphabet: Alphabet,
    state_transitions: NfaStateTransitions,
    start_state: State,
    final_states: States,
}

impl View for Nfa {
    type V = NfaModel;

    closed spec fn view(&self) -> NfaModel {
        NfaModel {
            states: self.states@,
            alphabet: self.alphabet@,
            moves: self.state_transitions@,
            start: self.start_state@,
            finals: self.final_states@,
        }
    }
}

/// What holds of the moves of every automaton that is held as a table: the
/// table has finitely many entries, and so has each row, and each target set
/// is finite.
pub open spec fn finite_moves(t: Moves) -> bool {
    NfaStateTransitions::is_model(t)
}

impl Nfa {
    /// Every part of the automaton is valid, and the alphabet does not hold
    /// the symbol of the spontaneous move.
    pub closed spec fn wf(&self) -> bool {
        &&& self.states.wf()
        &&& self.alphabet.wf()
        &&& self.state_transitions.wf()
        &&& self.final_states.wf()
        &&& !self.alphabet@.contains(EPSILON)
    }

    /// The parts of a valid automaton are finite, and its alphabet does not
    /// hold the symbol of the spontaneous move.
    pub proof fn lemma_finite(&self)
        requires
            self.wf(),
        ensures
            finite_moves(self@.moves),
            self@.states.finite(),
            self@.finals.finite(),
            self@.alphabet.finite(),
            !self@.alphabet.contains(EPSILON),
    {
        self.state_transitions.lemma_model();
        self.states.lemma_model();
        self.final_states.lemma_model();
        self.alphabet.lemma_model();
    }

    /// The automaton with the given parts. The symbol of the spontaneous
    /// move is no input symbol: the alphabet must not hold it.
    pub fn new(
        states: States,
        alphabet: Alphabet,
        state_transitions: NfaStateTransitions,
        start_state: State,
        final_states: States,
    ) -> (r: Nfa)
        requires
            states.wf(),
            alphabet.wf(),
            state_transitions.wf(),
            final_states.wf(),
            !alphabet@.contains(EPSILON),
        ensures
            r.wf(),
            r@ == (NfaModel {
                states: states@,
                alphabet: alphabet@,
                moves: state_transitions@,
                start: start_state@,
                finals: final_states@,
            }),
    {
        Nfa { states, alphabet, state_transitions, start_state, final_states }
    }

    /// The states.
    pub fn get_states(&self) -> (r: &States)
        requires
            self.wf(),
        ensures
            r.wf(),
            r@ == self@.states,
    {
        &self.states
    }

    /// The input symbols.
    pub fn get_alphabet(&self) -> (r: &Alphabet)
        requires
            self.wf(),
        ensures
            r.wf(),
            r@ == self@.alphabet,
            !r@.contains(EPSILON),
    {
        &self.alphabet
    }

    /// The moves.
    pub fn get_state_transitions(&self) -> (r: &NfaStateTransitions)
        requires
            self.wf(),
        ensures
            r.wf(),
            r@ == self@.moves,
    {
        &self.state_transitions
    }

    /// The start state.
    pub fn get_start_state(&self) -> (r: &State)
        ensures
            r@ == self@.start,
    {
        &self.start_state
    }

    /// The final states.
    pub fn get_final_states(&self) -> (r: &States)
        requires
            self.wf(),
        ensures
            r.wf(),
            r@ == self@.finals,
    {
        &self.final_states
    }

    /// Whether the automaton is deterministic as it stands: no entry is for
    /// a spontaneous move, and none has more than one target.
    pub fn is_dfa(&self) -> (r: bool)
        requires
            self.wf(),
        ensures
            r == deterministic(self@.moves),
    {
        let t = &self.state_transitions;
        let n: usize = t.len();
        let mut i: usize = 0;
        proof {
            t.lemma_view();
        }
        while i < n
            invariant
                i <= n,
                n == t.keys().len(),
                t.wf(),
                t@ == self@.moves,
                forall|k: int| 0 <= k < i ==> row_deterministic(#[trigger] t.values()[k]),
            decreases n - i,
        {
            let row = t.value_at(i);
            let m: usize = row.len();
            let mut j: usize = 0;
            proof {
                row.lemma_view();
                t.lemma_view();
            }
            while j < m
                invariant
                    j <= m,
                    i < n,
                    n == t.keys().len(),
                    m == row.keys().len(),
                    row.wf(),
                    t.wf(),
                    t@ == self@.moves,
                    row@ == t.values()[i as int],
                    forall|k: int|
                        0 <= k < j ==> #[trigger] entry_deterministic(
                            row.keys()[k],
                            row.values()[k],
                        ),
                decreases m - j,
            {
                let c: Symbol = *row.key_at(j);
                let targets = row.value_at(j);
                proof {
                    targets.lemma_members();
                }
                if c == EPSILON || targets.len() > 1 {
                    proof {
                        row.lemma_view();
                        t.lemma_view();
                        let p = t.keys()[i as int];
                        assert(t@.contains_key(p) && t@[p] == row@);
                        assert(row@.contains_key(row.keys()[j as int]));
                        assert(row@[c] == row.values()[j as int]);
                    }
                    return false;
                }
                proof {
                    assert(row.keys()[j as int] == c);
                    assert(row.values()[j as int] == targets@);
                    assert(targets@.len() == targets.members().len());
                    assert(entry_deterministic(row.keys()[j as int], row.values()[j as int]));
                }
                j += 1;
            }
            proof {
                row.lemma_view();
                assert forall|c: Symbol| #[trigger] row@.contains_key(c) implies c != EPSILON
                    && row@[c].len() <= 1 by {
                    let k = row.keys().index_of(c);
                    assert(row.keys()[k] == c);
                    assert(row@[row.keys()[k]] == row.values()[k]);
                    assert(entry_deterministic(row.keys()[k], row.values()[k]));
                }
            }
            i += 1;
        }
        proof {
            t.lemma_view();
            assert forall|p: Label, c: Symbol|
                t@.contains_key(p) && #[trigger] t@[p].contains_key(c) implies c != EPSILON
                && t@[p][c].len() <= 1 by {
                let k = t.keys().index_of(p);
                assert(t.keys()[k] == p);
                assert(t@[t.keys()[k]] == t.values()[k]);
                assert(row_deterministic(t.values()[k]));
            }
        }
        true
    }
}

/// The entry is not for a spontaneous move and has at most one target.
pub open spec fn entry_deterministic(c: Symbol, targets: Set<Label>) -> bool {
    c != EPSILON && targets.len() <= 1
}

/// No entry of the row is for a spontaneous move and none has more than one
/// target.
pub open spec fn row_deterministic(row: Row) -> bool {
    forall|c: Symbol| #[trigger] row.contains_key(c) ==> c != EPSILON && row[c].len() <= 1
}

} // verus!
