//! The subset construction.
//!
//! The states of the automaton built here are sets of states of a
//! nondeterministic automaton, each closed under spontaneous moves.

use vstd::prelude::*;
use vstd::arithmetic::power2::pow2;
use crate::closure::{
    universe,
    lemma_universe,
    lemma_extension_extends,
    lemma_extension_unique,
    lemma_extension_idle,
    lemma_extension_of_root,
    lemma_closure_closed,
    lemma_closure_least,
};
use crate::discovery::{
    gathered,
    gathered_at,
    pairs_of,
    row_pairs,
    lemma_gathered_insert,
    lemma_gathered_nothing,
    lemma_gathered_all,
    lemma_pairs_with_row,
    lemma_pairs_without_row,
    lemma_row_pairs_insert,
    lemma_moves_closed,
    lemma_moves_in_universe,
    lemma_recorded_row,
    lemma_discovered_explores,
    lemma_discovered_unique,
    lemma_discovered_idle,
    lemma_discovered_alone,
    lemma_closure_within,
};
use crate::label::Label;
use crate::laws::{labels_declared, lemma_state_sets_within_universe, lemma_state_sets_bounded};
use crate::model::{
    Symbol,
    EPSILON,
    targets,
    eps_closed,
    closure,
    extends,
    extension,
    admits,
    fires,
    moves_of,
    input_moves,
    recorded_row,
    explores,
    discovered,
    subset_construction,
    MultiNfaModel,
};
use crate::nfa::{Alphabet, Nfa, NfaStateTransitions};
use crate::powerset::{powerset, lemma_powerset};
use crate::prefix::{lemma_take_next, lemma_take_ends};
use crate::state_set::{State, StateSet, to_multi_state};
use crate::table::{Item, KeySet, Table};

verus! {

/// A state of the automaton of state sets.
pub type MultiState = StateSet;

/// A set of state sets.
pub type MultiStates = KeySet<MultiState>;

/// The moves out of one state set: for each symbol the state set it leads to.
pub type MultiNfaTransitions = Table<Symbol, MultiState>;

/// The moves of the automaton of state sets.
pub type MultiNfaStateTransitions = Table<MultiState, MultiNfaTransitions>;

/// The automaton of state sets that the subset construction builds.
pub struct MultiNfa {
    states: MultiStates,
    alphabet: Alphabet,
    state_transitions: MultiNfaStateTransitions,
    start_state: MultiState,
    final_states: MultiStates,
}

impl View for MultiNfa {
    type V = MultiNfaModel;

    closed spec fn view(&self) -> MultiNfaModel {
        MultiNfaModel {
            states: self.states@,
            alphabet: self.alphabet@,
            moves: self.state_transitions@,
            start: self.start_state@,
            finals: self.final_states@,
        }
    }
}

impl MultiNfa {
    /// Every part of the automaton is valid, and the symbol of the
    /// spontaneous move is neither in the alphabet nor in a row.
    pub closed spec fn wf(&self) -> bool {
        &&& self.states.wf()
        &&& self.alphabet.wf()
        &&& self.state_transitions.wf()
        &&& self.start_state.wf()
        &&& self.final_states.wf()
        &&& !self.alphabet@.contains(EPSILON)
        &&& input_moves(self.state_transitions@)
    }

    /// The automaton of state sets of `nfa`: the closure of the start state
    /// and the state sets that can be reached from it, each with its row. A
    /// state set with a member that has no entry in the table is a state
    /// without moves.
    pub fn from_nfa(nfa: &Nfa) -> (multi_nfa: MultiNfa)
        requires
            nfa.wf(),
        ensures
            multi_nfa.wf(),
            multi_nfa@ == subset_construction(nfa@),
            multi_nfa@.states.finite(),
            labels_declared(nfa@) ==> multi_nfa@.states.len() <= pow2(nfa@.states.len()),
    {
        proof {
            nfa.lemma_finite();
            lemma_state_sets_within_universe(nfa@);
            if labels_declared(nfa@) {
                lemma_state_sets_bounded(nfa@);
            }
        }
        let table = nfa.get_state_transitions();
        let ghost t = table@;
        let mut state_transitions = MultiNfaStateTransitions::new();

        // First, the states that the start state reaches spontaneously.
        let mut start_state = to_multi_state(nfa.get_start_state());
        Self::epsilon_closure(&mut start_state, nfa.get_start_state(), table);

        // Then every state set that reading input leads to from there.
        Self::aggregate_transitions(
            &mut state_transitions,
            &to_multi_state(nfa.get_start_state()),
            table,
        );
        let ghost found = state_transitions@.dom();
        proof {
            assert(found == discovered(t, Set::empty(), set![nfa@.start]));
        }

        let mut states = MultiStates::new();
        let n: usize = state_transitions.len();
        let mut i: usize = 0;
        proof {
            lemma_take_ends(state_transitions.keys());
        }
        while i < n
            invariant
                i <= n,
                n == state_transitions.keys().len(),
                state_transitions.wf(),
                states.wf(),
                states@ == state_transitions.keys().take(i as int).to_set(),
            decreases n - i,
        {
            proof {
                lemma_take_next(state_transitions.keys(), i as int);
            }
            states.insert(state_transitions.key_at(i).duplicate());
            i += 1;
        }
        proof {
            lemma_take_ends(state_transitions.keys());
            state_transitions.lemma_view();
            assert(states@ == found);
        }

        let finals = nfa.get_final_states();
        let mut final_states = MultiStates::new();
        let m: usize = states.len();
        let mut j: usize = 0;
        while j < m
            invariant
                j <= m,
                m == states.items().len(),
                states.wf(),
                finals.wf(),
                final_states.wf(),
                forall|k: Set<Label>|
                    final_states@.contains(k) <==> states.items().take(j as int).contains(k)
                        && exists|f: Label| #[trigger] finals@.contains(f) && k.contains(f),
            decreases m - j,
        {
            let state = states.get(j);
            proof {
                lemma_take_next(states.items(), j as int);
            }
            if state.intersects(finals) {
                final_states.insert(state.duplicate());
            }
            j += 1;
        }
        proof {
            lemma_take_ends(states.items());
        }

        let alphabet = nfa.get_alphabet().duplicate();
        let multi_nfa = MultiNfa { states, alphabet, state_transitions, start_state, final_states };
        proof {
            let want = subset_construction(nfa@);
            assert forall|k: Set<Label>| #[trigger]
                multi_nfa.state_transitions@.contains_key(
                    k,
                ) implies !multi_nfa.state_transitions@[k].contains_key(EPSILON) by {
                lemma_recorded_row(t, set![nfa@.start], k);
            }
            assert(multi_nfa@.states == want.states);
            assert(multi_nfa@.moves =~= want.moves);
            assert(multi_nfa@.finals =~= want.finals);
        }
        multi_nfa
    }

    /// The state sets.
    pub fn get_states(&self) -> (r: &MultiStates)
        requires
            self.wf(),
        ensures
            r.wf(),
            r@ == self@.states,
    {
        &self.states
    }

    /// The input symbols.
    pub fn get_alphabet(&self) -> (r: &Alphabet)
        requires
            self.wf(),
        ensures
            r.wf(),
            r@ == self@.alphabet,
            !r@.contains(EPSILON),
    {
        &self.alphabet
    }

    /// The moves.
    pub fn get_state_transitions(&self) -> (r: &MultiNfaStateTransitions)
        requires
            self.wf(),
        ensures
            r.wf(),
            r@ == self@.moves,
            input_moves(r@),
    {
        &self.state_transitions
    }

    /// The start state set.
    pub fn get_start_state(&self) -> (r: &MultiState)
        requires
            self.wf(),
        ensures
            r.wf(),
            r@ == self@.start,
    {
        &self.start_state
    }

    /// The final state sets.
    pub fn get_final_states(&self) -> (r: &MultiStates)
        requires
            self.wf(),
        ensures
            r.wf(),
            r@ == self@.finals,
    {
        &self.final_states
    }

    /// Records in `all_transitions` the row of the closure of
    /// `current_state` and of every state set that can be reached from it,
    /// unless they are recorded already. Where some member of
    /// `current_state` has no entry in the table, the closure is recorded
    /// without moves, and the search does not go on from it.
    pub fn aggregate_transitions(
        all_transitions: &mut MultiNfaStateTransitions,
        current_state: &MultiState,
        state_transitions: &NfaStateTransitions,
    )
        requires
            old(all_transitions).wf(),
            current_state.wf(),
            state_transitions.wf(),
        ensures
            final(all_transitions).wf(),
            final(all_transitions)@.dom() == discovered(
                state_transitions@,
                old(all_transitions)@.dom(),
                current_state@,
            ),
            forall|k: Set<Label>| #[trigger]
                old(all_transitions)@.contains_key(k) ==> final(all_transitions)@[k] == old(
                    all_transitions,
                )@[k],
            forall|k: Set<Label>| #[trigger]
                final(all_transitions)@.contains_key(k) && !old(all_transitions)@.contains_key(k)
                    ==> final(all_transitions)@[k] == recorded_row(
                    state_transitions@,
                    current_state@,
                    k,
                ),
            old(all_transitions)@.contains_key(closure(state_transitions@, current_state@))
                ==> final(all_transitions)@ == old(all_transitions)@,
            !admits(state_transitions@, current_state@) && !old(all_transitions)@.contains_key(
                closure(state_transitions@, current_state@),
            ) ==> final(all_transitions)@ == old(all_transitions)@.insert(
                closure(state_transitions@, current_state@),
                Map::empty(),
            ),
        decreases powerset(universe(state_transitions@).union(current_state@)).difference(
            old(all_transitions)@.dom(),
        ).len(),
    {
        let ghost t = state_transitions@;
        let ghost s = current_state@;
        let ghost before = all_transitions@;
        let ghost seen = all_transitions@.dom();

        // The closure comes before anything else.
        let reachable_current_mstate = Self::closure_of(current_state, state_transitions);
        let ghost start = reachable_current_mstate@;

        // Nothing to do where the row is recorded already.
        if all_transitions.get(&reachable_current_mstate).is_some() {
            proof {
                lemma_discovered_idle(t, seen, s);
                assert(all_transitions@ =~= before);
            }
            return ;
        }
        // A member without an entry in the table: the state set has no moves.

        if !Self::has_entries(current_state, state_transitions) {
            all_transitions.insert(reachable_current_mstate, MultiNfaTransitions::new());
            proof {
                lemma_discovered_alone(t, seen, s);
                lemma_recorded_row(t, s, start);
                assert(all_transitions@.dom() =~= seen.insert(start));
            }
            return ;
        }
        let aggregated_current_state_transitions = Self::transitions_of(
            &reachable_current_mstate,
            state_transitions,
        );
        let reachable_states = aggregated_current_state_transitions.duplicate();

        // Recorded before the search goes on, so that it is not done twice.
        all_transitions.insert(reachable_current_mstate, aggregated_current_state_transitions);

        let n: usize = reachable_states.len();
        let mut i: usize = 0;
        let ghost all = powerset(universe(t).union(s));
        proof {
            state_transitions.lemma_model();
            current_state.lemma_model();
            lemma_universe(t);
            vstd::set_lib::lemma_set_union_finite_iff(universe(t), s);
            lemma_powerset(universe(t).union(s));
            lemma_closure_within(t, s);
            assert forall|x: Set<Set<Label>>| #[trigger]
                explores(t, seen, s, x) implies all_transitions@.dom().subset_of(x) by {
                assert(seen.subset_of(x));
                assert(x.contains(start));
            }
        }
        while i < n
            invariant
                i <= n,
                n == reachable_states.keys().len(),
                reachable_states.wf(),
                reachable_states@ == moves_of(t, start),
                state_transitions.wf(),
                t == state_transitions@,
                s == current_state@,
                all_transitions.wf(),
                before == old(all_transitions)@,
                seen == before.dom(),
                start == closure(t, s),
                admits(t, s),
                !seen.contains(start),
                all == powerset(universe(t).union(s)),
                all.finite(),
                all.contains(start),
                seen.subset_of(all_transitions@.dom()),
                all_transitions@.contains_key(start),
                forall|k: Set<Label>| #[trigger]
                    before.contains_key(k) ==> all_transitions@[k] == before[k],
                forall|k: Set<Label>| #[trigger]
                    all_transitions@.contains_key(k) && !before.contains_key(k)
                        ==> all_transitions@[k] == recorded_row(t, s, k),
                forall|a: int|
                    0 <= a < i ==> all_transitions@.contains_key(
                        #[trigger] reachable_states.values()[a],
                    ),
                forall|k: Set<Label>, c: Symbol|
                    all_transitions@.contains_key(k) && !seen.contains(k) && k != start
                        && #[trigger] recorded_row(t, s, k).contains_key(c)
                        ==> all_transitions@.contains_key(recorded_row(t, s, k)[c]),
                forall|x: Set<Set<Label>>| #[trigger]
                    explores(t, seen, s, x) ==> all_transitions@.dom().subset_of(x),
            decreases n - i,
        {
            let reachable_state = reachable_states.value_at(i);
            let ghost known = all_transitions@;
            let ghost target = reachable_state@;
            let ghost symbol = reachable_states.keys()[i as int];
            proof {
                reachable_states.lemma_view();
                assert(reachable_states@.contains_key(symbol));
                assert(fires(t, start, symbol));
                assert(target == moves_of(t, start)[symbol]);
                assert(recorded_row(t, s, start) == moves_of(t, start));
                lemma_moves_closed(t, start, symbol);
                lemma_moves_in_universe(t, start, symbol);
                // The search from the target has less left to find.
                let less = powerset(universe(t).union(target));
                assert(universe(t).union(target) =~= universe(t));
                assert(less.subset_of(all));
                less.difference(known.dom()).lemma_subset_not_in_lt(all.difference(seen), start);
            }
            Self::aggregate_transitions(all_transitions, reachable_state, state_transitions);
            proof {
                let grown = all_transitions@.dom();
                lemma_discovered_explores(t, known.dom(), target);
                assert forall|k: Set<Label>| #![auto]
                    recorded_row(t, target, k) == recorded_row(t, s, k) || k == start by {
                    lemma_recorded_row(t, target, k);
                }
                assert forall|x: Set<Set<Label>>| #[trigger]
                    explores(t, seen, s, x) implies grown.subset_of(x) by {
                    assert(known.dom().subset_of(x));
                    assert(x.contains(start));
                    assert(recorded_row(t, s, start).contains_key(symbol));
                    assert(x.contains(target));
                    assert forall|k: Set<Label>, c: Symbol|
                        x.contains(k) && !known.dom().contains(k) && #[trigger] recorded_row(
                            t,
                            target,
                            k,
                        ).contains_key(c) implies x.contains(recorded_row(t, target, k)[c]) by {
                        assert(recorded_row(t, s, k).contains_key(c));
                    }
                    assert(explores(t, known.dom(), target, x));
                }
                assert forall|k: Set<Label>| #[trigger]
                    before.contains_key(k) implies all_transitions@[k] == before[k] by {
                    assert(known.contains_key(k));
                }
                assert forall|k: Set<Label>| #[trigger]
                    all_transitions@.contains_key(k) && !before.contains_key(
                        k,
                    ) implies all_transitions@[k] == recorded_row(t, s, k) by {
                    if known.contains_key(k) {
                        assert(all_transitions@[k] == known[k]);
                    }
                }
                assert forall|k: Set<Label>, c: Symbol|
                    all_transitions@.contains_key(k) && !seen.contains(k) && k != start
                        && #[trigger] recorded_row(t, s, k).contains_key(
                        c,
                    ) implies all_transitions@.contains_key(recorded_row(t, s, k)[c]) by {
                    if known.contains_key(k) {
                        assert(known.contains_key(recorded_row(t, s, k)[c]));
                    } else {
                        assert(recorded_row(t, target, k).contains_key(c));
                    }
                }
            }
            i += 1;
        }
        proof {
            reachable_states.lemma_view();
            assert(explores(t, seen, s, all_transitions@.dom())) by {
                assert forall|k: Set<Label>, c: Symbol|
                    all_transitions@.dom().contains(k) && !seen.contains(k)
                        && #[trigger] recorded_row(t, s, k).contains_key(
                        c,
                    ) implies all_transitions@.dom().contains(recorded_row(t, s, k)[c]) by {
                    if k == start {
                        let a = reachable_states.keys().index_of(c);
                        assert(reachable_states@.contains_key(c));
                        assert(reachable_states.keys()[a] == c);
                        assert(reachable_states@[reachable_states.keys()[a]]
                            == reachable_states.values()[a]);
                    }
                }
            }
            lemma_discovered_unique(t, seen, s, all_transitions@.dom());
        }
    }

    /// Adds to `reachable_mstate` the states that `initial_state` reaches by
    /// spontaneous moves. A state that is a member already is not looked
    /// beyond, so the search ends on cycles too.
    pub fn epsilon_closure(
        reachable_mstate: &mut MultiState,
        initial_state: &State,
        state_transitions: &NfaStateTransitions,
    )
        requires
            old(reachable_mstate).wf(),
            state_transitions.wf(),
        ensures
            final(reachable_mstate).wf(),
            final(reachable_mstate)@ == extension(
                state_transitions@,
                old(reachable_mstate)@,
                initial_state@,
            ),
            old(reachable_mstate)@ == set![initial_state@] ==> final(reachable_mstate)@
                == closure(state_transitions@, set![initial_state@]),
        decreases universe(state_transitions@).difference(old(reachable_mstate)@).len(),
    {
        let ghost t = state_transitions@;
        let ghost seen = reachable_mstate@;
        let ghost root = initial_state@;
        proof {
            lemma_extension_of_root(t, root);
        }
        match state_transitions.get(initial_state) {
            Some(initial_state_transitions) => {
                match initial_state_transitions.get(&EPSILON) {
                    Some(initial_state_epsilon_transitions) => {
                        let n: usize = initial_state_epsilon_transitions.len();
                        let mut j: usize = 0;
                        let ghost found = initial_state_epsilon_transitions.members();
                        proof {
                            state_transitions.lemma_model();
                            lemma_universe(t);
                        }
                        while j < n
                            invariant
                                j <= n,
                                n == found.len(),
                                found == initial_state_epsilon_transitions.members(),
                                found.to_set() == targets(t, root, EPSILON),
                                initial_state_epsilon_transitions.wf(),
                                state_transitions.wf(),
                                t == state_transitions@,
                                universe(t).finite(),
                                reachable_mstate.wf(),
                                seen == old(reachable_mstate)@,
                                seen.subset_of(reachable_mstate@),
                                forall|k: int| 0 <= k < j ==> reachable_mstate@.contains(found[k]),
                                forall|p: Label, q: Label|
                                    reachable_mstate@.contains(p) && !seen.contains(p)
                                        && #[trigger] targets(t, p, EPSILON).contains(q)
                                        ==> reachable_mstate@.contains(q),
                                forall|x: Set<Label>| #[trigger]
                                    extends(t, seen, root, x) ==> reachable_mstate@.subset_of(x),
                            decreases n - j,
                        {
                            let epsilon_transition_state = initial_state_epsilon_transitions.get(j);
                            let ghost s = epsilon_transition_state@;
                            let ghost before = reachable_mstate@;
                            proof {
                                assert(found.to_set().contains(found[j as int]));
                                assert(targets(t, root, EPSILON).contains(s));
                            }
                            if reachable_mstate.insert(epsilon_transition_state.clone()) {
                                let ghost grown = before.insert(s);
                                proof {
                                    lemma_universe(t);
                                    assert(universe(t).contains(s));
                                    universe(t).lemma_set_insert_diff_decreases(before, s);
                                    vstd::set_lib::lemma_len_subset(
                                        universe(t).difference(before),
                                        universe(t).difference(seen),
                                    );
                                }
                                Self::epsilon_closure(
                                    reachable_mstate,
                                    epsilon_transition_state,
                                    state_transitions,
                                );
                                proof {
                                    let after = reachable_mstate@;
                                    lemma_extension_extends(t, grown, s);
                                    assert forall|x: Set<Label>| #[trigger]
                                        extends(t, seen, root, x) implies after.subset_of(x) by {
                                        assert(before.subset_of(x));
                                        assert(targets(t, root, EPSILON).subset_of(x));
                                        assert(x.contains(s));
                                        assert(extends(t, grown, s, x));
                                    }
                                }
                            }
                            j += 1;
                        }
                        proof {
                            assert forall|q: Label|
                                targets(t, root, EPSILON).contains(
                                    q,
                                ) implies reachable_mstate@.contains(q) by {
                                let k = choose|k: int| 0 <= k < found.len() && found[k] == q;
                                assert(reachable_mstate@.contains(found[k]));
                            }
                            lemma_extension_unique(t, seen, root, reachable_mstate@);
                        }
                    },
                    None => {
                        proof {
                            lemma_extension_idle(t, seen, root);
                        }
                    },
                }
            },
            None => {
                proof {
                    lemma_extension_idle(t, seen, root);
                }
            },
        }
    }

    /// The closure of `mstate` under spontaneous moves.
    pub fn closure_of(mstate: &MultiState, state_transitions: &NfaStateTransitions) -> (closed:
        MultiState)
        requires
            mstate.wf(),
            state_transitions.wf(),
        ensures
            closed.wf(),
            closed@ == closure(state_transitions@, mstate@),
    {
        let ghost t = state_transitions@;
        let ghost s = mstate@;
        let ghost roots = mstate.members();
        let mut closed = mstate.duplicate();
        let n: usize = mstate.len();
        let mut i: usize = 0;
        proof {
            lemma_closure_closed(t, s);
        }
        while i < n
            invariant
                i <= n,
                n == roots.len(),
                roots == mstate.members(),
                roots.to_set() == s,
                mstate.wf(),
                state_transitions.wf(),
                t == state_transitions@,
                closed.wf(),
                s.subset_of(closed@),
                closed@.subset_of(closure(t, s)),
                forall|p: Label, q: Label|
                    closed@.contains(p) && !s.contains(p) && #[trigger] targets(
                        t,
                        p,
                        EPSILON,
                    ).contains(q) ==> closed@.contains(q),
                forall|k: int, q: Label|
                    0 <= k < i && #[trigger] targets(t, roots[k], EPSILON).contains(q)
                        ==> closed@.contains(q),
            decreases n - i,
        {
            let ghost before = closed@;
            let ghost root = roots[i as int];
            Self::epsilon_closure(&mut closed, mstate.get(i), state_transitions);
            proof {
                lemma_extension_extends(t, before, root);
                lemma_closure_closed(t, s);
                assert(s.contains(root)) by {
                    assert(roots.to_set().contains(roots[i as int]));
                }
                assert(extends(t, before, root, closure(t, s)));
            }
            i += 1;
        }
        proof {
            assert(eps_closed(t, closed@)) by {
                assert forall|p: Label, q: Label|
                    closed@.contains(p) && #[trigger] targets(t, p, EPSILON).contains(
                        q,
                    ) implies closed@.contains(q) by {
                    if s.contains(p) {
                        let k = choose|k: int| 0 <= k < roots.len() && roots[k] == p;
                        assert(targets(t, roots[k], EPSILON).contains(q));
                    }
                }
            }
            lemma_closure_least(t, s, closed@);
            assert(closed@ =~= closure(t, s));
        }
        closed
    }

    /// Whether every member of `mstate` has an entry in the table.
    pub fn has_entries(mstate: &MultiState, state_transitions: &NfaStateTransitions) -> (r: bool)
        requires
            mstate.wf(),
            state_transitions.wf(),
        ensures
            r == admits(state_transitions@, mstate@),
    {
        let n: usize = mstate.len();
        let mut i: usize = 0;
        while i < n
            invariant
                i <= n,
                n == mstate.members().len(),
                mstate.wf(),
                state_transitions.wf(),
                forall|k: int|
                    0 <= k < i ==> state_transitions@.contains_key(#[trigger] mstate.members()[k]),
            decreases n - i,
        {
            if state_transitions.get(mstate.get(i)).is_none() {
                proof {
                    assert(mstate@.contains(mstate.members()[i as int]));
                }
                return false;
            }
            i += 1;
        }
        proof {
            assert forall|p: Label| mstate@.contains(p) implies #[trigger]
                state_transitions@.contains_key(p) by {
                let k = choose|k: int| 0 <= k < mstate.members().len() && mstate.members()[k] == p;
                assert(state_transitions@.contains_key(mstate.members()[k]));
            }
        }
        true
    }

    /// The moves of the state set `mstate`: for each input symbol on which
    /// a member has an entry, the closure of the states that the members
    /// lead to.
    pub fn transitions_of(mstate: &MultiState, state_transitions: &NfaStateTransitions) -> (row:
        MultiNfaTransitions)
        requires
            mstate.wf(),
            state_transitions.wf(),
        ensures
            row.wf(),
            row@ == moves_of(state_transitions@, mstate@),
    {
        let ghost t = state_transitions@;
        let ghost members = mstate.members();
        let mut row = MultiNfaTransitions::new();
        let n: usize = mstate.len();
        let mut i: usize = 0;
        proof {
            lemma_gathered_nothing(t);
            lemma_take_ends(members);
        }
        while i < n
            invariant
                i <= n,
                n == members.len(),
                members == mstate.members(),
                mstate.wf(),
                state_transitions.wf(),
                t == state_transitions@,
                row.wf(),
                row@ == gathered(t, pairs_of(t, members.take(i as int).to_set())),
            decreases n - i,
        {
            let reachable_state = mstate.get(i);
            let ghost p = members[i as int];
            let ghost base = pairs_of(t, members.take(i as int).to_set());
            proof {
                lemma_take_next(members, i as int);
            }
            match state_transitions.get(reachable_state) {
                Some(reachable_state_transitions) => {
                    let m: usize = reachable_state_transitions.len();
                    let mut j: usize = 0;
                    let ghost symbols = reachable_state_transitions.keys();
                    proof {
                        lemma_row_pairs_insert(base, p, Set::empty(), EPSILON);
                        lemma_take_ends(symbols);
                        reachable_state_transitions.lemma_view();
                    }
                    while j < m
                        invariant
                            j <= m,
                            m == symbols.len(),
                            symbols == reachable_state_transitions.keys(),
                            reachable_state_transitions.wf(),
                            reachable_state_transitions@ == t[p],
                            t.contains_key(p),
                            state_transitions.wf(),
                            t == state_transitions@,
                            row.wf(),
                            row@ == gathered(
                                t,
                                base.union(row_pairs(p, symbols.take(j as int).to_set())),
                            ),
                        decreases m - j,
                    {
                        let symbol: Symbol = *reachable_state_transitions.key_at(j);
                        let found = reachable_state_transitions.value_at(j);
                        let ghost done = base.union(row_pairs(p, symbols.take(j as int).to_set()));
                        proof {
                            lemma_take_next(symbols, j as int);
                            lemma_row_pairs_insert(
                                base,
                                p,
                                symbols.take(j as int).to_set(),
                                symbol,
                            );
                            lemma_gathered_insert(t, done, p, symbol);
                            reachable_state_transitions.lemma_view();
                            assert(t[p].contains_key(symbols[j as int]));
                            assert(found@ == targets(t, p, symbol));
                        }
                        if symbol != EPSILON {
                            let reachable_states_with_epsilon_closure = Self::closure_of(
                                found,
                                state_transitions,
                            );
                            let merged = match row.get(&symbol) {
                                Some(known) => {
                                    let mut merged = known.duplicate();
                                    merged.union_with(&reachable_states_with_epsilon_closure);
                                    merged
                                },
                                None => {
                                    proof {
                                        assert(Set::<Label>::empty().union(
                                            reachable_states_with_epsilon_closure@,
                                        ) =~= reachable_states_with_epsilon_closure@);
                                    }
                                    reachable_states_with_epsilon_closure
                                },
                            };
                            proof {
                                assert(merged@ == gathered_at(row@, symbol).union(
                                    closure(t, targets(t, p, symbol)),
                                ));
                            }
                            row.insert(symbol, merged);
                        }
                        j += 1;
                    }
                    proof {
                        lemma_take_ends(symbols);
                        reachable_state_transitions.lemma_view();
                        lemma_pairs_with_row(t, members.take(i as int).to_set(), p);
                    }
                },
                None => {
                    proof {
                        lemma_pairs_without_row(t, members.take(i as int).to_set(), p);
                    }
                },
            }
            i += 1;
        }
        proof {
            lemma_take_ends(members);
            lemma_gathered_all(t, mstate@);
        }
        row
    }
}

} // verus!
