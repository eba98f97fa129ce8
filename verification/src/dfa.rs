//! Deterministic automata and their simulation.

use vstd::prelude::*;
use crate::label::{Label, lemma_list_precedes_irreflexive, lemma_list_precedes_transitive};
use crate::laws::{
    unhindered,
    symbols_declared,
    labels_plain,
    lemma_conversion_sound,
    lemma_conversion_preserves_language,
};
use crate::model::{
    Symbol,
    EPSILON,
    input_moves,
    Acceptance,
    DfaModel,
    accepts,
    Row,
    Arrows,
    simulate,
    walk,
    deterministic,
    collapse,
    collapse_row,
    relabels,
    relabel_row,
    labels_of,
    last_of_label,
    converts,
};
use crate::multi_nfa::{MultiNfa, MultiNfaTransitions, MultiStates};
use crate::nfa::{Alphabet, Nfa, NfaTransitions, States};
use crate::prefix::{lemma_take_next, lemma_take_ends};
use crate::state_set::{State, canonical_label, set_precedes, sorted_members};
use crate::table::{Item, Table};

verus! {

/// The moves out of one state: for each symbol the state it leads to.
pub type Transitions = Table<Symbol, State>;

/// The moves of an automaton: for each state its moves.
pub type StateTransitions = Table<State, Transitions>;

/// The input to a simulation.
pub type Language = str;

/// A deterministic automaton: for each state and symbol at most one move,
/// and none of them spontaneous.
pub struct Dfa {
    states: States,
    alphabet: Alphabet,
    state_transitions: StateTransitions,
    start_state: State,
    final_states: States,
}

impl View for Dfa {
    type V = DfaModel;

    closed spec fn view(&self) -> DfaModel {
        DfaModel {
            states: self.states@,
            alphabet: self.alphabet@,
            moves: self.state_transitions@,
            start: self.start_state@,
            finals: self.final_states@,
        }
    }
}

/// Among the first `i` state sets of `family`, the one at `a` has the
/// label `l`, none with that label comes after it in the order of state
/// sets, and its row, relabelled, is `arrows`.
pub open spec fn row_chosen(
    family: Seq<Set<Label>>,
    rows: Seq<Row>,
    i: int,
    l: Label,
    arrows: Arrows,
    a: int,
) -> bool {
    &&& 0 <= a < i
    &&& canonical_label(family[a]) == l
    &&& arrows == relabel_row(rows[a])
    &&& forall|b: int|
        0 <= b < i && canonical_label(#[trigger] family[b]) == l ==> !set_precedes(
            family[a],
            family[b],
        )
}

/// Where `a` comes before `b` and nothing of the kind of `c` came after `a`,
/// nothing of that kind comes after `b`; and no state set comes after
/// itself.
proof fn lemma_set_order(a: Set<Label>, b: Set<Label>, c: Set<Label>)
    ensures
        !set_precedes(b, b),
        set_precedes(a, b) && !set_precedes(a, c) ==> !set_precedes(b, c),
{
    lemma_list_precedes_irreflexive(sorted_members(b));
    if set_precedes(a, b) && set_precedes(b, c) {
        lemma_list_precedes_transitive(sorted_members(a), sorted_members(b), sorted_members(c));
    }
}

impl Dfa {
    /// The deterministic automaton for `nfa`. An automaton that is
    /// deterministic as it stands is read back as it is; any other goes
    /// through the subset construction, and each state set becomes a state
    /// under its composite label.
    ///
    /// The result accepts only words that `nfa` accepts, provided that
    /// `nfa` is deterministic as it stands or has plain labels. It accepts
    /// every word that `nfa` accepts, provided also that the input symbols
    /// on which `nfa` moves are in its alphabet and that the subset
    /// construction loses no moves for a state without an entry in the
    /// table.
    pub fn from_nfa(nfa: Nfa) -> (dfa: Dfa)
        requires
            nfa.wf(),
        ensures
            dfa.wf(),
            converts(nfa@, dfa@),
            deterministic(nfa@.moves) || labels_plain(nfa@) ==> forall|w: Seq<Symbol>|
                #[trigger] simulate(dfa@, w) == Acceptance::Accepted ==> accepts(nfa@, w),
            symbols_declared(nfa@) && (deterministic(nfa@.moves) || (unhindered(nfa@)
                && labels_plain(nfa@))) ==> forall|w: Seq<Symbol>|
                #[trigger] simulate(dfa@, w) == Acceptance::Accepted <==> accepts(nfa@, w),
    {
        let dfa = if nfa.is_dfa() {
            Self::from_deterministic(&nfa)
        } else {
            let multi_nfa = MultiNfa::from_nfa(&nfa);
            Self::from_multi_nfa(&multi_nfa)
        };
        proof {
            nfa.lemma_finite();
            if deterministic(nfa@.moves) || labels_plain(nfa@) {
                assert forall|w: Seq<Symbol>| #[trigger]
                    simulate(dfa@, w) == Acceptance::Accepted implies accepts(nfa@, w) by {
                    lemma_conversion_sound(nfa@, dfa@, w);
                }
            }
            if symbols_declared(nfa@) && (deterministic(nfa@.moves) || (unhindered(nfa@)
                && labels_plain(nfa@))) {
                assert forall|w: Seq<Symbol>| #[trigger]
                    simulate(dfa@, w) == Acceptance::Accepted <==> accepts(nfa@, w) by {
                    lemma_conversion_preserves_language(nfa@, dfa@, w);
                }
            }
        }
        dfa
    }

    /// The row with each target set replaced by its one member; an entry
    /// without targets is left out.
    fn collapsed(nfa_transitions: &NfaTransitions) -> (state_transitions: Transitions)
        requires
            nfa_transitions.wf(),
            forall|c: Symbol| #[trigger]
                nfa_transitions@.contains_key(c) ==> nfa_transitions@[c].len() <= 1,
        ensures
            state_transitions.wf(),
            state_transitions@ == collapse_row(nfa_transitions@),
    {
        let ghost row = nfa_transitions@;
        let ghost symbols = nfa_transitions.keys();
        let mut state_transitions = Transitions::new();
        let n: usize = nfa_transitions.len();
        let mut j: usize = 0;
        while j < n
            invariant
                j <= n,
                n == symbols.len(),
                symbols == nfa_transitions.keys(),
                row == nfa_transitions@,
                nfa_transitions.wf(),
                state_transitions.wf(),
                forall|c: Symbol| #[trigger] row.contains_key(c) ==> row[c].len() <= 1,
                forall|c: Symbol| #[trigger]
                    state_transitions@.contains_key(c) <==> symbols.take(j as int).contains(c)
                        && row[c].len() > 0,
                forall|c: Symbol| #[trigger]
                    state_transitions@.contains_key(c) ==> state_transitions@[c]
                        == row[c].choose(),
            decreases n - j,
        {
            let symbol: Symbol = *nfa_transitions.key_at(j);
            let states = nfa_transitions.value_at(j);
            let ghost base = state_transitions@;
            let ghost members = states.members();
            let m: usize = states.len();
            let mut a: usize = 0;
            proof {
                nfa_transitions.lemma_view();
                states.lemma_members();
                lemma_take_next(symbols, j as int);
                assert(row.contains_key(symbols[j as int]));
                assert(row[symbol] == states@);
            }
            while a < m
                invariant
                    a <= m,
                    m == members.len(),
                    m <= 1,
                    members == states.members(),
                    state_transitions.wf(),
                    state_transitions@ == if a == 0 {
                        base
                    } else {
                        base.insert(symbol, members[a - 1])
                    },
                decreases m - a,
            {
                let state = states.get(a);
                state_transitions.insert(symbol, state.clone());
                a += 1;
            }
            proof {
                if m == 1 {
                    assert(states@.contains(members[0]));
                    Set::lemma_is_singleton(states@);
                    assert(states@.choose() == members[0]) by {
                        assert(states@.contains(states@.choose()));
                        assert(states@.is_singleton());
                    }
                }
            }
            j += 1;
        }
        proof {
            nfa_transitions.lemma_view();
            lemma_take_ends(symbols);
            assert(state_transitions@ =~= collapse_row(row));
        }
        state_transitions
    }

    /// An automaton that is deterministic as it stands, read back as a
    /// deterministic automaton.
    fn from_deterministic(nfa: &Nfa) -> (dfa: Dfa)
        requires
            nfa.wf(),
            deterministic(nfa@.moves),
        ensures
            dfa.wf(),
            dfa@ == collapse(nfa@),
    {
        let table = nfa.get_state_transitions();
        let ghost t = table@;
        let ghost keys = table.keys();
        let mut transitions = StateTransitions::new();
        let n: usize = table.len();
        let mut i: usize = 0;
        while i < n
            invariant
                i <= n,
                n == keys.len(),
                keys == table.keys(),
                t == table@,
                table.wf(),
                deterministic(t),
                transitions.wf(),
                forall|p: Label| #[trigger]
                    transitions@.contains_key(p) <==> keys.take(i as int).contains(p),
                forall|p: Label| #[trigger]
                    transitions@.contains_key(p) ==> transitions@[p] == collapse_row(t[p]),
            decreases n - i,
        {
            let state = table.key_at(i);
            let nfa_transitions = table.value_at(i);
            proof {
                table.lemma_view();
                assert(t.contains_key(keys[i as int]));
                assert(t[state@] == nfa_transitions@);
                lemma_take_next(keys, i as int);
            }
            let state_transitions = Self::collapsed(nfa_transitions);
            transitions.insert(state.clone(), state_transitions);
            i += 1;
        }
        let dfa = Dfa {
            states: nfa.get_states().duplicate(),
            alphabet: nfa.get_alphabet().duplicate(),
            state_transitions: transitions,
            start_state: nfa.get_start_state().clone(),
            final_states: nfa.get_final_states().duplicate(),
        };
        proof {
            table.lemma_view();
            lemma_take_ends(keys);
            assert(dfa@.moves =~= collapse(nfa@).moves);
        }
        dfa
    }

    /// The row with each target set replaced by its composite label.
    fn relabelled(transitions: &MultiNfaTransitions) -> (state_transitions: Transitions)
        requires
            transitions.wf(),
        ensures
            state_transitions.wf(),
            state_transitions@ == relabel_row(transitions@),
    {
        let ghost row = transitions@;
        let ghost symbols = transitions.keys();
        let mut state_transitions = Transitions::new();
        let n: usize = transitions.len();
        let mut j: usize = 0;
        while j < n
            invariant
                j <= n,
                n == symbols.len(),
                symbols == transitions.keys(),
                row == transitions@,
                transitions.wf(),
                state_transitions.wf(),
                forall|c: Symbol| #[trigger]
                    state_transitions@.contains_key(c) <==> symbols.take(j as int).contains(c),
                forall|c: Symbol| #[trigger]
                    state_transitions@.contains_key(c) ==> state_transitions@[c]
                        == canonical_label(row[c]),
            decreases n - j,
        {
            let symbol: Symbol = *transitions.key_at(j);
            let to_state = transitions.value_at(j);
            proof {
                transitions.lemma_view();
                lemma_take_next(symbols, j as int);
                assert(row.contains_key(symbols[j as int]));
                assert(row[symbol] == to_state@);
            }
            state_transitions.insert(symbol, to_state.to_state());
            j += 1;
        }
        proof {
            transitions.lemma_view();
            lemma_take_ends(symbols);
            assert(state_transitions@ =~= relabel_row(row));
        }
        state_transitions
    }

    /// The composite labels of the state sets of `family`.
    fn labelled(family: &MultiStates) -> (states: States)
        requires
            family.wf(),
        ensures
            states.wf(),
            states@ == labels_of(family@),
    {
        let ghost items = family.items();
        let mut states = States::new();
        let n: usize = family.len();
        let mut i: usize = 0;
        proof {
            lemma_take_ends(items);
            assert(states@ =~= labels_of(items.take(0).to_set()));
        }
        while i < n
            invariant
                i <= n,
                n == items.len(),
                items == family.items(),
                family.wf(),
                states.wf(),
                states@ == labels_of(items.take(i as int).to_set()),
            decreases n - i,
        {
            let state = family.get(i).to_state();
            proof {
                let known = items.take(i as int).to_set();
                lemma_take_next(items, i as int);
                assert(known.insert(items[i as int]).contains(items[i as int]));
                assert(states@.insert(state@) =~= labels_of(known.insert(items[i as int]))) by {
                    assert forall|l: Label| #[trigger]
                        labels_of(known).contains(l) implies labels_of(
                        known.insert(items[i as int]),
                    ).contains(l) by {
                        let k = choose|k: Set<Label>| #[trigger]
                            known.contains(k) && canonical_label(k) == l;
                        assert(known.insert(items[i as int]).contains(k));
                    }
                }
            }
            states.insert(state);
            i += 1;
        }
        proof {
            lemma_take_ends(items);
        }
        states
    }

    /// The automaton of state sets with each state set replaced by its
    /// composite label.
    pub fn from_multi_nfa(multi_nfa: &MultiNfa) -> (dfa: Dfa)
        requires
            multi_nfa.wf(),
        ensures
            dfa.wf(),
            relabels(dfa@, multi_nfa@),
    {
        let states = Self::labelled(multi_nfa.get_states());
        let alphabet = multi_nfa.get_alphabet().duplicate();

        let table = multi_nfa.get_state_transitions();
        let ghost keys = table.keys();
        let ghost rows = table.values();
        let mut state_transitions = StateTransitions::new();
        // For each row written so far, the entry that it was made from.
        let mut sources: Vec<usize> = Vec::new();
        let n: usize = table.len();
        let mut i: usize = 0;
        proof {
            table.lemma_view();
        }
        while i < n
            invariant
                i <= n,
                n == keys.len(),
                keys == table.keys(),
                rows == table.values(),
                keys.len() == rows.len(),
                table.wf(),
                state_transitions.wf(),
                sources.len() == state_transitions.keys().len(),
                forall|p: int|
                    0 <= p < sources.len() ==> row_chosen(
                        keys,
                        rows,
                        i as int,
                        state_transitions.keys()[p],
                        state_transitions.values()[p],
                        #[trigger] sources[p] as int,
                    ),
                forall|b: int|
                    0 <= b < i ==> state_transitions@.contains_key(
                        canonical_label(#[trigger] keys[b]),
                    ),
            decreases n - i,
        {
            let ghost before = state_transitions;
            let ghost before_sources = sources@;
            let state = table.key_at(i).to_state();
            let transitions = Self::relabelled(table.value_at(i));
            proof {
                before.lemma_view();
            }
            match state_transitions.position(&state) {
                Some(p) => {
                    let a: usize = sources[p];
                    assert(row_chosen(
                        keys,
                        rows,
                        i as int,
                        before.keys()[p as int],
                        before.values()[p as int],
                        sources[p as int] as int,
                    ));
                    if table.key_at(a).comes_before(table.key_at(i)) {
                        proof {
                            assert(before.keys().index_of(state@) == p);
                        }
                        state_transitions.insert(state, transitions);
                        sources.set(p, i);
                        proof {
                            assert forall|q: int| 0 <= q < sources.len() implies row_chosen(
                                keys,
                                rows,
                                i + 1,
                                state_transitions.keys()[q],
                                state_transitions.values()[q],
                                #[trigger] sources[q] as int,
                            ) by {
                                if q == p {
                                    assert forall|b: int|
                                        0 <= b < i + 1 && canonical_label(#[trigger] keys[b])
                                            == state@ implies !set_precedes(
                                        keys[i as int],
                                        keys[b],
                                    ) by {
                                        lemma_set_order(keys[a as int], keys[i as int], keys[b]);
                                    }
                                } else {
                                    assert(row_chosen(
                                        keys,
                                        rows,
                                        i as int,
                                        before.keys()[q],
                                        before.values()[q],
                                        before_sources[q] as int,
                                    ));
                                }
                            }
                        }
                    } else {
                        proof {
                            assert forall|q: int| 0 <= q < sources.len() implies row_chosen(
                                keys,
                                rows,
                                i + 1,
                                state_transitions.keys()[q],
                                state_transitions.values()[q],
                                #[trigger] sources[q] as int,
                            ) by {
                                assert(row_chosen(
                                    keys,
                                    rows,
                                    i as int,
                                    before.keys()[q],
                                    before.values()[q],
                                    before_sources[q] as int,
                                ));
                            }
                        }
                    }
                },
                None => {
                    state_transitions.insert(state, transitions);
                    sources.push(i);
                    proof {
                        assert forall|q: int| 0 <= q < sources.len() implies row_chosen(
                            keys,
                            rows,
                            i + 1,
                            state_transitions.keys()[q],
                            state_transitions.values()[q],
                            #[trigger] sources[q] as int,
                        ) by {
                            if q == before_sources.len() {
                                assert forall|b: int|
                                    0 <= b < i + 1 && canonical_label(#[trigger] keys[b])
                                        == state@ implies !set_precedes(
                                    keys[i as int],
                                    keys[b],
                                ) by {
                                    lemma_set_order(keys[i as int], keys[i as int], keys[b]);
                                }
                            } else {
                                assert(row_chosen(
                                    keys,
                                    rows,
                                    i as int,
                                    before.keys()[q],
                                    before.values()[q],
                                    before_sources[q] as int,
                                ));
                            }
                        }
                    }
                },
            }
            i += 1;
        }

        let start_state = multi_nfa.get_start_state().to_state();

        let final_states = Self::labelled(multi_nfa.get_final_states());
        let dfa = Dfa { states, alphabet, state_transitions, start_state, final_states };
        proof {
            table.lemma_view();
            state_transitions.lemma_view();
            assert(dfa@.moves.dom() =~= labels_of(multi_nfa@.moves.dom())) by {
                assert forall|l: Label| dfa@.moves.dom().contains(l) <==> labels_of(
                    multi_nfa@.moves.dom(),
                ).contains(l) by {
                    if dfa@.moves.dom().contains(l) {
                        let p = state_transitions.keys().index_of(l);
                        assert(row_chosen(
                            keys,
                            rows,
                            n as int,
                            state_transitions.keys()[p],
                            state_transitions.values()[p],
                            sources[p] as int,
                        ));
                        let a = sources[p] as int;
                        assert(table@.contains_key(keys[a]));
                        assert(multi_nfa@.moves.dom().contains(keys[a]));
                    }
                    if labels_of(multi_nfa@.moves.dom()).contains(l) {
                        let k = choose|k: Set<Label>| #[trigger]
                            table@.dom().contains(k) && canonical_label(k) == l;
                        let a = keys.index_of(k);
                        assert(table@.contains_key(k));
                        assert(canonical_label(keys[a]) == l);
                    }
                }
            }
            state_transitions.lemma_view();
            assert forall|l: Label| #[trigger] dfa@.moves.contains_key(l) implies exists|
                k: Set<Label>,
            | #[trigger]
                multi_nfa@.moves.contains_key(k) && canonical_label(k) == l && last_of_label(
                    multi_nfa@.moves.dom(),
                    k,
                ) && dfa@.moves[l] == relabel_row(multi_nfa@.moves[k]) by {
                let p = state_transitions.keys().index_of(l);
                let a = sources[p] as int;
                assert(row_chosen(
                    keys,
                    rows,
                    n as int,
                    state_transitions.keys()[p],
                    state_transitions.values()[p],
                    sources[p] as int,
                ));
                assert(table@.contains_key(keys[a]) && table@[keys[a]] == rows[a]);
                assert(last_of_label(multi_nfa@.moves.dom(), keys[a])) by {
                    assert forall|k2: Set<Label>| #[trigger]
                        table@.dom().contains(k2) && canonical_label(k2) == canonical_label(
                            keys[a],
                        ) implies !set_precedes(keys[a], k2) by {
                        let b = keys.index_of(k2);
                        assert(table@.contains_key(k2));
                        assert(keys[b] == k2);
                    }
                }
            }
        }
        dfa
    }

    /// Every part of the automaton is valid, and the symbol of the
    /// spontaneous move is neither in the alphabet nor in a row.
    pub closed spec fn wf(&self) -> bool {
        &&& self.states.wf()
        &&& self.alphabet.wf()
        &&& self.state_transitions.wf()
        &&& self.final_states.wf()
        &&& !self.alphabet@.contains(EPSILON)
        &&& input_moves(self.state_transitions@)
    }

    /// A valid automaton has no spontaneous moves, and its alphabet does
    /// not hold their symbol.
    pub proof fn lemma_input_moves(&self)
        requires
            self.wf(),
        ensures
            !self@.alphabet.contains(EPSILON),
            input_moves(self@.moves),
    {
    }

    /// The automaton with the given parts. The symbol of the spontaneous
    /// move is no input symbol: neither the alphabet nor a row may hold it.
    pub fn new(
        states: States,
        alphabet: Alphabet,
        state_transitions: StateTransitions,
        start_state: State,
        final_states: States,
    ) -> (r: Dfa)
        requires
            states.wf(),
            alphabet.wf(),
            state_transitions.wf(),
            final_states.wf(),
            !alphabet@.contains(EPSILON),
            input_moves(state_transitions@),
        ensures
            r.wf(),
            r@ == (DfaModel {
                states: states@,
                alphabet: alphabet@,
                moves: state_transitions@,
                start: start_state@,
                finals: final_states@,
            }),
    {
        Dfa { states, alphabet, state_transitions, start_state, final_states }
    }

    /// The states.
    pub fn get_states(&self) -> (r: &States)
        requires
            self.wf(),
        ensures
            r.wf(),
            r@ == self@.states,
    {
        &self.states
    }

    /// The input symbols.
    pub fn get_alphabet(&self) -> (r: &Alphabet)
        requires
            self.wf(),
        ensures
            r.wf(),
            r@ == self@.alphabet,
            !r@.contains(EPSILON),
    {
        &self.alphabet
    }

    /// The moves.
    pub fn get_state_transitions(&self) -> (r: &StateTransitions)
        requires
            self.wf(),
        ensures
            r.wf(),
            r@ == self@.moves,
            input_moves(r@),
    {
        &self.state_transitions
    }

    /// The start state.
    pub fn get_start_state(&self) -> (r: &State)
        ensures
            r@ == self@.start,
    {
        &self.start_state
    }

    /// The final states.
    pub fn get_final_states(&self) -> (r: &States)
        requires
            self.wf(),
        ensures
            r.wf(),
            r@ == self@.finals,
    {
        &self.final_states
    }

    /// Walks the automaton over `language`, one symbol at a time from the
    /// start state, and says how the walk ended.
    pub fn accepts(&self, language: &Language) -> (r: Acceptance)
        requires
            self.wf(),
        ensures
            r == simulate(self@, language@),
            language@.len() == 0 ==> r == if self@.finals.contains(self@.start) {
                Acceptance::Accepted
            } else {
                Acceptance::Rejected
            },
    {
        let mut walk_state: &State = &self.start_state;
        proof {
            assert(language@.skip(0) =~= language@);
        }
        for walk_symbol in symbols: language.chars()
            invariant
                self.wf(),
                symbols.seq() == language@,
                simulate(self@, language@) == walk(
                    self@,
                    walk_state@,
                    language@.skip(symbols.index() as int),
                ),
        {
            proof {
                let i = symbols.index() as int;
                assert(language@.skip(i)[0] == walk_symbol);
                assert(language@.skip(i).drop_first() =~= language@.skip(i + 1));
            }
            if !self.alphabet.contains(&walk_symbol) {
                return Acceptance::InvalidAlphabet;
            }
            walk_state =
            match self.state_transitions.get(walk_state) {
                Some(walk_state_transitions) => match walk_state_transitions.get(&walk_symbol) {
                    Some(walk_state_transition_for_symbol) => walk_state_transition_for_symbol,
                    None => {
                        return Acceptance::NoTransition;
                    },
                },
                None => {
                    return Acceptance::NoTransition;
                },
            };
        }
        if self.final_states.contains(walk_state.as_str()) {
            Acceptance::Accepted
        } else {
            Acceptance::Rejected
        }
    }
}

} // verus!
