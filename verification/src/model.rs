//! The mathematical model of automata.
//!
//! Automata are modelled by sets and maps over labels. The definitions here
//! say what the closure under spontaneous moves is, what the subset
//! construction yields, how a deterministic automaton walks over a word and
//! when a nondeterministic automaton accepts one.

use vstd::prelude::*;
use crate::label::Label;
use crate::state_set::{canonical_label, set_precedes};

verus! {

/// A single input character.
pub type Symbol = char;

/// The symbol that marks a spontaneous move, one that consumes no input.
pub const EPSILON: Symbol = 'ε';

/// The moves out of one state of a nondeterministic automaton.
pub type Row = Map<Symbol, Set<Label>>;

/// The moves of a nondeterministic automaton.
pub type Moves = Map<Label, Row>;

/// The moves out of one state of a deterministic automaton.
pub type Arrows = Map<Symbol, Label>;

/// The outcome of walking a deterministic automaton over a word.
#[derive(Clone, Copy, Debug, PartialEq, Eq, Structural)]
pub enum Acceptance {
    /// The walk consumed the word and ended in a final state.
    Accepted,
    /// The walk consumed the word and ended in a state that is not final.
    Rejected,
    /// The walk met a symbol outside the alphabet.
    InvalidAlphabet,
    /// The walk met a symbol for which the current state has no move.
    NoTransition,
}

/// A nondeterministic automaton.
pub ghost struct NfaModel {
    pub states: Set<Label>,
    pub alphabet: Set<Symbol>,
    pub moves: Moves,
    pub start: Label,
    pub finals: Set<Label>,
}

/// A deterministic automaton.
pub ghost struct DfaModel {
    pub states: Set<Label>,
    pub alphabet: Set<Symbol>,
    pub moves: Map<Label, Arrows>,
    pub start: Label,
    pub finals: Set<Label>,
}

/// An automaton whose states are sets of states of another automaton.
pub ghost struct MultiNfaModel {
    pub states: Set<Set<Label>>,
    pub alphabet: Set<Symbol>,
    pub moves: Map<Set<Label>, Row>,
    pub start: Set<Label>,
    pub finals: Set<Set<Label>>,
}

/// No row has an entry for the spontaneous move.
pub open spec fn input_moves<K, V>(moves: Map<K, Map<Symbol, V>>) -> bool {
    forall|k: K| #[trigger] moves.contains_key(k) ==> !moves[k].contains_key(EPSILON)
}

/// The states that `p` can move to on `c`; none where the table has no
/// entry for `p` or the entry has none for `c`.
pub open spec fn targets(t: Moves, p: Label, c: Symbol) -> Set<Label> {
    if t.contains_key(p) && t[p].contains_key(c) {
        t[p][c]
    } else {
        Set::empty()
    }
}

/// With each member, `x` holds the states that the member moves to
/// spontaneously.
pub open spec fn eps_closed(t: Moves, x: Set<Label>) -> bool {
    forall|p: Label, q: Label|
        x.contains(p) && #[trigger] targets(t, p, EPSILON).contains(q) ==> x.contains(q)
}

/// The closure of `s` under spontaneous moves: the smallest set that holds
/// `s` and is closed under them.
pub open spec fn closure(t: Moves, s: Set<Label>) -> Set<Label> {
    Set::new(
        |q: Label|
            forall|x: Set<Label>| s.subset_of(x) && #[trigger] eps_closed(t, x) ==> x.contains(q),
    )
}

/// `x` holds `seen` and the spontaneous targets of `root`, and with each
/// member outside `seen` the spontaneous targets of that member.
pub open spec fn extends(t: Moves, seen: Set<Label>, root: Label, x: Set<Label>) -> bool {
    &&& seen.subset_of(x)
    &&& targets(t, root, EPSILON).subset_of(x)
    &&& forall|p: Label, q: Label|
        x.contains(p) && !seen.contains(p) && #[trigger] targets(t, p, EPSILON).contains(q)
            ==> x.contains(q)
}

/// What a search for the states reachable from `root` by spontaneous moves
/// adds to `seen` when it does not look beyond the members of `seen`: the
/// smallest set that extends `seen` from `root`.
pub open spec fn extension(t: Moves, seen: Set<Label>, root: Label) -> Set<Label> {
    Set::new(
        |q: Label|
            forall|x: Set<Label>| #[trigger] extends(t, seen, root, x) ==> x.contains(q),
    )
}

/// Every member of `s` has an entry in the table.
pub open spec fn admits(t: Moves, s: Set<Label>) -> bool {
    forall|p: Label| s.contains(p) ==> #[trigger] t.contains_key(p)
}

/// The states that some member of `k` moves to on `c`.
pub open spec fn step(t: Moves, k: Set<Label>, c: Symbol) -> Set<Label> {
    Set::new(|q: Label| exists|p: Label| k.contains(p) && #[trigger] targets(t, p, c).contains(q))
}

/// Some member of `k` has an entry for the input symbol `c`.
pub open spec fn fires(t: Moves, k: Set<Label>, c: Symbol) -> bool {
    c != EPSILON && exists|p: Label|
        k.contains(p) && #[trigger] t.contains_key(p) && t[p].contains_key(c)
}

/// The moves of the state set `k`: for each input symbol on which a member
/// has an entry, the closure of the states that the members move to.
pub open spec fn moves_of(t: Moves, k: Set<Label>) -> Row {
    Map::new(|c: Symbol| fires(t, k, c), |c: Symbol| closure(t, step(t, k, c)))
}

/// The row of the state set `k`: its moves where every member has an entry
/// in the table, and no moves at all where some member has none.
pub open spec fn row_of(t: Moves, k: Set<Label>) -> Row {
    if admits(t, k) {
        moves_of(t, k)
    } else {
        Map::empty()
    }
}

/// The row that a search from `s` records for the state set `k`. The
/// closure of `s` has its moves where every member of `s` itself has an
/// entry in the table; every other state set has its row.
pub open spec fn recorded_row(t: Moves, s: Set<Label>, k: Set<Label>) -> Row {
    if k == closure(t, s) && admits(t, s) {
        moves_of(t, k)
    } else {
        row_of(t, k)
    }
}

/// The family `x` holds `seen` and the closure of `s`, and with each member
/// outside `seen` the targets of the row recorded for that member.
pub open spec fn explores(
    t: Moves,
    seen: Set<Set<Label>>,
    s: Set<Label>,
    x: Set<Set<Label>>,
) -> bool {
    &&& seen.subset_of(x)
    &&& x.contains(closure(t, s))
    &&& forall|k: Set<Label>, c: Symbol|
        x.contains(k) && !seen.contains(k) && #[trigger] recorded_row(t, s, k).contains_key(c)
            ==> x.contains(recorded_row(t, s, k)[c])
}

/// The state sets known after a search from `s` that does not look beyond
/// the members of `seen`: the smallest family that explores from `s`.
pub open spec fn discovered(t: Moves, seen: Set<Set<Label>>, s: Set<Label>) -> Set<Set<Label>> {
    Set::new(
        |k: Set<Label>|
            forall|x: Set<Set<Label>>| #[trigger] explores(t, seen, s, x) ==> x.contains(k),
    )
}

/// The automaton of state sets that the subset construction builds.
pub open spec fn subset_construction(n: NfaModel) -> MultiNfaModel {
    let states = discovered(n.moves, Set::empty(), set![n.start]);
    MultiNfaModel {
        states,
        alphabet: n.alphabet,
        moves: Map::new(
            |k: Set<Label>| states.contains(k),
            |k: Set<Label>| recorded_row(n.moves, set![n.start], k),
        ),
        start: closure(n.moves, set![n.start]),
        finals: Set::new(
            |k: Set<Label>|
                states.contains(k) && exists|f: Label| #[trigger]
                    n.finals.contains(f) && k.contains(f),
        ),
    }
}

/// No entry is for a spontaneous move and none has more than one target.
pub open spec fn deterministic(t: Moves) -> bool {
    forall|p: Label, c: Symbol|
        t.contains_key(p) && #[trigger] t[p].contains_key(c) ==> c != EPSILON && t[p][c].len() <= 1
}

/// A row with each one-element target set replaced by its element.
pub open spec fn collapse_row(row: Row) -> Arrows {
    Map::new(
        |c: Symbol| row.contains_key(c) && row[c].len() > 0,
        |c: Symbol| row[c].choose(),
    )
}

/// A deterministic automaton written as a nondeterministic one, read back.
pub open spec fn collapse(n: NfaModel) -> DfaModel {
    DfaModel {
        states: n.states,
        alphabet: n.alphabet,
        moves: Map::new(|p: Label| n.moves.contains_key(p), |p: Label| collapse_row(n.moves[p])),
        start: n.start,
        finals: n.finals,
    }
}

/// The composite labels of the members of a family of state sets.
pub open spec fn labels_of(family: Set<Set<Label>>) -> Set<Label> {
    Set::new(
        |l: Label| exists|k: Set<Label>| #[trigger] family.contains(k) && canonical_label(k) == l,
    )
}

/// A row with each target set replaced by its composite label.
pub open spec fn relabel_row(row: Row) -> Arrows {
    Map::new(|c: Symbol| row.contains_key(c), |c: Symbol| canonical_label(row[c]))
}

/// No member of `family` that has the composite label of `k` comes after
/// `k` in the order of state sets.
pub open spec fn last_of_label(family: Set<Set<Label>>, k: Set<Label>) -> bool {
    forall|k2: Set<Label>| #[trigger]
        family.contains(k2) && canonical_label(k2) == canonical_label(k) ==> !set_precedes(k, k2)
}

/// `d` is `m` with each state set replaced by its composite label. Where
/// several state sets of `m` have the same label, the row of that label is
/// the row of the one that comes last in the order of state sets.
pub open spec fn relabels(d: DfaModel, m: MultiNfaModel) -> bool {
    &&& d.states == labels_of(m.states)
    &&& d.alphabet == m.alphabet
    &&& d.start == canonical_label(m.start)
    &&& d.finals == labels_of(m.finals)
    &&& d.moves.dom() == labels_of(m.moves.dom())
    &&& forall|l: Label| #[trigger]
        d.moves.contains_key(l) ==> exists|k: Set<Label>| #[trigger]
            m.moves.contains_key(k) && canonical_label(k) == l && last_of_label(m.moves.dom(), k)
                && d.moves[l] == relabel_row(m.moves[k])
}

/// `d` is what the conversion makes of `n`: `n` read back where it is
/// deterministic, and else the relabelled subset construction.
pub open spec fn converts(n: NfaModel, d: DfaModel) -> bool {
    if deterministic(n.moves) {
        d == collapse(n)
    } else {
        relabels(d, subset_construction(n))
    }
}

/// The outcome of walking `d` over `w` from state `q`.
pub open spec fn walk(d: DfaModel, q: Label, w: Seq<Symbol>) -> Acceptance
    decreases w.len(),
{
    if w.len() == 0 {
        if d.finals.contains(q) {
            Acceptance::Accepted
        } else {
            Acceptance::Rejected
        }
    } else if !d.alphabet.contains(w[0]) {
        Acceptance::InvalidAlphabet
    } else if !(d.moves.contains_key(q) && d.moves[q].contains_key(w[0])) {
        Acceptance::NoTransition
    } else {
        walk(d, d.moves[q][w[0]], w.drop_first())
    }
}

/// The outcome of walking `d` over `w` from its start state.
pub open spec fn simulate(d: DfaModel, w: Seq<Symbol>) -> Acceptance {
    walk(d, d.start, w)
}

/// The outcome of walking an automaton that is deterministic as it stands
/// over `w` from state `q`: each entry is followed to its one target, and
/// an entry without a target is no move.
pub open spec fn walk_single(n: NfaModel, q: Label, w: Seq<Symbol>) -> Acceptance
    decreases w.len(),
{
    if w.len() == 0 {
        if n.finals.contains(q) {
            Acceptance::Accepted
        } else {
            Acceptance::Rejected
        }
    } else if !n.alphabet.contains(w[0]) {
        Acceptance::InvalidAlphabet
    } else if targets(n.moves, q, w[0]).len() == 0 {
        Acceptance::NoTransition
    } else {
        walk_single(n, targets(n.moves, q, w[0]).choose(), w.drop_first())
    }
}

/// Step `i` of the run leads from `states[i]` to `states[i + 1]` by a move
/// on `symbols[i]`.
pub open spec fn move_at(t: Moves, states: Seq<Label>, symbols: Seq<Symbol>, i: int) -> bool {
    targets(t, states[i], symbols[i]).contains(states[i + 1])
}

/// `states` and `symbols` are a run: each state is followed by one that it
/// moves to on the symbol between them, which may be `EPSILON`.
pub open spec fn is_run(t: Moves, states: Seq<Label>, symbols: Seq<Symbol>) -> bool {
    &&& states.len() == symbols.len() + 1
    &&& forall|i: int| 0 <= i < symbols.len() ==> #[trigger] move_at(t, states, symbols, i)
}

/// The word that a run reads: its symbols without the spontaneous moves.
pub open spec fn spelled(symbols: Seq<Symbol>) -> Seq<Symbol>
    decreases symbols.len(),
{
    if symbols.len() == 0 {
        Seq::empty()
    } else if symbols[0] == EPSILON {
        spelled(symbols.drop_first())
    } else {
        seq![symbols[0]] + spelled(symbols.drop_first())
    }
}

/// Some run from `q` reads `w` and ends in a final state.
pub open spec fn accepts_from(n: NfaModel, q: Label, w: Seq<Symbol>) -> bool {
    exists|states: Seq<Label>, symbols: Seq<Symbol>|
        #[trigger] is_run(n.moves, states, symbols) && states[0] == q && n.finals.contains(
            states.last(),
        ) && spelled(symbols) == w
}

/// Some run from the start state reads `w` and ends in a final state.
pub open spec fn accepts(n: NfaModel, w: Seq<Symbol>) -> bool {
    accepts_from(n, n.start, w)
}

} // verus!
