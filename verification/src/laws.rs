//! What holds of the conversion and of the simulation.
//!
//! The laws are stated over the models of the automata. A deterministic
//! automaton that the conversion yields is related to the nondeterministic
//! automaton by `converts`, and the outcome of a simulation is `simulate`.

use vstd::prelude::*;
use vstd::arithmetic::power2::{pow2, lemma_pow2_pos};
use crate::canonical::{
    plain,
    lemma_label_injective,
    lemma_label_of_single,
    lemma_sorted_members,
};
use crate::closure::{
    universe,
    lemma_universe,
    lemma_closure_closed,
    lemma_closure_least,
    lemma_closure_of_closed,
};
use crate::discovery::{
    lemma_recorded_row,
    lemma_discovered_explores,
    lemma_discovered_alone,
    lemma_moves_closed,
    lemma_moves_in_universe,
    lemma_closure_within,
};
use crate::label::{Label, lemma_list_precedes_total};
use crate::model::{
    last_of_label,
    Symbol,
    EPSILON,
    Acceptance,
    NfaModel,
    DfaModel,
    Moves,
    targets,
    eps_closed,
    closure,
    admits,
    step,
    fires,
    moves_of,
    row_of,
    recorded_row,
    explores,
    subset_construction,
    deterministic,
    collapse,
    collapse_row,
    relabels,
    relabel_row,
    labels_of,
    converts,
    walk,
    walk_single,
    simulate,
    is_run,
    spelled,
    accepts_from,
    accepts,
};
use crate::nfa::finite_moves;
use crate::powerset::{powerset, lemma_family_bounded};
use crate::runs::{
    lemma_accepts_at_final,
    lemma_accepts_after_move,
    lemma_accepts_from_closure,
    lemma_run_tail,
};
use crate::state_set::{canonical_label, sorted_members, set_precedes};

verus! {

/// The start state has an entry in the table, and so has every state that
/// an entry leads to.
pub open spec fn complete(n: NfaModel) -> bool {
    &&& n.moves.contains_key(n.start)
    &&& forall|p: Label, c: Symbol, q: Label| #[trigger]
        targets(n.moves, p, c).contains(q) ==> n.moves.contains_key(q)
}

/// No state set that the subset construction discovers loses moves for a
/// member without an entry in the table: the row of each is its moves.
pub open spec fn unhindered(n: NfaModel) -> bool {
    forall|k: Set<Label>| #[trigger]
        subset_construction(n).states.contains(k) ==> recorded_row(n.moves, set![n.start], k)
            == moves_of(n.moves, k)
}

/// Every input symbol on which some state moves is in the alphabet.
pub open spec fn symbols_declared(n: NfaModel) -> bool {
    forall|p: Label, c: Symbol, q: Label|
        c != EPSILON && #[trigger] targets(n.moves, p, c).contains(q) ==> n.alphabet.contains(c)
}

/// The start state has a plain label, and so has every state that the
/// table mentions.
pub open spec fn labels_plain(n: NfaModel) -> bool {
    &&& plain(n.start)
    &&& forall|p: Label| #[trigger] universe(n.moves).contains(p) ==> plain(p)
}

/// Every entry of the table has a target.
pub open spec fn targets_present(n: NfaModel) -> bool {
    forall|p: Label, c: Symbol|
        n.moves.contains_key(p) && #[trigger] n.moves[p].contains_key(c) ==> n.moves[p][c].len() > 0
}

/// Every label that the table mentions is a state.
pub open spec fn labels_declared(n: NfaModel) -> bool {
    universe(n.moves).subset_of(n.states)
}

/// The start state and the final states are states, and so is every label
/// that the table mentions.
pub open spec fn nfa_valid(n: NfaModel) -> bool {
    &&& n.states.contains(n.start)
    &&& n.finals.subset_of(n.states)
    &&& labels_declared(n)
}

/// The start state and the final states are states, every move leads from
/// a state to a state, and none is spontaneous.
pub open spec fn dfa_valid(d: DfaModel) -> bool {
    &&& d.states.contains(d.start)
    &&& d.finals.subset_of(d.states)
    &&& forall|l: Label, c: Symbol|
        d.moves.contains_key(l) && #[trigger] d.moves[l].contains_key(c) ==> c != EPSILON
            && d.states.contains(l) && d.states.contains(d.moves[l][c])
}

/// On the empty word a deterministic automaton answers `Accepted` where its
/// start state is final, and `Rejected` where it is not.
pub proof fn lemma_empty_word(d: DfaModel)
    ensures
        simulate(d, Seq::empty()) == if d.finals.contains(d.start) {
            Acceptance::Accepted
        } else {
            Acceptance::Rejected
        },
{
}

/// Among the finite state sets of a family that share a composite label,
/// one only comes last.
proof fn lemma_last_of_label_unique(family: Set<Set<Label>>, a: Set<Label>, b: Set<Label>)
    requires
        family.contains(a),
        family.contains(b),
        a.finite(),
        b.finite(),
        canonical_label(a) == canonical_label(b),
        last_of_label(family, a),
        last_of_label(family, b),
    ensures
        a == b,
{
    lemma_sorted_members(a);
    lemma_sorted_members(b);
    lemma_list_precedes_total(sorted_members(a), sorted_members(b));
    assert(!set_precedes(a, b));
    assert(!set_precedes(b, a));
}

/// The conversion has one result: two automata that are each what the
/// conversion makes of `n` are the same automaton.
pub proof fn lemma_conversion_unique(n: NfaModel, d1: DfaModel, d2: DfaModel)
    requires
        finite_moves(n.moves),
        converts(n, d1),
        converts(n, d2),
    ensures
        d1 == d2,
{
    if !deterministic(n.moves) {
        let m = subset_construction(n);
        lemma_state_sets_within_universe(n);
        assert forall|l: Label| #[trigger] d1.moves.contains_key(l) implies d1.moves[l]
            == d2.moves[l] by {
            assert(d2.moves.dom().contains(l));
            let k1 = choose|k: Set<Label>| #[trigger]
                m.moves.contains_key(k) && canonical_label(k) == l && last_of_label(
                    m.moves.dom(),
                    k,
                ) && d1.moves[l] == relabel_row(m.moves[k]);
            let k2 = choose|k: Set<Label>| #[trigger]
                m.moves.contains_key(k) && canonical_label(k) == l && last_of_label(
                    m.moves.dom(),
                    k,
                ) && d2.moves[l] == relabel_row(m.moves[k]);
            assert(m.states.contains(k1) && m.states.contains(k2));
            lemma_last_of_label_unique(m.moves.dom(), k1, k2);
        }
        assert(d1.moves =~= d2.moves);
    }
}

/// The automaton that the conversion yields has no spontaneous moves.
pub proof fn lemma_no_spontaneous_moves(n: NfaModel, d: DfaModel)
    requires
        converts(n, d),
    ensures
        forall|l: Label| #[trigger] d.moves.contains_key(l) ==> !d.moves[l].contains_key(EPSILON),
{
    assert forall|l: Label| #[trigger] d.moves.contains_key(l) implies !d.moves[l].contains_key(
        EPSILON,
    ) by {
        if !deterministic(n.moves) {
            let m = subset_construction(n);
            let k = choose|k: Set<Label>| #[trigger]
                m.moves.contains_key(k) && canonical_label(k) == l && d.moves[l] == relabel_row(
                    m.moves[k],
                );
            lemma_recorded_row(n.moves, set![n.start], k);
        }
    }
}

/// The state sets that the subset construction discovers hold the start
/// state and labels that the table mentions, and nothing else; there are
/// at most `2^n` of them, where `n` is the number of those labels.
pub proof fn lemma_state_sets_within_universe(n: NfaModel)
    requires
        finite_moves(n.moves),
    ensures
        subset_construction(n).states.subset_of(
            powerset(universe(n.moves).union(set![n.start])),
        ),
        subset_construction(n).states.finite(),
        subset_construction(n).states.len() <= pow2(
            universe(n.moves).union(set![n.start]).len(),
        ),
        forall|k: Set<Label>| #[trigger] subset_construction(n).states.contains(k) ==> k.finite(),
{
    let t = n.moves;
    let s = set![n.start];
    let u = universe(t).union(s);
    let x = powerset(u);
    lemma_universe(t);
    vstd::set_lib::lemma_set_union_finite_iff(universe(t), s);
    assert(explores(t, Set::empty(), s, x)) by {
        lemma_closure_within(t, s);
        assert forall|k: Set<Label>, c: Symbol|
            x.contains(k) && #[trigger] recorded_row(t, s, k).contains_key(
                c,
            ) implies x.contains(recorded_row(t, s, k)[c]) by {
            lemma_recorded_row(t, s, k);
            lemma_moves_in_universe(t, k, c);
        }
    }
    lemma_family_bounded(subset_construction(n).states, u);
    assert forall|k: Set<Label>| #[trigger]
        subset_construction(n).states.contains(k) implies k.finite() by {
        assert(x.contains(k));
        vstd::set_lib::lemma_set_subset_finite(u, k);
    }
}

/// The subset construction discovers at most `2^n` state sets, where `n`
/// is the number of states, provided that every label that the table
/// mentions is a state.
pub proof fn lemma_state_sets_bounded(n: NfaModel)
    requires
        finite_moves(n.moves),
        n.states.finite(),
        labels_declared(n),
    ensures
        subset_construction(n).states.finite(),
        subset_construction(n).states.len() <= pow2(n.states.len()),
{
    let t = n.moves;
    let found = subset_construction(n).states;
    lemma_state_sets_within_universe(n);
    lemma_universe(t);
    if universe(t).contains(n.start) {
        assert(universe(t).union(set![n.start]) =~= universe(t));
        assert(found.subset_of(powerset(n.states))) by {
            assert forall|k: Set<Label>| found.contains(k) implies powerset(n.states).contains(
                k,
            ) by {
                assert(powerset(universe(t)).contains(k));
            }
        }
        lemma_family_bounded(found, n.states);
    } else {
        // A start state that the table does not mention is alone in the one
        // state set that is discovered.
        assert(!admits(t, set![n.start])) by {
            assert(set![n.start].contains(n.start));
        }
        lemma_discovered_alone(t, Set::empty(), set![n.start]);
        assert(found =~= set![closure(t, set![n.start])]);
        lemma_pow2_pos(n.states.len());
    }
}

/// From every state, the automaton read back walks as the automaton that
/// is deterministic as it stands does.
proof fn lemma_collapse_walks_alike(n: NfaModel, q: Label, w: Seq<Symbol>)
    ensures
        walk(collapse(n), q, w) == walk_single(n, q, w),
    decreases w.len(),
{
    if w.len() > 0 {
        let c = w[0];
        let d = collapse(n);
        if d.alphabet.contains(c) && d.moves.contains_key(q) && d.moves[q].contains_key(c) {
            lemma_collapse_walks_alike(n, d.moves[q][c], w.drop_first());
        }
    }
}

/// The conversion of an automaton that is deterministic as it stands
/// yields an automaton that behaves as the automaton itself does: every
/// simulation has the outcome of walking the automaton as it stands.
pub proof fn lemma_deterministic_behaviour(n: NfaModel, d: DfaModel, w: Seq<Symbol>)
    requires
        deterministic(n.moves),
        converts(n, d),
    ensures
        simulate(d, w) == walk_single(n, n.start, w),
{
    lemma_collapse_walks_alike(n, n.start, w);
}

/// A run of a deterministic automaton that ends in a final state is
/// followed by the automaton read back.
proof fn lemma_collapse_tracks(n: NfaModel, states: Seq<Label>, symbols: Seq<Symbol>)
    requires
        finite_moves(n.moves),
        deterministic(n.moves),
        symbols_declared(n),
        is_run(n.moves, states, symbols),
        n.finals.contains(states.last()),
    ensures
        walk(collapse(n), states[0], spelled(symbols)) == Acceptance::Accepted,
    decreases symbols.len(),
{
    let d = collapse(n);
    if symbols.len() > 0 {
        lemma_run_tail(n.moves, states, symbols);
        let p = states[0];
        let c = symbols[0];
        let q = states[1];
        lemma_collapse_tracks(n, states.drop_first(), symbols.drop_first());
        let w = spelled(symbols.drop_first());
        assert(n.moves.contains_key(p) && n.moves[p].contains_key(c));
        assert(c != EPSILON);
        lemma_single_target(n.moves, p, c, q);
        assert(spelled(symbols) == seq![c] + w);
        assert((seq![c] + w).drop_first() =~= w);
        assert(d.moves.contains_key(p) && d.moves[p].contains_key(c));
    }
}

/// Where a deterministic entry has a target, it is the entry's one target.
proof fn lemma_single_target(t: Moves, p: Label, c: Symbol, q: Label)
    requires
        finite_moves(t),
        deterministic(t),
        targets(t, p, c).contains(q),
    ensures
        t[p][c].len() == 1,
        t[p][c].choose() == q,
        collapse_row(t[p]).contains_key(c),
        collapse_row(t[p])[c] == q,
{
    let s = t[p][c];
    assert(t.contains_key(p) && t[p].contains_key(c));
    assert(s.finite());
    assert(s.len() > 0) by {
        if s.len() == 0 {
            s.lemma_len0_is_empty();
        }
    }
    Set::lemma_is_singleton(s);
    assert(s.contains(s.choose()));
}

/// What the automaton read back accepts from a state, the deterministic
/// automaton accepts from that state.
proof fn lemma_collapse_realised(n: NfaModel, q: Label, w: Seq<Symbol>)
    requires
        finite_moves(n.moves),
        deterministic(n.moves),
        walk(collapse(n), q, w) == Acceptance::Accepted,
    ensures
        accepts_from(n, q, w),
    decreases w.len(),
{
    let d = collapse(n);
    if w.len() == 0 {
        lemma_accepts_at_final(n, q);
        assert(w =~= Seq::<Symbol>::empty());
    } else {
        let c = w[0];
        assert(d.moves.contains_key(q) && d.moves[q].contains_key(c));
        let s = n.moves[q][c];
        assert(n.moves.contains_key(q) && n.moves[q].contains_key(c));
        assert(s.finite());
        let next = s.choose();
        assert(s.contains(next)) by {
            if !s.contains(next) {
                assert(s =~= Set::<Label>::empty());
            }
        }
        lemma_collapse_realised(n, next, w.drop_first());
        lemma_accepts_after_move(n, q, c, next, w.drop_first());
        assert(seq![c] + w.drop_first() =~= w);
    }
}

/// An automaton that is deterministic as it stands and the automaton that
/// the conversion reads back from it accept the same words, provided that
/// the input symbols on which the automaton moves are in its alphabet.
pub proof fn lemma_deterministic_conversion(n: NfaModel, d: DfaModel, w: Seq<Symbol>)
    requires
        finite_moves(n.moves),
        deterministic(n.moves),
        symbols_declared(n),
        converts(n, d),
    ensures
        simulate(d, w) == Acceptance::Accepted <==> accepts(n, w),
{
    if accepts(n, w) {
        let (states, symbols) = choose|states: Seq<Label>, symbols: Seq<Symbol>|
            #[trigger] is_run(n.moves, states, symbols) && states[0] == n.start
                && n.finals.contains(states.last()) && spelled(symbols) == w;
        lemma_collapse_tracks(n, states, symbols);
    }
    if simulate(collapse(n), w) == Acceptance::Accepted {
        lemma_collapse_realised(n, n.start, w);
    }
}

/// Every state set that the subset construction discovers is closed.
pub proof fn lemma_discovered_closed(n: NfaModel, k: Set<Label>)
    requires
        subset_construction(n).states.contains(k),
    ensures
        eps_closed(n.moves, k),
{
    let t = n.moves;
    let s = set![n.start];
    let x = Set::new(|k: Set<Label>| eps_closed(t, k));
    assert(explores(t, Set::empty(), s, x)) by {
        lemma_closure_closed(t, s);
        assert forall|k: Set<Label>, c: Symbol|
            x.contains(k) && #[trigger] recorded_row(t, s, k).contains_key(
                c,
            ) implies x.contains(recorded_row(t, s, k)[c]) by {
            lemma_recorded_row(t, s, k);
            lemma_moves_closed(t, k, c);
        }
    }
    assert(x.contains(k));
}

/// The subset construction discovers the closure of the start state, and
/// with each state set the state sets that its row leads to, which are
/// among those that its moves lead to.
pub proof fn lemma_discovered_moves(n: NfaModel)
    ensures
        subset_construction(n).states.contains(closure(n.moves, set![n.start])),
        forall|k: Set<Label>, c: Symbol|
            subset_construction(n).states.contains(k) && #[trigger] recorded_row(
                n.moves,
                set![n.start],
                k,
            ).contains_key(c) ==> fires(n.moves, k, c) && recorded_row(n.moves, set![n.start], k)[c]
                == moves_of(n.moves, k)[c] && subset_construction(n).states.contains(
                moves_of(n.moves, k)[c],
            ),
{
    let t = n.moves;
    let s = set![n.start];
    lemma_discovered_explores(t, Set::empty(), s);
    assert forall|k: Set<Label>, c: Symbol|
        subset_construction(n).states.contains(k) && #[trigger] recorded_row(
            t,
            s,
            k,
        ).contains_key(c) implies fires(t, k, c) && recorded_row(t, s, k)[c] == moves_of(t, k)[c]
        && subset_construction(n).states.contains(moves_of(t, k)[c]) by {
        lemma_recorded_row(t, s, k);
    }
}

/// Every state set that the subset construction discovers is a state of
/// the relabelled automaton under its composite label, and a final state
/// where it holds a final state.
pub proof fn lemma_state_sets_are_states(n: NfaModel, d: DfaModel, k: Set<Label>)
    requires
        relabels(d, subset_construction(n)),
        subset_construction(n).states.contains(k),
    ensures
        d.states.contains(canonical_label(k)),
        d.moves.contains_key(canonical_label(k)),
        (exists|f: Label| #[trigger] n.finals.contains(f) && k.contains(f)) ==> d.finals.contains(
            canonical_label(k),
        ),
{
    let m = subset_construction(n);
    assert(m.moves.dom().contains(k));
    assert(labels_of(m.moves.dom()).contains(canonical_label(k)));
    if exists|f: Label| #[trigger] n.finals.contains(f) && k.contains(f) {
        assert(m.finals.contains(k));
    }
}

/// The subset construction of a complete automaton loses no moves.
pub proof fn lemma_complete_unhindered(n: NfaModel)
    requires
        complete(n),
    ensures
        unhindered(n),
{
    let t = n.moves;
    let s = set![n.start];
    let x = Set::new(|k: Set<Label>| admits(t, k));
    assert(eps_closed(t, t.dom()));
    assert(explores(t, Set::empty(), s, x)) by {
        lemma_closure_least(t, s, t.dom());
        assert forall|k: Set<Label>, c: Symbol|
            x.contains(k) && #[trigger] recorded_row(t, s, k).contains_key(
                c,
            ) implies x.contains(recorded_row(t, s, k)[c]) by {
            lemma_recorded_row(t, s, k);
            assert(step(t, k, c).subset_of(t.dom()));
            lemma_closure_least(t, step(t, k, c), t.dom());
        }
    }
    assert forall|k: Set<Label>| #[trigger]
        subset_construction(n).states.contains(k) implies recorded_row(t, s, k) == moves_of(
        t,
        k,
    ) by {
        assert(x.contains(k));
    }
}

/// The members of a discovered state set have plain labels where the start
/// state and the states that the table mentions have.
proof fn lemma_members_plain(n: NfaModel, k: Set<Label>)
    requires
        finite_moves(n.moves),
        labels_plain(n),
        subset_construction(n).states.contains(k),
    ensures
        k.finite(),
        forall|l: Label| k.contains(l) ==> plain(l),
{
    lemma_state_sets_within_universe(n);
    assert(powerset(universe(n.moves).union(set![n.start])).contains(k));
    assert forall|l: Label| k.contains(l) implies plain(l) by {
        assert(universe(n.moves).union(set![n.start]).contains(l));
    }
}

/// The state of the relabelled automaton that stands for a discovered
/// state set has that set's row, relabelled, and is final exactly where
/// the set holds a final state.
proof fn lemma_relabelled_state(n: NfaModel, d: DfaModel, k: Set<Label>)
    requires
        finite_moves(n.moves),
        labels_plain(n),
        relabels(d, subset_construction(n)),
        subset_construction(n).states.contains(k),
    ensures
        d.moves.contains_key(canonical_label(k)),
        d.moves[canonical_label(k)] == relabel_row(recorded_row(n.moves, set![n.start], k)),
        d.finals.contains(canonical_label(k)) <==> exists|f: Label| #[trigger]
            n.finals.contains(f) && k.contains(f),
{
    let m = subset_construction(n);
    let l = canonical_label(k);
    assert(m.moves.contains_key(k));
    assert(m.moves.dom().contains(k));
    assert(labels_of(m.moves.dom()).contains(l));
    assert(d.moves.dom().contains(l));
    assert(d.moves.contains_key(l));
    let k1 = choose|k1: Set<Label>| #[trigger]
        m.moves.contains_key(k1) && canonical_label(k1) == l && d.moves[l] == relabel_row(
            m.moves[k1],
        );
    lemma_members_plain(n, k);
    lemma_members_plain(n, k1);
    lemma_label_injective(k, k1);
    if d.finals.contains(l) {
        let k2 = choose|k2: Set<Label>| #[trigger]
            m.finals.contains(k2) && canonical_label(k2) == l;
        lemma_members_plain(n, k2);
        lemma_label_injective(k, k2);
    }
    if exists|f: Label| #[trigger] n.finals.contains(f) && k.contains(f) {
        assert(m.finals.contains(k));
    }
}

/// A run from a member of a discovered state set that ends in a final
/// state is followed by the relabelled automaton, where no moves are lost.
proof fn lemma_subsets_track(
    n: NfaModel,
    d: DfaModel,
    k: Set<Label>,
    states: Seq<Label>,
    symbols: Seq<Symbol>,
)
    requires
        finite_moves(n.moves),
        unhindered(n),
        symbols_declared(n),
        labels_plain(n),
        relabels(d, subset_construction(n)),
        subset_construction(n).states.contains(k),
        is_run(n.moves, states, symbols),
        k.contains(states[0]),
        n.finals.contains(states.last()),
    ensures
        walk(d, canonical_label(k), spelled(symbols)) == Acceptance::Accepted,
    decreases symbols.len(),
{
    let t = n.moves;
    lemma_relabelled_state(n, d, k);
    lemma_discovered_closed(n, k);
    if symbols.len() == 0 {
        assert(states.last() == states[0]);
    } else {
        lemma_run_tail(t, states, symbols);
        let p = states[0];
        let c = symbols[0];
        let q = states[1];
        if c == EPSILON {
            assert(k.contains(q));
            lemma_subsets_track(n, d, k, states.drop_first(), symbols.drop_first());
        } else {
            let next = moves_of(t, k)[c];
            assert(t.contains_key(p) && t[p].contains_key(c));
            assert(fires(t, k, c));
            assert(recorded_row(t, set![n.start], k).contains_key(c));
            lemma_discovered_moves(n);
            assert(step(t, k, c).contains(q));
            lemma_closure_closed(t, step(t, k, c));
            assert(next.contains(q));
            lemma_subsets_track(n, d, next, states.drop_first(), symbols.drop_first());
            let w = spelled(symbols.drop_first());
            assert(spelled(symbols) == seq![c] + w);
            assert((seq![c] + w).drop_first() =~= w);
            assert(d.alphabet.contains(c));
            assert(d.moves[canonical_label(k)][c] == canonical_label(next));
        }
    }
}

/// What the relabelled automaton accepts from the state of a discovered
/// state set, some member of the set accepts.
proof fn lemma_subsets_realised(n: NfaModel, d: DfaModel, k: Set<Label>, w: Seq<Symbol>)
    requires
        finite_moves(n.moves),
        labels_plain(n),
        relabels(d, subset_construction(n)),
        subset_construction(n).states.contains(k),
        walk(d, canonical_label(k), w) == Acceptance::Accepted,
    ensures
        exists|q: Label| k.contains(q) && accepts_from(n, q, w),
    decreases w.len(),
{
    let t = n.moves;
    lemma_relabelled_state(n, d, k);
    if w.len() == 0 {
        let f = choose|f: Label| #[trigger] n.finals.contains(f) && k.contains(f);
        lemma_accepts_at_final(n, f);
        assert(w =~= Seq::<Symbol>::empty());
    } else {
        let c = w[0];
        assert(recorded_row(t, set![n.start], k).contains_key(c));
        lemma_discovered_moves(n);
        let next = moves_of(t, k)[c];
        assert(d.moves[canonical_label(k)][c] == canonical_label(next));
        lemma_subsets_realised(n, d, next, w.drop_first());
        let q1 = choose|q1: Label| next.contains(q1) && accepts_from(n, q1, w.drop_first());
        lemma_accepts_from_closure(n, step(t, k, c), q1, w.drop_first());
        let x = choose|x: Label| step(t, k, c).contains(x) && accepts_from(n, x, w.drop_first());
        let p = choose|p: Label| k.contains(p) && #[trigger] targets(t, p, c).contains(x);
        lemma_accepts_after_move(n, p, c, x, w.drop_first());
        assert(seq![c] + w.drop_first() =~= w);
    }
}

/// The relabelled subset construction of an automaton with plain labels
/// accepts only words that the automaton accepts.
pub proof fn lemma_subset_conversion_sound(n: NfaModel, d: DfaModel, w: Seq<Symbol>)
    requires
        finite_moves(n.moves),
        labels_plain(n),
        relabels(d, subset_construction(n)),
        simulate(d, w) == Acceptance::Accepted,
    ensures
        accepts(n, w),
{
    let start = closure(n.moves, set![n.start]);
    lemma_discovered_moves(n);
    lemma_subsets_realised(n, d, start, w);
    let q = choose|q: Label| start.contains(q) && accepts_from(n, q, w);
    lemma_accepts_from_closure(n, set![n.start], q, w);
}

/// The relabelled subset construction of an automaton with plain labels
/// that loses no moves accepts the words that the automaton accepts,
/// provided that the input symbols on which the automaton moves are in its
/// alphabet.
pub proof fn lemma_subset_conversion(n: NfaModel, d: DfaModel, w: Seq<Symbol>)
    requires
        finite_moves(n.moves),
        unhindered(n),
        symbols_declared(n),
        labels_plain(n),
        relabels(d, subset_construction(n)),
    ensures
        simulate(d, w) == Acceptance::Accepted <==> accepts(n, w),
{
    let t = n.moves;
    let start = closure(t, set![n.start]);
    lemma_discovered_moves(n);
    lemma_closure_closed(t, set![n.start]);
    if accepts(n, w) {
        let (states, symbols) = choose|states: Seq<Label>, symbols: Seq<Symbol>|
            #[trigger] is_run(n.moves, states, symbols) && states[0] == n.start
                && n.finals.contains(states.last()) && spelled(symbols) == w;
        assert(set![n.start].contains(n.start));
        lemma_subsets_track(n, d, start, states, symbols);
    }
    if simulate(d, w) == Acceptance::Accepted {
        lemma_subset_conversion_sound(n, d, w);
    }
}

/// The conversion of a valid automaton yields a valid automaton.
pub proof fn lemma_conversion_valid(n: NfaModel, d: DfaModel)
    requires
        finite_moves(n.moves),
        nfa_valid(n),
        converts(n, d),
    ensures
        dfa_valid(d),
{
    let t = n.moves;
    lemma_universe(t);
    if deterministic(t) {
        assert forall|l: Label, c: Symbol|
            d.moves.contains_key(l) && #[trigger] d.moves[l].contains_key(c) implies c != EPSILON
            && d.states.contains(l) && d.states.contains(d.moves[l][c]) by {
            let s = t[l][c];
            assert(t.contains_key(l) && t[l].contains_key(c));
            assert(s.finite());
            assert(s.contains(s.choose())) by {
                if !s.contains(s.choose()) {
                    assert(s =~= Set::<Label>::empty());
                }
            }
            assert(targets(t, l, c).contains(s.choose()));
            assert(universe(t).contains(l));
        }
    } else {
        let m = subset_construction(n);
        lemma_discovered_moves(n);
        assert(d.states.contains(d.start));
        assert forall|l: Label| d.finals.contains(l) implies d.states.contains(l) by {
            let k = choose|k: Set<Label>| #[trigger]
                m.finals.contains(k) && canonical_label(k) == l;
            assert(m.states.contains(k));
        }
        assert forall|l: Label, c: Symbol|
            d.moves.contains_key(l) && #[trigger] d.moves[l].contains_key(c) implies c != EPSILON
            && d.states.contains(l) && d.states.contains(d.moves[l][c]) by {
            let k = choose|k: Set<Label>| #[trigger]
                m.moves.contains_key(k) && canonical_label(k) == l && d.moves[l] == relabel_row(
                    m.moves[k],
                );
            assert(m.states.contains(k));
            assert(recorded_row(t, set![n.start], k).contains_key(c));
            assert(m.states.contains(moves_of(t, k)[c]));
        }
    }
}

/// The conversion yields an automaton that accepts only words that the
/// nondeterministic automaton accepts. This holds of every automaton that
/// is deterministic as it stands or has plain labels.
pub proof fn lemma_conversion_sound(n: NfaModel, d: DfaModel, w: Seq<Symbol>)
    requires
        finite_moves(n.moves),
        deterministic(n.moves) || labels_plain(n),
        converts(n, d),
        simulate(d, w) == Acceptance::Accepted,
    ensures
        accepts(n, w),
{
    if deterministic(n.moves) {
        lemma_collapse_realised(n, n.start, w);
    } else {
        lemma_subset_conversion_sound(n, d, w);
    }
}

/// The conversion preserves the language: the deterministic automaton
/// answers `Accepted` on exactly the words on which some run of the
/// nondeterministic automaton from its start state ends in a final state.
/// This holds of every automaton whose input symbols are in its alphabet
/// and which is deterministic as it stands, or has plain labels and loses
/// no moves in the subset construction.
pub proof fn lemma_conversion_preserves_language(n: NfaModel, d: DfaModel, w: Seq<Symbol>)
    requires
        finite_moves(n.moves),
        symbols_declared(n),
        deterministic(n.moves) || (unhindered(n) && labels_plain(n)),
        converts(n, d),
    ensures
        simulate(d, w) == Acceptance::Accepted <==> accepts(n, w),
{
    if deterministic(n.moves) {
        lemma_deterministic_conversion(n, d, w);
    } else {
        lemma_subset_conversion(n, d, w);
    }
}

/// A deterministic automaton has no spontaneous moves, so every set of
/// its states is closed.
proof fn lemma_deterministic_closed(t: Moves, s: Set<Label>)
    requires
        deterministic(t),
    ensures
        eps_closed(t, s),
        closure(t, s) == s,
{
    assert forall|p: Label, q: Label| #[trigger]
        targets(t, p, EPSILON).contains(q) implies false by {
        assert(t.contains_key(p) && t[p].contains_key(EPSILON));
    }
    lemma_closure_of_closed(t, s);
}

/// The moves of a one-state set of a deterministic automaton whose entries
/// all have a target: on the symbols of the state's entries, to the
/// one-state sets of their targets.
proof fn lemma_single_moves(n: NfaModel, q: Label, c: Symbol)
    requires
        finite_moves(n.moves),
        deterministic(n.moves),
        targets_present(n),
    ensures
        fires(n.moves, set![q], c) <==> n.moves.contains_key(q) && n.moves[q].contains_key(c),
        fires(n.moves, set![q], c) ==> moves_of(n.moves, set![q])[c] == set![
            collapse_row(n.moves[q])[c],
        ] && collapse_row(n.moves[q]).contains_key(c) && targets(n.moves, q, c).contains(
            collapse_row(n.moves[q])[c],
        ),
{
    let t = n.moves;
    if t.contains_key(q) && t[q].contains_key(c) {
        assert(set![q].contains(q));
        assert(fires(t, set![q], c));
    }
    if fires(t, set![q], c) {
        let s = t[q][c];
        assert(s.finite());
        assert(s.len() > 0);
        let next = s.choose();
        assert(s.contains(next)) by {
            if !s.contains(next) {
                assert(s =~= Set::<Label>::empty());
            }
        }
        lemma_single_target(t, q, c, next);
        assert(step(t, set![q], c) =~= set![next]) by {
            assert(targets(t, q, c).contains(next));
            assert forall|y: Label| step(t, set![q], c).contains(y) implies y == next by {
                lemma_single_target(t, q, c, y);
            }
        }
        lemma_deterministic_closed(t, set![next]);
    }
}

/// The subset construction of a deterministic automaton whose entries all
/// have a target discovers one-state sets only.
proof fn lemma_discovered_singles(n: NfaModel, k: Set<Label>)
    requires
        finite_moves(n.moves),
        deterministic(n.moves),
        targets_present(n),
        subset_construction(n).states.contains(k),
    ensures
        exists|q: Label| k == set![q],
{
    let t = n.moves;
    let s = set![n.start];
    let x = Set::new(|k: Set<Label>| exists|q: Label| k == set![q]);
    assert(explores(t, Set::empty(), s, x)) by {
        lemma_deterministic_closed(t, s);
        assert forall|k: Set<Label>, c: Symbol|
            x.contains(k) && #[trigger] recorded_row(t, s, k).contains_key(
                c,
            ) implies x.contains(recorded_row(t, s, k)[c]) by {
            let q = choose|q: Label| k == set![q];
            lemma_recorded_row(t, s, k);
            lemma_single_moves(n, q, c);
        }
    }
    assert(x.contains(k));
}

/// The state of the relabelled automaton that stands for a discovered
/// one-state set has the label of that state and the row of the set,
/// relabelled, and is final exactly where the state is.
proof fn lemma_relabelled_single(n: NfaModel, d: DfaModel, q: Label)
    requires
        finite_moves(n.moves),
        deterministic(n.moves),
        targets_present(n),
        relabels(d, subset_construction(n)),
        subset_construction(n).states.contains(set![q]),
    ensures
        d.moves.contains_key(q),
        d.moves[q] == relabel_row(row_of(n.moves, set![q])),
        d.finals.contains(q) <==> n.finals.contains(q),
{
    let m = subset_construction(n);
    let k = set![q];
    lemma_label_of_single(q);
    lemma_deterministic_closed(n.moves, set![n.start]);
    lemma_recorded_row(n.moves, set![n.start], k);
    assert(m.moves.contains_key(k));
    assert(m.moves.dom().contains(k));
    assert(labels_of(m.moves.dom()).contains(q));
    assert(d.moves.dom().contains(q));
    assert(d.moves.contains_key(q));
    let k1 = choose|k1: Set<Label>| #[trigger]
        m.moves.contains_key(k1) && canonical_label(k1) == q && d.moves[q] == relabel_row(
            m.moves[k1],
        );
    lemma_discovered_singles(n, k1);
    let q1 = choose|q1: Label| k1 == set![q1];
    lemma_label_of_single(q1);
    if d.finals.contains(q) {
        let k2 = choose|k2: Set<Label>| #[trigger]
            m.finals.contains(k2) && canonical_label(k2) == q;
        lemma_discovered_singles(n, k2);
        let q2 = choose|q2: Label| k2 == set![q2];
        lemma_label_of_single(q2);
        let f = choose|f: Label| #[trigger] n.finals.contains(f) && k2.contains(f);
        assert(f == q);
    }
    if n.finals.contains(q) {
        assert(k.contains(q));
        assert(m.finals.contains(k));
    }
}

/// From the state of a discovered one-state set, the relabelled subset
/// construction walks as the automaton read back walks from that state.
proof fn lemma_paths_agree_from(n: NfaModel, d: DfaModel, q: Label, w: Seq<Symbol>)
    requires
        finite_moves(n.moves),
        deterministic(n.moves),
        targets_present(n),
        relabels(d, subset_construction(n)),
        subset_construction(n).states.contains(set![q]),
    ensures
        walk(d, q, w) == walk(collapse(n), q, w),
    decreases w.len(),
{
    let t = n.moves;
    lemma_relabelled_single(n, d, q);
    if w.len() > 0 {
        let c = w[0];
        lemma_single_moves(n, q, c);
        assert(set![q].contains(q));
        assert(admits(t, set![q]) <==> t.contains_key(q));
        if d.alphabet.contains(c) && d.moves[q].contains_key(c) {
            let next = collapse_row(t[q])[c];
            lemma_deterministic_closed(t, set![n.start]);
            lemma_recorded_row(t, set![n.start], set![q]);
            lemma_discovered_moves(n);
            lemma_label_of_single(next);
            assert(d.moves[q][c] == next);
            lemma_paths_agree_from(n, d, next, w.drop_first());
        }
    }
}

/// On an automaton that is deterministic as it stands, reading it back and
/// relabelling its subset construction give automata that behave alike:
/// every simulation has the same outcome on both. This holds of every
/// automaton whose entries all have a target.
pub proof fn lemma_paths_agree(n: NfaModel, fast: DfaModel, general: DfaModel, w: Seq<Symbol>)
    requires
        finite_moves(n.moves),
        deterministic(n.moves),
        targets_present(n),
        converts(n, fast),
        relabels(general, subset_construction(n)),
    ensures
        simulate(fast, w) == simulate(general, w),
{
    lemma_discovered_moves(n);
    lemma_deterministic_closed(n.moves, set![n.start]);
    lemma_label_of_single(n.start);
    lemma_paths_agree_from(n, general, n.start, w);
}

} // verus!
