//! Facts about the runs of a nondeterministic automaton.

use vstd::prelude::*;
use crate::closure::{lemma_closure_least};
use crate::label::Label;
use crate::model::{
    Symbol,
    EPSILON,
    Moves,
    NfaModel,
    targets,
    eps_closed,
    closure,
    move_at,
    is_run,
    spelled,
    accepts_from,
};

verus! {

/// A final state accepts the empty word.
pub proof fn lemma_accepts_at_final(n: NfaModel, q: Label)
    requires
        n.finals.contains(q),
    ensures
        accepts_from(n, q, Seq::empty()),
{
    let states = seq![q];
    let symbols = Seq::<Symbol>::empty();
    assert(is_run(n.moves, states, symbols));
    assert(states[0] == q && states.last() == q);
    assert(spelled(symbols) == Seq::<Symbol>::empty());
}

/// A state accepts what a state that it moves to accepts, with the symbol
/// of the move in front unless the move is spontaneous.
pub proof fn lemma_accepts_after_move(n: NfaModel, p: Label, c: Symbol, q: Label, w: Seq<Symbol>)
    requires
        targets(n.moves, p, c).contains(q),
        accepts_from(n, q, w),
    ensures
        c == EPSILON ==> accepts_from(n, p, w),
        c != EPSILON ==> accepts_from(n, p, seq![c] + w),
{
    let (states, symbols) = choose|states: Seq<Label>, symbols: Seq<Symbol>|
        #[trigger] is_run(n.moves, states, symbols) && states[0] == q && n.finals.contains(
            states.last(),
        ) && spelled(symbols) == w;
    let states2 = seq![p] + states;
    let symbols2 = seq![c] + symbols;
    assert forall|i: int| 0 <= i < symbols2.len() implies #[trigger] move_at(
        n.moves,
        states2,
        symbols2,
        i,
    ) by {
        if i > 0 {
            assert(move_at(n.moves, states, symbols, i - 1));
            assert(states2[i] == states[i - 1]);
            assert(states2[i + 1] == states[i]);
            assert(symbols2[i] == symbols[i - 1]);
        }
    }
    assert(is_run(n.moves, states2, symbols2));
    assert(symbols2.drop_first() =~= symbols);
    assert(states2.last() == states.last());
    assert(states2[0] == p);
    if c == EPSILON {
        assert(spelled(symbols2) == w);
    } else {
        assert(spelled(symbols2) == seq![c] + w);
    }
}

/// The first move of a run and the run that follows it.
pub proof fn lemma_run_tail(t: Moves, states: Seq<Label>, symbols: Seq<Symbol>)
    requires
        is_run(t, states, symbols),
        symbols.len() > 0,
    ensures
        is_run(t, states.drop_first(), symbols.drop_first()),
        targets(t, states[0], symbols[0]).contains(states[1]),
        states.drop_first()[0] == states[1],
        states.drop_first().last() == states.last(),
{
    let states2 = states.drop_first();
    let symbols2 = symbols.drop_first();
    assert(move_at(t, states, symbols, 0));
    assert forall|i: int| 0 <= i < symbols2.len() implies #[trigger] move_at(
        t,
        states2,
        symbols2,
        i,
    ) by {
        assert(move_at(t, states, symbols, i + 1));
    }
}

/// What a member of the closure of a set accepts, some member of the set
/// accepts.
pub proof fn lemma_accepts_from_closure(n: NfaModel, s: Set<Label>, q: Label, w: Seq<Symbol>)
    requires
        closure(n.moves, s).contains(q),
        accepts_from(n, q, w),
    ensures
        exists|x: Label| s.contains(x) && accepts_from(n, x, w),
{
    let z = Set::new(
        |y: Label|
            accepts_from(n, y, w) ==> exists|x: Label| s.contains(x) && accepts_from(n, x, w),
    );
    assert(eps_closed(n.moves, z)) by {
        assert forall|a: Label, b: Label|
            z.contains(a) && #[trigger] targets(n.moves, a, EPSILON).contains(b) implies z.contains(
            b,
        ) by {
            if accepts_from(n, b, w) {
                lemma_accepts_after_move(n, a, EPSILON, b, w);
            }
        }
    }
    assert(s.subset_of(z));
    lemma_closure_least(n.moves, s, z);
    assert(z.contains(q));
}

} // verus!
