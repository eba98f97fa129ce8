//! Facts about the moves of state sets and about the family of state sets
//! that the subset construction discovers.

use vstd::prelude::*;
use crate::closure::{
    universe,
    lemma_universe,
    lemma_closure_closed,
    lemma_closure_of_closed,
    lemma_closure_least,
    lemma_closure_monotone,
    lemma_closure_in_universe,
};
use crate::label::Label;
use crate::model::{
    Symbol,
    EPSILON,
    Moves,
    Row,
    targets,
    eps_closed,
    closure,
    admits,
    step,
    fires,
    moves_of,
    row_of,
    recorded_row,
    explores,
    discovered,
};
use crate::powerset::powerset;

verus! {

/// Some pair of `done` for the symbol `c` has `q` in the closure of its
/// targets.
pub open spec fn feeds(t: Moves, done: Set<(Label, Symbol)>, c: Symbol, q: Label) -> bool {
    exists|p: Label| #[trigger] done.contains((p, c)) && closure(t, targets(t, p, c)).contains(q)
}

/// The row gathered from the entries `done`, each a state and an input
/// symbol: for each symbol the union of the closures of the targets.
pub open spec fn gathered(t: Moves, done: Set<(Label, Symbol)>) -> Row {
    Map::new(
        |c: Symbol| c != EPSILON && exists|p: Label| #[trigger] done.contains((p, c)),
        |c: Symbol| Set::new(|q: Label| feeds(t, done, c, q)),
    )
}

/// The entries of the table for the members of `k`.
pub open spec fn pairs_of(t: Moves, k: Set<Label>) -> Set<(Label, Symbol)> {
    Set::new(
        |pc: (Label, Symbol)|
            k.contains(pc.0) && t.contains_key(pc.0) && t[pc.0].contains_key(pc.1),
    )
}

/// The pairs of the state `p` with the symbols of `cs`.
pub open spec fn row_pairs(p: Label, cs: Set<Symbol>) -> Set<(Label, Symbol)> {
    Set::new(|pc: (Label, Symbol)| pc.0 == p && cs.contains(pc.1))
}

/// What the row gathered so far has under `c`, or nothing.
pub open spec fn gathered_at(row: Row, c: Symbol) -> Set<Label> {
    if row.contains_key(c) {
        row[c]
    } else {
        Set::empty()
    }
}

/// What one more entry adds to the gathered row.
pub proof fn lemma_gathered_insert(t: Moves, done: Set<(Label, Symbol)>, p: Label, c: Symbol)
    ensures
        c == EPSILON ==> gathered(t, done.insert((p, c))) == gathered(t, done),
        c != EPSILON ==> gathered(t, done.insert((p, c))) == gathered(t, done).insert(
            c,
            gathered_at(gathered(t, done), c).union(closure(t, targets(t, p, c))),
        ),
{
    let more = done.insert((p, c));
    let old_row = gathered(t, done);
    let new_row = gathered(t, more);
    assert forall|d: Symbol|
        #![trigger old_row.contains_key(d)]
        #![trigger new_row.contains_key(d)]
        #![trigger old_row[d]]
        #![trigger new_row[d]]
        d != c implies (old_row.contains_key(d) <==> new_row.contains_key(d)) && (
    old_row.contains_key(d) ==> old_row[d] == new_row[d]) by {
        if old_row.contains_key(d) {
            let origin = choose|origin: Label| #[trigger] done.contains((origin, d));
            assert(more.contains((origin, d)));
        }
        if new_row.contains_key(d) {
            let origin = choose|origin: Label| #[trigger] more.contains((origin, d));
            assert(done.contains((origin, d)));
        }
        assert forall|q: Label| feeds(t, done, d, q) <==> feeds(t, more, d, q) by {
            if feeds(t, done, d, q) {
                let origin = choose|origin: Label| #[trigger]
                    done.contains((origin, d)) && closure(t, targets(t, origin, d)).contains(q);
                assert(more.contains((origin, d)));
            }
            if feeds(t, more, d, q) {
                let origin = choose|origin: Label| #[trigger]
                    more.contains((origin, d)) && closure(t, targets(t, origin, d)).contains(q);
                assert(done.contains((origin, d)));
            }
        }
        if old_row.contains_key(d) {
            assert(old_row[d] =~= new_row[d]);
        }
    }
    if c == EPSILON {
        assert(new_row =~= old_row);
    } else {
        let value = gathered_at(old_row, c).union(closure(t, targets(t, p, c)));
        assert(more.contains((p, c)));
        assert(new_row.contains_key(c));
        assert forall|q: Label| new_row[c].contains(q) <==> value.contains(q) by {
            if feeds(t, more, c, q) {
                let origin = choose|origin: Label| #[trigger]
                    more.contains((origin, c)) && closure(t, targets(t, origin, c)).contains(q);
                if origin != p {
                    assert(done.contains((origin, c)));
                    assert(feeds(t, done, c, q));
                }
            }
            if gathered_at(old_row, c).contains(q) {
                let origin = choose|origin: Label| #[trigger]
                    done.contains((origin, c)) && closure(t, targets(t, origin, c)).contains(q);
                assert(more.contains((origin, c)));
            }
        }
        assert(new_row[c] =~= value);
        assert(new_row =~= old_row.insert(c, value));
    }
}

/// The row gathered from no entries is empty.
pub proof fn lemma_gathered_nothing(t: Moves)
    ensures
        gathered(t, Set::empty()) == Map::<Symbol, Set<Label>>::empty(),
        pairs_of(t, Set::empty()) == Set::<(Label, Symbol)>::empty(),
{
    assert(gathered(t, Set::empty()) =~= Map::<Symbol, Set<Label>>::empty());
    assert(pairs_of(t, Set::empty()) =~= Set::<(Label, Symbol)>::empty());
}

/// The entries of one more state, where the table has an entry for it.
pub proof fn lemma_pairs_with_row(t: Moves, k: Set<Label>, p: Label)
    requires
        t.contains_key(p),
    ensures
        pairs_of(t, k.insert(p)) == pairs_of(t, k).union(row_pairs(p, t[p].dom())),
{
    assert(pairs_of(t, k.insert(p)) =~= pairs_of(t, k).union(row_pairs(p, t[p].dom())));
}

/// A state without an entry in the table adds no entries.
pub proof fn lemma_pairs_without_row(t: Moves, k: Set<Label>, p: Label)
    requires
        !t.contains_key(p),
    ensures
        pairs_of(t, k.insert(p)) == pairs_of(t, k),
{
    assert(pairs_of(t, k.insert(p)) =~= pairs_of(t, k));
}

/// The pairs of a state with one more symbol.
pub proof fn lemma_row_pairs_insert(
    base: Set<(Label, Symbol)>,
    p: Label,
    cs: Set<Symbol>,
    c: Symbol,
)
    ensures
        base.union(row_pairs(p, cs.insert(c))) == base.union(row_pairs(p, cs)).insert((p, c)),
        base.union(row_pairs(p, Set::empty())) == base,
{
    assert(base.union(row_pairs(p, cs.insert(c))) =~= base.union(row_pairs(p, cs)).insert((p, c)));
    assert(base.union(row_pairs(p, Set::empty())) =~= base);
}

/// The row gathered from all entries of the members of `k` is the row of
/// moves of `k`: the closure of a union of target sets is the union of
/// their closures.
pub proof fn lemma_gathered_all(t: Moves, k: Set<Label>)
    ensures
        gathered(t, pairs_of(t, k)) == moves_of(t, k),
{
    let done = pairs_of(t, k);
    let row = gathered(t, done);
    let want = moves_of(t, k);
    assert forall|c: Symbol| row.contains_key(c) <==> want.contains_key(c) by {
        if row.contains_key(c) {
            let p = choose|p: Label| #[trigger] done.contains((p, c));
            assert(k.contains(p) && t.contains_key(p) && t[p].contains_key(c));
        }
        if want.contains_key(c) {
            let p = choose|p: Label|
                k.contains(p) && #[trigger] t.contains_key(p) && t[p].contains_key(c);
            assert(done.contains((p, c)));
        }
    }
    assert forall|c: Symbol| row.contains_key(c) implies row[c] == want[c] by {
        let s = step(t, k, c);
        assert forall|q: Label| row[c].contains(q) implies closure(t, s).contains(q) by {
            let p = choose|p: Label| #[trigger]
                done.contains((p, c)) && closure(t, targets(t, p, c)).contains(q);
            assert(targets(t, p, c).subset_of(s));
            lemma_closure_monotone(t, targets(t, p, c), s);
        }
        assert(s.subset_of(row[c])) by {
            assert forall|q: Label| s.contains(q) implies row[c].contains(q) by {
                let p = choose|p: Label| k.contains(p) && #[trigger] targets(t, p, c).contains(q);
                assert(done.contains((p, c)));
                lemma_closure_closed(t, targets(t, p, c));
                assert(feeds(t, done, c, q));
            }
        }
        assert(eps_closed(t, row[c])) by {
            assert forall|a: Label, b: Label|
                row[c].contains(a) && #[trigger] targets(t, a, EPSILON).contains(
                    b,
                ) implies row[c].contains(b) by {
                let p = choose|p: Label| #[trigger]
                    done.contains((p, c)) && closure(t, targets(t, p, c)).contains(a);
                lemma_closure_closed(t, targets(t, p, c));
                assert(closure(t, targets(t, p, c)).contains(b));
                assert(feeds(t, done, c, b));
            }
        }
        lemma_closure_least(t, s, row[c]);
        assert(row[c] =~= closure(t, s));
    }
    assert(row =~= want);
}

/// Each target of a row of moves is closed.
pub proof fn lemma_moves_closed(t: Moves, k: Set<Label>, c: Symbol)
    requires
        fires(t, k, c),
    ensures
        eps_closed(t, moves_of(t, k)[c]),
        closure(t, moves_of(t, k)[c]) == moves_of(t, k)[c],
{
    lemma_closure_closed(t, step(t, k, c));
    lemma_closure_of_closed(t, moves_of(t, k)[c]);
}

/// Each target of a row of moves holds labels that the table mentions.
pub proof fn lemma_moves_in_universe(t: Moves, k: Set<Label>, c: Symbol)
    requires
        fires(t, k, c),
    ensures
        moves_of(t, k)[c].subset_of(universe(t)),
{
    lemma_universe(t);
    assert(step(t, k, c).subset_of(universe(t)));
    lemma_closure_in_universe(t, step(t, k, c));
}

/// A recorded row has entries of the moves of its state set only, and in a
/// search from a closed set it is the row of its state set.
pub proof fn lemma_recorded_row(t: Moves, s: Set<Label>, k: Set<Label>)
    ensures
        forall|c: Symbol| #[trigger]
            recorded_row(t, s, k).contains_key(c) ==> fires(t, k, c) && recorded_row(t, s, k)[c]
                == moves_of(t, k)[c],
        eps_closed(t, s) ==> recorded_row(t, s, k) == row_of(t, k),
        !admits(t, s) ==> recorded_row(t, s, closure(t, s)) == Map::<Symbol, Set<Label>>::empty(),
{
    lemma_closure_closed(t, s);
    if eps_closed(t, s) {
        lemma_closure_of_closed(t, s);
    }
    if !admits(t, s) {
        let p = choose|p: Label| s.contains(p) && !t.contains_key(p);
        assert(closure(t, s).contains(p));
    }
}

/// The discovered family explores.
pub proof fn lemma_discovered_explores(t: Moves, seen: Set<Set<Label>>, s: Set<Label>)
    ensures
        explores(t, seen, s, discovered(t, seen, s)),
{
    let d = discovered(t, seen, s);
    assert forall|k: Set<Label>| seen.contains(k) implies d.contains(k) by {
        assert forall|x: Set<Set<Label>>| #[trigger] explores(t, seen, s, x) implies x.contains(
            k,
        ) by {
            assert(seen.subset_of(x));
        }
    }
    assert forall|k: Set<Label>, c: Symbol|
        d.contains(k) && !seen.contains(k) && #[trigger] recorded_row(t, s, k).contains_key(
            c,
        ) implies d.contains(recorded_row(t, s, k)[c]) by {
        assert forall|x: Set<Set<Label>>| #[trigger] explores(t, seen, s, x) implies x.contains(
            recorded_row(t, s, k)[c],
        ) by {
            assert(x.contains(k));
        }
    }
}

/// A family that explores and lies in every family that does so is the
/// discovered family.
pub proof fn lemma_discovered_unique(
    t: Moves,
    seen: Set<Set<Label>>,
    s: Set<Label>,
    d: Set<Set<Label>>,
)
    requires
        explores(t, seen, s, d),
        forall|x: Set<Set<Label>>| #[trigger] explores(t, seen, s, x) ==> d.subset_of(x),
    ensures
        d == discovered(t, seen, s),
{
    lemma_discovered_explores(t, seen, s);
    assert(d =~= discovered(t, seen, s));
}

/// Where the closure of `s` is known already, nothing is discovered.
pub proof fn lemma_discovered_idle(t: Moves, seen: Set<Set<Label>>, s: Set<Label>)
    requires
        seen.contains(closure(t, s)),
    ensures
        discovered(t, seen, s) == seen,
{
    assert(explores(t, seen, s, seen));
    lemma_discovered_unique(t, seen, s, seen);
}

/// Where some member of `s` has no entry in the table, the closure of `s`
/// is all that is discovered.
pub proof fn lemma_discovered_alone(t: Moves, seen: Set<Set<Label>>, s: Set<Label>)
    requires
        !admits(t, s),
    ensures
        discovered(t, seen, s) == seen.insert(closure(t, s)),
{
    let d = seen.insert(closure(t, s));
    lemma_recorded_row(t, s, closure(t, s));
    assert(explores(t, seen, s, d));
    lemma_discovered_unique(t, seen, s, d);
}

/// The closure of a set holds members of the set and labels that the
/// table mentions.
pub proof fn lemma_closure_within(t: Moves, s: Set<Label>)
    ensures
        powerset(universe(t).union(s)).contains(closure(t, s)),
{
    lemma_universe(t);
    lemma_closure_least(t, s, universe(t).union(s));
}

} // verus!
