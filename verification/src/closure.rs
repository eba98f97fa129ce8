//! Facts about the closure under spontaneous moves and about the labels
//! that a table of moves mentions.

use vstd::prelude::*;
use crate::label::Label;
use crate::model::{Symbol, EPSILON, Moves, Row, targets, eps_closed, closure, extends, extension};
use crate::nfa::finite_moves;

verus! {

/// The states that the entries of a row lead to.
pub open spec fn row_targets(row: Row) -> Set<Label> {
    row.dom().map(|c: Symbol| row[c]).flatten()
}

/// The labels that a table mentions: those that have an entry and those
/// that some entry leads to.
pub open spec fn universe(t: Moves) -> Set<Label> {
    t.dom().union(t.dom().map(|p: Label| row_targets(t[p])).flatten())
}

/// The universe of a table holds its keys and every target, and is finite
/// where the table is.
pub proof fn lemma_universe(t: Moves)
    ensures
        forall|p: Label| #[trigger] t.contains_key(p) ==> universe(t).contains(p),
        forall|p: Label, c: Symbol, q: Label| #[trigger]
            targets(t, p, c).contains(q) ==> universe(t).contains(q),
        finite_moves(t) ==> universe(t).finite(),
{
    assert forall|p: Label, c: Symbol, q: Label| #[trigger]
        targets(t, p, c).contains(q) implies universe(t).contains(q) by {
        let row = t[p];
        let f = |c: Symbol| row[c];
        assert(row.dom().contains(c));
        assert(row.dom().map(f).contains(f(c)));
        assert(row_targets(row).contains(q));
        let g = |p: Label| row_targets(t[p]);
        assert(t.dom().contains(p));
        assert(t.dom().map(g).contains(g(p)));
    }
    if finite_moves(t) {
        let g = |p: Label| row_targets(t[p]);
        t.dom().lemma_map_finite(g);
        assert forall|s: Set<Label>| t.dom().map(g).contains(s) implies #[trigger] s.finite() by {
            let p = choose|p: Label| t.dom().contains(p) && s == g(p);
            let row = t[p];
            assert(t.contains_key(p));
            let f = |c: Symbol| row[c];
            row.dom().lemma_map_finite(f);
            assert forall|u: Set<Label>| row.dom().map(f).contains(u) implies #[trigger]
                u.finite() by {
                let c = choose|c: Symbol| row.dom().contains(c) && u == f(c);
                assert(row.contains_key(c));
            }
            row.dom().map(f).lemma_flatten_finite();
        }
        t.dom().map(g).lemma_flatten_finite();
        vstd::set_lib::lemma_set_union_finite_iff(t.dom(), t.dom().map(g).flatten());
    }
}

/// The closure of a set holds the set and is closed.
pub proof fn lemma_closure_closed(t: Moves, s: Set<Label>)
    ensures
        s.subset_of(closure(t, s)),
        eps_closed(t, closure(t, s)),
{
    let c = closure(t, s);
    assert forall|p: Label, q: Label|
        c.contains(p) && #[trigger] targets(t, p, EPSILON).contains(q) implies c.contains(q) by {
        assert forall|x: Set<Label>|
            s.subset_of(x) && #[trigger] eps_closed(t, x) implies x.contains(q) by {
            assert(x.contains(p));
        }
    }
}

/// The closure of a set lies in every closed set that holds the set.
pub proof fn lemma_closure_least(t: Moves, s: Set<Label>, x: Set<Label>)
    requires
        s.subset_of(x),
        eps_closed(t, x),
    ensures
        closure(t, s).subset_of(x),
{
}

/// A closed set is its own closure.
pub proof fn lemma_closure_of_closed(t: Moves, s: Set<Label>)
    requires
        eps_closed(t, s),
    ensures
        closure(t, s) == s,
{
    lemma_closure_closed(t, s);
    lemma_closure_least(t, s, s);
    assert(closure(t, s) =~= s);
}

/// A larger set has a larger closure.
pub proof fn lemma_closure_monotone(t: Moves, a: Set<Label>, b: Set<Label>)
    requires
        a.subset_of(b),
    ensures
        closure(t, a).subset_of(closure(t, b)),
{
    lemma_closure_closed(t, b);
    lemma_closure_least(t, a, closure(t, b));
}

/// The closure of a set of mentioned labels holds mentioned labels only.
pub proof fn lemma_closure_in_universe(t: Moves, s: Set<Label>)
    requires
        s.subset_of(universe(t)),
    ensures
        closure(t, s).subset_of(universe(t)),
{
    lemma_universe(t);
    lemma_closure_least(t, s, universe(t));
}

/// The extension of a set from a root extends the set from that root.
pub proof fn lemma_extension_extends(t: Moves, seen: Set<Label>, root: Label)
    ensures
        extends(t, seen, root, extension(t, seen, root)),
{
    let e = extension(t, seen, root);
    assert forall|p: Label, q: Label|
        e.contains(p) && !seen.contains(p) && #[trigger] targets(t, p, EPSILON).contains(
            q,
        ) implies e.contains(q) by {
        assert forall|x: Set<Label>| #[trigger] extends(t, seen, root, x) implies x.contains(q) by {
            assert(x.contains(p));
        }
    }
    assert forall|q: Label| targets(t, root, EPSILON).contains(q) implies e.contains(q) by {
        assert forall|x: Set<Label>| #[trigger] extends(t, seen, root, x) implies x.contains(q) by {
            assert(targets(t, root, EPSILON).subset_of(x));
        }
    }
    assert forall|q: Label| seen.contains(q) implies e.contains(q) by {
        assert forall|x: Set<Label>| #[trigger] extends(t, seen, root, x) implies x.contains(q) by {
            assert(seen.subset_of(x));
        }
    }
}

/// A set that extends `seen` from `root` and lies in every set that does so
/// is the extension.
pub proof fn lemma_extension_unique(t: Moves, seen: Set<Label>, root: Label, e: Set<Label>)
    requires
        extends(t, seen, root, e),
        forall|x: Set<Label>| #[trigger] extends(t, seen, root, x) ==> e.subset_of(x),
    ensures
        e == extension(t, seen, root),
{
    lemma_extension_extends(t, seen, root);
    assert(e =~= extension(t, seen, root));
}

/// A root without spontaneous moves adds nothing.
pub proof fn lemma_extension_idle(t: Moves, seen: Set<Label>, root: Label)
    requires
        targets(t, root, EPSILON) =~= Set::<Label>::empty(),
    ensures
        extension(t, seen, root) == seen,
{
    assert(extends(t, seen, root, seen));
    lemma_extension_extends(t, seen, root);
    assert(extension(t, seen, root) =~= seen);
}

/// A search from a root that is the one state seen finds the closure of
/// the root.
pub proof fn lemma_extension_of_root(t: Moves, root: Label)
    ensures
        extension(t, set![root], root) == closure(t, set![root]),
{
    let seen = set![root];
    let e = extension(t, seen, root);
    let c = closure(t, seen);
    lemma_extension_extends(t, seen, root);
    lemma_closure_closed(t, seen);
    assert(eps_closed(t, e)) by {
        assert forall|p: Label, q: Label|
            e.contains(p) && #[trigger] targets(t, p, EPSILON).contains(q) implies e.contains(
            q,
        ) by {
            if p == root {
                assert(targets(t, root, EPSILON).subset_of(e));
            }
        }
    }
    lemma_closure_least(t, seen, e);
    assert(c.contains(root));
    assert(extends(t, seen, root, c));
    assert(e =~= c);
}

} // verus!
