//! Facts about composite labels.
//!
//! The composite label of a state set depends on its members alone, and
//! state sets of plain labels, which are not empty and hold no separator,
//! have different composite labels whenever they differ.

use vstd::prelude::*;
use crate::label::{
    Label,
    precedes,
    ascending,
    lemma_precedes_total,
    lemma_precedes_transitive,
    lemma_ascending_unique,
};
use crate::state_set::{SEPARATOR, StateSet, join, sorted_members, canonical_label};
use crate::table::Item;

verus! {

/// A label that is not empty and holds no separator.
pub open spec fn plain(l: Label) -> bool {
    l.len() > 0 && forall|i: int| 0 <= i < l.len() ==> l[i] != SEPARATOR
}

/// Every element is plain.
pub open spec fn all_plain(parts: Seq<Label>) -> bool {
    forall|i: int| 0 <= i < parts.len() ==> plain(#[trigger] parts[i])
}

/// Two valid state sets with the same members hold them in the same order
/// and have the same composite label, in whatever order the members were
/// inserted.
pub proof fn lemma_canonical_form(a: StateSet, b: StateSet)
    requires
        a.wf(),
        b.wf(),
        a@ == b@,
    ensures
        a.members() == b.members(),
        canonical_label(a@) == join(a.members()),
        canonical_label(a@) == canonical_label(b@),
{
    a.lemma_members();
    b.lemma_members();
}

/// An ascending sequence with one more element in its place.
pub open spec fn placed(m: Seq<Label>, x: Label) -> Seq<Label>
    decreases m.len(),
{
    if m.len() == 0 {
        seq![x]
    } else if precedes(m.last(), x) {
        m.push(x)
    } else if m.last() == x {
        m
    } else {
        placed(m.drop_last(), x).push(m.last())
    }
}

/// Placing an element keeps the sequence ascending and adds the element to
/// its members.
pub proof fn lemma_placed(m: Seq<Label>, x: Label)
    requires
        ascending(m),
    ensures
        ascending(placed(m, x)),
        placed(m, x).to_set() == m.to_set().insert(x),
        placed(m, x).len() > 0,
        m.len() > 0 && !precedes(m.last(), x) ==> placed(m, x).last() == m.last(),
        m.len() == 0 || precedes(m.last(), x) ==> placed(m, x).last() == x,
    decreases m.len(),
{
    let r = placed(m, x);
    if m.len() == 0 {
        assert(r.to_set() =~= m.to_set().insert(x)) by {
            assert(r[0] == x);
            assert forall|y: Label| r.to_set().contains(y) implies y == x by {
                let i = choose|i: int| 0 <= i < r.len() && r[i] == y;
            }
        }
    } else if precedes(m.last(), x) {
        m.lemma_push_to_set_commute(x);
        assert forall|i: int, j: int| 0 <= i < j < r.len() implies precedes(r[i], r[j]) by {
            if j == m.len() {
                if i < m.len() - 1 {
                    assert(precedes(m[i], m[m.len() - 1]));
                    lemma_precedes_transitive(m[i], m.last(), x);
                }
            } else {
                assert(precedes(m[i], m[j]));
            }
        }
    } else if m.last() == x {
        assert(m.to_set().contains(m[m.len() - 1]));
        assert(m.to_set() =~= m.to_set().insert(x));
    } else {
        let init = m.drop_last();
        let z = m.last();
        lemma_precedes_total(z, x);
        assert(precedes(x, z));
        assert(ascending(init)) by {
            assert forall|i: int, j: int| 0 <= i < j < init.len() implies precedes(
                init[i],
                init[j],
            ) by {
                assert(precedes(m[i], m[j]));
            }
        }
        lemma_placed(init, x);
        let p = placed(init, x);
        assert(r == p.push(z));
        assert(precedes(p.last(), z)) by {
            if init.len() > 0 && !precedes(init.last(), x) {
                assert(p.last() == init.last());
                assert(precedes(m[m.len() - 2], m[m.len() - 1]));
            }
        }
        assert forall|i: int, j: int| 0 <= i < j < r.len() implies precedes(r[i], r[j]) by {
            if j == p.len() {
                if i < p.len() - 1 {
                    assert(precedes(p[i], p[p.len() - 1]));
                    lemma_precedes_transitive(p[i], p.last(), z);
                }
            } else {
                assert(precedes(p[i], p[j]));
            }
        }
        p.lemma_push_to_set_commute(z);
        assert(m =~= init.push(z));
        init.lemma_push_to_set_commute(z);
        assert(r.to_set() =~= m.to_set().insert(x));
    }
}

/// Every finite set of labels has its members in ascending order.
pub proof fn lemma_sorted_members(s: Set<Label>)
    requires
        s.finite(),
    ensures
        ascending(sorted_members(s)),
        sorted_members(s).to_set() == s,
    decreases s.len(),
{
    if s.len() == 0 {
        s.lemma_len0_is_empty();
        let m = Seq::<Label>::empty();
        assert(ascending(m) && m.to_set() =~= s);
    } else {
        let x = s.choose();
        let rest = s.remove(x);
        lemma_sorted_members(rest);
        let m = sorted_members(rest);
        lemma_placed(m, x);
        assert(rest.insert(x) =~= s);
        assert(ascending(placed(m, x)) && placed(m, x).to_set() == s);
    }
}

/// The members of a set of one label are that label, and so is its
/// composite label.
pub proof fn lemma_label_of_single(q: Label)
    ensures
        sorted_members(set![q]) == seq![q],
        canonical_label(set![q]) == q,
{
    let m = seq![q];
    assert(m.to_set() =~= set![q]) by {
        assert(m[0] == q);
        assert forall|y: Label| m.to_set().contains(y) implies y == q by {
            let i = choose|i: int| 0 <= i < m.len() && m[i] == y;
        }
    }
    assert(ascending(m));
    lemma_sorted_members(set![q]);
    lemma_ascending_unique(m, sorted_members(set![q]));
}

/// Joined plain parts are not empty, and hold a separator where there are
/// two parts or more.
pub proof fn lemma_join_shape(parts: Seq<Label>)
    requires
        all_plain(parts),
        parts.len() > 0,
    ensures
        join(parts).len() > 0,
        parts.len() == 1 ==> plain(join(parts)),
        parts.len() >= 2 ==> exists|i: int|
            0 <= i < join(parts).len() && join(parts)[i] == SEPARATOR,
{
    assert(plain(parts[0]));
    if parts.len() >= 2 {
        let head = join(parts.drop_last());
        assert(plain(parts.last()));
        assert(join(parts)[head.len() as int] == SEPARATOR);
    }
}

/// Where two texts that each end in a separator and a plain part are the
/// same text, the parts are the same and so is what stands before them.
pub proof fn lemma_split_last(x: Seq<char>, u: Label, y: Seq<char>, v: Label)
    requires
        plain(u),
        plain(v),
        x + seq![SEPARATOR] + u == y + seq![SEPARATOR] + v,
    ensures
        x == y,
        u == v,
{
    let l = x + seq![SEPARATOR] + u;
    let r = y + seq![SEPARATOR] + v;
    assert(l.len() == x.len() + 1 + u.len());
    assert(r.len() == y.len() + 1 + v.len());
    if u.len() < v.len() {
        let i = x.len() as int;
        assert(l[i] == SEPARATOR);
        assert(r[i] == v[i - y.len() - 1]);
    } else if v.len() < u.len() {
        let i = y.len() as int;
        assert(r[i] == SEPARATOR);
        assert(l[i] == u[i - x.len() - 1]);
    }
    assert(x.len() == y.len());
    assert forall|i: int| 0 <= i < x.len() implies x[i] == y[i] by {
        assert(l[i] == x[i]);
        assert(r[i] == y[i]);
    }
    assert(x =~= y);
    assert forall|i: int| 0 <= i < u.len() implies u[i] == v[i] by {
        assert(l[x.len() + 1 + i] == u[i]);
        assert(r[y.len() + 1 + i] == v[i]);
    }
    assert(u =~= v);
}

/// Sequences of plain parts that join to the same text are the same.
pub proof fn lemma_join_injective(a: Seq<Label>, b: Seq<Label>)
    requires
        all_plain(a),
        all_plain(b),
        join(a) == join(b),
    ensures
        a == b,
    decreases a.len(),
{
    if a.len() == 0 || b.len() == 0 {
        if a.len() > 0 {
            lemma_join_shape(a);
        }
        if b.len() > 0 {
            lemma_join_shape(b);
        }
        assert(a =~= b);
    } else if a.len() == 1 || b.len() == 1 {
        lemma_join_shape(a);
        lemma_join_shape(b);
        assert(a.len() == 1 && b.len() == 1);
        assert(a =~= b);
    } else {
        let a1 = a.drop_last();
        let b1 = b.drop_last();
        assert(plain(a.last()));
        assert(plain(b.last()));
        lemma_split_last(join(a1), a.last(), join(b1), b.last());
        assert(all_plain(a1)) by {
            assert forall|i: int| 0 <= i < a1.len() implies plain(#[trigger] a1[i]) by {
                assert(a1[i] == a[i]);
            }
        }
        assert(all_plain(b1)) by {
            assert forall|i: int| 0 <= i < b1.len() implies plain(#[trigger] b1[i]) by {
                assert(b1[i] == b[i]);
            }
        }
        lemma_join_injective(a1, b1);
        assert(a =~= a1.push(a.last()));
        assert(b =~= b1.push(b.last()));
    }
}

/// Finite sets of plain labels with the same composite label are the same
/// set.
pub proof fn lemma_label_injective(a: Set<Label>, b: Set<Label>)
    requires
        a.finite(),
        b.finite(),
        forall|l: Label| a.contains(l) ==> plain(l),
        forall|l: Label| b.contains(l) ==> plain(l),
        canonical_label(a) == canonical_label(b),
    ensures
        a == b,
{
    lemma_sorted_members(a);
    lemma_sorted_members(b);
    let ma = sorted_members(a);
    let mb = sorted_members(b);
    assert(all_plain(ma)) by {
        assert forall|i: int| 0 <= i < ma.len() implies plain(#[trigger] ma[i]) by {
            assert(ma.to_set().contains(ma[i]));
        }
    }
    assert(all_plain(mb)) by {
        assert forall|i: int| 0 <= i < mb.len() implies plain(#[trigger] mb[i]) by {
            assert(mb.to_set().contains(mb[i]));
        }
    }
    lemma_join_injective(ma, mb);
}

} // verus!
