//! State labels and their total order.
//!
//! A label is the sequence of characters of a state's name. Labels are
//! ordered lexicographically by code point, which is the order in which the
//! members of a state set are written into its composite label.

use vstd::prelude::*;
use vstd::std_specs::iter::IteratorSpec;

verus! {

/// The mathematical model of a state's name.
pub type Label = Seq<char>;

/// How one label stands to another in the lexicographic order.
#[derive(Clone, Copy, Debug, PartialEq, Eq, Structural)]
pub enum Rank {
    Before,
    Same,
    After,
}

/// `a` comes strictly before `b`: at the first position where the two differ
/// `a` has the smaller code point, or `a` is a proper prefix of `b`.
pub open spec fn precedes(a: Label, b: Label) -> bool
    decreases a.len(),
{
    if b.len() == 0 {
        false
    } else if a.len() == 0 {
        true
    } else if a[0] != b[0] {
        a[0] < b[0]
    } else {
        precedes(a.drop_first(), b.drop_first())
    }
}

/// The rank of `a` relative to `b`.
pub open spec fn rank_of(a: Label, b: Label) -> Rank {
    if a == b {
        Rank::Same
    } else if precedes(a, b) {
        Rank::Before
    } else {
        Rank::After
    }
}

/// No label comes before itself.
pub proof fn lemma_precedes_irreflexive(a: Label)
    ensures
        !precedes(a, a),
    decreases a.len(),
{
    if a.len() > 0 {
        lemma_precedes_irreflexive(a.drop_first());
    }
}

/// Of two different labels exactly one comes before the other.
pub proof fn lemma_precedes_total(a: Label, b: Label)
    ensures
        a != b ==> (precedes(a, b) <==> !precedes(b, a)),
        a == b ==> !precedes(a, b) && !precedes(b, a),
    decreases a.len(),
{
    lemma_precedes_irreflexive(a);
    if a.len() > 0 && b.len() > 0 {
        lemma_precedes_total(a.drop_first(), b.drop_first());
        if a[0] == b[0] {
            if a.drop_first() == b.drop_first() {
                assert(a =~= seq![a[0]] + a.drop_first());
                assert(b =~= seq![b[0]] + b.drop_first());
            }
        } else {
            assert(a[0] < b[0] || b[0] < a[0]);
        }
    } else if a.len() == 0 && b.len() == 0 {
        assert(a =~= b);
    }
}

/// The order is transitive.
pub proof fn lemma_precedes_transitive(a: Label, b: Label, c: Label)
    requires
        precedes(a, b),
        precedes(b, c),
    ensures
        precedes(a, c),
    decreases a.len(),
{
    if a.len() > 0 && a[0] == b[0] && b[0] == c[0] {
        lemma_precedes_transitive(a.drop_first(), b.drop_first(), c.drop_first());
    }
}

/// Compares two names character by character.
pub fn compare(a: &str, b: &str) -> (r: Rank)
    ensures
        r == rank_of(a@, b@),
{
    let mut rest_a = a.chars();
    let mut rest_b = b.chars();
    loop
        invariant
            rank_of(a@, b@) == rank_of(rest_a.remaining(), rest_b.remaining()),
            rest_a.decrease() is Some,
        decreases rest_a.decrease()->0,
    {
        let ghost ra = rest_a.remaining();
        let ghost rb = rest_b.remaining();
        match (rest_a.next(), rest_b.next()) {
            (Some(x), Some(y)) => {
                if x != y {
                    assert(ra != rb);
                    return if x < y {
                        Rank::Before
                    } else {
                        Rank::After
                    };
                }
                assert(ra.drop_first() == rb.drop_first() ==> ra == rb) by {
                    if ra.drop_first() == rb.drop_first() {
                        assert(ra =~= seq![x] + ra.drop_first());
                        assert(rb =~= seq![y] + rb.drop_first());
                    }
                }
            },
            (None, None) => {
                assert(ra =~= rb);
                return Rank::Same;
            },
            (None, Some(_)) => {
                return Rank::Before;
            },
            (Some(_), None) => {
                return Rank::After;
            },
        }
    }
}

/// The sequence `a` comes strictly before `b`: at the first position where
/// the two differ `a` has the label that comes first, or `a` is a proper
/// prefix of `b`.
pub open spec fn list_precedes(a: Seq<Label>, b: Seq<Label>) -> bool
    decreases a.len(),
{
    if b.len() == 0 {
        false
    } else if a.len() == 0 {
        true
    } else if a[0] != b[0] {
        precedes(a[0], b[0])
    } else {
        list_precedes(a.drop_first(), b.drop_first())
    }
}

/// No sequence comes before itself.
pub proof fn lemma_list_precedes_irreflexive(a: Seq<Label>)
    ensures
        !list_precedes(a, a),
    decreases a.len(),
{
    if a.len() > 0 {
        lemma_list_precedes_irreflexive(a.drop_first());
    }
}

/// Of two different sequences exactly one comes before the other.
pub proof fn lemma_list_precedes_total(a: Seq<Label>, b: Seq<Label>)
    ensures
        a != b ==> (list_precedes(a, b) <==> !list_precedes(b, a)),
    decreases a.len(),
{
    if a.len() > 0 && b.len() > 0 {
        lemma_list_precedes_total(a.drop_first(), b.drop_first());
        if a[0] == b[0] {
            if a.drop_first() == b.drop_first() {
                assert(a =~= seq![a[0]] + a.drop_first());
                assert(b =~= seq![b[0]] + b.drop_first());
            }
        } else {
            lemma_precedes_total(a[0], b[0]);
        }
    } else if a.len() == 0 && b.len() == 0 {
        assert(a =~= b);
    }
}

/// The order of sequences is transitive.
pub proof fn lemma_list_precedes_transitive(a: Seq<Label>, b: Seq<Label>, c: Seq<Label>)
    requires
        list_precedes(a, b),
        list_precedes(b, c),
    ensures
        list_precedes(a, c),
    decreases a.len(),
{
    if a.len() > 0 {
        if a[0] == b[0] && b[0] == c[0] {
            lemma_list_precedes_transitive(a.drop_first(), b.drop_first(), c.drop_first());
        } else if a[0] != b[0] && b[0] != c[0] {
            lemma_precedes_transitive(a[0], b[0], c[0]);
            lemma_precedes_irreflexive(a[0]);
        }
    }
}

/// The labels of a sequence of names, in the same order.
pub open spec fn names(v: Seq<String>) -> Seq<Label> {
    Seq::new(v.len(), |i: int| v[i]@)
}

/// Every element comes strictly before every later one.
pub open spec fn ascending(s: Seq<Label>) -> bool {
    forall|i: int, j: int| #![trigger s[i], s[j]] 0 <= i < j < s.len() ==> precedes(s[i], s[j])
}

/// An ascending sequence holds no label twice.
pub proof fn lemma_ascending_no_duplicates(s: Seq<Label>)
    requires
        ascending(s),
    ensures
        s.no_duplicates(),
{
    assert forall|i: int, j: int| 0 <= i < s.len() && 0 <= j < s.len() && i != j implies s[i]
        != s[j] by {
        lemma_precedes_irreflexive(s[i]);
        if i < j {
            assert(precedes(s[i], s[j]));
        } else {
            assert(precedes(s[j], s[i]));
        }
    }
}

/// Two ascending sequences with the same elements are the same sequence:
/// in which order the elements were gathered leaves no trace.
pub proof fn lemma_ascending_unique(a: Seq<Label>, b: Seq<Label>)
    requires
        ascending(a),
        ascending(b),
        a.to_set() == b.to_set(),
    ensures
        a == b,
    decreases a.len(),
{
    lemma_ascending_no_duplicates(a);
    lemma_ascending_no_duplicates(b);
    a.unique_seq_to_set();
    b.unique_seq_to_set();
    assert(a.len() == b.len());
    if a.len() > 0 {
        let n = a.len() - 1;
        // The last element of each is the greatest member of the common set.
        assert(a.to_set().contains(a[n]));
        assert(b.to_set().contains(a[n]));
        let k = choose|k: int| 0 <= k < b.len() && b[k] == a[n];
        assert(b.to_set().contains(b[n]));
        assert(a.to_set().contains(b[n]));
        let l = choose|l: int| 0 <= l < a.len() && a[l] == b[n];
        if k < n {
            assert(precedes(b[k], b[n]));
            if l < n {
                assert(precedes(a[l], a[n]));
                lemma_precedes_total(a[n], b[n]);
            }
        }
        assert(a[n] == b[n]);
        let a1 = a.drop_last();
        let b1 = b.drop_last();
        assert(ascending(a1));
        assert(ascending(b1));
        assert forall|x: Label| a1.to_set().contains(x) <==> b1.to_set().contains(x) by {
            if a1.to_set().contains(x) {
                let i = choose|i: int| 0 <= i < a1.len() && a1[i] == x;
                assert(a[i] == x);
                assert(a.to_set().contains(x));
                assert(b.to_set().contains(x));
                let j = choose|j: int| 0 <= j < b.len() && b[j] == x;
                assert(j != n);
                assert(b1[j] == x);
            }
            if b1.to_set().contains(x) {
                let i = choose|i: int| 0 <= i < b1.len() && b1[i] == x;
                assert(b[i] == x);
                assert(b.to_set().contains(x));
                assert(a.to_set().contains(x));
                let j = choose|j: int| 0 <= j < a.len() && a[j] == x;
                assert(j != n);
                assert(a1[j] == x);
            }
        }
        assert(a1.to_set() =~= b1.to_set());
        lemma_ascending_unique(a1, b1);
        assert(a =~= a1.push(a[n]));
        assert(b =~= b1.push(b[n]));
    } else {
        assert(a =~= b);
    }
}

} // verus!
