//! The subsets of a finite set.

use vstd::prelude::*;
use vstd::arithmetic::power2::{pow2, lemma_pow2_unfold, lemma2_to64};
use vstd::relations::injective_on;

verus! {

/// The family of all subsets of `u`.
pub open spec fn powerset<A>(u: Set<A>) -> Set<Set<A>> {
    Set::new(|s: Set<A>| s.subset_of(u))
}

/// A set of `n` elements has `2^n` subsets.
pub proof fn lemma_powerset<A>(u: Set<A>)
    requires
        u.finite(),
    ensures
        powerset(u).finite(),
        powerset(u).len() == pow2(u.len()),
    decreases u.len(),
{
    if u.len() == 0 {
        u.lemma_len0_is_empty();
        assert(powerset(u) =~= set![Set::<A>::empty()]) by {
            assert forall|s: Set<A>| powerset(u).contains(s) implies s == Set::<A>::empty() by {
                assert(s =~= Set::<A>::empty());
            }
        }
        lemma2_to64();
    } else {
        let x = u.choose();
        let v = u.remove(x);
        lemma_powerset(v);
        let a = powerset(v);
        let f = |s: Set<A>| s.insert(x);
        let b = a.map(f);
        assert(injective_on(f, a)) by {
            assert forall|s1: Set<A>, s2: Set<A>|
                a.contains(s1) && a.contains(s2) && #[trigger] f(s1) == #[trigger] f(
                    s2,
                ) implies s1 == s2 by {
                assert(s1 =~= s1.insert(x).remove(x));
                assert(s2 =~= s2.insert(x).remove(x));
            }
        }
        vstd::set_lib::lemma_map_size(a, b, f);
        assert(a.disjoint(b)) by {
            assert forall|s: Set<A>| a.contains(s) implies !b.contains(s) by {
                if b.contains(s) {
                    let s0 = choose|s0: Set<A>| a.contains(s0) && s == f(s0);
                    assert(s.contains(x));
                }
            }
        }
        assert(powerset(u) =~= a.union(b)) by {
            assert forall|s: Set<A>| powerset(u).contains(s) implies a.union(b).contains(s) by {
                if s.contains(x) {
                    let s0 = s.remove(x);
                    assert(a.contains(s0));
                    assert(s =~= f(s0));
                    assert(b.contains(s));
                } else {
                    assert(a.contains(s));
                }
            }
            assert forall|s: Set<A>| a.union(b).contains(s) implies powerset(u).contains(s) by {
                if b.contains(s) {
                    let s0 = choose|s0: Set<A>| a.contains(s0) && s == f(s0);
                    assert(s.subset_of(u));
                }
            }
        }
        vstd::set_lib::lemma_set_union_finite_iff(a, b);
        vstd::set_lib::lemma_set_disjoint_lens(a, b);
        lemma_pow2_unfold(u.len());
    }
}

/// A family of subsets of a set of `n` elements has at most `2^n` members.
pub proof fn lemma_family_bounded<A>(family: Set<Set<A>>, u: Set<A>)
    requires
        u.finite(),
        family.subset_of(powerset(u)),
    ensures
        family.finite(),
        family.len() <= pow2(u.len()),
{
    lemma_powerset(u);
    vstd::set_lib::lemma_set_subset_finite(powerset(u), family);
    vstd::set_lib::lemma_len_subset(family, powerset(u));
}

} // verus!
