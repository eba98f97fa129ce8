//! Facts about the prefixes of a sequence, as loops over a sequence need
//! them.

use vstd::prelude::*;

verus! {

/// The first `i + 1` elements of a sequence are the first `i` and the one
/// at `i`.
pub proof fn lemma_take_next<A>(s: Seq<A>, i: int)
    requires
        0 <= i < s.len(),
    ensures
        s.take(i + 1) == s.take(i).push(s[i]),
        s.take(i + 1).to_set() == s.take(i).to_set().insert(s[i]),
        forall|x: A| s.take(i + 1).contains(x) <==> s.take(i).contains(x) || x == s[i],
        s.no_duplicates() ==> !s.take(i).contains(s[i]),
{
    assert(s.take(i + 1) =~= s.take(i).push(s[i]));
    s.take(i).lemma_push_to_set_commute(s[i]);
    assert forall|x: A| s.take(i + 1).contains(x) <==> s.take(i).contains(x) || x == s[i] by {
        if s.take(i).contains(x) {
            let b = choose|b: int| 0 <= b < s.take(i).len() && s.take(i)[b] == x;
            assert(s.take(i + 1)[b] == x);
        }
        if x == s[i] {
            assert(s.take(i + 1)[i] == x);
        }
    }
    if s.no_duplicates() && s.take(i).contains(s[i]) {
        let b = choose|b: int| 0 <= b < s.take(i).len() && s.take(i)[b] == s[i];
        assert(s[b] == s[i]);
    }
}

/// The first no elements of a sequence are none, and the first `len` are
/// the sequence.
pub proof fn lemma_take_ends<A>(s: Seq<A>)
    ensures
        s.take(0) == Seq::<A>::empty(),
        s.take(0).to_set() == Set::<A>::empty(),
        forall|x: A| !s.take(0).contains(x),
        s.take(s.len() as int) == s,
{
    assert(s.take(0) =~= Seq::<A>::empty());
    assert(s.take(0).to_set() =~= Set::<A>::empty());
    assert(s.take(s.len() as int) =~= s);
}

} // verus!
