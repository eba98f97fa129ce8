//! Sets of states, kept in canonical form.
//!
//! A state set holds its members in ascending order and none of them twice,
//! so that two state sets with the same members are the same value, and the
//! composite label of a set depends on its membership alone.

use vstd::prelude::*;
use crate::label::{
    Label,
    Rank,
    compare,
    precedes,
    list_precedes,
    names,
    ascending,
    lemma_precedes_irreflexive,
    lemma_precedes_total,
    lemma_precedes_transitive,
    lemma_ascending_no_duplicates,
    lemma_ascending_unique,
};
use crate::prefix::{lemma_take_next, lemma_take_ends};
use crate::table::{Item, Key};

verus! {

/// The name of a single state.
pub type State = String;

/// The character that separates the members in a composite label.
pub const SEPARATOR: char = ',';

/// The parts written one after another, with a separator between neighbours.
pub open spec fn join(parts: Seq<Label>) -> Label
    decreases parts.len(),
{
    if parts.len() == 0 {
        Seq::empty()
    } else if parts.len() == 1 {
        parts[0]
    } else {
        join(parts.drop_last()) + seq![SEPARATOR] + parts.last()
    }
}

/// The members of a finite set of labels in ascending order.
pub open spec fn sorted_members(s: Set<Label>) -> Seq<Label> {
    choose|m: Seq<Label>| ascending(m) && m.to_set() == s
}

/// The composite label of a set of states: its members in ascending order,
/// joined by the separator.
pub open spec fn canonical_label(s: Set<Label>) -> Label {
    join(sorted_members(s))
}

/// The set `a` comes strictly before `b`: their members in ascending order
/// are compared label by label.
pub open spec fn set_precedes(a: Set<Label>, b: Set<Label>) -> bool {
    list_precedes(sorted_members(a), sorted_members(b))
}

/// A set of states in canonical form.
pub struct StateSet {
    labels: Vec<String>,
}

impl View for StateSet {
    type V = Set<Label>;

    open spec fn view(&self) -> Set<Label> {
        self.members().to_set()
    }
}

impl StateSet {
    /// The members in the order in which they are held.
    pub closed spec fn members(&self) -> Seq<Label> {
        names(self.labels@)
    }

    /// The members of a well-formed set are its view in ascending order,
    /// and the view is finite.
    pub proof fn lemma_members(&self)
        requires
            self.wf(),
        ensures
            sorted_members(self@) == self.members(),
            self@.finite(),
            self@.len() == self.members().len(),
            self.members().no_duplicates(),
    {
        let m = self.members();
        let c = sorted_members(self@);
        assert(ascending(m) && m.to_set() == self@);
        lemma_ascending_unique(m, c);
        lemma_ascending_no_duplicates(m);
        m.unique_seq_to_set();
        vstd::seq_lib::seq_to_set_is_finite(m);
    }

    /// The empty set.
    pub fn new() -> (r: StateSet)
        ensures
            r.wf(),
            r@ == Set::<Label>::empty(),
            r.members() == Seq::<Label>::empty(),
    {
        let r = StateSet { labels: Vec::new() };
        proof {
            assert(r.members() =~= Seq::<Label>::empty());
            assert(r@ =~= Set::<Label>::empty());
        }
        r
    }

    /// The number of members.
    pub fn len(&self) -> (n: usize)
        ensures
            n == self.members().len(),
    {
        self.labels.len()
    }

    /// The member at position `i` of the ascending order.
    pub fn get(&self, i: usize) -> (r: &String)
        requires
            i < self.members().len(),
        ensures
            r@ == self.members()[i as int],
    {
        &self.labels[i]
    }

    /// Whether `label` is a member.
    pub fn contains(&self, label: &str) -> (r: bool)
        ensures
            r == self@.contains(label@),
    {
        let n: usize = self.labels.len();
        let mut i: usize = 0;
        while i < n
            invariant
                i <= n,
                n == self.labels.len(),
                forall|k: int| 0 <= k < i ==> self.members()[k] != label@,
            decreases n - i,
        {
            match compare(self.labels[i].as_str(), label) {
                Rank::Same => {
                    proof {
                        assert(self.members()[i as int] == label@);
                    }
                    return true;
                },
                _ => {},
            }
            i += 1;
        }
        false
    }

    /// Adds `label` to the set. Returns whether it was new.
    pub fn insert(&mut self, label: String) -> (added: bool)
        requires
            old(self).wf(),
        ensures
            final(self).wf(),
            final(self)@ == old(self)@.insert(label@),
            added == !old(self)@.contains(label@),
    {
        let n: usize = self.labels.len();
        let mut i: usize = 0;
        while i < n
            invariant
                i <= n,
                n == self.labels.len(),
                *self == *old(self),
                self.wf(),
                forall|k: int| 0 <= k < i ==> precedes(self.members()[k], label@),
            ensures
                i < n ==> precedes(label@, self.members()[i as int]),
            decreases n - i,
        {
            match compare(self.labels[i].as_str(), label.as_str()) {
                Rank::Before => {},
                Rank::Same => {
                    proof {
                        assert(self.members()[i as int] == label@);
                        assert(self@ =~= self@.insert(label@));
                    }
                    return false;
                },
                Rank::After => {
                    proof {
                        lemma_precedes_total(self.members()[i as int], label@);
                    }
                    break ;
                },
            }
            i += 1;
        }
        proof {
            let m = self.members();
            assert forall|k: int| i <= k < n implies precedes(label@, #[trigger] m[k]) by {
                if k > i {
                    assert(precedes(m[i as int], m[k]));
                    lemma_precedes_transitive(label@, m[i as int], m[k]);
                }
            }
            assert forall|k: int| 0 <= k < n implies m[k] != label@ by {
                lemma_precedes_irreflexive(label@);
            }
        }
        let ghost before = self.members();
        self.labels.insert(i, label);
        proof {
            let after = self.members();
            assert(after =~= before.insert(i as int, label@));
            assert forall|x: Label| self@.contains(x) <==> old(self)@.insert(label@).contains(
                x,
            ) by {
                if self@.contains(x) {
                    let k = choose|k: int| 0 <= k < after.len() && after[k] == x;
                    if k < i {
                        assert(before[k] == x);
                    } else if k > i {
                        assert(before[k - 1] == x);
                    }
                }
                if old(self)@.contains(x) {
                    let k = choose|k: int| 0 <= k < before.len() && before[k] == x;
                    if k < i {
                        assert(after[k] == x);
                    } else {
                        assert(after[k + 1] == x);
                    }
                }
                if x == label@ {
                    assert(after[i as int] == x);
                }
            }
            assert(self@ =~= old(self)@.insert(label@));
            assert forall|a: int, b: int| 0 <= a < b < after.len() implies precedes(
                after[a],
                after[b],
            ) by {
                let a0 = if a < i { a } else { a - 1 };
                let b0 = if b < i { b } else { b - 1 };
                if a != i && b != i {
                    assert(precedes(before[a0], before[b0]));
                }
            }
        }
        true
    }

    /// Adds every member of `other` to the set.
    pub fn union_with(&mut self, other: &StateSet)
        requires
            old(self).wf(),
            other.wf(),
        ensures
            final(self).wf(),
            final(self)@ == old(self)@.union(other@),
    {
        let n: usize = other.len();
        let mut i: usize = 0;
        proof {
            lemma_take_ends(other.members());
            assert(self@ =~= old(self)@.union(other.members().take(0).to_set()));
        }
        while i < n
            invariant
                i <= n,
                n == other.members().len(),
                self.wf(),
                self@ == old(self)@.union(other.members().take(i as int).to_set()),
            decreases n - i,
        {
            let label = other.get(i).clone();
            proof {
                let m = other.members();
                lemma_take_next(m, i as int);
                assert(self@.insert(label@) =~= old(self)@.union(m.take(i + 1).to_set()));
            }
            self.insert(label);
            i += 1;
        }
        proof {
            lemma_take_ends(other.members());
        }
    }

    /// Whether this set comes strictly before `other` in the order of state
    /// sets.
    pub fn comes_before(&self, other: &StateSet) -> (r: bool)
        requires
            self.wf(),
            other.wf(),
        ensures
            r == set_precedes(self@, other@),
    {
        let ghost a = self.members();
        let ghost b = other.members();
        let n: usize = self.labels.len();
        let m: usize = other.labels.len();
        let mut i: usize = 0;
        proof {
            self.lemma_members();
            other.lemma_members();
            assert(a.skip(0) =~= a);
            assert(b.skip(0) =~= b);
        }
        while i < n && i < m
            invariant
                i <= n,
                i <= m,
                n == a.len(),
                m == b.len(),
                n == self.labels.len(),
                m == other.labels.len(),
                a == self.members(),
                b == other.members(),
                a == sorted_members(self@),
                b == sorted_members(other@),
                list_precedes(a, b) == list_precedes(a.skip(i as int), b.skip(i as int)),
            decreases n - i,
        {
            proof {
                assert(a.skip(i as int).drop_first() =~= a.skip(i + 1));
                assert(b.skip(i as int).drop_first() =~= b.skip(i + 1));
                assert(a.skip(i as int)[0] == a[i as int]);
                assert(b.skip(i as int)[0] == b[i as int]);
                lemma_precedes_total(a[i as int], b[i as int]);
            }
            match compare(self.labels[i].as_str(), other.labels[i].as_str()) {
                Rank::Before => {
                    return true;
                },
                Rank::After => {
                    return false;
                },
                Rank::Same => {},
            }
            i += 1;
        }
        n < m
    }

    /// Whether some member of `other` is a member of this set.
    pub fn intersects(&self, other: &StateSet) -> (r: bool)
        ensures
            r == exists|f: Label| #[trigger] other@.contains(f) && self@.contains(f),
    {
        let n: usize = other.len();
        let mut i: usize = 0;
        while i < n
            invariant
                i <= n,
                n == other.members().len(),
                forall|k: int| 0 <= k < i ==> !self@.contains(#[trigger] other.members()[k]),
            decreases n - i,
        {
            if self.contains(other.get(i).as_str()) {
                proof {
                    assert(other@.contains(other.members()[i as int]));
                }
                return true;
            }
            i += 1;
        }
        proof {
            assert forall|f: Label| #[trigger] other@.contains(f) implies !self@.contains(f) by {
                let k = choose|k: int| 0 <= k < other.members().len() && other.members()[k] == f;
                assert(!self@.contains(other.members()[k]));
            }
        }
        false
    }

    /// The composite label of the set.
    pub fn to_state(&self) -> (label: State)
        requires
            self.wf(),
        ensures
            label@ == canonical_label(self@),
    {
        let mut label = String::new();
        let n: usize = self.labels.len();
        let mut i: usize = 0;
        proof {
            lemma_take_ends(self.members());
        }
        while i < n
            invariant
                i <= n,
                n == self.labels.len(),
                n == self.members().len(),
                label@ == join(self.members().take(i as int)),
            decreases n - i,
        {
            proof {
                let m = self.members();
                assert(m.take(i + 1).drop_last() =~= m.take(i as int));
                assert(m.take(i + 1).last() == m[i as int]);
                reveal_strlit(",");
                assert(","@ =~= seq![SEPARATOR]);
                if i == 0 {
                    assert(label@ =~= Seq::<char>::empty());
                    assert(label@ + m[i as int] =~= join(m.take(i + 1)));
                } else {
                    assert(label@ + ","@ + m[i as int] =~= join(m.take(i + 1)));
                }
            }
            if i > 0 {
                label.append(",");
            }
            label.append(self.labels[i].as_str());
            i += 1;
        }
        proof {
            lemma_take_ends(self.members());
            self.lemma_members();
        }
        label
    }
}

impl Item for StateSet {
    /// The members are held in ascending order.
    open spec fn wf(&self) -> bool {
        ascending(self.members())
    }

    open spec fn is_model(m: Set<Label>) -> bool {
        m.finite()
    }

    proof fn lemma_model(&self) {
        self.lemma_members();
    }

    fn duplicate(&self) -> (r: Self) {
        let mut labels: Vec<String> = Vec::new();
        let n: usize = self.labels.len();
        let mut i: usize = 0;
        while i < n
            invariant
                i <= n,
                n == self.labels.len(),
                labels.len() == i,
                forall|k: int| 0 <= k < i ==> labels@[k]@ == self.labels@[k]@,
            decreases n - i,
        {
            labels.push(self.labels[i].clone());
            i += 1;
        }
        let r = StateSet { labels };
        proof {
            assert(r.members() =~= self.members());
        }
        r
    }
}

impl Key for StateSet {
    fn matches(&self, other: &Self) -> (r: bool) {
        proof {
            self.lemma_members();
            other.lemma_members();
        }
        if self.labels.len() != other.labels.len() {
            return false;
        }
        let n: usize = self.labels.len();
        let mut i: usize = 0;
        while i < n
            invariant
                i <= n,
                n == self.labels.len(),
                n == other.labels.len(),
                self.wf(),
                other.wf(),
                forall|k: int| 0 <= k < i ==> self.members()[k] == other.members()[k],
            decreases n - i,
        {
            if self.labels[i] != other.labels[i] {
                proof {
                    assert(self.members()[i as int] != other.members()[i as int]);
                    if self@ == other@ {
                        lemma_ascending_unique(self.members(), other.members());
                    }
                }
                return false;
            }
            i += 1;
        }
        proof {
            assert(self.members() =~= other.members());
        }
        true
    }
}

/// The set whose one member is `state`.
pub fn to_multi_state(state: &State) -> (r: StateSet)
    ensures
        r.wf(),
        r@ == set![state@],
{
    let mut r = StateSet::new();
    r.insert(state.clone());
    proof {
        assert(r@ =~= set![state@]);
    }
    r
}

} // verus!
