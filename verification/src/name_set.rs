//! A set of names, kept in the order of the names.

use vstd::prelude::*;
use crate::name_map::{strictly_ascending, NameMap};
use crate::names::NameView;

verus! {

/// A set of names, walked in ascending order.
#[derive(Debug, PartialEq, Eq)]
pub struct NameSet {
    members: NameMap<()>,
}

impl View for NameSet {
    type V = Set<NameView>;

    closed spec fn view(&self) -> Set<NameView> {
        self.members@.dom()
    }
}

impl NameSet {
    /// The names of the set in ascending order.
    pub closed spec fn names(&self) -> Seq<NameView> {
        self.members.keys()
    }

    /// What holds of every set: the names ascend strictly and are the
    /// members, which are finitely many.
    pub open spec fn wf(&self) -> bool {
        &&& strictly_ascending(self.names())
        &&& self@ =~= self.names().to_set()
        &&& self@.finite()
        &&& self@.len() == self.names().len()
    }

    /// The empty set.
    pub fn new() -> (s: Self)
        ensures
            s@ == Set::<NameView>::empty(),
            s.wf(),
    {
        let s = NameSet { members: NameMap::new() };
        proof {
            assert(s@ =~= Set::<NameView>::empty());
        }
        s
    }

    /// The number of names.
    pub fn len(&self) -> (n: usize)
        ensures
            n == self.names().len(),
            n == self@.len(),
            self.wf(),
    {
        self.members.len()
    }

    /// Whether the set has no name.
    pub fn is_empty(&self) -> (r: bool)
        ensures
            r == (self@ =~= Set::<NameView>::empty()),
            r == (self.names().len() == 0),
            self.wf(),
    {
        self.members.is_empty()
    }

    /// Whether `name` is in the set.
    pub fn contains(&self, name: &str) -> (r: bool)
        ensures
            r == self@.contains(name@),
            self.wf(),
    {
        self.members.contains_key(name)
    }

    /// The name at index `i` of the ascending order.
    pub fn name_at(&self, i: usize) -> (r: &String)
        requires
            i < self.names().len(),
        ensures
            r@ == self.names()[i as int],
            self@.contains(r@),
            self.wf(),
    {
        self.members.key_at(i)
    }

    /// Adds `name`. Returns whether it was new.
    pub fn insert(&mut self, name: String) -> (added: bool)
        ensures
            final(self)@ == old(self)@.insert(name@),
            added == !old(self)@.contains(name@),
            final(self).wf(),
    {
        let previous = self.members.insert(name, ());
        proof {
            assert(self@ =~= old(self)@.insert(name@));
        }
        previous.is_none()
    }

    /// Takes `name` out. Returns whether it was in the set.
    pub fn remove(&mut self, name: &str) -> (removed: bool)
        ensures
            final(self)@ == old(self)@.remove(name@),
            removed == old(self)@.contains(name@),
            final(self).wf(),
    {
        let previous = self.members.remove(name);
        proof {
            assert(self@ =~= old(self)@.remove(name@));
        }
        previous.is_some()
    }

    /// A set with the same names.
    pub fn duplicate(&self) -> (s: Self)
        ensures
            s@ == self@,
            s.wf(),
    {
        let mut s = NameSet::new();
        let n = self.len();
        let mut i: usize = 0;
        while i < n
            invariant
                i <= n,
                n == self.names().len(),
                self.wf(),
                s.wf(),
                s@ =~= self.names().take(i as int).to_set(),
            decreases n - i,
        {
            let name = self.name_at(i).clone();
            s.insert(name);
            proof {
                assert(self.names().take(i as int + 1) =~= self.names().take(i as int).push(
                    self.names()[i as int],
                ));
                lemma_to_set_push(self.names().take(i as int), self.names()[i as int]);
            }
            i += 1;
        }
        proof {
            assert(self.names().take(n as int) =~= self.names());
        }
        s
    }

    /// Adds the names of `other`.
    pub fn extend(&mut self, other: &NameSet)
        ensures
            final(self)@ == old(self)@.union(other@),
            final(self).wf(),
    {
        let n = other.len();
        let mut i: usize = 0;
        proof {
            assert(other.names().take(0) =~= Seq::<NameView>::empty());
            assert(self@ =~= old(self)@.union(other.names().take(0).to_set()));
        }
        while i < n
            invariant
                i <= n,
                n == other.names().len(),
                other.wf(),
                self@ == old(self)@.union(other.names().take(i as int).to_set()),
            decreases n - i,
        {
            self.insert(other.name_at(i).clone());
            proof {
                assert(other.names().take(i as int + 1) =~= other.names().take(i as int).push(
                    other.names()[i as int],
                ));
                lemma_to_set_push(other.names().take(i as int), other.names()[i as int]);
                assert(self@ =~= old(self)@.union(other.names().take(i as int + 1).to_set()));
            }
            i += 1;
        }
        proof {
            assert(other.names().take(n as int) =~= other.names());
        }
        let n = self.len();
    }

    /// The names that are in both sets.
    pub fn intersection(&self, other: &NameSet) -> (both: NameSet)
        ensures
            both@ == self@.intersect(other@),
            both.wf(),
    {
        let mut both = NameSet::new();
        let n = self.len();
        let mut i: usize = 0;
        proof {
            assert(self.names().take(0) =~= Seq::<NameView>::empty());
            assert(both@ =~= self.names().take(0).to_set().intersect(other@));
        }
        while i < n
            invariant
                i <= n,
                n == self.names().len(),
                self.wf(),
                both.wf(),
                both@ == self.names().take(i as int).to_set().intersect(other@),
            decreases n - i,
        {
            let name = self.name_at(i);
            if other.contains(name.as_str()) {
                both.insert(name.clone());
            }
            proof {
                assert(self.names().take(i as int + 1) =~= self.names().take(i as int).push(
                    self.names()[i as int],
                ));
                lemma_to_set_push(self.names().take(i as int), self.names()[i as int]);
                assert(both@ =~= self.names().take(i as int + 1).to_set().intersect(other@));
            }
            i += 1;
        }
        proof {
            assert(self.names().take(n as int) =~= self.names());
        }
        both
    }

    /// The names of the set that are not in `other`.
    pub fn difference(&self, other: &NameSet) -> (rest: NameSet)
        ensures
            rest@ == self@.difference(other@),
            rest.wf(),
    {
        let mut rest = NameSet::new();
        let n = self.len();
        let mut i: usize = 0;
        proof {
            assert(self.names().take(0) =~= Seq::<NameView>::empty());
            assert(rest@ =~= self.names().take(0).to_set().difference(other@));
        }
        while i < n
            invariant
                i <= n,
                n == self.names().len(),
                self.wf(),
                rest.wf(),
                rest@ == self.names().take(i as int).to_set().difference(other@),
            decreases n - i,
        {
            let name = self.name_at(i);
            if !other.contains(name.as_str()) {
                rest.insert(name.clone());
            }
            proof {
                assert(self.names().take(i as int + 1) =~= self.names().take(i as int).push(
                    self.names()[i as int],
                ));
                lemma_to_set_push(self.names().take(i as int), self.names()[i as int]);
                assert(rest@ =~= self.names().take(i as int + 1).to_set().difference(other@));
            }
            i += 1;
        }
        proof {
            assert(self.names().take(n as int) =~= self.names());
        }
        rest
    }

    /// The set of the names that `names` holds.
    pub fn from_names(names: &Vec<String>) -> (s: Self)
        ensures
            s@ =~= names.deep_view().to_set(),
            s.wf(),
    {
        let mut s = NameSet::new();
        let mut i: usize = 0;
        while i < names.len()
            invariant
                i <= names.len(),
                s.wf(),
                s@ =~= names.deep_view().take(i as int).to_set(),
            decreases names.len() - i,
        {
            let name = names[i].clone();
            s.insert(name);
            proof {
                assert(names.deep_view()[i as int] == names[i as int]@);
                assert(names.deep_view().take(i as int + 1) =~= names.deep_view().take(i as int).push(
                    names[i as int]@,
                ));
                lemma_to_set_push(names.deep_view().take(i as int), names[i as int]@);
            }
            i += 1;
        }
        proof {
            assert(names.deep_view().take(names.len() as int) =~= names.deep_view());
        }
        s
    }

    /// The names in ascending order.
    pub fn to_vec(&self) -> (names: Vec<String>)
        ensures
            names.deep_view() == self.names(),
            self.wf(),
    {
        let mut out: Vec<String> = Vec::new();
        let n = self.len();
        let mut i: usize = 0;
        while i < n
            invariant
                i <= n,
                n == self.names().len(),
                self.wf(),
                out.deep_view() =~= self.names().take(i as int),
            decreases n - i,
        {
            let name = self.name_at(i).clone();
            let ghost before = out.deep_view();
            out.push(name);
            proof {
                assert(out.deep_view() =~= before.push(name@));
            }
            i += 1;
        }
        proof {
            assert(self.names().take(n as int) =~= self.names());
        }
        out
    }
}

/// The set of a sequence with one more element is the set of the sequence
/// with that element added.
pub proof fn lemma_to_set_push<A>(s: Seq<A>, a: A)
    ensures
        s.push(a).to_set() =~= s.to_set().insert(a),
{
    assert forall|x: A| s.push(a).to_set().contains(x) <==> s.to_set().insert(a).contains(x) by {
        if s.push(a).to_set().contains(x) {
            let i = choose|i: int| 0 <= i < s.push(a).len() && s.push(a)[i] == x;
            if i < s.len() {
                assert(s[i] == x);
            }
        }
        if s.to_set().contains(x) {
            let i = choose|i: int| 0 <= i < s.len() && s[i] == x;
            assert(s.push(a)[i] == x);
        }
        if x == a {
            assert(s.push(a)[s.len() as int] == a);
        }
    }
}

} // verus!
